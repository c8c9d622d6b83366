//! Character-level helpers on strings: views as `Seq<char>`, line splitting
//! and joining, blank detection and decimal rendering.

use vstd::prelude::*;

verus! {

/// The views of a sequence of strings.
pub open spec fn views(ls: Seq<String>) -> Seq<Seq<char>> {
    ls.map_values(|l: String| l@)
}

/// Unicode `White_Space`, the set that `char::is_whitespace` tests.
pub open spec fn is_white(c: char) -> bool {
    ||| ('\t' <= c && c <= '\r')
    ||| c == ' '
    ||| c == '\u{85}'
    ||| c == '\u{a0}'
    ||| c == '\u{1680}'
    ||| ('\u{2000}' <= c && c <= '\u{200a}')
    ||| c == '\u{2028}'
    ||| c == '\u{2029}'
    ||| c == '\u{202f}'
    ||| c == '\u{205f}'
    ||| c == '\u{3000}'
}

/// A text that trims to nothing: every character is white space.
pub open spec fn is_blank(s: Seq<char>) -> bool {
    forall|i: int| 0 <= i < s.len() ==> is_white(#[trigger] s[i])
}

/// Every line break replaced by a space.
pub open spec fn flatten(s: Seq<char>) -> Seq<char> {
    s.map_values(|c: char| if c == '\n' { ' ' } else { c })
}

/// The pieces of a text between line feeds: one more than there are line
/// feeds, the last one possibly empty.
pub open spec fn segments(s: Seq<char>) -> Seq<Seq<char>>
    decreases s.len(),
{
    if s.len() == 0 {
        seq![Seq::<char>::empty()]
    } else {
        let prev = segments(s.drop_last());
        if s.last() == '\n' {
            prev.push(Seq::<char>::empty())
        } else {
            prev.update(prev.len() - 1, prev.last().push(s.last()))
        }
    }
}

/// The lines of a text: its segments, without the empty one that a final
/// line feed (or an empty text) leaves.
pub open spec fn lines_of(s: Seq<char>) -> Seq<Seq<char>> {
    if s.len() == 0 || s.last() == '\n' {
        segments(s).drop_last()
    } else {
        segments(s)
    }
}

/// Lines joined with a line feed between each two.
pub open spec fn join_lines(ls: Seq<Seq<char>>) -> Seq<char>
    decreases ls.len(),
{
    if ls.len() == 0 {
        Seq::<char>::empty()
    } else if ls.len() == 1 {
        ls[0]
    } else {
        join_lines(ls.drop_last()) + seq!['\n'] + ls.last()
    }
}

/// A text without line feeds.
pub open spec fn single_line(s: Seq<char>) -> bool {
    forall|i: int| 0 <= i < s.len() ==> #[trigger] s[i] != '\n'
}

/// The decimal digit for `d < 10`.
pub open spec fn digit(d: nat) -> char {
    ((48 + d) as u8) as char
}

/// The decimal notation of a natural number, without leading zeros.
pub open spec fn decimal(n: nat) -> Seq<char>
    decreases n,
{
    if n < 10 {
        seq![digit(n)]
    } else {
        decimal(n / 10).push(digit(n % 10))
    }
}

pub proof fn lemma_segments_nonempty(s: Seq<char>)
    ensures
        segments(s).len() >= 1,
    decreases s.len(),
{
    if s.len() > 0 {
        lemma_segments_nonempty(s.drop_last());
    }
}

/// Appending text without line feeds extends the last segment.
pub proof fn lemma_segments_extend(a: Seq<char>, b: Seq<char>)
    requires
        single_line(b),
    ensures
        segments(a + b) == segments(a).update(
            segments(a).len() - 1,
            segments(a).last() + b,
        ),
    decreases b.len(),
{
    lemma_segments_nonempty(a);
    let sa = segments(a);
    if b.len() == 0 {
        assert(a + b =~= a);
        assert(sa.last() + b =~= sa.last());
        assert(sa.update(sa.len() - 1, sa.last()) =~= sa);
    } else {
        let b0 = b.drop_last();
        assert forall|i: int| 0 <= i < b0.len() implies #[trigger] b0[i] != '\n' by {
            assert(b0[i] == b[i]);
        }
        lemma_segments_extend(a, b0);
        assert((a + b).drop_last() =~= a + b0);
        assert((a + b).last() == b.last());
        assert(b.last() == b[b.len() - 1]);
        assert((sa.last() + b0).push(b.last()) =~= sa.last() + b);
        assert(sa.update(sa.len() - 1, sa.last() + b0).update(sa.len() - 1, sa.last() + b)
            =~= sa.update(sa.len() - 1, sa.last() + b));
    }
}

/// Splitting joined single-line texts gives them back.
pub proof fn lemma_segments_join(ls: Seq<Seq<char>>)
    requires
        ls.len() >= 1,
        forall|i: int| 0 <= i < ls.len() ==> single_line(#[trigger] ls[i]),
    ensures
        segments(join_lines(ls)) == ls,
    decreases ls.len(),
{
    if ls.len() == 1 {
        assert(single_line(ls[0]));
        lemma_segments_extend(Seq::<char>::empty(), ls[0]);
        assert(Seq::<char>::empty() + ls[0] =~= ls[0]);
        assert(segments(Seq::<char>::empty()) =~= seq![Seq::<char>::empty()]);
        assert(seq![Seq::<char>::empty()].update(0, Seq::<char>::empty() + ls[0]) =~= ls);
    } else {
        let init = ls.drop_last();
        assert forall|i: int| 0 <= i < init.len() implies single_line(#[trigger] init[i]) by {
            assert(init[i] == ls[i]);
        }
        lemma_segments_join(init);
        let j = join_lines(init);
        let jn = j + seq!['\n'];
        assert(jn.drop_last() =~= j);
        assert(segments(jn) == init.push(Seq::<char>::empty()));
        assert(single_line(ls[ls.len() - 1]));
        lemma_segments_extend(jn, ls.last());
        assert(join_lines(ls) == jn + ls.last());
        assert(Seq::<char>::empty() + ls.last() =~= ls.last());
        assert(init.push(Seq::<char>::empty()).update(init.len() as int, ls.last()) =~= ls);
    }
}

/// The lines of joined single-line texts are those texts, but for an empty
/// last one, which a final line feed does not show.
pub proof fn lemma_lines_of_join(ls: Seq<Seq<char>>)
    requires
        forall|i: int| 0 <= i < ls.len() ==> single_line(#[trigger] ls[i]),
    ensures
        lines_of(join_lines(ls)).len() <= ls.len(),
        forall|i: int|
            0 <= i < lines_of(join_lines(ls)).len() ==> #[trigger] lines_of(join_lines(ls))[i]
                == ls[i],
{
    if ls.len() == 0 {
        assert(segments(Seq::<char>::empty()) =~= seq![Seq::<char>::empty()]);
    } else {
        lemma_segments_join(ls);
    }
}

/// Relies on `String::push`: appends one character at the end.
#[verifier::external_body]
pub(crate) fn push_char(s: &mut String, c: char)
    ensures
        final(s)@ == old(s)@.push(c),
{
    s.push(c)
}

/// The characters of a string, in order.
pub fn chars_of(s: &str) -> (r: Vec<char>)
    ensures
        r@ == s@,
{
    let mut out: Vec<char> = Vec::new();
    for c in it: s.chars()
        invariant
            out@ == it.seq().take(it.index() as int),
    {
        out.push(c);
    }
    proof {
        assert(out@ =~= s@);
    }
    out
}

/// Appends characters at the end of a string.
pub fn push_chars(s: &mut String, cs: &Vec<char>)
    ensures
        final(s)@ == old(s)@ + cs@,
{
    let ghost start = s@;
    let mut i: usize = 0;
    while i < cs.len()
        invariant
            i <= cs.len(),
            s@ == start + cs@.take(i as int),
        decreases cs.len() - i,
    {
        push_char(s, cs[i]);
        proof {
            assert(cs@.take(i + 1) =~= cs@.take(i as int).push(cs@[i as int]));
        }
        i += 1;
    }
    proof {
        assert(cs@.take(cs.len() as int) =~= cs@);
    }
}

/// Whether two strings hold the same characters.
pub fn same_text(a: &str, b: &str) -> (r: bool)
    ensures
        r == (a@ == b@),
{
    let x = chars_of(a);
    let y = chars_of(b);
    if x.len() != y.len() {
        return false;
    }
    let mut i: usize = 0;
    while i < x.len()
        invariant
            x@ == a@,
            y@ == b@,
            x.len() == y.len(),
            i <= x.len(),
            forall|k: int| 0 <= k < i ==> x@[k] == y@[k],
        decreases x.len() - i,
    {
        if x[i] != y[i] {
            return false;
        }
        i += 1;
    }
    proof {
        assert(x@ =~= y@);
    }
    true
}

/// Whether `p` is a prefix of `s`.
pub fn has_prefix(s: &Vec<char>, p: &str) -> (r: bool)
    ensures
        r == p@.is_prefix_of(s@),
{
    let q = chars_of(p);
    if q.len() > s.len() {
        return false;
    }
    let mut i: usize = 0;
    while i < q.len()
        invariant
            q.len() <= s.len(),
            q@ == p@,
            i <= q.len(),
            forall|k: int| 0 <= k < i ==> q@[k] == s@[k],
        decreases q.len() - i,
    {
        if q[i] != s[i] {
            return false;
        }
        i += 1;
    }
    true
}

/// Whether a character is white space.
pub fn white(c: char) -> (r: bool)
    ensures
        r == is_white(c),
{
    ('\t' <= c && c <= '\r') || c == ' ' || c == '\u{85}' || c == '\u{a0}' || c == '\u{1680}'
        || ('\u{2000}' <= c && c <= '\u{200a}') || c == '\u{2028}' || c == '\u{2029}'
        || c == '\u{202f}' || c == '\u{205f}' || c == '\u{3000}'
}

/// Whether a text is blank.
pub fn blank(s: &Vec<char>) -> (r: bool)
    ensures
        r == is_blank(s@),
{
    let mut i: usize = 0;
    while i < s.len()
        invariant
            i <= s.len(),
            forall|k: int| 0 <= k < i ==> is_white(#[trigger] s@[k]),
        decreases s.len() - i,
    {
        if !white(s[i]) {
            return false;
        }
        i += 1;
    }
    true
}

/// A copy of a text with every line break replaced by a space.
pub fn flatten_newlines(s: &Vec<char>) -> (r: String)
    ensures
        r@ == flatten(s@),
{
    let mut out = String::new();
    let mut i: usize = 0;
    while i < s.len()
        invariant
            i <= s.len(),
            out@ == flatten(s@.take(i as int)),
        decreases s.len() - i,
    {
        let c = s[i];
        push_char(&mut out, if c == '\n' { ' ' } else { c });
        proof {
            assert(flatten(s@.take(i + 1)) =~= flatten(s@.take(i as int)).push(
                if c == '\n' { ' ' } else { c },
            ));
        }
        i += 1;
    }
    proof {
        assert(s@.take(s.len() as int) =~= s@);
    }
    out
}

/// The lines of a text, each without its line feed.
pub fn split_lines(text: &str) -> (r: Vec<String>)
    ensures
        views(r@) == lines_of(text@),
{
    let cs = chars_of(text);
    let mut lines: Vec<String> = Vec::new();
    let mut cur = String::new();
    let mut i: usize = 0;
    proof {
        assert(cs@.take(0) =~= Seq::<char>::empty());
        assert(views(lines@).push(cur@) =~= seq![Seq::<char>::empty()]);
    }
    while i < cs.len()
        invariant
            i <= cs.len(),
            cs@ == text@,
            segments(cs@.take(i as int)) == views(lines@).push(cur@),
        decreases cs.len() - i,
    {
        let c = cs[i];
        let ghost prev_lines = lines@;
        let ghost prev_cur = cur@;
        proof {
            assert(cs@.take(i + 1).drop_last() =~= cs@.take(i as int));
            assert(cs@.take(i + 1).last() == c);
        }
        if c == '\n' {
            lines.push(cur);
            cur = String::new();
            proof {
                assert(views(lines@) =~= views(prev_lines).push(prev_cur));
                assert(views(lines@).push(cur@) =~= views(prev_lines).push(prev_cur).push(
                    Seq::<char>::empty(),
                ));
            }
        } else {
            push_char(&mut cur, c);
            proof {
                assert(views(lines@) =~= views(prev_lines));
                assert(views(lines@).push(cur@) =~= views(prev_lines).push(prev_cur).update(
                    prev_lines.len() as int,
                    prev_cur.push(c),
                ));
            }
        }
        i += 1;
    }
    proof {
        assert(cs@.take(cs.len() as int) =~= text@);
    }
    if cs.len() > 0 && cs[cs.len() - 1] != '\n' {
        let ghost prev_lines = lines@;
        lines.push(cur);
        proof {
            assert(views(lines@) =~= views(prev_lines).push(cur@));
        }
    } else {
        proof {
            assert(views(lines@).push(cur@).drop_last() =~= views(lines@));
        }
    }
    lines
}

/// Lines joined with a line feed between each two.
pub fn join_with_newlines(ls: &Vec<String>) -> (r: String)
    ensures
        r@ == join_lines(views(ls@)),
{
    let mut out = String::new();
    let mut i: usize = 0;
    while i < ls.len()
        invariant
            i <= ls.len(),
            out@ == join_lines(views(ls@).take(i as int)),
        decreases ls.len() - i,
    {
        let ghost before = out@;
        if i > 0 {
            push_char(&mut out, '\n');
        }
        let cs = chars_of(ls[i].as_str());
        push_chars(&mut out, &cs);
        proof {
            let t = views(ls@).take(i + 1);
            assert(t.drop_last() =~= views(ls@).take(i as int));
            assert(t.last() == ls@[i as int]@);
            if i == 0 {
                assert(Seq::<char>::empty() + cs@ =~= cs@);
            }
        }
        i += 1;
    }
    proof {
        assert(views(ls@).take(ls.len() as int) =~= views(ls@));
    }
    out
}

/// Appends the decimal notation of `n`.
pub fn push_decimal(s: &mut String, n: u64)
    ensures
        final(s)@ == old(s)@ + decimal(n as nat),
    decreases n,
{
    let ghost start = s@;
    if n >= 10 {
        push_decimal(s, n / 10);
    }
    let d: u8 = (n % 10) as u8;
    push_char(s, (48u8 + d) as char);
    proof {
        if n >= 10 {
            assert(start + decimal((n / 10) as nat).push(digit((n % 10) as nat)) =~= start
                + decimal(n as nat));
        } else {
            assert(start.push(digit(n as nat)) =~= start + decimal(n as nat));
        }
    }
}

} // verus!

verus! {

/// Every line of a text is free of line feeds.
pub proof fn lemma_lines_single(s: Seq<char>)
    ensures
        forall|i: int| 0 <= i < lines_of(s).len() ==> single_line(#[trigger] lines_of(s)[i]),
{
    lemma_segments_single(s);
}

proof fn lemma_segments_single(s: Seq<char>)
    ensures
        forall|i: int| 0 <= i < segments(s).len() ==> single_line(#[trigger] segments(s)[i]),
    decreases s.len(),
{
    if s.len() > 0 {
        let prev = segments(s.drop_last());
        lemma_segments_single(s.drop_last());
        lemma_segments_nonempty(s.drop_last());
        if s.last() != '\n' {
            let l = prev.last().push(s.last());
            assert(single_line(prev[prev.len() - 1]));
            assert forall|k: int| 0 <= k < l.len() implies #[trigger] l[k] != '\n' by {
                if k < l.len() - 1 {
                    assert(l[k] == prev[prev.len() - 1][k]);
                }
            }
            assert forall|i: int| 0 <= i < segments(s).len() implies single_line(
                #[trigger] segments(s)[i],
            ) by {
                if i < prev.len() - 1 {
                    assert(segments(s)[i] == prev[i]);
                }
            }
        } else {
            assert forall|i: int| 0 <= i < segments(s).len() implies single_line(
                #[trigger] segments(s)[i],
            ) by {
                if i < prev.len() {
                    assert(segments(s)[i] == prev[i]);
                } else {
                    assert(segments(s)[i] =~= Seq::<char>::empty());
                }
            }
        }
    }
}

/// Whether a list of strings holds one with the given characters.
pub fn contains_text(ls: &Vec<String>, s: &str) -> (r: bool)
    ensures
        r == views(ls@).contains(s@),
{
    let mut i: usize = 0;
    while i < ls.len()
        invariant
            i <= ls.len(),
            forall|k: int| 0 <= k < i ==> ls@[k]@ != s@,
        decreases ls.len() - i,
    {
        if same_text(ls[i].as_str(), s) {
            proof {
                assert(views(ls@)[i as int] == s@);
            }
            return true;
        }
        i += 1;
    }
    proof {
        if views(ls@).contains(s@) {
            let k = choose|k: int| 0 <= k < views(ls@).len() && views(ls@)[k] == s@;
            assert(ls@[k]@ == s@);
        }
    }
    false
}

} // verus!

verus! {

/// Whether `p` is a prefix of `s`.
pub fn starts_with_chars(s: &Vec<char>, p: &Vec<char>) -> (r: bool)
    ensures
        r == p@.is_prefix_of(s@),
{
    if p.len() > s.len() {
        return false;
    }
    let mut i: usize = 0;
    while i < p.len()
        invariant
            p.len() <= s.len(),
            i <= p.len(),
            forall|k: int| 0 <= k < i ==> p@[k] == s@[k],
        decreases p.len() - i,
    {
        if p[i] != s[i] {
            return false;
        }
        i += 1;
    }
    true
}

/// Whether `p` is a suffix of `s`.
pub fn ends_with_chars(s: &Vec<char>, p: &Vec<char>) -> (r: bool)
    ensures
        r == p@.is_suffix_of(s@),
{
    if p.len() > s.len() {
        return false;
    }
    let off = s.len() - p.len();
    let mut i: usize = 0;
    while i < p.len()
        invariant
            p.len() <= s.len(),
            off == s.len() - p.len(),
            i <= p.len(),
            forall|k: int| 0 <= k < i ==> p@[k] == s@[off + k],
        decreases p.len() - i,
    {
        if p[i] != s[off + i] {
            return false;
        }
        i += 1;
    }
    true
}

/// A string of the characters `from..to` of `cs`.
pub fn string_of_range(cs: &Vec<char>, from: usize, to: usize) -> (r: String)
    requires
        from <= to <= cs.len(),
    ensures
        r@ == cs@.subrange(from as int, to as int),
{
    let mut out = String::new();
    let mut i: usize = from;
    while i < to
        invariant
            from <= i <= to <= cs.len(),
            out@ == cs@.subrange(from as int, i as int),
        decreases to - i,
    {
        push_char(&mut out, cs[i]);
        proof {
            assert(cs@.subrange(from as int, i + 1) =~= cs@.subrange(from as int, i as int).push(
                cs@[i as int],
            ));
        }
        i += 1;
    }
    out
}

/// The concatenation of two strings.
pub fn concat(a: &str, b: &str) -> (r: String)
    ensures
        r@ == a@ + b@,
{
    let mut s = String::from_str(a);
    s.append(b);
    s
}

} // verus!
