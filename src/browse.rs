//! Choosing among loaded sessions: filtering by a query, moving and
//! toggling a selection, and picking the empty ones.

use vstd::prelude::*;

use crate::order::SortBy;
use crate::scanner::opt_view;
use crate::session::{display_label, Session};
use crate::text::chars_of;

verus! {

/// What `str::to_lowercase` makes of a text.
pub uninterp spec fn lower_of(s: Seq<char>) -> Seq<char>;

/// Relies on `str::to_lowercase`: the result depends on the characters
/// alone, and an empty text stays empty.
#[verifier::external_body]
fn lowercase(s: &str) -> (r: String)
    ensures
        r@ == lower_of(s@),
        s@.len() == 0 ==> r@.len() == 0,
{
    s.to_lowercase()
}

/// Whether `p` occurs in `s`.
pub open spec fn occurs_in(p: Seq<char>, s: Seq<char>) -> bool {
    exists|i: int| 0 <= i <= s.len() - p.len() && #[trigger] s.subrange(i, i + p.len()) == p
}

/// Whether `p` occurs in `s`.
pub fn occurs(p: &Vec<char>, s: &Vec<char>) -> (r: bool)
    ensures
        r == occurs_in(p@, s@),
{
    if p.len() > s.len() {
        return false;
    }
    let mut i: usize = 0;
    while i <= s.len() - p.len()
        invariant
            p.len() <= s.len(),
            i <= s.len() - p.len() + 1,
            forall|k: int| 0 <= k < i ==> #[trigger] s@.subrange(k, k + p.len()) != p@,
        decreases s.len() - p.len() + 1 - i,
    {
        let mut j: usize = 0;
        while j < p.len() && s[i + j] == p[j]
            invariant
                p.len() <= s.len(),
                i <= s.len() - p.len(),
                j <= p.len(),
                forall|k: int| 0 <= k < j ==> s@[i + k] == p@[k],
            decreases p.len() - j,
        {
            j += 1;
        }
        if j == p.len() {
            proof {
                assert(s@.subrange(i as int, i + p.len()) =~= p@);
            }
            return true;
        }
        proof {
            assert(s@.subrange(i as int, i + p.len())[j as int] != p@[j as int]);
        }
        i += 1;
    }
    false
}

/// Whether a session, its texts already lower-cased, matches a lower-cased
/// query: an empty query matches all; else it must occur in the display
/// name, the id or the project.
pub open spec fn matches_query(q: Seq<char>, name: Seq<char>, id: Seq<char>, project: Seq<char>) -> bool {
    q.len() == 0 || occurs_in(q, name) || occurs_in(q, id) || occurs_in(q, project)
}

/// Whether a session, its texts already lower-cased, matches a lower-cased
/// query.
pub fn matches_folded(q: &str, name: &str, id: &str, project: &str) -> (r: bool)
    ensures
        r == matches_query(q@, name@, id@, project@),
{
    let qc = chars_of(q);
    qc.len() == 0 || occurs(&qc, &chars_of(name)) || occurs(&qc, &chars_of(id)) || occurs(
        &qc,
        &chars_of(project),
    )
}

/// Whether a session matches a query, case being ignored.
pub open spec fn session_matches(s: Session, query: Seq<char>) -> bool {
    matches_query(
        lower_of(query),
        lower_of(display_label(opt_view(s.custom_name), s.first_message@)),
        lower_of(s.id@),
        lower_of(s.project@),
    )
}

/// The indices of the sessions that match a query, in order.
pub fn filter_sessions(sessions: &Vec<Session>, query: &str) -> (r: Vec<usize>)
    ensures
        forall|k: int| 0 <= k < r.len() ==> #[trigger] r@[k] < sessions.len(),
        forall|a: int, b: int| 0 <= a < b < r.len() ==> #[trigger] r@[a] < #[trigger] r@[b],
        forall|i: int|
            0 <= i < sessions.len() ==> (#[trigger] r@.contains(i as usize) <==> session_matches(
                sessions@[i],
                query@,
            )),
{
    let q = lowercase(query);
    let mut out: Vec<usize> = Vec::new();
    let mut i: usize = 0;
    while i < sessions.len()
        invariant
            i <= sessions.len(),
            q@ == lower_of(query@),
            forall|k: int| 0 <= k < out.len() ==> #[trigger] out@[k] < i,
            forall|a: int, b: int| 0 <= a < b < out.len() ==> #[trigger] out@[a] < #[trigger] out@[b],
            forall|j: int|
                0 <= j < i ==> (#[trigger] out@.contains(j as usize) <==> session_matches(
                    sessions@[j],
                    query@,
                )),
        decreases sessions.len() - i,
    {
        let s = &sessions[i];
        let name = lowercase(s.display_name().as_str());
        let id = lowercase(s.id.as_str());
        let project = lowercase(s.project.as_str());
        let keep = matches_folded(q.as_str(), name.as_str(), id.as_str(), project.as_str());
        let ghost before = out@;
        if keep {
            out.push(i);
        }
        proof {
            assert forall|j: int| 0 <= j < i + 1 implies (#[trigger] out@.contains(j as usize)
                <==> session_matches(sessions@[j], query@)) by {
                if j < i {
                    if out@.contains(j as usize) {
                        let k = choose|k: int| 0 <= k < out.len() && out@[k] == j as usize;
                        if k < before.len() {
                            assert(before[k] == j as usize);
                        }
                    }
                    if before.contains(j as usize) {
                        let k = choose|k: int| 0 <= k < before.len() && before[k] == j as usize;
                        assert(out@[k] == j as usize);
                    }
                } else {
                    if keep {
                        assert(out@[before.len() as int] == i);
                    }
                    if out@.contains(j as usize) {
                        let k = choose|k: int| 0 <= k < out.len() && out@[k] == j as usize;
                        if k < before.len() {
                            assert(before[k] < i);
                        }
                    }
                }
            }
        }
        i += 1;
    }
    out
}

/// The indices of the sessions without messages, in order.
pub fn empty_sessions(sessions: &Vec<Session>) -> (r: Vec<usize>)
    ensures
        forall|k: int| 0 <= k < r.len() ==> #[trigger] r@[k] < sessions.len(),
        forall|a: int, b: int| 0 <= a < b < r.len() ==> #[trigger] r@[a] < #[trigger] r@[b],
        forall|i: int|
            0 <= i < sessions.len() ==> (#[trigger] r@.contains(i as usize) <==> sessions@[i].message_count
                == 0),
{
    let mut out: Vec<usize> = Vec::new();
    let mut i: usize = 0;
    while i < sessions.len()
        invariant
            i <= sessions.len(),
            forall|k: int| 0 <= k < out.len() ==> #[trigger] out@[k] < i,
            forall|a: int, b: int| 0 <= a < b < out.len() ==> #[trigger] out@[a] < #[trigger] out@[b],
            forall|j: int|
                0 <= j < i ==> (#[trigger] out@.contains(j as usize) <==> sessions@[j].message_count
                    == 0),
        decreases sessions.len() - i,
    {
        let keep = sessions[i].message_count == 0;
        let ghost before = out@;
        if keep {
            out.push(i);
        }
        proof {
            assert forall|j: int| 0 <= j < i + 1 implies (#[trigger] out@.contains(j as usize)
                <==> sessions@[j].message_count == 0) by {
                if j < i {
                    if out@.contains(j as usize) {
                        let k = choose|k: int| 0 <= k < out.len() && out@[k] == j as usize;
                        if k < before.len() {
                            assert(before[k] == j as usize);
                        }
                    }
                    if before.contains(j as usize) {
                        let k = choose|k: int| 0 <= k < before.len() && before[k] == j as usize;
                        assert(out@[k] == j as usize);
                    }
                } else {
                    if keep {
                        assert(out@[before.len() as int] == i);
                    }
                    if out@.contains(j as usize) {
                        let k = choose|k: int| 0 <= k < out.len() && out@[k] == j as usize;
                        if k < before.len() {
                            assert(before[k] < i);
                        }
                    }
                }
            }
        }
        i += 1;
    }
    out
}

/// The position a selection moves to in a list of `len` items: `delta`
/// steps on from `current`, wrapping round at either end; the first item
/// where nothing was selected.
pub open spec fn stepped(current: Option<usize>, delta: int, len: nat) -> int {
    match current {
        Some(c) => (c as int + delta) % (len as int),
        None => 0,
    }
}

proof fn lemma_wrap_back(c: int, dd: int, l: int)
    requires
        l > 0,
        dd > 0,
        c >= 0,
    ensures
        (c + l - dd % l) % l == (c - dd) % l,
{
    let q = dd / l;
    let r = dd % l;
    assert(dd == q * l + r) by (nonlinear_arith)
        requires
            l > 0,
            q == dd / l,
            r == dd % l,
    ;
    assert(c - dd == (c + l - r) + (-(q + 1)) * l) by (nonlinear_arith)
        requires
            dd == q * l + r,
    ;
    vstd::arithmetic::div_mod::lemma_mod_multiples_vanish(-(q + 1), c + l - r, l);
    assert(l * (-(q + 1)) + (c + l - r) == c - dd) by (nonlinear_arith)
        requires
            dd == q * l + r,
    ;
}

/// Moves a selection by `delta` in a list of `len` items.
pub fn step_selection(current: Option<usize>, delta: i64, len: usize) -> (r: usize)
    requires
        len > 0,
    ensures
        r as int == stepped(current, delta as int, len as nat),
        r < len,
{
    match current {
        Some(c) => {
            let l: u128 = len as u128;
            if delta >= 0 {
                let x: u128 = c as u128 + delta as u128;
                let m: u128 = x % l;
                proof {
                    assert(m as int == (c as int + delta as int) % (len as int));
                }
                m as usize
            } else {
                let d: u128 = ((-(delta as i128)) as u128) % l;
                let m: u128 = (c as u128 + l - d) % l;
                proof {
                    let dd = -(delta as int);
                    assert(d as int == dd % (len as int));
                    lemma_wrap_back(c as int, dd, len as int);
                }
                m as usize
            }
        },
        None => 0,
    }
}

/// Adds an index to a selection, or takes it out where it is there.
pub fn toggle(selected: &mut Vec<usize>, idx: usize)
    ensures
        old(selected)@.contains(idx) ==> exists|i: int|
            0 <= i < old(selected)@.len() && old(selected)@[i] == idx && (forall|k: int|
                0 <= k < i ==> old(selected)@[k] != idx) && final(selected)@ == #[trigger] old(
                selected,
            )@.remove(i),
        !old(selected)@.contains(idx) ==> final(selected)@ == old(selected)@.push(idx),
{
    let mut i: usize = 0;
    while i < selected.len()
        invariant
            i <= selected.len(),
            *selected == *old(selected),
            forall|k: int| 0 <= k < i ==> selected@[k] != idx,
        decreases selected.len() - i,
    {
        if selected[i] == idx {
            let ghost before = selected@;
            selected.remove(i);
            proof {
                assert(selected@ == before.remove(i as int));
            }
            return;
        }
        i += 1;
    }
    selected.push(idx);
}

impl SortBy {
    /// The ordering after this one: date, size, messages, then date again.
    pub fn next(self) -> (r: SortBy)
        ensures
            r == match self {
                SortBy::Date => SortBy::Size,
                SortBy::Size => SortBy::Messages,
                SortBy::Messages => SortBy::Date,
            },
    {
        match self {
            SortBy::Date => SortBy::Size,
            SortBy::Size => SortBy::Messages,
            SortBy::Messages => SortBy::Date,
        }
    }
}

} // verus!
