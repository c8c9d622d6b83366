//! The history log reconciler: rewrites the global history log without the
//! lines that a filter drops.

use vstd::prelude::*;

use crate::json::{json_of, parse_json, str_field};
use crate::text::{
    contains_text, join_lines, join_with_newlines, lemma_lines_of_join, lemma_lines_single,
    lines_of, same_text, single_line, split_lines, views,
};

verus! {

/// Which history lines to drop, by their `sessionId`.
pub enum HistoryFilter {
    /// The lines of one session.
    SessionIs(String),
    /// The lines of every session that is not among these.
    SessionNotIn(Vec<String>),
}

/// Whether a filter drops a line. A line that is not JSON, or has no string
/// `sessionId`, is never dropped.
pub open spec fn drops(f: HistoryFilter, line: Seq<char>) -> bool {
    match json_of(line) {
        Some(v) => match str_field(v, "sessionId"@) {
            Some(id) => match f {
                HistoryFilter::SessionIs(x) => id == x@,
                HistoryFilter::SessionNotIn(ids) => !views(ids@).contains(id),
            },
            None => false,
        },
        None => false,
    }
}

/// The lines that a filter keeps, in order.
pub open spec fn kept(f: HistoryFilter, ls: Seq<Seq<char>>) -> Seq<Seq<char>>
    decreases ls.len(),
{
    if ls.len() == 0 {
        Seq::<Seq<char>>::empty()
    } else if drops(f, ls.last()) {
        kept(f, ls.drop_last())
    } else {
        kept(f, ls.drop_last()).push(ls.last())
    }
}

/// How many lines a filter drops.
pub open spec fn dropped(f: HistoryFilter, ls: Seq<Seq<char>>) -> nat
    decreases ls.len(),
{
    if ls.len() == 0 {
        0
    } else if drops(f, ls.last()) {
        dropped(f, ls.drop_last()) + 1
    } else {
        dropped(f, ls.drop_last())
    }
}

/// The history text after a pass of a filter: the kept lines joined with line
/// feeds where a line was dropped, the text itself where none was.
pub open spec fn after_pass(f: HistoryFilter, text: Seq<char>) -> Seq<char> {
    if dropped(f, lines_of(text)) > 0 {
        join_lines(kept(f, lines_of(text)))
    } else {
        text
    }
}

/// The outcome of a pass over the history log.
pub struct Rewrite {
    /// The new text of the log, where it must be written.
    pub replacement: Option<String>,
    /// How many lines were dropped.
    pub dropped: usize,
}

/// Whether a filter drops a line.
pub fn should_drop(f: &HistoryFilter, line: &str) -> (r: bool)
    ensures
        r == drops(*f, line@),
{
    match parse_json(line) {
        Some(v) => match v.get_str("sessionId") {
            Some(id) => match f {
                HistoryFilter::SessionIs(x) => same_text(id.as_str(), x.as_str()),
                HistoryFilter::SessionNotIn(ids) => !contains_text(ids, id.as_str()),
            },
            None => false,
        },
        None => false,
    }
}

/// Passes a filter over the history log's text. Lines are kept in order and
/// joined with line feeds; a replacement text is given only where at least
/// one line was dropped, so that an unchanged log is not written.
pub fn rewrite_history(text: &str, f: &HistoryFilter) -> (r: Rewrite)
    ensures
        r.dropped == dropped(*f, lines_of(text@)),
        match r.replacement {
            Some(t) => r.dropped > 0 && t@ == join_lines(kept(*f, lines_of(text@))),
            None => r.dropped == 0,
        },
{
    let lines = split_lines(text);
    let ghost ls = views(lines@);
    let mut keep: Vec<String> = Vec::new();
    let mut count: usize = 0;
    let mut i: usize = 0;
    while i < lines.len()
        invariant
            i <= lines.len(),
            ls == views(lines@),
            count <= i,
            count == dropped(*f, ls.take(i as int)),
            views(keep@) == kept(*f, ls.take(i as int)),
        decreases lines.len() - i,
    {
        proof {
            assert(ls.take(i + 1).drop_last() =~= ls.take(i as int));
            assert(ls.take(i + 1).last() == lines@[i as int]@);
        }
        if should_drop(f, lines[i].as_str()) {
            count += 1;
        } else {
            let ghost before = keep@;
            keep.push(lines[i].clone());
            proof {
                assert(views(keep@) =~= views(before).push(lines@[i as int]@));
            }
        }
        i += 1;
    }
    proof {
        assert(ls.take(lines.len() as int) =~= ls);
    }
    if count > 0 {
        Rewrite { replacement: Some(join_with_newlines(&keep)), dropped: count }
    } else {
        Rewrite { replacement: None, dropped: 0 }
    }
}

proof fn lemma_kept_not_dropped(f: HistoryFilter, ls: Seq<Seq<char>>)
    ensures
        kept(f, ls).len() <= ls.len(),
        forall|i: int| 0 <= i < kept(f, ls).len() ==> !drops(f, #[trigger] kept(f, ls)[i]),
        forall|i: int|
            0 <= i < kept(f, ls).len() ==> #[trigger] ls.contains(kept(f, ls)[i]),
    decreases ls.len(),
{
    if ls.len() > 0 {
        let k = kept(f, ls.drop_last());
        lemma_kept_not_dropped(f, ls.drop_last());
        assert forall|i: int| 0 <= i < kept(f, ls).len() implies #[trigger] ls.contains(
            kept(f, ls)[i],
        ) by {
            if i < k.len() {
                assert(kept(f, ls)[i] == k[i]);
                assert(ls.drop_last().contains(k[i]));
                let j = choose|j: int| 0 <= j < ls.drop_last().len() && ls.drop_last()[j] == k[i];
                assert(ls[j] == k[i]);
            } else {
                assert(ls[ls.len() - 1] == kept(f, ls)[i]);
            }
        }
        assert forall|i: int| 0 <= i < kept(f, ls).len() implies !drops(
            f,
            #[trigger] kept(f, ls)[i],
        ) by {
            if i < k.len() {
                assert(kept(f, ls)[i] == k[i]);
            }
        }
    }
}

proof fn lemma_none_dropped(f: HistoryFilter, ls: Seq<Seq<char>>)
    requires
        forall|i: int| 0 <= i < ls.len() ==> !drops(f, #[trigger] ls[i]),
    ensures
        dropped(f, ls) == 0,
    decreases ls.len(),
{
    if ls.len() > 0 {
        assert(!drops(f, ls[ls.len() - 1]));
        assert forall|i: int| 0 <= i < ls.drop_last().len() implies !drops(
            f,
            #[trigger] ls.drop_last()[i],
        ) by {
            assert(ls.drop_last()[i] == ls[i]);
        }
        lemma_none_dropped(f, ls.drop_last());
    }
}

/// A second pass of the same filter over the log that a first pass left
/// drops nothing.
pub proof fn law_second_pass_drops_nothing(f: HistoryFilter, text: Seq<char>)
    ensures
        dropped(f, lines_of(after_pass(f, text))) == 0,
{
    let ls = lines_of(text);
    if dropped(f, ls) > 0 {
        let k = kept(f, ls);
        lemma_lines_single(text);
        lemma_kept_not_dropped(f, ls);
        assert forall|i: int| 0 <= i < k.len() implies single_line(#[trigger] k[i]) by {
            assert(ls.contains(k[i]));
            let j = choose|j: int| 0 <= j < ls.len() && ls[j] == k[i];
            assert(single_line(ls[j]));
        }
        lemma_lines_of_join(k);
        let again = lines_of(join_lines(k));
        assert forall|i: int| 0 <= i < again.len() implies !drops(f, #[trigger] again[i]) by {
            assert(again[i] == k[i]);
        }
        lemma_none_dropped(f, again);
    }
}

} // verus!
