//! What deleting a session removes: its related files, fresh and as loaded,
//! and its transcript, each path once.

use vstd::prelude::*;

use crate::history::{drops, HistoryFilter};
use crate::json::{json_of, str_field};
use crate::layout::{
    lemma_related_distinct, present_if, related, transcript_id, transcript_path, ProjectDir,
    Satellites,
};
use crate::session::Session;
use crate::text::{contains_text, views};

verus! {

/// The paths of `b` that `a` lacks appended to `a`, each once.
pub open spec fn union_paths(a: Seq<Seq<char>>, b: Seq<Seq<char>>) -> Seq<Seq<char>>
    decreases b.len(),
{
    if b.len() == 0 {
        a
    } else {
        let u = union_paths(a, b.drop_last());
        if u.contains(b.last()) {
            u
        } else {
            u.push(b.last())
        }
    }
}

/// The paths to remove for a session: the related files it was loaded
/// with, those found now, and its transcript where it still exists, in that
/// order and each once.
pub open spec fn targets(
    snapshot: Seq<Seq<char>>,
    fresh: Seq<Seq<char>>,
    transcript: Seq<char>,
    transcript_exists: bool,
) -> Seq<Seq<char>> {
    union_paths(Seq::<Seq<char>>::empty(), snapshot + fresh + present_if(transcript_exists, transcript))
}

/// Appends to `out` the paths of `b` that it lacks.
fn add_missing(out: &mut Vec<String>, b: &Vec<String>)
    ensures
        views(final(out)@) == union_paths(views(old(out)@), views(b@)),
{
    let ghost a = views(out@);
    let mut i: usize = 0;
    proof {
        assert(views(b@).take(0) =~= Seq::<Seq<char>>::empty());
    }
    while i < b.len()
        invariant
            i <= b.len(),
            views(out@) == union_paths(a, views(b@).take(i as int)),
        decreases b.len() - i,
    {
        proof {
            assert(views(b@).take(i + 1).drop_last() =~= views(b@).take(i as int));
            assert(views(b@).take(i + 1).last() == b@[i as int]@);
        }
        if !contains_text(out, b[i].as_str()) {
            let ghost before = out@;
            out.push(b[i].clone());
            proof {
                assert(views(out@) =~= views(before).push(b@[i as int]@));
            }
        }
        i += 1;
    }
    proof {
        assert(views(b@).take(b.len() as int) =~= views(b@));
    }
}

proof fn lemma_union_concat(a: Seq<Seq<char>>, b: Seq<Seq<char>>, c: Seq<Seq<char>>)
    ensures
        union_paths(a, b + c) == union_paths(union_paths(a, b), c),
    decreases c.len(),
{
    if c.len() == 0 {
        assert(b + c =~= b);
    } else {
        assert((b + c).drop_last() =~= b + c.drop_last());
        assert((b + c).last() == c.last());
        lemma_union_concat(a, b, c.drop_last());
    }
}

proof fn lemma_union_covered(a: Seq<Seq<char>>, b: Seq<Seq<char>>)
    requires
        forall|i: int| 0 <= i < b.len() ==> a.contains(#[trigger] b[i]),
    ensures
        union_paths(a, b) == a,
    decreases b.len(),
{
    if b.len() > 0 {
        assert forall|i: int| 0 <= i < b.drop_last().len() implies a.contains(
            #[trigger] b.drop_last()[i],
        ) by {
            assert(b.drop_last()[i] == b[i]);
        }
        lemma_union_covered(a, b.drop_last());
        assert(a.contains(b[b.len() - 1]));
    }
}

proof fn lemma_union_distinct(s: Seq<Seq<char>>)
    requires
        s.no_duplicates(),
    ensures
        union_paths(Seq::<Seq<char>>::empty(), s) == s,
    decreases s.len(),
{
    if s.len() > 0 {
        let init = s.drop_last();
        assert(init.no_duplicates());
        lemma_union_distinct(init);
        assert(init.push(s.last()) =~= s);
        if init.contains(s.last()) {
            let j = choose|j: int| 0 <= j < init.len() && init[j] == s.last();
            assert(s[j] == s[s.len() - 1]);
        }
    }
}

/// The paths to remove for a session, from its loaded related files, those
/// found now, and whether its transcript still exists.
pub fn deletion_targets(session: &Session, fresh: &Vec<String>, transcript_exists: bool) -> (r: Vec<
    String,
>)
    ensures
        views(r@) == targets(
            views(session.related_files@),
            views(fresh@),
            session.path@,
            transcript_exists,
        ),
{
    let mut out: Vec<String> = Vec::new();
    proof {
        assert(views(out@) =~= Seq::<Seq<char>>::empty());
    }
    add_missing(&mut out, &session.related_files);
    add_missing(&mut out, fresh);
    let mut last: Vec<String> = Vec::new();
    if transcript_exists {
        last.push(session.path.clone());
    }
    add_missing(&mut out, &last);
    proof {
        let s = views(session.related_files@);
        let f = views(fresh@);
        let t = views(last@);
        assert(t =~= present_if(transcript_exists, session.path@));
        lemma_union_concat(Seq::<Seq<char>>::empty(), s, f);
        lemma_union_concat(Seq::<Seq<char>>::empty(), s + f, t);
    }
    out
}

proof fn lemma_targets_unchanged(related: Seq<Seq<char>>, transcript: Seq<char>)
    requires
        related.no_duplicates(),
        !related.contains(transcript),
    ensures
        targets(related, related, transcript, true) == related.push(transcript),
{
    let e = Seq::<Seq<char>>::empty();
    let t = present_if(true, transcript);
    lemma_union_concat(e, related + related, t);
    lemma_union_concat(e, related, related);
    lemma_union_distinct(related);
    lemma_union_covered(related, related);
    assert(t =~= seq![transcript]);
    assert(seq![transcript].drop_last() =~= e);
    assert(union_paths(related, e) == related);
}

/// Deleting a session whose related files are unchanged since it was loaded
/// removes each of its P related files and its transcript: P + 1 paths. The
/// history pass that follows drops exactly the lines whose `sessionId` is
/// the session's id.
pub proof fn law_deletion_complete(
    id: String,
    project: ProjectDir,
    sat: Satellites,
    name: Seq<char>,
    line: Seq<char>,
)
    requires
        views(sat.todos@).no_duplicates(),
        transcript_id(name) == Some(id@),
    ensures
        targets(
            related(id@, project, sat),
            related(id@, project, sat),
            transcript_path(project.name@, name),
            true,
        ) == related(id@, project, sat).push(transcript_path(project.name@, name)),
        targets(
            related(id@, project, sat),
            related(id@, project, sat),
            transcript_path(project.name@, name),
            true,
        ).len() == related(id@, project, sat).len() + 1,
        drops(HistoryFilter::SessionIs(id), line) <==> (json_of(line) is Some && str_field(
            json_of(line)->0,
            "sessionId"@,
        ) == Some(id@)),
{
    lemma_related_distinct(id@, project, sat, name);
    lemma_targets_unchanged(related(id@, project, sat), transcript_path(project.name@, name));
}

} // verus!
