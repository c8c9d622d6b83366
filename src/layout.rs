//! The directory tree as listed names: which files are session transcripts,
//! which satellite artifacts belong to a session, and which belong to none.
//! Paths are relative to the tree's root, with `/` between components.

use vstd::prelude::*;

use crate::text::{
    chars_of, concat, contains_text, ends_with_chars, same_text, starts_with_chars,
    string_of_range, views,
};

verus! {

/// The names directly under one project directory.
pub struct ProjectDir {
    pub name: String,
    pub entries: Vec<String>,
}

/// The names directly under each satellite root.
pub struct Satellites {
    pub debug: Vec<String>,
    pub session_env: Vec<String>,
    pub file_history: Vec<String>,
    pub todos: Vec<String>,
}

/// The session id of a transcript's file name: the stem before `.jsonl`,
/// where it is not empty and does not name an agent transcript.
pub open spec fn transcript_id(name: Seq<char>) -> Option<Seq<char>> {
    let n = ".jsonl"@.len();
    let stem = name.take(name.len() - n);
    if name.len() > n && ".jsonl"@.is_suffix_of(name) && !"agent-"@.is_prefix_of(stem) {
        Some(stem)
    } else {
        None
    }
}

/// The position of the last `c` in `s`, or -1.
pub open spec fn last_index_of(s: Seq<char>, c: char) -> int
    decreases s.len(),
{
    if s.len() == 0 {
        -1
    } else if s.last() == c {
        s.len() - 1
    } else {
        last_index_of(s.drop_last(), c)
    }
}

/// A file name without its last extension; a name whose only dot leads it
/// has none.
pub open spec fn stem_of(name: Seq<char>) -> Seq<char> {
    let d = last_index_of(name, '.');
    if d > 0 {
        name.take(d)
    } else {
        name
    }
}

/// The session ids among a project directory's names, in order.
pub open spec fn ids_in(entries: Seq<Seq<char>>) -> Seq<Seq<char>>
    decreases entries.len(),
{
    if entries.len() == 0 {
        Seq::<Seq<char>>::empty()
    } else {
        match transcript_id(entries.last()) {
            Some(id) => ids_in(entries.drop_last()).push(id),
            None => ids_in(entries.drop_last()),
        }
    }
}

/// The canonical session ids: those of every project directory.
pub open spec fn canonical_ids(ps: Seq<ProjectDir>) -> Seq<Seq<char>>
    decreases ps.len(),
{
    if ps.len() == 0 {
        Seq::<Seq<char>>::empty()
    } else {
        canonical_ids(ps.drop_last()) + ids_in(views(ps.last().entries@))
    }
}

/// The id that a todo file `<id>-agent-<agent>.json` names an agent of.
pub open spec fn agent_of(id: Seq<char>, t: Seq<char>) -> Option<Seq<char>> {
    let pre = id + "-agent-"@;
    let rest = t.skip(pre.len() as int);
    if pre.is_prefix_of(t) && ".json"@.is_suffix_of(rest) {
        Some(rest.take(rest.len() - ".json"@.len()))
    } else {
        None
    }
}

/// The file name of an agent's transcript.
pub open spec fn agent_file(a: Seq<char>) -> Seq<char> {
    "agent-"@ + a + ".jsonl"@
}

/// The paths that one todo entry adds to a session's related files: the
/// entry itself where the id is a prefix of its name, and the agent
/// transcript it names where that exists in the session's project.
pub open spec fn todo_related(
    id: Seq<char>,
    project: Seq<char>,
    pentries: Seq<Seq<char>>,
    t: Seq<char>,
) -> Seq<Seq<char>> {
    if id.is_prefix_of(t) {
        let own = seq!["todos/"@ + t];
        match agent_of(id, t) {
            Some(a) => if pentries.contains(agent_file(a)) {
                own.push("projects/"@ + project + "/"@ + agent_file(a))
            } else {
                own
            },
            None => own,
        }
    } else {
        Seq::<Seq<char>>::empty()
    }
}

pub open spec fn todos_related(
    id: Seq<char>,
    project: Seq<char>,
    pentries: Seq<Seq<char>>,
    todos: Seq<Seq<char>>,
) -> Seq<Seq<char>>
    decreases todos.len(),
{
    if todos.len() == 0 {
        Seq::<Seq<char>>::empty()
    } else {
        todos_related(id, project, pentries, todos.drop_last()) + todo_related(
            id,
            project,
            pentries,
            todos.last(),
        )
    }
}

pub open spec fn present_if(c: bool, p: Seq<char>) -> Seq<Seq<char>> {
    if c {
        seq![p]
    } else {
        Seq::<Seq<char>>::empty()
    }
}

/// A session's related files that exist: its debug dump, environment
/// snapshot and file history, then the todo entries that its id prefixes
/// with the agent transcripts they name.
pub open spec fn related(id: Seq<char>, project: ProjectDir, sat: Satellites) -> Seq<Seq<char>> {
    present_if(views(sat.debug@).contains(id + ".txt"@), "debug/"@ + id + ".txt"@) + present_if(
        views(sat.session_env@).contains(id),
        "session-env/"@ + id,
    ) + present_if(views(sat.file_history@).contains(id), "file-history/"@ + id) + todos_related(
        id,
        project.name@,
        views(project.entries@),
        views(sat.todos@),
    )
}

/// The satellite roots.
pub enum Root {
    Debug,
    SessionEnv,
    FileHistory,
    Todos,
}

pub open spec fn root_dir(root: Root) -> Seq<char> {
    match root {
        Root::Debug => "debug"@,
        Root::SessionEnv => "session-env"@,
        Root::FileHistory => "file-history"@,
        Root::Todos => "todos"@,
    }
}

/// Whether an entry of a satellite root belongs to no canonical session. A
/// todo entry belongs to every id that prefixes its name; the debug entry
/// `latest` belongs to all.
pub open spec fn is_orphan(root: Root, canon: Seq<Seq<char>>, n: Seq<char>) -> bool {
    match root {
        Root::Todos => forall|i: int| 0 <= i < canon.len() ==> !(#[trigger] canon[i]).is_prefix_of(n),
        Root::Debug => n != "latest"@ && !canon.contains(stem_of(n)),
        _ => !canon.contains(stem_of(n)),
    }
}

/// The paths of the orphaned entries of one root, in listing order.
pub open spec fn orphans_among(root: Root, canon: Seq<Seq<char>>, ns: Seq<Seq<char>>) -> Seq<
    Seq<char>,
>
    decreases ns.len(),
{
    if ns.len() == 0 {
        Seq::<Seq<char>>::empty()
    } else if is_orphan(root, canon, ns.last()) {
        orphans_among(root, canon, ns.drop_last()).push(root_dir(root) + "/"@ + ns.last())
    } else {
        orphans_among(root, canon, ns.drop_last())
    }
}

/// The orphaned satellite entries of a tree: debug, session-env,
/// file-history, then todos.
pub open spec fn orphans(ps: Seq<ProjectDir>, sat: Satellites) -> Seq<Seq<char>> {
    let c = canonical_ids(ps);
    orphans_among(Root::Debug, c, views(sat.debug@)) + orphans_among(
        Root::SessionEnv,
        c,
        views(sat.session_env@),
    ) + orphans_among(Root::FileHistory, c, views(sat.file_history@)) + orphans_among(
        Root::Todos,
        c,
        views(sat.todos@),
    )
}

/// The session id of a transcript's file name.
pub fn transcript_id_of(name: &str) -> (r: Option<String>)
    ensures
        match r {
            Some(id) => transcript_id(name@) == Some(id@),
            None => transcript_id(name@) is None,
        },
{
    let cs = chars_of(name);
    let ext = chars_of(".jsonl");
    if cs.len() <= ext.len() || !ends_with_chars(&cs, &ext) {
        return None;
    }
    let stem = string_of_range(&cs, 0, cs.len() - ext.len());
    let sc = chars_of(stem.as_str());
    let agent = chars_of("agent-");
    if starts_with_chars(&sc, &agent) {
        return None;
    }
    proof {
        assert(cs@.subrange(0, cs.len() - ext.len()) =~= name@.take(name@.len() - ".jsonl"@.len()));
    }
    Some(stem)
}

/// A file name without its last extension.
pub fn file_stem(name: &str) -> (r: String)
    ensures
        r@ == stem_of(name@),
{
    let cs = chars_of(name);
    let mut i: usize = cs.len();
    proof {
        assert(cs@.take(cs.len() as int) =~= cs@);
    }
    while i > 0
        invariant
            i <= cs.len(),
            cs@ == name@,
            last_index_of(name@, '.') == last_index_of(cs@.take(i as int), '.'),
        decreases i,
    {
        proof {
            assert(cs@.take(i as int).drop_last() =~= cs@.take(i - 1));
        }
        if cs[i - 1] == '.' {
            if i - 1 > 0 {
                return string_of_range(&cs, 0, i - 1);
            } else {
                return String::from_str(name);
            }
        }
        i -= 1;
    }
    String::from_str(name)
}

/// The canonical session ids of a tree: the transcript stems of every
/// project directory, agent transcripts left out.
pub fn session_ids(ps: &Vec<ProjectDir>) -> (r: Vec<String>)
    ensures
        views(r@) == canonical_ids(ps@),
{
    let mut out: Vec<String> = Vec::new();
    let mut p: usize = 0;
    while p < ps.len()
        invariant
            p <= ps.len(),
            views(out@) == canonical_ids(ps@.take(p as int)),
        decreases ps.len() - p,
    {
        let entries = &ps[p].entries;
        let ghost base = views(out@);
        let mut e: usize = 0;
        proof {
            assert(ps@.take(p + 1).drop_last() =~= ps@.take(p as int));
            assert(views(entries@).take(0) =~= Seq::<Seq<char>>::empty());
            assert(base + ids_in(Seq::<Seq<char>>::empty()) =~= base);
        }
        while e < entries.len()
            invariant
                e <= entries.len(),
                views(out@) == base + ids_in(views(entries@).take(e as int)),
            decreases entries.len() - e,
        {
            let ghost before = out@;
            proof {
                assert(views(entries@).take(e + 1).drop_last() =~= views(entries@).take(e as int));
            }
            match transcript_id_of(entries[e].as_str()) {
                Some(id) => {
                    out.push(id);
                    proof {
                        assert(views(out@) =~= views(before).push(id@));
                    }
                },
                None => {},
            }
            e += 1;
        }
        proof {
            assert(views(entries@).take(entries.len() as int) =~= views(entries@));
        }
        p += 1;
    }
    proof {
        assert(ps@.take(ps.len() as int) =~= ps@);
    }
    out
}

/// The agent id that a todo file names for a session.
pub fn agent_id(id: &str, t: &str) -> (r: Option<String>)
    ensures
        match r {
            Some(a) => agent_of(id@, t@) == Some(a@),
            None => agent_of(id@, t@) is None,
        },
{
    let pre = chars_of(concat(id, "-agent-").as_str());
    let tc = chars_of(t);
    if !starts_with_chars(&tc, &pre) {
        return None;
    }
    let rest = string_of_range(&tc, pre.len(), tc.len());
    let rc = chars_of(rest.as_str());
    let ext = chars_of(".json");
    if !ends_with_chars(&rc, &ext) {
        return None;
    }
    proof {
        assert(rc@ =~= t@.skip(pre.len() as int));
    }
    Some(string_of_range(&rc, 0, rc.len() - ext.len()))
}

/// Appends `dir/name` to a list of paths.
fn push_path(out: &mut Vec<String>, dir: &str, name: &str)
    ensures
        views(final(out)@) == views(old(out)@).push(dir@ + name@),
{
    let ghost before = out@;
    out.push(concat(dir, name));
    proof {
        assert(views(out@) =~= views(before).push(dir@ + name@));
    }
}

/// The related files of a session that exist in the listed tree, for its id
/// and its project directory.
pub fn find_related(id: &str, project: &ProjectDir, sat: &Satellites) -> (r: Vec<String>)
    ensures
        views(r@) == related(id@, *project, *sat),
{
    let mut out: Vec<String> = Vec::new();
    let dbg = concat(id, ".txt");
    if contains_text(&sat.debug, dbg.as_str()) {
        push_path(&mut out, "debug/", dbg.as_str());
        proof {
            assert("debug/"@ + (id@ + ".txt"@) =~= "debug/"@ + id@ + ".txt"@);
        }
    }
    if contains_text(&sat.session_env, id) {
        push_path(&mut out, "session-env/", id);
    }
    if contains_text(&sat.file_history, id) {
        push_path(&mut out, "file-history/", id);
    }
    let ghost base = views(out@);
    proof {
        assert(base =~= present_if(views(sat.debug@).contains(id@ + ".txt"@), "debug/"@ + id@ + ".txt"@)
            + present_if(views(sat.session_env@).contains(id@), "session-env/"@ + id@) + present_if(
            views(sat.file_history@).contains(id@),
            "file-history/"@ + id@,
        ));
    }
    let idc = chars_of(id);
    let todos = &sat.todos;
    let mut i: usize = 0;
    proof {
        assert(views(todos@).take(0) =~= Seq::<Seq<char>>::empty());
        assert(base + Seq::<Seq<char>>::empty() =~= base);
    }
    while i < todos.len()
        invariant
            i <= todos.len(),
            idc@ == id@,
            *todos == sat.todos,
            views(out@) == base + todos_related(
                id@,
                project.name@,
                views(project.entries@),
                views(todos@).take(i as int),
            ),
        decreases todos.len() - i,
    {
        let t = &todos[i];
        let ghost before = views(out@);
        proof {
            assert(views(todos@).take(i + 1).drop_last() =~= views(todos@).take(i as int));
            assert(views(todos@).take(i + 1).last() == t@);
        }
        let tc = chars_of(t.as_str());
        if starts_with_chars(&tc, &idc) {
            push_path(&mut out, "todos/", t.as_str());
            match agent_id(id, t.as_str()) {
                Some(a) => {
                    let file = concat(concat("agent-", a.as_str()).as_str(), ".jsonl");
                    if contains_text(&project.entries, file.as_str()) {
                        let dir = concat(concat("projects/", project.name.as_str()).as_str(), "/");
                        push_path(&mut out, dir.as_str(), file.as_str());
                        proof {
                            assert(views(out@) =~= before + seq!["todos/"@ + t@].push(
                                "projects/"@ + project.name@ + "/"@ + agent_file(a@),
                            ));
                        }
                    } else {
                        proof {
                            assert(views(out@) =~= before + seq!["todos/"@ + t@]);
                        }
                    }
                },
                None => {
                    proof {
                        assert(views(out@) =~= before + seq!["todos/"@ + t@]);
                    }
                },
            }
        } else {
            proof {
                assert(views(out@) =~= before + Seq::<Seq<char>>::empty());
            }
        }
        proof {
            let pre = todos_related(id@, project.name@, views(project.entries@), views(todos@).take(i as int));
            assert(base + (pre + todo_related(id@, project.name@, views(project.entries@), t@))
                =~= (base + pre) + todo_related(id@, project.name@, views(project.entries@), t@));
        }
        i += 1;
    }
    proof {
        assert(views(todos@).take(todos.len() as int) =~= views(todos@));
    }
    out
}

impl Root {
    /// The directory name of the root.
    pub fn dir_name(&self) -> (r: &'static str)
        ensures
            r@ == root_dir(*self),
    {
        match self {
            Root::Debug => "debug",
            Root::SessionEnv => "session-env",
            Root::FileHistory => "file-history",
            Root::Todos => "todos",
        }
    }
}

/// Whether an entry of a satellite root belongs to no canonical session.
pub fn orphaned(root: &Root, canon: &Vec<String>, name: &str) -> (r: bool)
    ensures
        r == is_orphan(*root, views(canon@), name@),
{
    match root {
        Root::Todos => {
            let nc = chars_of(name);
            let mut i: usize = 0;
            while i < canon.len()
                invariant
                    i <= canon.len(),
                    nc@ == name@,
                    *root == Root::Todos,
                    forall|k: int| 0 <= k < i ==> !(#[trigger] views(canon@)[k]).is_prefix_of(name@),
                decreases canon.len() - i,
            {
                let cc = chars_of(canon[i].as_str());
                if starts_with_chars(&nc, &cc) {
                    proof {
                        assert(views(canon@)[i as int] == cc@);
                        assert(views(canon@)[i as int].is_prefix_of(name@));
                        assert(!is_orphan(*root, views(canon@), name@));
                    }
                    return false;
                }
                i += 1;
            }
            true
        },
        Root::Debug => {
            if same_text(name, "latest") {
                return false;
            }
            let stem = file_stem(name);
            !contains_text(canon, stem.as_str())
        },
        _ => {
            let stem = file_stem(name);
            !contains_text(canon, stem.as_str())
        },
    }
}

/// Appends the paths of the orphaned entries of one root.
fn collect_orphans(out: &mut Vec<String>, root: &Root, canon: &Vec<String>, names: &Vec<String>)
    ensures
        views(final(out)@) == views(old(out)@) + orphans_among(*root, views(canon@), views(names@)),
{
    let ghost base = views(out@);
    let dir = concat(root.dir_name(), "/");
    let mut i: usize = 0;
    proof {
        assert(views(names@).take(0) =~= Seq::<Seq<char>>::empty());
        assert(base + Seq::<Seq<char>>::empty() =~= base);
    }
    while i < names.len()
        invariant
            i <= names.len(),
            dir@ == root_dir(*root) + "/"@,
            views(out@) == base + orphans_among(*root, views(canon@), views(names@).take(i as int)),
        decreases names.len() - i,
    {
        let ghost before = views(out@);
        proof {
            assert(views(names@).take(i + 1).drop_last() =~= views(names@).take(i as int));
            assert(views(names@).take(i + 1).last() == names@[i as int]@);
        }
        if orphaned(root, canon, names[i].as_str()) {
            push_path(out, dir.as_str(), names[i].as_str());
            proof {
                assert(views(out@) =~= base + orphans_among(
                    *root,
                    views(canon@),
                    views(names@).take(i + 1),
                ));
            }
        }
        i += 1;
    }
    proof {
        assert(views(names@).take(names.len() as int) =~= views(names@));
    }
}

/// The orphaned satellite entries of a tree, computed from its listing.
pub fn find_orphans(ps: &Vec<ProjectDir>, sat: &Satellites) -> (r: Vec<String>)
    ensures
        views(r@) == orphans(ps@, *sat),
{
    let canon = session_ids(ps);
    let mut out: Vec<String> = Vec::new();
    collect_orphans(&mut out, &Root::Debug, &canon, &sat.debug);
    collect_orphans(&mut out, &Root::SessionEnv, &canon, &sat.session_env);
    collect_orphans(&mut out, &Root::FileHistory, &canon, &sat.file_history);
    collect_orphans(&mut out, &Root::Todos, &canon, &sat.todos);
    proof {
        assert(views(out@) =~= orphans(ps@, *sat));
    }
    out
}

} // verus!

verus! {

/// How many entries of one root are orphaned.
pub open spec fn count_orphans(root: Root, canon: Seq<Seq<char>>, ns: Seq<Seq<char>>) -> nat
    decreases ns.len(),
{
    if ns.len() == 0 {
        0
    } else {
        count_orphans(root, canon, ns.drop_last()) + if is_orphan(root, canon, ns.last()) {
            1nat
        } else {
            0nat
        }
    }
}

/// The name that an orphan path was made from.
pub open spec fn entry_of(root: Root, path: Seq<char>) -> Seq<char> {
    path.skip(root_dir(root).len() + 1int)
}

proof fn lemma_orphans_among(root: Root, canon: Seq<Seq<char>>, ns: Seq<Seq<char>>)
    ensures
        orphans_among(root, canon, ns).len() == count_orphans(root, canon, ns),
        forall|k: int|
            0 <= k < orphans_among(root, canon, ns).len() ==> is_orphan(
                root,
                canon,
                entry_of(root, #[trigger] orphans_among(root, canon, ns)[k]),
            ) && orphans_among(root, canon, ns)[k] == root_dir(root) + "/"@ + entry_of(
                root,
                orphans_among(root, canon, ns)[k],
            ),
    decreases ns.len(),
{
    reveal_strlit("/");
    if ns.len() > 0 {
        let prev = orphans_among(root, canon, ns.drop_last());
        lemma_orphans_among(root, canon, ns.drop_last());
        let cur = orphans_among(root, canon, ns);
        assert forall|k: int| 0 <= k < cur.len() implies is_orphan(
            root,
            canon,
            entry_of(root, #[trigger] cur[k]),
        ) && cur[k] == root_dir(root) + "/"@ + entry_of(root, cur[k]) by {
            if k < prev.len() {
                assert(cur[k] == prev[k]);
            } else {
                let n = ns.last();
                assert(cur[k] == root_dir(root) + "/"@ + n);
                assert(entry_of(root, cur[k]) =~= n);
            }
        }
    }
}

/// The orphan sweep returns exactly one path for each entry of a satellite
/// root that no canonical session owns, and never `debug/latest`.
pub proof fn law_orphans_exact(ps: Seq<ProjectDir>, sat: Satellites)
    ensures
        orphans(ps, sat).len() == count_orphans(
            Root::Debug,
            canonical_ids(ps),
            views(sat.debug@),
        ) + count_orphans(Root::SessionEnv, canonical_ids(ps), views(sat.session_env@))
            + count_orphans(Root::FileHistory, canonical_ids(ps), views(sat.file_history@))
            + count_orphans(Root::Todos, canonical_ids(ps), views(sat.todos@)),
        !orphans(ps, sat).contains("debug/latest"@),
{
    let c = canonical_ids(ps);
    let a = orphans_among(Root::Debug, c, views(sat.debug@));
    let b = orphans_among(Root::SessionEnv, c, views(sat.session_env@));
    let d = orphans_among(Root::FileHistory, c, views(sat.file_history@));
    let e = orphans_among(Root::Todos, c, views(sat.todos@));
    lemma_orphans_among(Root::Debug, c, views(sat.debug@));
    lemma_orphans_among(Root::SessionEnv, c, views(sat.session_env@));
    lemma_orphans_among(Root::FileHistory, c, views(sat.file_history@));
    lemma_orphans_among(Root::Todos, c, views(sat.todos@));
    let all = orphans(ps, sat);
    assert(all == a + b + d + e);
    reveal_strlit("debug/latest");
    reveal_strlit("debug");
    reveal_strlit("session-env");
    reveal_strlit("file-history");
    reveal_strlit("todos");
    reveal_strlit("latest");
    reveal_strlit("/");
    let target = "debug/latest"@;
    if all.contains(target) {
        let k = choose|k: int| 0 <= k < all.len() && all[k] == target;
        if k < a.len() {
            assert(all[k] == a[k]);
            let n = entry_of(Root::Debug, a[k]);
            assert(is_orphan(Root::Debug, c, n));
            assert(a[k].skip(6) =~= n);
            assert(target.skip(6) =~= "latest"@);
            assert(false);
        } else if k < a.len() + b.len() {
            let j = k - a.len();
            assert(all[k] == b[j]);
            assert(b[j] == root_dir(Root::SessionEnv) + "/"@ + entry_of(Root::SessionEnv, b[j]));
            assert(b[j][0] == 's');
            assert(false);
        } else if k < a.len() + b.len() + d.len() {
            let j = k - a.len() - b.len();
            assert(all[k] == d[j]);
            assert(d[j] == root_dir(Root::FileHistory) + "/"@ + entry_of(Root::FileHistory, d[j]));
            assert(d[j][0] == 'f');
            assert(false);
        } else {
            let j = k - a.len() - b.len() - d.len();
            assert(all[k] == e[j]);
            assert(e[j] == root_dir(Root::Todos) + "/"@ + entry_of(Root::Todos, e[j]));
            assert(e[j][0] == 't');
            assert(false);
        }
    }
}

} // verus!

verus! {

proof fn lemma_cancel_prefix(x: Seq<char>, a: Seq<char>, b: Seq<char>)
    requires
        x + a == x + b,
    ensures
        a == b,
{
    assert(a =~= (x + a).skip(x.len() as int));
    assert(b =~= (x + b).skip(x.len() as int));
}

proof fn lemma_cancel_suffix(a: Seq<char>, b: Seq<char>, y: Seq<char>)
    requires
        a + y == b + y,
    ensures
        a == b,
{
    assert(a =~= (a + y).take(a.len() as int));
    assert(b =~= (b + y).take(b.len() as int));
}

/// A todo entry that names an agent is spelt from the id and the agent.
proof fn lemma_agent_of(id: Seq<char>, t: Seq<char>)
    requires
        agent_of(id, t) is Some,
    ensures
        t == id + "-agent-"@ + agent_of(id, t)->0 + ".json"@,
{
    let pre = id + "-agent-"@;
    let rest = t.skip(pre.len() as int);
    let a = agent_of(id, t)->0;
    assert(rest == a + ".json"@) by {
        assert(rest =~= rest.take(rest.len() - ".json"@.len()) + rest.skip(
            rest.len() - ".json"@.len(),
        ));
        assert(rest.skip(rest.len() - ".json"@.len()) =~= ".json"@);
    }
    assert(t =~= pre + rest);
}

pub open spec fn agent_path(project: Seq<char>, a: Seq<char>) -> Seq<char> {
    "projects/"@ + project + "/"@ + agent_file(a)
}

/// What a todo entry's contributions look like: the entry under `todos/`,
/// or the transcript of the agent it names.
pub open spec fn todo_shaped(
    id: Seq<char>,
    project: Seq<char>,
    todos: Seq<Seq<char>>,
    path: Seq<char>,
) -> bool {
    ||| exists|t: Seq<char>| todos.contains(t) && path == #[trigger] ("todos/"@ + t)
    ||| exists|a: Seq<char>|
        todos.contains(id + "-agent-"@ + a + ".json"@) && path == #[trigger] agent_path(project, a)
}

proof fn lemma_heads()
    ensures
        ("todos/"@)[0] == 't',
        ("projects/"@)[0] == 'p',
        ("debug/"@)[0] == 'd',
        ("session-env/"@)[0] == 's',
        ("file-history/"@)[0] == 'f',
        ("todos/"@).len() == 6,
        ("projects/"@).len() == 9,
        ("debug/"@).len() == 6,
        ("session-env/"@).len() == 12,
        ("file-history/"@).len() == 13,
{
    reveal_strlit("todos/");
    reveal_strlit("projects/");
    reveal_strlit("debug/");
    reveal_strlit("session-env/");
    reveal_strlit("file-history/");
}

proof fn lemma_todos_related(
    id: Seq<char>,
    project: Seq<char>,
    pentries: Seq<Seq<char>>,
    todos: Seq<Seq<char>>,
)
    requires
        todos.no_duplicates(),
    ensures
        todos_related(id, project, pentries, todos).no_duplicates(),
        forall|i: int|
            0 <= i < todos_related(id, project, pentries, todos).len() ==> todo_shaped(
                id,
                project,
                todos,
                #[trigger] todos_related(id, project, pentries, todos)[i],
            ),
    decreases todos.len(),
{
    lemma_heads();
    if todos.len() > 0 {
        let init = todos.drop_last();
        let t = todos.last();
        assert(init.no_duplicates());
        lemma_todos_related(id, project, pentries, init);
        let prev = todos_related(id, project, pentries, init);
        let cur = todo_related(id, project, pentries, t);
        let all = todos_related(id, project, pentries, todos);
        assert(all == prev + cur);
        assert(!init.contains(t)) by {
            if init.contains(t) {
                let j = choose|j: int| 0 <= j < init.len() && init[j] == t;
                assert(todos[j] == todos[todos.len() - 1]);
            }
        }
        assert forall|k: int| 0 <= k < cur.len() implies todo_shaped(id, project, todos, #[trigger] cur[k])
            && !prev.contains(cur[k]) by {
            assert(todos.contains(t)) by {
                assert(todos[todos.len() - 1] == t);
            }
            if k == 0 {
                assert(cur[k] == "todos/"@ + t);
                if prev.contains(cur[k]) {
                    let j = choose|j: int| 0 <= j < prev.len() && prev[j] == cur[k];
                    assert(todo_shaped(id, project, init, prev[j]));
                    if exists|u: Seq<char>| init.contains(u) && prev[j] == #[trigger] ("todos/"@ + u) {
                        let u = choose|u: Seq<char>|
                            init.contains(u) && prev[j] == #[trigger] ("todos/"@ + u);
                        lemma_cancel_prefix("todos/"@, u, t);
                    } else {
                        let a = choose|a: Seq<char>|
                            init.contains(id + "-agent-"@ + a + ".json"@) && prev[j]
                                == #[trigger] agent_path(project, a);
                        assert(prev[j][0] == 'p');
                        assert(cur[k][0] == 't');
                    }
                }
            } else {
                let a = agent_of(id, t)->0;
                lemma_agent_of(id, t);
                assert(cur[k] == agent_path(project, a));
                if prev.contains(cur[k]) {
                    let j = choose|j: int| 0 <= j < prev.len() && prev[j] == cur[k];
                    assert(todo_shaped(id, project, init, prev[j]));
                    if exists|u: Seq<char>| init.contains(u) && prev[j] == #[trigger] ("todos/"@ + u) {
                        let u = choose|u: Seq<char>|
                            init.contains(u) && prev[j] == #[trigger] ("todos/"@ + u);
                        assert(prev[j][0] == 't');
                        assert(cur[k][0] == 'p');
                    } else {
                        let b = choose|b: Seq<char>|
                            init.contains(id + "-agent-"@ + b + ".json"@) && prev[j]
                                == #[trigger] agent_path(project, b);
                        lemma_cancel_prefix("projects/"@ + project + "/"@, agent_file(b), agent_file(a));
                        assert(agent_file(b) =~= "agent-"@ + (b + ".jsonl"@));
                        assert(agent_file(a) =~= "agent-"@ + (a + ".jsonl"@));
                        lemma_cancel_prefix("agent-"@, b + ".jsonl"@, a + ".jsonl"@);
                        lemma_cancel_suffix(b, a, ".jsonl"@);
                        assert(init.contains(t));
                    }
                }
            }
        }
        assert(cur.no_duplicates()) by {
            if cur.len() == 2 {
                assert(cur[0][0] == 't');
                assert(cur[1][0] == 'p');
            }
        }
        assert forall|i: int| 0 <= i < all.len() implies todo_shaped(
            id,
            project,
            todos,
            #[trigger] all[i],
        ) by {
            if i < prev.len() {
                assert(all[i] == prev[i]);
                assert(todo_shaped(id, project, init, prev[i]));
                if exists|u: Seq<char>| init.contains(u) && prev[i] == #[trigger] ("todos/"@ + u) {
                    let u = choose|u: Seq<char>| init.contains(u) && prev[i] == #[trigger] ("todos/"@ + u);
                    assert(todos.contains(u)) by {
                        let j = choose|j: int| 0 <= j < init.len() && init[j] == u;
                        assert(todos[j] == u);
                    }
                } else {
                    let a = choose|a: Seq<char>|
                        init.contains(id + "-agent-"@ + a + ".json"@) && prev[i]
                            == #[trigger] agent_path(project, a);
                    assert(todos.contains(id + "-agent-"@ + a + ".json"@)) by {
                        let j = choose|j: int|
                            0 <= j < init.len() && init[j] == id + "-agent-"@ + a + ".json"@;
                        assert(todos[j] == init[j]);
                    }
                }
            } else {
                assert(all[i] == cur[i - prev.len()]);
            }
        }
        assert forall|i: int, j: int| 0 <= i < j < all.len() implies all[i] != all[j] by {
            if j < prev.len() {
                assert(all[i] == prev[i] && all[j] == prev[j]);
            } else if i < prev.len() {
                assert(all[i] == prev[i]);
                assert(all[j] == cur[j - prev.len()]);
                assert(!prev.contains(cur[j - prev.len()]));
            } else {
                assert(all[i] == cur[i - prev.len()] && all[j] == cur[j - prev.len()]);
            }
        }
    }
}

} // verus!

verus! {

/// The path of a project's transcript.
pub open spec fn transcript_path(project: Seq<char>, name: Seq<char>) -> Seq<char> {
    "projects/"@ + project + "/"@ + name
}

/// Where the todo entries are listed once, a session's related files are
/// distinct, and none of them is the session's transcript.
pub proof fn lemma_related_distinct(id: Seq<char>, project: ProjectDir, sat: Satellites, name: Seq<char>)
    requires
        views(sat.todos@).no_duplicates(),
        transcript_id(name) == Some(id),
    ensures
        related(id, project, sat).no_duplicates(),
        !related(id, project, sat).contains(transcript_path(project.name@, name)),
{
    lemma_heads();
    let p = project.name@;
    let todos = views(sat.todos@);
    let pd = present_if(views(sat.debug@).contains(id + ".txt"@), "debug/"@ + id + ".txt"@);
    let pe = present_if(views(sat.session_env@).contains(id), "session-env/"@ + id);
    let pf = present_if(views(sat.file_history@).contains(id), "file-history/"@ + id);
    let t = todos_related(id, p, views(project.entries@), todos);
    lemma_todos_related(id, p, views(project.entries@), todos);
    let r = related(id, project, sat);
    assert(r == pd + pe + pf + t);
    let na = pd.len() + pe.len() + pf.len();
    let path = transcript_path(p, name);
    assert(path[0] == 'p');
    // heads of each element
    assert forall|i: int| 0 <= i < r.len() implies #[trigger] r[i].len() > 0 && (if i < pd.len() {
        r[i][0] == 'd'
    } else if i < pd.len() + pe.len() {
        r[i][0] == 's'
    } else if i < na {
        r[i][0] == 'f'
    } else {
        r[i][0] == 't' || r[i][0] == 'p'
    }) by {
        if i < pd.len() {
            assert(r[i] == pd[i]);
        } else if i < pd.len() + pe.len() {
            assert(r[i] == pe[i - pd.len()]);
        } else if i < na {
            assert(r[i] == pf[i - pd.len() - pe.len()]);
        } else {
            assert(r[i] == t[i - na]);
            assert(todo_shaped(id, p, todos, t[i - na]));
        }
    }
    assert forall|i: int, j: int| 0 <= i < j < r.len() implies r[i] != r[j] by {
        if j >= na && i >= na {
            assert(r[i] == t[i - na] && r[j] == t[j - na]);
        } else {
            assert(r[i][0] != r[j][0]);
        }
    }
    if r.contains(path) {
        let i = choose|i: int| 0 <= i < r.len() && r[i] == path;
        assert(i >= na);
        assert(r[i] == t[i - na]);
        assert(todo_shaped(id, p, todos, t[i - na]));
        if exists|u: Seq<char>| todos.contains(u) && t[i - na] == #[trigger] ("todos/"@ + u) {
            let u = choose|u: Seq<char>| todos.contains(u) && t[i - na] == #[trigger] ("todos/"@ + u);
            assert(t[i - na][0] == 't');
        } else {
            let a = choose|a: Seq<char>|
                todos.contains(id + "-agent-"@ + a + ".json"@) && t[i - na]
                    == #[trigger] agent_path(p, a);
            lemma_cancel_prefix("projects/"@ + p + "/"@, agent_file(a), name);
            reveal_strlit(".jsonl");
            reveal_strlit("agent-");
            let stem = name.take(name.len() - ".jsonl"@.len());
            assert(stem =~= "agent-"@ + a);
            assert("agent-"@.is_prefix_of(stem));
        }
    }
}

} // verus!
