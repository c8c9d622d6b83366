//! Session records: building them from a listed tree through the cache,
//! ordering them, and what deleting one removes.

use vstd::prelude::*;

use crate::cache::{fresh_in, Cache, CachedMetadata, copy_opt};
use crate::order::{ordered, sort_records, SortBy};
use crate::layout::{find_related, related, transcript_id, transcript_id_of, ProjectDir, Satellites};
use crate::scanner::{
    count_messages, empty_marker, first_message, last_title, opt_view, scan_file,
};
use crate::text::{
    blank, chars_of, concat, decimal, digit, flatten, flatten_newlines, is_blank, lines_of,
    push_char, push_decimal, string_of_range, views,
};

verus! {

/// One session, as loaded from its transcript. Paths are relative to the
/// tree's root; `modified` is in whole seconds since the Unix epoch.
pub struct Session {
    pub id: String,
    pub path: String,
    pub project: String,
    pub size: u64,
    pub message_count: usize,
    pub first_message: String,
    pub modified: u64,
    pub custom_name: Option<String>,
    pub related_files: Vec<String>,
}

/// A session as plain values.
pub struct SessionRecord {
    pub id: Seq<char>,
    pub path: Seq<char>,
    pub project: Seq<char>,
    pub size: u64,
    pub message_count: nat,
    pub first_message: Seq<char>,
    pub modified: u64,
    pub custom_name: Option<Seq<char>>,
    pub related_files: Seq<Seq<char>>,
}

impl Session {
    pub open spec fn record(self) -> SessionRecord {
        SessionRecord {
            id: self.id@,
            path: self.path@,
            project: self.project@,
            size: self.size,
            message_count: self.message_count as nat,
            first_message: self.first_message@,
            modified: self.modified,
            custom_name: opt_view(self.custom_name),
            related_files: views(self.related_files@),
        }
    }
}

/// A copy of a list of strings.
pub fn copy_strings(v: &Vec<String>) -> (r: Vec<String>)
    ensures
        r@ == v@,
{
    let mut out: Vec<String> = Vec::new();
    let mut i: usize = 0;
    while i < v.len()
        invariant
            i <= v.len(),
            out@ == v@.take(i as int),
        decreases v.len() - i,
    {
        out.push(v[i].clone());
        proof {
            assert(v@.take(i + 1) =~= v@.take(i as int).push(v@[i as int]));
        }
        i += 1;
    }
    proof {
        assert(v@.take(v.len() as int) =~= v@);
    }
    out
}

impl Session {
    /// A copy of the session.
    pub fn duplicate(&self) -> (r: Session)
        ensures
            r.record() == self.record(),
    {
        Session {
            id: self.id.clone(),
            path: self.path.clone(),
            project: self.project.clone(),
            size: self.size,
            message_count: self.message_count,
            first_message: self.first_message.clone(),
            modified: self.modified,
            custom_name: copy_opt(&self.custom_name),
            related_files: copy_strings(&self.related_files),
        }
    }
}

/// A transcript found under a project directory: the index of that
/// directory in the listing, its file name, size in bytes, modification time
/// in whole seconds, and its text where it was read.
pub struct TranscriptFile {
    pub project: usize,
    pub name: String,
    pub size: u64,
    pub modified: u64,
    pub text: Option<String>,
}

/// Title, message count and first message.
pub open spec fn fields_view(f: (Option<String>, usize, String)) -> (
    Option<Seq<char>>,
    nat,
    Seq<char>,
) {
    (opt_view(f.0), f.1 as nat, f.2@)
}

/// What a scan of a transcript's text gives; an unreadable transcript has
/// no title, no messages and an empty first message.
pub open spec fn scanned(text: Option<Seq<char>>) -> (Option<Seq<char>>, nat, Seq<char>) {
    match text {
        Some(t) => {
            let ls = lines_of(t);
            (
                last_title(ls),
                count_messages(ls),
                match first_message(ls) {
                    Some(f) => f,
                    None => empty_marker(),
                },
            )
        },
        None => (None, 0, Seq::<char>::empty()),
    }
}

pub open spec fn meta_fields(m: CachedMetadata) -> (Option<Seq<char>>, nat, Seq<char>) {
    (opt_view(m.custom_name), m.message_count as nat, m.first_message@)
}

/// The fields of a transcript: those cached for its id where they were
/// recorded at its current modification time, else those of a fresh scan.
pub open spec fn reconciled(
    old: Map<Seq<char>, CachedMetadata>,
    id: Seq<char>,
    ts: u64,
    text: Option<Seq<char>>,
) -> (Option<Seq<char>>, nat, Seq<char>) {
    if fresh_in(old, id, ts) {
        meta_fields(old[id])
    } else {
        scanned(text)
    }
}

pub open spec fn text_view(t: Option<&str>) -> Option<Seq<char>> {
    match t {
        Some(s) => Some(s@),
        None => None,
    }
}

/// The cache entry that a pass leaves for a transcript with the given fields.
pub open spec fn entry_of(f: (Option<String>, usize, String), ts: u64) -> CachedMetadata {
    CachedMetadata { custom_name: f.0, message_count: f.1, first_message: f.2, modified_ts: ts }
}

/// The tree's settings: its root, the cache file and the history log.
pub struct SessionManager {
    pub claude_root: String,
    pub cache_file: String,
    pub history_file: String,
}

impl SessionManager {
    /// A manager over the given root, cache file and history log.
    pub fn new(claude_root: String, cache_file: String, history_file: String) -> (r: SessionManager)
        ensures
            r.claude_root == claude_root,
            r.cache_file == cache_file,
            r.history_file == history_file,
    {
        SessionManager { claude_root, cache_file, history_file }
    }

    /// A manager over a root that holds the history log `history.jsonl` and
    /// the cache file `sessions_tui_cache.json`.
    pub fn under(claude_root: String) -> (r: SessionManager)
        ensures
            r.claude_root@ == claude_root@,
            r.history_file@ == claude_root@ + "/history.jsonl"@,
            r.cache_file@ == claude_root@ + "/sessions_tui_cache.json"@,
    {
        let history_file = concat(claude_root.as_str(), "/history.jsonl");
        let cache_file = concat(claude_root.as_str(), "/sessions_tui_cache.json");
        SessionManager { claude_root, cache_file, history_file }
    }

    /// The full path of a path relative to the root.
    pub fn path_of(&self, rel: &str) -> (r: String)
        ensures
            r@ == self.claude_root@ + "/"@ + rel@,
    {
        concat(concat(self.claude_root.as_str(), "/").as_str(), rel)
    }

    /// Scans a transcript's text (nothing where it could not be read) and
    /// records the result under its id with modification time `ts`.
    pub fn scan_and_cache(text: Option<&str>, id: &str, ts: u64, cache: &mut Cache) -> (r: (
        Option<String>,
        usize,
        String,
    ))
        ensures
            fields_view(r) == scanned(text_view(text)),
            final(cache)@ == old(cache)@.insert(id@, entry_of(r, ts)),
    {
        let (title, count, first) = match text {
            Some(t) => {
                let s = scan_file(t);
                (s.title, s.message_count, s.first_message)
            },
            None => (None, 0, String::new()),
        };
        cache.insert(
            String::from_str(id),
            CachedMetadata {
                custom_name: copy_opt(&title),
                message_count: count,
                first_message: first.clone(),
                modified_ts: ts,
            },
        );
        (title, count, first)
    }

    /// The fields of a transcript through the cache: the entry of `cached`
    /// where it was recorded at `ts`, kept in `next`; else a scan of `text`,
    /// recorded in `next`.
    pub fn reconcile(
        cached: &Cache,
        next: &mut Cache,
        id: &str,
        ts: u64,
        text: Option<&str>,
    ) -> (r: (Option<String>, usize, String))
        ensures
            fields_view(r) == reconciled(cached@, id@, ts, text_view(text)),
            final(next)@ == old(next)@.insert(
                id@,
                if fresh_in(cached@, id@, ts) {
                    cached@[id@]
                } else {
                    entry_of(r, ts)
                },
            ),
    {
        match cached.get(id) {
            Some(m) => {
                if m.modified_ts == ts {
                    next.insert(String::from_str(id), m.duplicate());
                    return (copy_opt(&m.custom_name), m.message_count, m.first_message.clone());
                }
            },
            None => {},
        }
        Self::scan_and_cache(text, id, ts, next)
    }
}

/// The fields of a transcript whose cache entry was recorded at its current
/// modification time do not depend on its text.
pub proof fn law_cache_hides_content(
    old: Map<Seq<char>, CachedMetadata>,
    id: Seq<char>,
    ts: u64,
    text1: Option<Seq<char>>,
    text2: Option<Seq<char>>,
)
    requires
        fresh_in(old, id, ts),
    ensures
        reconciled(old, id, ts, text1) == reconciled(old, id, ts, text2),
        reconciled(old, id, ts, text1) == meta_fields(old[id]),
{
}

/// A transcript whose modification time differs from the one cached for it
/// is scanned again: its fields are those of its current text.
pub proof fn law_new_mtime_rescans(
    old: Map<Seq<char>, CachedMetadata>,
    id: Seq<char>,
    ts: u64,
    text: Option<Seq<char>>,
)
    requires
        old.contains_key(id),
        old[id].modified_ts != ts,
    ensures
        reconciled(old, id, ts, text) == scanned(text),
{
}

/// The id of a transcript that belongs to a listed project directory.
pub open spec fn counted_id(ps: Seq<ProjectDir>, f: TranscriptFile) -> Option<Seq<char>> {
    if f.project < ps.len() {
        transcript_id(f.name@)
    } else {
        None
    }
}

/// The record of a transcript whose id is `id`.
pub open spec fn file_record(
    ps: Seq<ProjectDir>,
    sat: Satellites,
    cached: Map<Seq<char>, CachedMetadata>,
    f: TranscriptFile,
    id: Seq<char>,
) -> SessionRecord {
    let p = ps[f.project as int];
    let fl = reconciled(cached, id, f.modified, opt_view(f.text));
    SessionRecord {
        id: id,
        path: "projects/"@ + p.name@ + "/"@ + f.name@,
        project: p.name@,
        size: f.size,
        message_count: fl.1,
        first_message: fl.2,
        modified: f.modified,
        custom_name: fl.0,
        related_files: related(id, p, sat),
    }
}

/// The records of the transcripts that are sessions, in order.
pub open spec fn records(
    ps: Seq<ProjectDir>,
    sat: Satellites,
    cached: Map<Seq<char>, CachedMetadata>,
    fs: Seq<TranscriptFile>,
) -> Seq<SessionRecord>
    decreases fs.len(),
{
    if fs.len() == 0 {
        Seq::<SessionRecord>::empty()
    } else {
        match counted_id(ps, fs.last()) {
            Some(id) => records(ps, sat, cached, fs.drop_last()).push(
                file_record(ps, sat, cached, fs.last(), id),
            ),
            None => records(ps, sat, cached, fs.drop_last()),
        }
    }
}

/// The cache that a load leaves: an entry for each session id and no other,
/// holding the fields and modification time of the last transcript with
/// that id.
pub open spec fn cache_after(
    next: Map<Seq<char>, CachedMetadata>,
    ps: Seq<ProjectDir>,
    cached: Map<Seq<char>, CachedMetadata>,
    fs: Seq<TranscriptFile>,
) -> bool {
    &&& forall|id: Seq<char>|
        #[trigger] next.contains_key(id) <==> exists|i: int|
            0 <= i < fs.len() && #[trigger] counted_id(ps, fs[i]) == Some(id)
    &&& forall|i: int|
        #![trigger counted_id(ps, fs[i])]
        0 <= i < fs.len() && counted_id(ps, fs[i]) is Some && (forall|j: int|
            i < j < fs.len() ==> #[trigger] counted_id(ps, fs[j]) != counted_id(ps, fs[i]))
            ==> {
            let id = counted_id(ps, fs[i])->0;
            &&& next[id].modified_ts == fs[i].modified
            &&& meta_fields(next[id]) == reconciled(cached, id, fs[i].modified, opt_view(fs[i].text))
        }
}

proof fn lemma_cache_after_skip(
    next: Map<Seq<char>, CachedMetadata>,
    ps: Seq<ProjectDir>,
    cached: Map<Seq<char>, CachedMetadata>,
    fs1: Seq<TranscriptFile>,
)
    requires
        fs1.len() > 0,
        cache_after(next, ps, cached, fs1.drop_last()),
        counted_id(ps, fs1.last()) is None,
    ensures
        cache_after(next, ps, cached, fs1),
{
    let fs = fs1.drop_last();
    assert(counted_id(ps, fs1[fs1.len() - 1]) is None);
    assert forall|k: Seq<char>| #[trigger] next.contains_key(k) <==> exists|j: int|
        0 <= j < fs1.len() && #[trigger] counted_id(ps, fs1[j]) == Some(k) by {
        if next.contains_key(k) {
            let j = choose|j: int| 0 <= j < fs.len() && #[trigger] counted_id(ps, fs[j]) == Some(k);
            assert(fs1[j] == fs[j]);
        }
        if exists|j: int| 0 <= j < fs1.len() && #[trigger] counted_id(ps, fs1[j]) == Some(k) {
            let j = choose|j: int| 0 <= j < fs1.len() && #[trigger] counted_id(ps, fs1[j]) == Some(k);
            assert(fs[j] == fs1[j]);
        }
    }
    assert forall|a: int|
        #![trigger counted_id(ps, fs1[a])]
        0 <= a < fs1.len() && counted_id(ps, fs1[a]) is Some && (forall|b: int|
            a < b < fs1.len() ==> #[trigger] counted_id(ps, fs1[b]) != counted_id(ps, fs1[a]))
            implies {
        let k = counted_id(ps, fs1[a])->0;
        &&& next[k].modified_ts == fs1[a].modified
        &&& meta_fields(next[k]) == reconciled(cached, k, fs1[a].modified, opt_view(fs1[a].text))
    } by {
        assert(fs1[a] == fs[a]);
        assert forall|b: int| a < b < fs.len() implies #[trigger] counted_id(ps, fs[b])
            != counted_id(ps, fs[a]) by {
            assert(fs[b] == fs1[b]);
        }
    }
}

proof fn lemma_cache_after_record(
    before: Map<Seq<char>, CachedMetadata>,
    next: Map<Seq<char>, CachedMetadata>,
    ps: Seq<ProjectDir>,
    cached: Map<Seq<char>, CachedMetadata>,
    fs1: Seq<TranscriptFile>,
)
    requires
        fs1.len() > 0,
        cache_after(before, ps, cached, fs1.drop_last()),
        counted_id(ps, fs1.last()) is Some,
        next == before.insert(counted_id(ps, fs1.last())->0, next[counted_id(ps, fs1.last())->0]),
        next[counted_id(ps, fs1.last())->0].modified_ts == fs1.last().modified,
        meta_fields(next[counted_id(ps, fs1.last())->0]) == reconciled(
            cached,
            counted_id(ps, fs1.last())->0,
            fs1.last().modified,
            opt_view(fs1.last().text),
        ),
    ensures
        cache_after(next, ps, cached, fs1),
{
    let fs = fs1.drop_last();
    let i = fs.len() as int;
    let key = counted_id(ps, fs1.last())->0;
    assert(fs1[i] == fs1.last());
    assert forall|k: Seq<char>| #[trigger] next.contains_key(k) <==> exists|j: int|
        0 <= j < fs1.len() && #[trigger] counted_id(ps, fs1[j]) == Some(k) by {
        if next.contains_key(k) && k != key {
            assert(before.contains_key(k));
            let j = choose|j: int| 0 <= j < fs.len() && #[trigger] counted_id(ps, fs[j]) == Some(k);
            assert(fs1[j] == fs[j]);
        }
        if k == key {
            assert(counted_id(ps, fs1[i]) == Some(k));
        }
        if exists|j: int| 0 <= j < fs1.len() && #[trigger] counted_id(ps, fs1[j]) == Some(k) {
            let j = choose|j: int| 0 <= j < fs1.len() && #[trigger] counted_id(ps, fs1[j]) == Some(k);
            if j < i {
                assert(fs[j] == fs1[j]);
                assert(counted_id(ps, fs[j]) == Some(k));
            }
        }
    }
    assert forall|a: int|
        #![trigger counted_id(ps, fs1[a])]
        0 <= a < fs1.len() && counted_id(ps, fs1[a]) is Some && (forall|b: int|
            a < b < fs1.len() ==> #[trigger] counted_id(ps, fs1[b]) != counted_id(ps, fs1[a]))
            implies {
        let k = counted_id(ps, fs1[a])->0;
        &&& next[k].modified_ts == fs1[a].modified
        &&& meta_fields(next[k]) == reconciled(cached, k, fs1[a].modified, opt_view(fs1[a].text))
    } by {
        if a < i {
            assert(fs1[a] == fs[a]);
            assert(counted_id(ps, fs1[i]) != counted_id(ps, fs1[a]));
            assert forall|b: int| a < b < fs.len() implies #[trigger] counted_id(ps, fs[b])
                != counted_id(ps, fs[a]) by {
                assert(fs[b] == fs1[b]);
            }
        }
    }
}

/// Builds the session records of a listed tree through the cache, in the
/// order of `files`, and the cache to persist. A file whose project index is
/// out of range, or whose name is no session transcript, is passed over.
pub fn collect_sessions(
    ps: &Vec<ProjectDir>,
    sat: &Satellites,
    files: &Vec<TranscriptFile>,
    cached: &Cache,
) -> (r: (Vec<Session>, Cache))
    ensures
        r.0@.map_values(|s: Session| s.record()) == records(ps@, *sat, cached@, files@),
        cache_after(r.1@, ps@, cached@, files@),
{
    let mut sessions: Vec<Session> = Vec::new();
    let mut next = Cache::new();
    let mut i: usize = 0;
    while i < files.len()
        invariant
            i <= files.len(),
            sessions@.map_values(|s: Session| s.record()) == records(
                ps@,
                *sat,
                cached@,
                files@.take(i as int),
            ),
            cache_after(next@, ps@, cached@, files@.take(i as int)),
        decreases files.len() - i,
    {
        let f = &files[i];
        let ghost fs = files@.take(i as int);
        let ghost fs1 = files@.take(i + 1);
        proof {
            assert(fs1.drop_last() =~= fs);
            assert(fs1.last() == files@[i as int]);
        }
        if f.project < ps.len() {
            match transcript_id_of(f.name.as_str()) {
                Some(id) => {
                    let p = &ps[f.project];
                    let text = match &f.text {
                        Some(t) => Some(t.as_str()),
                        None => None,
                    };
                    let ghost before = next@;
                    let (title, count, first) = SessionManager::reconcile(
                        cached,
                        &mut next,
                        id.as_str(),
                        f.modified,
                        text,
                    );
                    let path = concat(
                        concat(concat("projects/", p.name.as_str()).as_str(), "/").as_str(),
                        f.name.as_str(),
                    );
                    let related_files = find_related(id.as_str(), p, sat);
                    let ghost prev_sessions = sessions@;
                    let s = Session {
                        id,
                        path,
                        project: p.name.clone(),
                        size: f.size,
                        message_count: count,
                        first_message: first,
                        modified: f.modified,
                        custom_name: title,
                        related_files,
                    };
                    proof {
                        assert(text_view(text) == opt_view(f.text));
                        assert(s.record() == file_record(ps@, *sat, cached@, *f, s.id@));
                    }
                    sessions.push(s);
                    proof {
                        assert(sessions@.map_values(|s: Session| s.record())
                            =~= prev_sessions.map_values(|s: Session| s.record()).push(
                            s.record(),
                        ));
                        lemma_cache_after_record(before, next@, ps@, cached@, fs1);
                    }
                },
                None => {
                    proof {
                        lemma_cache_after_skip(next@, ps@, cached@, fs1);
                    }
                },
            }
        } else {
            proof {
                lemma_cache_after_skip(next@, ps@, cached@, fs1);
            }
        }
        i += 1;
    }
    proof {
        assert(files@.take(files.len() as int) =~= files@);
    }
    (sessions, next)
}

/// Two listings of the same transcripts, which may differ in the texts read.
pub open spec fn same_files(fs: Seq<TranscriptFile>, gs: Seq<TranscriptFile>) -> bool {
    &&& fs.len() == gs.len()
    &&& forall|i: int|
        0 <= i < fs.len() ==> {
            &&& (#[trigger] fs[i]).project == gs[i].project
            &&& fs[i].name@ == gs[i].name@
            &&& fs[i].size == gs[i].size
            &&& fs[i].modified == gs[i].modified
        }
}

/// No two transcripts of the tree share a session id.
pub open spec fn distinct_ids(ps: Seq<ProjectDir>, fs: Seq<TranscriptFile>) -> bool {
    forall|i: int, j: int|
        0 <= i < j < fs.len() && (#[trigger] counted_id(ps, fs[i])) is Some ==> counted_id(ps, fs[i])
            != #[trigger] counted_id(ps, fs[j])
}

proof fn lemma_reload_prefix(
    ps: Seq<ProjectDir>,
    sat: Satellites,
    c0: Map<Seq<char>, CachedMetadata>,
    c1: Map<Seq<char>, CachedMetadata>,
    fs: Seq<TranscriptFile>,
    gs: Seq<TranscriptFile>,
    n: int,
)
    requires
        0 <= n <= fs.len(),
        cache_after(c1, ps, c0, fs),
        same_files(fs, gs),
        distinct_ids(ps, fs),
    ensures
        records(ps, sat, c1, gs.take(n)) == records(ps, sat, c0, fs.take(n)),
    decreases n,
{
    if n > 0 {
        lemma_reload_prefix(ps, sat, c0, c1, fs, gs, n - 1);
        assert(gs.take(n).drop_last() =~= gs.take(n - 1));
        assert(fs.take(n).drop_last() =~= fs.take(n - 1));
        let f = fs[n - 1];
        let g = gs[n - 1];
        assert(gs.take(n).last() == g);
        assert(fs.take(n).last() == f);
        assert(f.project == g.project && f.name@ == g.name@);
        assert(counted_id(ps, f) == counted_id(ps, g));
        if counted_id(ps, f) is Some {
            let id = counted_id(ps, f)->0;
            assert forall|j: int| n - 1 < j < fs.len() implies #[trigger] counted_id(ps, fs[j])
                != counted_id(ps, fs[n - 1]) by {}
            assert(c1[id].modified_ts == f.modified);
            assert(file_record(ps, sat, c1, g, id) == file_record(ps, sat, c0, f, id));
        }
    }
}

/// Loading a tree again, through the cache that the first load left and with
/// no change on disk, gives the same records, whatever texts are read.
pub proof fn law_reload_same_records(
    ps: Seq<ProjectDir>,
    sat: Satellites,
    c0: Map<Seq<char>, CachedMetadata>,
    c1: Map<Seq<char>, CachedMetadata>,
    fs: Seq<TranscriptFile>,
    gs: Seq<TranscriptFile>,
)
    requires
        cache_after(c1, ps, c0, fs),
        same_files(fs, gs),
        distinct_ids(ps, fs),
    ensures
        records(ps, sat, c1, gs) == records(ps, sat, c0, fs),
{
    lemma_reload_prefix(ps, sat, c0, c1, fs, gs, fs.len() as int);
    assert(gs.take(fs.len() as int) =~= gs);
    assert(fs.take(fs.len() as int) =~= fs);
}

/// The sessions that a load gives: the records of the tree's transcripts,
/// most recently modified first.
pub open spec fn loaded(
    ps: Seq<ProjectDir>,
    sat: Satellites,
    cached: Map<Seq<char>, CachedMetadata>,
    fs: Seq<TranscriptFile>,
) -> Seq<SessionRecord> {
    ordered(records(ps, sat, cached, fs), SortBy::Date)
}

impl SessionManager {
    /// Loads the sessions of a listed tree through the cache: their records,
    /// most recently modified first, and the cache to persist.
    pub fn assemble(
        ps: &Vec<ProjectDir>,
        sat: &Satellites,
        files: &Vec<TranscriptFile>,
        cached: &Cache,
    ) -> (r: (Vec<Session>, Cache))
        ensures
            r.0@.map_values(|s: Session| s.record()) == loaded(ps@, *sat, cached@, files@),
            cache_after(r.1@, ps@, cached@, files@),
    {
        let (sessions, next) = collect_sessions(ps, sat, files, cached);
        let sorted = sort_records(&sessions, SortBy::Date);
        (sorted, next)
    }
}

/// Two loads of an unchanged tree, the second through the cache that the
/// first left, give the same sessions in the same order.
pub proof fn law_idempotent_load(
    ps: Seq<ProjectDir>,
    sat: Satellites,
    c0: Map<Seq<char>, CachedMetadata>,
    c1: Map<Seq<char>, CachedMetadata>,
    fs: Seq<TranscriptFile>,
    gs: Seq<TranscriptFile>,
)
    requires
        cache_after(c1, ps, c0, fs),
        same_files(fs, gs),
        distinct_ids(ps, fs),
    ensures
        loaded(ps, sat, c1, gs) == loaded(ps, sat, c0, fs),
{
    law_reload_same_records(ps, sat, c0, c1, fs, gs);
}

/// Longest display name, in characters, before it is cut.
pub const DISPLAY_NAME_MAX_LEN: usize = 60;

/// Bytes in a mebibyte.
pub const BYTES_PER_MB: u64 = 1048576;

/// A size in tenths of a mebibyte, rounded to nearest, ties to even.
pub open spec fn tenths_of_mb(size: nat) -> nat {
    let x = size * 10;
    let q = x / (BYTES_PER_MB as nat);
    let r = x % (BYTES_PER_MB as nat);
    if 2 * r > BYTES_PER_MB || (2 * r == BYTES_PER_MB && q % 2 == 1) {
        q + 1
    } else {
        q
    }
}

/// A size as shown: mebibytes to one decimal above one mebibyte, else whole
/// kibibytes.
pub open spec fn size_label(size: u64) -> Seq<char> {
    if size > BYTES_PER_MB {
        let t = tenths_of_mb(size as nat);
        decimal(t / 10) + seq!['.', digit(t % 10)] + "MB"@
    } else {
        decimal((size / 1024) as nat) + "KB"@
    }
}

/// The name a session is shown by: its custom name where that is not blank,
/// else its first message on one line, cut to its first characters with an
/// ellipsis where it is longer.
pub open spec fn display_label(custom_name: Option<Seq<char>>, first_message: Seq<char>) -> Seq<
    char,
> {
    if custom_name is Some && !is_blank(custom_name->0) {
        custom_name->0
    } else {
        let c = flatten(first_message);
        if c.len() > DISPLAY_NAME_MAX_LEN {
            c.take(DISPLAY_NAME_MAX_LEN as int) + "..."@
        } else {
            c
        }
    }
}

impl Session {
    /// The transcript's size as shown.
    pub fn size_str(&self) -> (r: String)
        ensures
            r@ == size_label(self.size),
    {
        let mut out = String::new();
        if self.size > BYTES_PER_MB {
            let x: u128 = (self.size as u128) * 10;
            let q: u128 = x / (BYTES_PER_MB as u128);
            let rem: u128 = x % (BYTES_PER_MB as u128);
            let t: u128 = if 2 * rem > BYTES_PER_MB as u128 || (2 * rem == BYTES_PER_MB as u128 && q
                % 2 == 1) {
                q + 1
            } else {
                q
            };
            proof {
                assert(t == tenths_of_mb(self.size as nat));
                assert(q <= x);
            }
            push_decimal(&mut out, (t / 10) as u64);
            push_char(&mut out, '.');
            let d: u8 = (t % 10) as u8;
            push_char(&mut out, (48u8 + d) as char);
            out.append("MB");
            proof {
                assert(out@ =~= size_label(self.size));
            }
        } else {
            push_decimal(&mut out, self.size / 1024);
            out.append("KB");
            proof {
                assert(out@ =~= size_label(self.size));
            }
        }
        out
    }

    /// The name the session is shown by.
    pub fn display_name(&self) -> (r: String)
        ensures
            r@ == display_label(opt_view(self.custom_name), self.first_message@),
    {
        match &self.custom_name {
            Some(name) => {
                if !blank(&chars_of(name.as_str())) {
                    return name.clone();
                }
            },
            None => {},
        }
        let clean = flatten_newlines(&chars_of(self.first_message.as_str()));
        let cs = chars_of(clean.as_str());
        if cs.len() > DISPLAY_NAME_MAX_LEN {
            let mut cut = string_of_range(&cs, 0, DISPLAY_NAME_MAX_LEN);
            cut.append("...");
            cut
        } else {
            clean
        }
    }
}

} // verus!
