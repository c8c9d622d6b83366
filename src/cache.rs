//! The cache store: metadata of each transcript by session id, trusted only
//! while the transcript's modification time is the one recorded with it.

use vstd::prelude::*;

use crate::text::same_text;

verus! {

/// What a scan found in a transcript, with the modification time (in whole
/// seconds) that the transcript had then.
pub struct CachedMetadata {
    pub custom_name: Option<String>,
    pub message_count: usize,
    pub first_message: String,
    pub modified_ts: u64,
}

/// A copy of an optional string.
pub fn copy_opt(o: &Option<String>) -> (r: Option<String>)
    ensures
        r == *o,
{
    match o {
        Some(s) => Some(s.clone()),
        None => None,
    }
}

impl CachedMetadata {
    /// A copy of the entry.
    pub fn duplicate(&self) -> (r: CachedMetadata)
        ensures
            r == *self,
    {
        CachedMetadata {
            custom_name: copy_opt(&self.custom_name),
            message_count: self.message_count,
            first_message: self.first_message.clone(),
            modified_ts: self.modified_ts,
        }
    }
}

/// The map that a list of entries stands for; a later entry for an id
/// overrides an earlier one.
pub open spec fn cache_map(es: Seq<(String, CachedMetadata)>) -> Map<Seq<char>, CachedMetadata>
    decreases es.len(),
{
    if es.len() == 0 {
        Map::<Seq<char>, CachedMetadata>::empty()
    } else {
        cache_map(es.drop_last()).insert(es.last().0@, es.last().1)
    }
}

/// The entries without those for one id.
pub open spec fn without(es: Seq<(String, CachedMetadata)>, id: Seq<char>) -> Seq<
    (String, CachedMetadata),
>
    decreases es.len(),
{
    if es.len() == 0 {
        es
    } else if es.last().0@ == id {
        without(es.drop_last(), id)
    } else {
        without(es.drop_last(), id).push(es.last())
    }
}

proof fn lemma_without(es: Seq<(String, CachedMetadata)>, id: Seq<char>)
    ensures
        cache_map(without(es, id)) == cache_map(es).remove(id),
    decreases es.len(),
{
    if es.len() == 0 {
        assert(cache_map(es).remove(id) =~= cache_map(es));
    } else {
        lemma_without(es.drop_last(), id);
        let prev = cache_map(es.drop_last());
        if es.last().0@ == id {
            assert(prev.insert(id, es.last().1).remove(id) =~= prev.remove(id));
        } else {
            let w = without(es.drop_last(), id);
            assert(w.push(es.last()).drop_last() =~= w);
            assert(prev.remove(id).insert(es.last().0@, es.last().1) =~= prev.insert(
                es.last().0@,
                es.last().1,
            ).remove(id));
        }
    }
}

/// The cache: metadata by session id.
pub struct Cache {
    pub entries: Vec<(String, CachedMetadata)>,
}

impl View for Cache {
    type V = Map<Seq<char>, CachedMetadata>;

    open spec fn view(&self) -> Map<Seq<char>, CachedMetadata> {
        cache_map(self.entries@)
    }
}

/// Whether an entry may stand for a transcript modified at `ts`.
pub open spec fn fresh_in(c: Map<Seq<char>, CachedMetadata>, id: Seq<char>, ts: u64) -> bool {
    c.contains_key(id) && c[id].modified_ts == ts
}

impl Cache {
    /// An empty cache.
    pub fn new() -> (r: Cache)
        ensures
            r@ == Map::<Seq<char>, CachedMetadata>::empty(),
    {
        Cache { entries: Vec::new() }
    }

    /// The entry for an id.
    pub fn get(&self, id: &str) -> (r: Option<&CachedMetadata>)
        ensures
            match r {
                Some(m) => self@.contains_key(id@) && self@[id@] == *m,
                None => !self@.contains_key(id@),
            },
    {
        let es = &self.entries;
        let mut i: usize = es.len();
        proof {
            assert(es@.take(es.len() as int) =~= es@);
        }
        while i > 0
            invariant
                i <= es.len(),
                *es == self.entries,
                cache_map(es@.take(i as int)).contains_key(id@) == self@.contains_key(id@),
                self@.contains_key(id@) ==> cache_map(es@.take(i as int))[id@] == self@[id@],
            decreases i,
        {
            proof {
                assert(es@.take(i as int).drop_last() =~= es@.take(i - 1));
                assert(es@.take(i as int).last() == es@[i - 1]);
            }
            if same_text(es[i - 1].0.as_str(), id) {
                return Some(&es[i - 1].1);
            }
            i -= 1;
        }
        None
    }

    /// Whether the entry for an id was recorded at modification time `ts`.
    pub fn is_fresh(&self, id: &str, ts: u64) -> (r: bool)
        ensures
            r == fresh_in(self@, id@, ts),
    {
        match self.get(id) {
            Some(m) => m.modified_ts == ts,
            None => false,
        }
    }

    /// Evicts the entry for an id; tells whether there was one.
    pub fn remove(&mut self, id: &str) -> (r: bool)
        ensures
            final(self)@ == old(self)@.remove(id@),
            r == old(self)@.contains_key(id@),
    {
        let ghost es0 = self.entries@;
        let mut kept: Vec<(String, CachedMetadata)> = Vec::new();
        let mut found = false;
        let mut i: usize = 0;
        while i < self.entries.len()
            invariant
                i <= self.entries.len(),
                self.entries@ == es0,
                kept@ == without(es0.take(i as int), id@),
                found == cache_map(es0.take(i as int)).contains_key(id@),
            decreases self.entries.len() - i,
        {
            proof {
                assert(es0.take(i + 1).drop_last() =~= es0.take(i as int));
                assert(es0.take(i + 1).last() == es0[i as int]);
            }
            let (k, m) = &self.entries[i];
            if same_text(k.as_str(), id) {
                found = true;
            } else {
                kept.push((k.clone(), m.duplicate()));
            }
            i += 1;
        }
        proof {
            assert(es0.take(es0.len() as int) =~= es0);
            lemma_without(es0, id@);
        }
        self.entries = kept;
        found
    }

    /// Records the entry for an id, replacing any earlier one.
    pub fn insert(&mut self, id: String, m: CachedMetadata)
        ensures
            final(self)@ == old(self)@.insert(id@, m),
    {
        self.remove(id.as_str());
        let ghost before = self@;
        let ghost es1 = self.entries@;
        let ghost key = id@;
        self.entries.push((id, m));
        proof {
            assert(self.entries@.drop_last() =~= es1);
            assert(self@ == before.insert(key, m));
            assert(before.insert(key, m) =~= old(self)@.remove(key).insert(key, m));
            assert(old(self)@.remove(key).insert(key, m) =~= old(self)@.insert(key, m));
        }
    }
}

} // verus!
