//! Ordering sessions by a key, largest first, keeping the listing order
//! among equal keys.

use vstd::prelude::*;

use crate::session::{Session, SessionRecord};

verus! {

/// What sessions can be ordered by.
#[derive(Clone, Copy, PartialEq, Eq, Structural, Debug)]
pub enum SortBy {
    Date,
    Size,
    Messages,
}

/// The browsing preferences that persist between runs.
pub struct Config {
    pub sort_by: Option<SortBy>,
    pub filter_query: Option<String>,
}

impl Default for Config {
    fn default() -> (r: Config)
        ensures
            r.sort_by is None,
            r.filter_query is None,
    {
        Config { sort_by: None, filter_query: None }
    }
}

/// The key of a session under an ordering.
pub open spec fn sort_key(s: SessionRecord, by: SortBy) -> nat {
    match by {
        SortBy::Date => s.modified as nat,
        SortBy::Size => s.size as nat,
        SortBy::Messages => s.message_count,
    }
}

/// The position before which an element with key `k` goes: the first whose
/// key is smaller.
pub open spec fn first_below(order: Seq<int>, keys: Seq<nat>, k: nat) -> int
    decreases order.len(),
{
    if order.len() == 0 {
        0
    } else if keys[order[0]] < k {
        0
    } else {
        1 + first_below(order.drop_first(), keys, k)
    }
}

/// The first `n` indices, ordered by key from largest to smallest, equal keys
/// in index order.
pub open spec fn sort_order(keys: Seq<nat>, n: nat) -> Seq<int>
    decreases n,
{
    if n == 0 {
        Seq::<int>::empty()
    } else {
        let o = sort_order(keys, (n - 1) as nat);
        o.insert(first_below(o, keys, keys[n - 1]), n - 1)
    }
}

/// All indices ordered by key.
pub open spec fn ranked(keys: Seq<nat>) -> Seq<int> {
    sort_order(keys, keys.len())
}

pub open spec fn keys_of(v: Seq<Session>, by: SortBy) -> Seq<nat> {
    v.map_values(|s: Session| sort_key(s.record(), by))
}

proof fn lemma_first_below(order: Seq<int>, keys: Seq<nat>, k: nat)
    requires
        forall|i: int| 0 <= i < order.len() ==> 0 <= #[trigger] order[i] < keys.len(),
    ensures
        0 <= first_below(order, keys, k) <= order.len(),
        forall|q: int| 0 <= q < first_below(order, keys, k) ==> keys[#[trigger] order[q]] >= k,
        first_below(order, keys, k) < order.len() ==> keys[order[first_below(order, keys, k)]]
            < k,
    decreases order.len(),
{
    if order.len() > 0 && keys[order[0]] >= k {
        let rest = order.drop_first();
        assert forall|i: int| 0 <= i < rest.len() implies 0 <= #[trigger] rest[i] < keys.len() by {
            assert(rest[i] == order[i + 1]);
        }
        lemma_first_below(rest, keys, k);
        assert forall|q: int| 0 <= q < first_below(order, keys, k) implies keys[#[trigger] order[q]]
            >= k by {
            if q > 0 {
                assert(order[q] == rest[q - 1]);
            }
        }
    }
}

/// The order holds each index below `n` once, and its keys never increase.
pub proof fn lemma_sort_order(keys: Seq<nat>, n: nat)
    requires
        n <= keys.len(),
    ensures
        sort_order(keys, n).len() == n,
        forall|i: int| 0 <= i < n ==> 0 <= #[trigger] sort_order(keys, n)[i] < n,
        forall|a: int, b: int|
            0 <= a < b < n ==> keys[#[trigger] sort_order(keys, n)[a]] >= keys[
            #[trigger] sort_order(keys, n)[b]],
        forall|a: int, b: int|
            0 <= a < b < n ==> #[trigger] sort_order(keys, n)[a] != #[trigger] sort_order(keys, n)[b],
        forall|a: int, b: int|
            0 <= a < b < n && keys[#[trigger] sort_order(keys, n)[a]] == keys[
            #[trigger] sort_order(keys, n)[b]] ==> sort_order(keys, n)[a] < sort_order(keys, n)[b],
    decreases n,
{
    if n > 0 {
        let m = (n - 1) as nat;
        lemma_sort_order(keys, m);
        let o = sort_order(keys, m);
        let k = keys[m as int];
        lemma_first_below(o, keys, k);
        let p = first_below(o, keys, k);
        let r = sort_order(keys, n);
        assert(r == o.insert(p, m as int));
        assert forall|i: int| 0 <= i < n implies 0 <= #[trigger] r[i] < n by {
            if i < p {
                assert(r[i] == o[i]);
            } else if i > p {
                assert(r[i] == o[i - 1]);
            }
        }
        assert forall|a: int, b: int| 0 <= a < b < n implies keys[#[trigger] r[a]] >= keys[
            #[trigger] r[b]] by {
            if a < p && b < p {
                assert(r[a] == o[a] && r[b] == o[b]);
            } else if a < p && b == p {
                assert(r[a] == o[a]);
            } else if a < p && b > p {
                assert(r[a] == o[a] && r[b] == o[b - 1]);
            } else if a == p {
                assert(r[b] == o[b - 1]);
                if p < o.len() {
                    assert(keys[o[p]] < k);
                    if b - 1 > p {
                        assert(keys[o[p]] >= keys[o[b - 1]]);
                    }
                }
            } else {
                assert(r[a] == o[a - 1] && r[b] == o[b - 1]);
            }
        }
        assert forall|a: int, b: int|
            0 <= a < b < n && keys[#[trigger] r[a]] == keys[#[trigger] r[b]] implies r[a] < r[b] by {
            if a < p && b < p {
                assert(r[a] == o[a] && r[b] == o[b]);
            } else if a < p && b == p {
                assert(r[a] == o[a]);
            } else if a < p && b > p {
                assert(r[a] == o[a] && r[b] == o[b - 1]);
            } else if a == p {
                assert(r[b] == o[b - 1]);
                if p < o.len() {
                    assert(keys[o[p]] < k);
                    if b - 1 > p {
                        assert(keys[o[p]] >= keys[o[b - 1]]);
                    }
                }
            } else {
                assert(r[a] == o[a - 1] && r[b] == o[b - 1]);
            }
        }
        assert forall|a: int, b: int| 0 <= a < b < n implies #[trigger] r[a] != #[trigger] r[b] by {
            if a < p && b < p {
                assert(r[a] == o[a] && r[b] == o[b]);
            } else if a < p && b == p {
                assert(r[a] == o[a]);
            } else if a < p && b > p {
                assert(r[a] == o[a] && r[b] == o[b - 1]);
            } else if a == p {
                assert(r[b] == o[b - 1]);
            } else {
                assert(r[a] == o[a - 1] && r[b] == o[b - 1]);
            }
        }
    }
}

/// The key of a session under an ordering.
pub fn key_of(s: &Session, by: SortBy) -> (r: u64)
    ensures
        r as nat == sort_key(s.record(), by),
{
    match by {
        SortBy::Date => s.modified,
        SortBy::Size => s.size,
        SortBy::Messages => s.message_count as u64,
    }
}

/// The sessions ordered by a key, largest first; sessions with equal keys
/// keep their relative order.
pub fn sort_sessions(v: &Vec<Session>, by: SortBy) -> (r: Vec<Session>)
    ensures
        r.len() == v.len(),
        forall|i: int| 0 <= i < v.len() ==> 0 <= #[trigger] ranked(keys_of(v@, by))[i] < v.len(),
        forall|a: int, b: int|
            0 <= a < b < v.len() ==> #[trigger] ranked(keys_of(v@, by))[a] != #[trigger] ranked(
                keys_of(v@, by),
            )[b],
        forall|a: int, b: int|
            0 <= a < b < v.len() && sort_key((#[trigger] r@[a]).record(), by) == sort_key(
                (#[trigger] r@[b]).record(),
                by,
            ) ==> ranked(keys_of(v@, by))[a] < ranked(keys_of(v@, by))[b],
        forall|i: int|
            0 <= i < v.len() ==> (#[trigger] r@[i]).record() == v@[ranked(keys_of(v@, by))[i]].record(),
        forall|a: int, b: int|
            0 <= a < b < r.len() ==> sort_key((#[trigger] r@[a]).record(), by) >= sort_key(
                (#[trigger] r@[b]).record(),
                by,
            ),
{
    let ghost keys = keys_of(v@, by);
    let mut order: Vec<usize> = Vec::new();
    let mut j: usize = 0;
    while j < v.len()
        invariant
            j <= v.len(),
            keys == keys_of(v@, by),
            order@.map_values(|x: usize| x as int) == sort_order(keys, j as nat),
            forall|i: int| 0 <= i < order.len() ==> #[trigger] order@[i] < j,
        decreases v.len() - j,
    {
        let k = key_of(&v[j], by);
        let ghost o = sort_order(keys, j as nat);
        proof {
            lemma_sort_order(keys, j as nat);
            assert(keys[j as int] == k as nat);
        }
        let mut q: usize = 0;
        proof {
            assert(o.skip(0) =~= o);
        }
        while q < order.len() && key_of(&v[order[q]], by) >= k
            invariant
                q <= order.len(),
                j < v.len(),
                keys == keys_of(v@, by),
                keys[j as int] == k as nat,
                order@.map_values(|x: usize| x as int) == o,
                forall|i: int| 0 <= i < order.len() ==> #[trigger] order@[i] < j,
                first_below(o, keys, k as nat) == q + first_below(o.skip(q as int), keys, k as nat),
            decreases order.len() - q,
        {
            proof {
                assert(o.skip(q as int).drop_first() =~= o.skip(q + 1));
                assert(o.skip(q as int)[0] == o[q as int]);
                assert(o[q as int] == order@[q as int] as int);
            }
            q += 1;
        }
        proof {
            if q < order.len() {
                assert(o.skip(q as int)[0] == o[q as int]);
                assert(o[q as int] == order@[q as int] as int);
            }
        }
        let ghost before = order@;
        order.insert(q, j);
        proof {
            assert(order@.map_values(|x: usize| x as int) =~= o.insert(q as int, j as int));
        }
        j += 1;
    }
    proof {
        lemma_sort_order(keys, v.len() as nat);
        assert forall|a: int| 0 <= a < order.len() implies #[trigger] order@[a] < v.len() by {
            assert(ranked(keys)[a] == order@[a] as int);
        }
    }
    let mut out: Vec<Session> = Vec::new();
    let mut i: usize = 0;
    while i < order.len()
        invariant
            i <= order.len(),
            order.len() == v.len(),
            forall|a: int| 0 <= a < order.len() ==> #[trigger] order@[a] < v.len(),
            keys == keys_of(v@, by),
            order@.map_values(|x: usize| x as int) == ranked(keys),
            out.len() == i,
            forall|a: int| 0 <= a < i ==> (#[trigger] out@[a]).record() == v@[ranked(keys)[a]].record(),
        decreases order.len() - i,
    {
        proof {
            assert(ranked(keys)[i as int] == order@[i as int] as int);
        }
        let s = v[order[i]].duplicate();
        out.push(s);
        i += 1;
    }
    proof {
        assert forall|a: int, b: int| 0 <= a < b < out.len() implies sort_key(
            (#[trigger] out@[a]).record(),
            by,
        ) >= sort_key((#[trigger] out@[b]).record(), by) by {
            assert(keys[ranked(keys)[a]] >= keys[ranked(keys)[b]]);
        }
    }
    out
}

/// Records ordered by a key, largest first, equal keys in listing order.
pub open spec fn ordered(rs: Seq<SessionRecord>, by: SortBy) -> Seq<SessionRecord> {
    let keys = rs.map_values(|s: SessionRecord| sort_key(s, by));
    Seq::new(rs.len(), |i: int| rs[ranked(keys)[i]])
}

/// The sessions ordered by a key, as records.
pub fn sort_records(v: &Vec<Session>, by: SortBy) -> (r: Vec<Session>)
    ensures
        r@.map_values(|s: Session| s.record()) == ordered(v@.map_values(|s: Session| s.record()), by),
{
    let r = sort_sessions(v, by);
    let ghost rs = v@.map_values(|s: Session| s.record());
    proof {
        assert(rs.map_values(|s: SessionRecord| sort_key(s, by)) =~= keys_of(v@, by));
        lemma_sort_order(keys_of(v@, by), v.len() as nat);
        assert(r@.map_values(|s: Session| s.record()) =~= ordered(rs, by));
    }
    r
}

} // verus!
