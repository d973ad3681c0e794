//! Key-based bucketing shared by the size and fingerprint stages.
//!
//! Both stages partition a list of candidate paths by a 64-bit key (the exact
//! byte size, or the fingerprint of the leading bytes) and keep only the
//! buckets with at least two members: a key shared by a single file cannot
//! have duplicates.

use vstd::prelude::*;
use crate::bytes::copy_bytes;
use crate::records::FileRecord;
use crate::records::record_pairs;

verus! {

/// One candidate: a file path together with the 64-bit key the current stage
/// groups by.
pub struct PathKey {
    pub path: Vec<u8>,
    pub key: u64,
}

/// One bucket: every candidate path whose key equals `key`, in input order.
pub struct KeyBucket {
    pub key: u64,
    pub paths: Vec<Vec<u8>>,
}

/// The byte sequences held by a vector of byte vectors.
pub open spec fn views_of(v: Seq<Vec<u8>>) -> Seq<Seq<u8>> {
    v.map_values(|p: Vec<u8>| p@)
}

/// The (path, key) pairs of a candidate list.
pub open spec fn pk_view(s: Seq<PathKey>) -> Seq<(Seq<u8>, u64)> {
    s.map_values(|e: PathKey| (e.path@, e.key))
}


/// Some entry of `items` bears the key `k`.
pub open spec fn key_from_items(items: Seq<PathKey>, k: u64) -> bool {
    exists|j: int| 0 <= j < items.len() && items[j].key == k
}

/// The path `p` belongs to an entry of `s` bearing key `k`.
pub open spec fn path_key_from_entries(s: Seq<(Seq<u8>, u64)>, p: Seq<u8>, k: u64) -> bool {
    exists|j: int| 0 <= j < s.len() && s[j].1 == k && s[j].0 == p
}

/// Some bucket of `out` carries the key `k`.
pub open spec fn has_bucket(out: Seq<KeyBucket>, k: u64) -> bool {
    exists|b: int| 0 <= b < out.len() && out[b].key == k
}

/// The paths among `s` whose key is `k`, in input order.
pub open spec fn paths_with_key(s: Seq<(Seq<u8>, u64)>, k: u64) -> Seq<Seq<u8>>
    decreases s.len(),
{
    if s.len() == 0 {
        Seq::empty()
    } else if s.last().1 == k {
        paths_with_key(s.drop_last(), k).push(s.last().0)
    } else {
        paths_with_key(s.drop_last(), k)
    }
}

/// `out` is exactly the grouping of `s` by key, restricted to keys with at
/// least two entries: each bucket holds all paths of its key in input order,
/// no two buckets share a key, and every key shared by two or more entries
/// has a bucket.
pub open spec fn is_grouping(s: Seq<(Seq<u8>, u64)>, out: Seq<KeyBucket>) -> bool {
    &&& forall|b: int|
        0 <= b < out.len() ==> views_of((#[trigger] out[b]).paths@) == paths_with_key(s, out[b].key)
            && out[b].paths@.len() >= 2
    &&& forall|b1: int, b2: int|
        0 <= b1 < b2 < out.len() ==> (#[trigger] out[b1]).key != (#[trigger] out[b2]).key
    &&& forall|k: u64| #[trigger] paths_with_key(s, k).len() >= 2 ==> has_bucket(out, k)
}

/// A key appears among the entries exactly when it selects at least one path.
pub proof fn lemma_key_occurs(s: Seq<(Seq<u8>, u64)>, k: u64)
    ensures
        paths_with_key(s, k).len() > 0 <==> exists|j: int| 0 <= j < s.len() && s[j].1 == k,
    decreases s.len(),
{
    if s.len() > 0 {
        lemma_key_occurs(s.drop_last(), k);
        if s.last().1 == k {
            assert(s[s.len() - 1].1 == k);
        } else {
            if exists|j: int| 0 <= j < s.len() && s[j].1 == k {
                let j = choose|j: int| 0 <= j < s.len() && s[j].1 == k;
                assert(s.drop_last()[j] == s[j]);
            }
            if exists|j: int| 0 <= j < s.drop_last().len() && s.drop_last()[j].1 == k {
                let j = choose|j: int| 0 <= j < s.drop_last().len() && s.drop_last()[j].1 == k;
                assert(s[j].1 == k);
            }
        }
    }
}

/// The path of every entry bearing key `k` is selected by `k`.
pub proof fn lemma_key_path_in(s: Seq<(Seq<u8>, u64)>, k: u64, j: int)
    requires
        0 <= j < s.len(),
        s[j].1 == k,
    ensures
        paths_with_key(s, k).contains(s[j].0),
    decreases s.len(),
{
    if j == s.len() - 1 {
        assert(s.last() == s[j]);
        let p = paths_with_key(s.drop_last(), k).push(s[j].0);
        assert(p[p.len() - 1] == s[j].0);
    } else {
        assert(s.drop_last()[j] == s[j]);
        lemma_key_path_in(s.drop_last(), k, j);
        let sub = paths_with_key(s.drop_last(), k);
        let i = choose|i: int| 0 <= i < sub.len() && sub[i] == s[j].0;
        if s.last().1 == k {
            assert(sub.push(s.last().0)[i] == s[j].0);
        }
    }
}

/// Every path selected by `k` is the path of some entry bearing key `k`.
pub proof fn lemma_key_path_from(s: Seq<(Seq<u8>, u64)>, k: u64)
    ensures
        forall|i: int|
            0 <= i < paths_with_key(s, k).len() ==> path_key_from_entries(
                s,
                #[trigger] paths_with_key(s, k)[i],
                k,
            ),
    decreases s.len(),
{
    if s.len() > 0 {
        lemma_key_path_from(s.drop_last(), k);
        let sub = paths_with_key(s.drop_last(), k);
        assert forall|i: int| 0 <= i < paths_with_key(s, k).len() implies path_key_from_entries(
            s,
            #[trigger] paths_with_key(s, k)[i],
            k,
        ) by {
            if i < sub.len() {
                let j = choose|j: int|
                    0 <= j < s.drop_last().len() && s.drop_last()[j].1 == k && s.drop_last()[j].0
                        == sub[i];
                assert(s[j] == s.drop_last()[j]);
                assert(paths_with_key(s, k)[i] == sub[i]);
            } else {
                assert(s.last().1 == k && s.last().0 == paths_with_key(s, k)[i]);
                assert(s[s.len() - 1] == s.last());
            }
        }
    }
}

/// Two distinct entries with the same key give that key at least two paths.
pub proof fn lemma_two_entries(s: Seq<(Seq<u8>, u64)>, k: u64, j1: int, j2: int)
    requires
        0 <= j1 < j2 < s.len(),
        s[j1].1 == k,
        s[j2].1 == k,
    ensures
        paths_with_key(s, k).len() >= 2,
    decreases s.len(),
{
    if j2 == s.len() - 1 {
        lemma_key_occurs(s.drop_last(), k);
        assert(s.drop_last()[j1] == s[j1]);
    } else {
        assert(s.drop_last()[j1] == s[j1]);
        assert(s.drop_last()[j2] == s[j2]);
        lemma_two_entries(s.drop_last(), k, j1, j2);
    }
}

/// Whether a vector of keys holds `x`.
fn contains_key(keys: &Vec<u64>, x: u64) -> (r: bool)
    ensures
        r == keys@.contains(x),
{
    let mut i: usize = 0;
    while i < keys.len()
        invariant
            i <= keys.len(),
            forall|j: int| 0 <= j < i ==> keys@[j] != x,
        decreases keys.len() - i,
    {
        if keys[i] == x {
            assert(keys@.contains(x)) by { assert(keys@[i as int] == x) };
            return true;
        }
        i = i + 1;
    }
    assert(!keys@.contains(x));
    false
}

/// Collects the distinct keys of the candidates, in first-occurrence order.
fn collect_keys(items: &Vec<PathKey>) -> (keys: Vec<u64>)
    ensures
        forall|j: int| 0 <= j < items@.len() ==> keys@.contains(#[trigger] items@[j].key),
        forall|k1: int| 0 <= k1 < keys@.len() ==> key_from_items(items@, #[trigger] keys@[k1]),
        forall|k1: int, k2: int|
            0 <= k1 < k2 < keys@.len() ==> (#[trigger] keys@[k1]) != (#[trigger] keys@[k2]),
{
    let mut keys: Vec<u64> = Vec::new();
    let mut i: usize = 0;
    while i < items.len()
        invariant
            i <= items.len(),
            forall|j: int| 0 <= j < i ==> keys@.contains(#[trigger] items@[j].key),
            forall|k1: int| 0 <= k1 < keys@.len() ==> key_from_items(items@, #[trigger] keys@[k1]),
            forall|k1: int, k2: int|
                0 <= k1 < k2 < keys@.len() ==> (#[trigger] keys@[k1]) != (#[trigger] keys@[k2]),
        decreases items.len() - i,
    {
        let k = items[i].key;
        let ghost k0 = keys@;
        let had = contains_key(&keys, k);
        if !had {
            keys.push(k);
        }
        proof {
            assert(keys@.contains(k)) by {
                if had {
                    let idx = choose|idx: int| 0 <= idx < k0.len() && k0[idx] == k;
                    assert(keys@[idx] == k);
                } else {
                    assert(keys@[keys@.len() - 1] == k);
                }
            }
            assert forall|j: int| 0 <= j < i implies keys@.contains(#[trigger] items@[j].key) by {
                let idx = choose|idx: int| 0 <= idx < k0.len() && k0[idx] == items@[j].key;
                assert(keys@[idx] == items@[j].key);
            }
            assert forall|k1: int| 0 <= k1 < keys@.len() implies key_from_items(
                items@,
                #[trigger] keys@[k1],
            ) by {
                if k1 < k0.len() {
                    assert(key_from_items(items@, k0[k1]));
                } else {
                    assert(items@[i as int].key == keys@[k1]);
                }
            }
        }
        i = i + 1;
    }
    keys
}

/// Collects, in input order, the paths of every candidate whose key is `k`.
fn paths_for_key(items: &Vec<PathKey>, k: u64) -> (paths: Vec<Vec<u8>>)
    ensures
        views_of(paths@) == paths_with_key(pk_view(items@), k),
{
    let ghost s = pk_view(items@);
    let mut paths: Vec<Vec<u8>> = Vec::new();
    let mut j: usize = 0;
    while j < items.len()
        invariant
            j <= items.len(),
            s == pk_view(items@),
            views_of(paths@) == paths_with_key(s.take(j as int), k),
        decreases items.len() - j,
    {
        let ghost p0 = paths@;
        if items[j].key == k {
            let p = copy_bytes(&items[j].path);
            paths.push(p);
        }
        proof {
            assert(s.take(j as int + 1).drop_last() =~= s.take(j as int));
            assert(s.take(j as int + 1).last() == s[j as int]);
            assert(s[j as int] == (items@[j as int].path@, items@[j as int].key));
            if items@[j as int].key == k {
                assert(views_of(paths@) =~= views_of(p0).push(items@[j as int].path@));
            }
        }
        j = j + 1;
    }
    proof {
        assert(s.take(s.len() as int) =~= s);
    }
    paths
}

/// Partitions the candidates by key and keeps the buckets with at least two
/// members, as `is_grouping` states.
pub fn group_by_key(items: Vec<PathKey>) -> (out: Vec<KeyBucket>)
    ensures
        is_grouping(pk_view(items@), out@),
{
    let ghost s = pk_view(items@);
    let keys = collect_keys(&items);
    let mut out: Vec<KeyBucket> = Vec::new();
    let mut ki: usize = 0;
    while ki < keys.len()
        invariant
            ki <= keys.len(),
            s == pk_view(items@),
            forall|j: int| 0 <= j < items@.len() ==> keys@.contains(#[trigger] items@[j].key),
            forall|k1: int, k2: int|
                0 <= k1 < k2 < keys@.len() ==> (#[trigger] keys@[k1]) != (#[trigger] keys@[k2]),
            forall|b: int|
                0 <= b < out@.len() ==> views_of((#[trigger] out@[b]).paths@) == paths_with_key(
                    s,
                    out@[b].key,
                ) && out@[b].paths@.len() >= 2,
            forall|b: int|
                0 <= b < out@.len() ==> exists|k2: int|
                    0 <= k2 < ki && keys@[k2] == (#[trigger] out@[b]).key,
            forall|b1: int, b2: int|
                0 <= b1 < b2 < out@.len() ==> (#[trigger] out@[b1]).key != (#[trigger] out@[b2]).key,
            forall|k2: int|
                0 <= k2 < ki && paths_with_key(s, #[trigger] keys@[k2]).len() >= 2 ==> has_bucket(
                    out@,
                    keys@[k2],
                ),
        decreases keys.len() - ki,
    {
        let k = keys[ki];
        let paths = paths_for_key(&items, k);
        let ghost out0 = out@;
        if paths.len() >= 2 {
            proof {
                assert forall|b: int| 0 <= b < out@.len() implies (#[trigger] out@[b]).key != k by {
                    let k2 = choose|k2: int| 0 <= k2 < ki && keys@[k2] == out@[b].key;
                    assert(keys@[ki as int] == k);
                }
            }
            out.push(KeyBucket { key: k, paths });
        }
        proof {
            assert forall|b: int| 0 <= b < out@.len() implies exists|k2: int|
                0 <= k2 < ki + 1 && keys@[k2] == (#[trigger] out@[b]).key by {
                if b < out0.len() {
                    let k2 = choose|k2: int| 0 <= k2 < ki && keys@[k2] == out0[b].key;
                    assert(0 <= k2 < ki + 1 && keys@[k2] == out@[b].key);
                } else {
                    assert(keys@[ki as int] == out@[b].key);
                }
            }
            assert forall|k2: int|
                0 <= k2 < ki + 1 && paths_with_key(s, #[trigger] keys@[k2]).len() >= 2 implies has_bucket(
                out@,
                keys@[k2],
            ) by {
                if k2 < ki {
                    let b = choose|b: int| 0 <= b < out0.len() && out0[b].key == keys@[k2];
                    assert(out@[b].key == keys@[k2]);
                } else {
                    assert(views_of(paths@).len() == paths@.len());
                    assert(out@[out@.len() - 1].key == k);
                }
            }
        }
        ki = ki + 1;
    }
    proof {
        assert forall|k: u64| #[trigger] paths_with_key(s, k).len() >= 2 implies has_bucket(
            out@,
            k,
        ) by {
            lemma_key_occurs(s, k);
            let j = choose|j: int| 0 <= j < s.len() && s[j].1 == k;
            assert(s[j] == (items@[j].path@, items@[j].key));
            assert(items@[j].key == k);
            assert(keys@.contains(k));
            let idx = choose|idx: int| 0 <= idx < keys@.len() && keys@[idx] == k;
            assert(paths_with_key(s, keys@[idx]).len() >= 2);
        }
    }
    out
}

/// Partitions the enumerated files by exact byte size and keeps the sizes
/// shared by at least two files; membership depends on the size values
/// alone. This stage needs no file I/O.
pub fn group_by_size(files: &Vec<FileRecord>) -> (out: Vec<KeyBucket>)
    ensures
        is_grouping(record_pairs(files@), out@),
{
    let ghost s = record_pairs(files@);
    let mut items: Vec<PathKey> = Vec::new();
    let mut i: usize = 0;
    while i < files.len()
        invariant
            i <= files.len(),
            s == record_pairs(files@),
            pk_view(items@) == s.take(i as int),
        decreases files.len() - i,
    {
        let ghost it0 = items@;
        let p = copy_bytes(&files[i].path);
        items.push(PathKey { path: p, key: files[i].size });
        proof {
            assert(s[i as int] == (files@[i as int].path@, files@[i as int].size));
            assert(pk_view(items@) =~= pk_view(it0).push(s[i as int]));
            assert(pk_view(it0).push(s[i as int]) =~= s.take(i as int + 1));
        }
        i = i + 1;
    }
    proof {
        assert(s.take(s.len() as int) =~= s);
    }
    group_by_key(items)
}

} // verus!
