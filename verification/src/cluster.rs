//! Cluster assembly: the terminal stage of the pipeline.
//!
//! Every file that survived the fingerprint filter arrives here with its
//! full-content digest. Files are grouped by digest alone — digest equality
//! is the sole source of truth at this stage, so coinciding digests from
//! different buckets merge — and only digests shared by at least two files
//! become clusters.

use vstd::prelude::*;
use crate::bytes::bytes_eq;
use crate::bytes::copy_bytes;
use crate::grouping::views_of;

verus! {

/// One confirmed candidate: path, byte size, and full-content digest.
pub struct DigestEntry {
    pub path: Vec<u8>,
    pub size: u64,
    pub digest: Vec<u8>,
}

/// A confirmed duplicate set: the common digest, the common byte size
/// (sampled from a member), and at least two member paths.
pub struct Cluster {
    pub digest: Vec<u8>,
    pub size: u64,
    pub paths: Vec<Vec<u8>>,
}

/// The (path, size, digest) triples of an entry list.
pub open spec fn de_view(s: Seq<DigestEntry>) -> Seq<(Seq<u8>, u64, Seq<u8>)> {
    s.map_values(|e: DigestEntry| (e.path@, e.size, e.digest@))
}

/// The paths among `s` whose digest is `d`, in input order.
pub open spec fn paths_with_digest(s: Seq<(Seq<u8>, u64, Seq<u8>)>, d: Seq<u8>) -> Seq<Seq<u8>>
    decreases s.len(),
{
    if s.len() == 0 {
        Seq::empty()
    } else if s.last().2 == d {
        paths_with_digest(s.drop_last(), d).push(s.last().0)
    } else {
        paths_with_digest(s.drop_last(), d)
    }
}

/// Some entry of `s` bears the digest `d`.
pub open spec fn digest_from_entries(s: Seq<(Seq<u8>, u64, Seq<u8>)>, d: Seq<u8>) -> bool {
    exists|j: int| 0 <= j < s.len() && s[j].2 == d
}

/// Some entry of `s` bears the digest `d` with size `z`.
pub open spec fn digest_size_from_entries(
    s: Seq<(Seq<u8>, u64, Seq<u8>)>,
    d: Seq<u8>,
    z: u64,
) -> bool {
    exists|j: int| 0 <= j < s.len() && s[j].2 == d && s[j].1 == z
}

/// Some element of the digest list `ds` holds the bytes `d`.
pub open spec fn holds_digest(ds: Seq<Vec<u8>>, d: Seq<u8>) -> bool {
    exists|i: int| 0 <= i < ds.len() && ds[i]@ == d
}

/// The path `p` belongs to an entry of `s` bearing digest `d`.
pub open spec fn path_digest_from_entries(
    s: Seq<(Seq<u8>, u64, Seq<u8>)>,
    p: Seq<u8>,
    d: Seq<u8>,
) -> bool {
    exists|j: int| 0 <= j < s.len() && s[j].2 == d && s[j].0 == p
}

/// Some cluster of `out` carries the digest `d`.
pub open spec fn has_cluster(out: Seq<Cluster>, d: Seq<u8>) -> bool {
    exists|b: int| 0 <= b < out.len() && out[b].digest@ == d
}

/// `out` is exactly the grouping of `s` by digest, restricted to digests
/// with at least two entries: each cluster holds all paths of its digest in
/// input order, carries a size sampled from one of its entries, no two
/// clusters share a digest, and every digest borne by two or more entries
/// has a cluster.
pub open spec fn is_cluster_grouping(s: Seq<(Seq<u8>, u64, Seq<u8>)>, out: Seq<Cluster>) -> bool {
    &&& forall|b: int|
        0 <= b < out.len() ==> views_of((#[trigger] out[b]).paths@) == paths_with_digest(
            s,
            out[b].digest@,
        ) && out[b].paths@.len() >= 2 && digest_size_from_entries(s, out[b].digest@, out[b].size)
    &&& forall|b1: int, b2: int|
        0 <= b1 < b2 < out.len() ==> (#[trigger] out[b1]).digest@ != (#[trigger] out[b2]).digest@
    &&& forall|d: Seq<u8>| #[trigger] paths_with_digest(s, d).len() >= 2 ==> has_cluster(out, d)
}

/// A digest appears among the entries exactly when it selects at least one
/// path.
pub proof fn lemma_digest_occurs(s: Seq<(Seq<u8>, u64, Seq<u8>)>, d: Seq<u8>)
    ensures
        paths_with_digest(s, d).len() > 0 <==> digest_from_entries(s, d),
    decreases s.len(),
{
    if s.len() > 0 {
        lemma_digest_occurs(s.drop_last(), d);
        if s.last().2 == d {
            assert(s[s.len() - 1].2 == d);
        } else {
            if digest_from_entries(s, d) {
                let j = choose|j: int| 0 <= j < s.len() && s[j].2 == d;
                assert(s.drop_last()[j] == s[j]);
            }
            if digest_from_entries(s.drop_last(), d) {
                let j = choose|j: int| 0 <= j < s.drop_last().len() && s.drop_last()[j].2 == d;
                assert(s[j].2 == d);
            }
        }
    }
}

/// The path of every entry bearing digest `d` is selected by `d`.
pub proof fn lemma_digest_path_in(s: Seq<(Seq<u8>, u64, Seq<u8>)>, d: Seq<u8>, j: int)
    requires
        0 <= j < s.len(),
        s[j].2 == d,
    ensures
        paths_with_digest(s, d).contains(s[j].0),
    decreases s.len(),
{
    if j == s.len() - 1 {
        assert(s.last() == s[j]);
        let p = paths_with_digest(s.drop_last(), d).push(s[j].0);
        assert(p[p.len() - 1] == s[j].0);
    } else {
        assert(s.drop_last()[j] == s[j]);
        lemma_digest_path_in(s.drop_last(), d, j);
        let sub = paths_with_digest(s.drop_last(), d);
        let i = choose|i: int| 0 <= i < sub.len() && sub[i] == s[j].0;
        if s.last().2 == d {
            assert(sub.push(s.last().0)[i] == s[j].0);
        }
    }
}

/// Every path selected by `d` is the path of some entry bearing digest `d`.
pub proof fn lemma_digest_path_from(s: Seq<(Seq<u8>, u64, Seq<u8>)>, d: Seq<u8>)
    ensures
        forall|i: int|
            0 <= i < paths_with_digest(s, d).len() ==> path_digest_from_entries(
                s,
                #[trigger] paths_with_digest(s, d)[i],
                d,
            ),
    decreases s.len(),
{
    if s.len() > 0 {
        lemma_digest_path_from(s.drop_last(), d);
        let sub = paths_with_digest(s.drop_last(), d);
        assert forall|i: int| 0 <= i < paths_with_digest(s, d).len() implies path_digest_from_entries(
            s,
            #[trigger] paths_with_digest(s, d)[i],
            d,
        ) by {
            if i < sub.len() {
                let j = choose|j: int|
                    0 <= j < s.drop_last().len() && s.drop_last()[j].2 == d && s.drop_last()[j].0
                        == sub[i];
                assert(s[j] == s.drop_last()[j]);
                assert(paths_with_digest(s, d)[i] == sub[i]);
            } else {
                assert(s.last().2 == d && s.last().0 == paths_with_digest(s, d)[i]);
                assert(s[s.len() - 1] == s.last());
            }
        }
    }
}

/// Two distinct entries with the same digest give that digest at least two
/// paths.
pub proof fn lemma_two_digest_entries(s: Seq<(Seq<u8>, u64, Seq<u8>)>, d: Seq<u8>, j1: int, j2: int)
    requires
        0 <= j1 < j2 < s.len(),
        s[j1].2 == d,
        s[j2].2 == d,
    ensures
        paths_with_digest(s, d).len() >= 2,
    decreases s.len(),
{
    if j2 == s.len() - 1 {
        lemma_digest_occurs(s.drop_last(), d);
        assert(s.drop_last()[j1] == s[j1]);
    } else {
        assert(s.drop_last()[j1] == s[j1]);
        assert(s.drop_last()[j2] == s[j2]);
        lemma_two_digest_entries(s.drop_last(), d, j1, j2);
    }
}

/// Whether a list of digests holds `x`.
fn contains_digest(ds: &Vec<Vec<u8>>, x: &Vec<u8>) -> (r: bool)
    ensures
        r == holds_digest(ds@, x@),
{
    let mut i: usize = 0;
    while i < ds.len()
        invariant
            i <= ds.len(),
            forall|j: int| 0 <= j < i ==> (#[trigger] ds@[j])@ != x@,
        decreases ds.len() - i,
    {
        if bytes_eq(&ds[i], x) {
            assert(holds_digest(ds@, x@)) by { assert(ds@[i as int]@ == x@) };
            return true;
        }
        i = i + 1;
    }
    assert(!holds_digest(ds@, x@));
    false
}

/// Collects the distinct digests of the entries, in first-occurrence order.
fn collect_digests(entries: &Vec<DigestEntry>) -> (ds: Vec<Vec<u8>>)
    ensures
        forall|j: int| 0 <= j < entries@.len() ==> holds_digest(ds@, #[trigger] entries@[j].digest@),
        forall|k1: int|
            0 <= k1 < ds@.len() ==> digest_from_entries(de_view(entries@), (#[trigger] ds@[k1])@),
        forall|k1: int, k2: int|
            0 <= k1 < k2 < ds@.len() ==> (#[trigger] ds@[k1])@ != (#[trigger] ds@[k2])@,
{
    let ghost s = de_view(entries@);
    let mut ds: Vec<Vec<u8>> = Vec::new();
    let mut i: usize = 0;
    while i < entries.len()
        invariant
            i <= entries.len(),
            s == de_view(entries@),
            forall|j: int| 0 <= j < i ==> holds_digest(ds@, #[trigger] entries@[j].digest@),
            forall|k1: int| 0 <= k1 < ds@.len() ==> digest_from_entries(s, (#[trigger] ds@[k1])@),
            forall|k1: int, k2: int|
                0 <= k1 < k2 < ds@.len() ==> (#[trigger] ds@[k1])@ != (#[trigger] ds@[k2])@,
        decreases entries.len() - i,
    {
        let ghost d0 = ds@;
        let had = contains_digest(&ds, &entries[i].digest);
        if !had {
            let d = copy_bytes(&entries[i].digest);
            ds.push(d);
        }
        proof {
            assert(holds_digest(ds@, entries@[i as int].digest@)) by {
                if had {
                    let idx = choose|idx: int| 0 <= idx < d0.len() && d0[idx]@
                        == entries@[i as int].digest@;
                    assert(ds@[idx]@ == entries@[i as int].digest@);
                } else {
                    assert(ds@[ds@.len() - 1]@ == entries@[i as int].digest@);
                }
            }
            assert forall|j: int| 0 <= j < i implies holds_digest(
                ds@,
                #[trigger] entries@[j].digest@,
            ) by {
                let idx = choose|idx: int| 0 <= idx < d0.len() && d0[idx]@ == entries@[j].digest@;
                assert(ds@[idx]@ == entries@[j].digest@);
            }
            assert forall|k1: int| 0 <= k1 < ds@.len() implies digest_from_entries(
                s,
                (#[trigger] ds@[k1])@,
            ) by {
                if k1 < d0.len() {
                    assert(digest_from_entries(s, d0[k1]@));
                } else {
                    assert(s[i as int].2 == ds@[k1]@);
                }
            }
            assert forall|k1: int, k2: int| 0 <= k1 < k2 < ds@.len() implies (#[trigger] ds@[k1])@
                != (#[trigger] ds@[k2])@ by {
                if k2 >= d0.len() {
                    if ds@[k1]@ == ds@[k2]@ {
                        assert(holds_digest(d0, entries@[i as int].digest@)) by {
                            assert(d0[k1]@ == entries@[i as int].digest@);
                        }
                        assert(false);
                    }
                }
            }
        }
        i = i + 1;
    }
    ds
}

/// Collects, in input order, the paths of every entry whose digest is `d`,
/// and a size borne by one such entry (0 if there is none).
fn paths_for_digest(entries: &Vec<DigestEntry>, d: &Vec<u8>) -> (r: (Vec<Vec<u8>>, u64))
    ensures
        views_of(r.0@) == paths_with_digest(de_view(entries@), d@),
        r.0@.len() > 0 ==> digest_size_from_entries(de_view(entries@), d@, r.1),
{
    let ghost s = de_view(entries@);
    let mut paths: Vec<Vec<u8>> = Vec::new();
    let mut size: u64 = 0;
    let mut j: usize = 0;
    while j < entries.len()
        invariant
            j <= entries.len(),
            s == de_view(entries@),
            views_of(paths@) == paths_with_digest(s.take(j as int), d@),
            paths@.len() > 0 ==> digest_size_from_entries(s, d@, size),
        decreases entries.len() - j,
    {
        let ghost p0 = paths@;
        if bytes_eq(&entries[j].digest, d) {
            if paths.len() == 0 {
                size = entries[j].size;
            }
            let p = copy_bytes(&entries[j].path);
            paths.push(p);
            proof {
                assert(s[j as int].2 == d@ && s[j as int].1 == entries@[j as int].size);
            }
        }
        proof {
            assert(s.take(j as int + 1).drop_last() =~= s.take(j as int));
            assert(s.take(j as int + 1).last() == s[j as int]);
            assert(s[j as int] == (
                entries@[j as int].path@,
                entries@[j as int].size,
                entries@[j as int].digest@,
            ));
            if entries@[j as int].digest@ == d@ {
                assert(views_of(paths@) =~= views_of(p0).push(entries@[j as int].path@));
            }
        }
        j = j + 1;
    }
    proof {
        assert(s.take(s.len() as int) =~= s);
    }
    (paths, size)
}

/// Merges the confirmed candidates into the final clusters, as
/// `is_cluster_grouping` states: one cluster per digest borne by at least
/// two files, holding all their paths.
pub fn assemble_clusters(entries: &Vec<DigestEntry>) -> (out: Vec<Cluster>)
    ensures
        is_cluster_grouping(de_view(entries@), out@),
{
    let ghost s = de_view(entries@);
    let ds = collect_digests(entries);
    let mut out: Vec<Cluster> = Vec::new();
    let mut ki: usize = 0;
    while ki < ds.len()
        invariant
            ki <= ds.len(),
            s == de_view(entries@),
            forall|j: int|
                0 <= j < entries@.len() ==> holds_digest(ds@, #[trigger] entries@[j].digest@),
            forall|k1: int, k2: int|
                0 <= k1 < k2 < ds@.len() ==> (#[trigger] ds@[k1])@ != (#[trigger] ds@[k2])@,
            forall|b: int|
                0 <= b < out@.len() ==> views_of((#[trigger] out@[b]).paths@) == paths_with_digest(
                    s,
                    out@[b].digest@,
                ) && out@[b].paths@.len() >= 2 && digest_size_from_entries(
                    s,
                    out@[b].digest@,
                    out@[b].size,
                ),
            forall|b: int|
                0 <= b < out@.len() ==> exists|k2: int|
                    0 <= k2 < ki && ds@[k2]@ == (#[trigger] out@[b]).digest@,
            forall|b1: int, b2: int|
                0 <= b1 < b2 < out@.len() ==> (#[trigger] out@[b1]).digest@ != (
                #[trigger] out@[b2]).digest@,
            forall|k2: int|
                0 <= k2 < ki && paths_with_digest(s, (#[trigger] ds@[k2])@).len() >= 2
                    ==> has_cluster(out@, ds@[k2]@),
        decreases ds.len() - ki,
    {
        let (paths, size) = paths_for_digest(entries, &ds[ki]);
        let ghost out0 = out@;
        if paths.len() >= 2 {
            proof {
                assert forall|b: int| 0 <= b < out@.len() implies (#[trigger] out@[b]).digest@
                    != ds@[ki as int]@ by {
                    let k2 = choose|k2: int| 0 <= k2 < ki && ds@[k2]@ == out@[b].digest@;
                }
            }
            let d = copy_bytes(&ds[ki]);
            out.push(Cluster { digest: d, size, paths });
        }
        proof {
            assert forall|b: int| 0 <= b < out@.len() implies exists|k2: int|
                0 <= k2 < ki + 1 && ds@[k2]@ == (#[trigger] out@[b]).digest@ by {
                if b < out0.len() {
                    let k2 = choose|k2: int| 0 <= k2 < ki && ds@[k2]@ == out0[b].digest@;
                    assert(0 <= k2 < ki + 1 && ds@[k2]@ == out@[b].digest@);
                } else {
                    assert(ds@[ki as int]@ == out@[b].digest@);
                }
            }
            assert forall|k2: int|
                0 <= k2 < ki + 1 && paths_with_digest(s, (#[trigger] ds@[k2])@).len()
                    >= 2 implies has_cluster(out@, ds@[k2]@) by {
                if k2 < ki {
                    let b = choose|b: int| 0 <= b < out0.len() && out0[b].digest@ == ds@[k2]@;
                    assert(out@[b].digest@ == ds@[k2]@);
                } else {
                    assert(views_of(paths@).len() == paths@.len());
                    assert(out@[out@.len() - 1].digest@ == ds@[ki as int]@);
                }
            }
        }
        ki = ki + 1;
    }
    proof {
        assert forall|d: Seq<u8>| #[trigger] paths_with_digest(s, d).len() >= 2 implies has_cluster(
            out@,
            d,
        ) by {
            lemma_digest_occurs(s, d);
            let j = choose|j: int| 0 <= j < s.len() && s[j].2 == d;
            assert(s[j] == (entries@[j].path@, entries@[j].size, entries@[j].digest@));
            assert(entries@[j].digest@ == d);
            assert(holds_digest(ds@, d));
            let idx = choose|idx: int| 0 <= idx < ds@.len() && ds@[idx]@ == d;
            assert(paths_with_digest(s, ds@[idx]@).len() >= 2);
        }
    }
    out
}

} // verus!
