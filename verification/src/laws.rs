//! The guarantees of the pipeline, stated and proved over the stage
//! contracts: what `is_grouping` promises for the size and fingerprint
//! stages, and what `is_cluster_grouping` promises for the final clusters.

use vstd::prelude::*;
use crate::cluster::Cluster;
use crate::cluster::digest_size_from_entries;
use crate::cluster::has_cluster;
use crate::cluster::is_cluster_grouping;
use crate::cluster::lemma_digest_path_from;
use crate::cluster::lemma_digest_path_in;
use crate::cluster::lemma_two_digest_entries;
use crate::cluster::path_digest_from_entries;
use crate::cluster::paths_with_digest;
use crate::grouping::KeyBucket;
use crate::grouping::has_bucket;
use crate::grouping::is_grouping;
use crate::grouping::lemma_key_path_from;
use crate::grouping::lemma_key_path_in;
use crate::grouping::path_key_from_entries;
use crate::grouping::lemma_two_entries;
use crate::grouping::paths_with_key;
use crate::grouping::views_of;
use crate::fingerprint::prefix_of;
use crate::fingerprint::xxh3_of;
use crate::hashing::digest_of;

verus! {

/// Size invariant: when digest equality implies size equality among the
/// confirmed candidates — which holds when digests are cryptographic, since
/// byte-identical content has one length — every member of a cluster was
/// recorded with exactly the cluster's size.
pub proof fn lemma_cluster_size_invariant(
    s: Seq<(Seq<u8>, u64, Seq<u8>)>,
    out: Seq<Cluster>,
    b: int,
    j: int,
)
    requires
        is_cluster_grouping(s, out),
        forall|j1: int, j2: int|
            0 <= j1 < s.len() && 0 <= j2 < s.len() && (#[trigger] s[j1]).2 == (#[trigger] s[j2]).2
                ==> s[j1].1 == s[j2].1,
        0 <= b < out.len(),
        0 <= j < s.len(),
        s[j].2 == out[b].digest@,
    ensures
        s[j].1 == out[b].size,
{
    assert(digest_size_from_entries(s, out[b].digest@, out[b].size));
    let j0 = choose|j0: int| 0 <= j0 < s.len() && s[j0].2 == out[b].digest@ && s[j0].1 == out[b].size;
    assert(s[j].1 == s[j0].1);
}

/// Digest invariant: every member path of a cluster belongs to an entry
/// bearing exactly the cluster's digest, so re-hashing any member yields the
/// cluster key.
pub proof fn lemma_cluster_digest_invariant(s: Seq<(Seq<u8>, u64, Seq<u8>)>, out: Seq<Cluster>)
    requires
        is_cluster_grouping(s, out),
    ensures
        forall|b: int, i: int|
            #![trigger out[b].paths@[i]]
            0 <= b < out.len() && 0 <= i < out[b].paths@.len() ==> path_digest_from_entries(
                s,
                out[b].paths@[i]@,
                out[b].digest@,
            ),
{
    assert forall|b: int, i: int|
        #![trigger out[b].paths@[i]]
        0 <= b < out.len() && 0 <= i < out[b].paths@.len() implies path_digest_from_entries(
        s,
        out[b].paths@[i]@,
        out[b].digest@,
    ) by {
        lemma_digest_path_from(s, out[b].digest@);
        assert(views_of(out[b].paths@)[i] == out[b].paths@[i]@);
        assert(paths_with_digest(s, out[b].digest@)[i] == out[b].paths@[i]@);
    }
}

/// Soundness: when each candidate's recorded digest is the digest of its
/// content, any two members of one cluster have contents with the same
/// digest — under a collision-free digest, byte-identical content. No two
/// files with differing digests ever share a cluster.
pub proof fn lemma_cluster_soundness(
    contents: Map<Seq<u8>, Seq<u8>>,
    s: Seq<(Seq<u8>, u64, Seq<u8>)>,
    out: Seq<Cluster>,
)
    requires
        is_cluster_grouping(s, out),
        forall|j: int| 0 <= j < s.len() ==> (#[trigger] s[j]).2 == digest_of(contents[s[j].0]),
    ensures
        forall|b: int, i: int|
            #![trigger out[b].paths@[i]]
            0 <= b < out.len() && 0 <= i < out[b].paths@.len() ==> digest_of(
                contents[out[b].paths@[i]@],
            ) == out[b].digest@,
{
    lemma_cluster_digest_invariant(s, out);
    assert forall|b: int, i: int|
        #![trigger out[b].paths@[i]]
        0 <= b < out.len() && 0 <= i < out[b].paths@.len() implies digest_of(
        contents[out[b].paths@[i]@],
    ) == out[b].digest@ by {
        assert(path_digest_from_entries(s, out[b].paths@[i]@, out[b].digest@));
        let j = choose|j: int|
            0 <= j < s.len() && s[j].2 == out[b].digest@ && s[j].0 == out[b].paths@[i]@;
    }
}

/// Bucket invariant at a key stage: every member of a bucket is the path of
/// a candidate bearing exactly the bucket's key — so all members of a size
/// bucket share that byte size, and all members of a fingerprint bucket
/// share that fingerprint (within the size bucket it refined).
pub proof fn lemma_bucket_members_share_key(s: Seq<(Seq<u8>, u64)>, out: Seq<KeyBucket>)
    requires
        is_grouping(s, out),
    ensures
        forall|b: int, i: int|
            #![trigger out[b].paths@[i]]
            0 <= b < out.len() && 0 <= i < out[b].paths@.len() ==> path_key_from_entries(
                s,
                out[b].paths@[i]@,
                out[b].key,
            ),
{
    assert forall|b: int, i: int|
        #![trigger out[b].paths@[i]]
        0 <= b < out.len() && 0 <= i < out[b].paths@.len() implies path_key_from_entries(
        s,
        out[b].paths@[i]@,
        out[b].key,
    ) by {
        lemma_key_path_from(s, out[b].key);
        assert(views_of(out[b].paths@)[i] == out[b].paths@[i]@);
        assert(paths_with_key(s, out[b].key)[i] == out[b].paths@[i]@);
    }
}

/// Completeness at a key stage: two distinct candidates sharing a key appear
/// together in exactly one bucket of that stage's output.
pub proof fn lemma_key_stage_completeness(
    s: Seq<(Seq<u8>, u64)>,
    out: Seq<KeyBucket>,
    j1: int,
    j2: int,
)
    requires
        is_grouping(s, out),
        0 <= j1 < j2 < s.len(),
        s[j1].1 == s[j2].1,
    ensures
        exists|b: int|
            0 <= b < out.len() && (#[trigger] out[b]).key == s[j1].1 && views_of(
                out[b].paths@,
            ).contains(s[j1].0) && views_of(out[b].paths@).contains(s[j2].0),
        forall|b1: int, b2: int|
            0 <= b1 < out.len() && 0 <= b2 < out.len() && (#[trigger] out[b1]).key == s[j1].1 && (
            #[trigger] out[b2]).key == s[j1].1 ==> b1 == b2,
{
    let k = s[j1].1;
    lemma_two_entries(s, k, j1, j2);
    assert(has_bucket(out, k));
    let b = choose|b: int| 0 <= b < out.len() && out[b].key == k;
    lemma_key_path_in(s, k, j1);
    lemma_key_path_in(s, k, j2);
    assert(views_of(out[b].paths@) == paths_with_key(s, k));
    assert(0 <= b < out.len() && out[b].key == s[j1].1 && views_of(out[b].paths@).contains(s[j1].0)
        && views_of(out[b].paths@).contains(s[j2].0));
}

/// Completeness at the confirmation stage: two distinct candidates sharing a
/// digest appear together in exactly one cluster.
pub proof fn lemma_cluster_completeness(
    s: Seq<(Seq<u8>, u64, Seq<u8>)>,
    out: Seq<Cluster>,
    j1: int,
    j2: int,
)
    requires
        is_cluster_grouping(s, out),
        0 <= j1 < j2 < s.len(),
        s[j1].2 == s[j2].2,
    ensures
        exists|b: int|
            0 <= b < out.len() && (#[trigger] out[b]).digest@ == s[j1].2 && views_of(
                out[b].paths@,
            ).contains(s[j1].0) && views_of(out[b].paths@).contains(s[j2].0),
        forall|b1: int, b2: int|
            0 <= b1 < out.len() && 0 <= b2 < out.len() && (#[trigger] out[b1]).digest@ == s[j1].2
                && (#[trigger] out[b2]).digest@ == s[j1].2 ==> b1 == b2,
{
    let d = s[j1].2;
    lemma_two_digest_entries(s, d, j1, j2);
    assert(has_cluster(out, d));
    let b = choose|b: int| 0 <= b < out.len() && out[b].digest@ == d;
    lemma_digest_path_in(s, d, j1);
    lemma_digest_path_in(s, d, j2);
    assert(views_of(out[b].paths@) == paths_with_digest(s, d));
    assert(0 <= b < out.len() && out[b].digest@ == s[j1].2 && views_of(out[b].paths@).contains(
        s[j1].0,
    ) && views_of(out[b].paths@).contains(s[j2].0));
}

/// Completeness for byte-identical content: when each confirmed candidate's
/// recorded digest is the digest of its content, two candidates with
/// byte-identical contents appear together in exactly one cluster.
pub proof fn lemma_identical_content_clustered(
    contents: Map<Seq<u8>, Seq<u8>>,
    s: Seq<(Seq<u8>, u64, Seq<u8>)>,
    out: Seq<Cluster>,
    j1: int,
    j2: int,
)
    requires
        is_cluster_grouping(s, out),
        forall|j: int| 0 <= j < s.len() ==> (#[trigger] s[j]).2 == digest_of(contents[s[j].0]),
        0 <= j1 < j2 < s.len(),
        contents[s[j1].0] == contents[s[j2].0],
    ensures
        exists|b: int|
            0 <= b < out.len() && (#[trigger] out[b]).digest@ == s[j1].2 && views_of(
                out[b].paths@,
            ).contains(s[j1].0) && views_of(out[b].paths@).contains(s[j2].0),
        forall|b1: int, b2: int|
            0 <= b1 < out.len() && 0 <= b2 < out.len() && (#[trigger] out[b1]).digest@ == s[j1].2
                && (#[trigger] out[b2]).digest@ == s[j1].2 ==> b1 == b2,
{
    assert(s[j1].2 == s[j2].2);
    lemma_cluster_completeness(s, out, j1, j2);
}

/// Completeness across the whole pipeline: when the stages were run as the
/// pipeline prescribes — files bucketed by their true content sizes, every
/// size bucket refingerprinted over its own members by the fingerprint of
/// each member's leading window, every fingerprint survivor confirmation-
/// hashed, and the clusters assembled from those entries — two enumerated
/// files with byte-identical contents appear together in a cluster, and
/// each of them appears in exactly one.
pub proof fn lemma_pipeline_completeness(
    contents: Map<Seq<u8>, Seq<u8>>,
    files: Seq<(Seq<u8>, u64)>,
    sbuckets: Seq<KeyBucket>,
    fp_inputs: Seq<Seq<(Seq<u8>, u64)>>,
    fbuckets: Seq<Seq<KeyBucket>>,
    entries: Seq<(Seq<u8>, u64, Seq<u8>)>,
    clusters: Seq<Cluster>,
    f1: int,
    f2: int,
)
    requires
        // every enumerated size is its file's content length
        forall|j: int| 0 <= j < files.len() ==> (#[trigger] files[j]).1 == contents[files[j].0].len(),
        // the size stage ran over the enumerated files
        is_grouping(files, sbuckets),
        // each size bucket was fingerprinted over its own members, keyed by
        // the fingerprint of each member's leading window
        fp_inputs.len() == sbuckets.len(),
        fbuckets.len() == sbuckets.len(),
        forall|b: int|
            0 <= b < sbuckets.len() ==> (#[trigger] fp_inputs[b]).len()
                == sbuckets[b].paths@.len(),
        forall|b: int, i: int|
            #![trigger fp_inputs[b][i]]
            0 <= b < sbuckets.len() && 0 <= i < fp_inputs[b].len() ==> fp_inputs[b][i] == (
                sbuckets[b].paths@[i]@,
                xxh3_of(prefix_of(contents[sbuckets[b].paths@[i]@])),
            ),
        forall|b: int| 0 <= b < sbuckets.len() ==> is_grouping(fp_inputs[b], #[trigger] fbuckets[b]),
        // every fingerprint survivor was confirmation-hashed into the entries
        forall|b: int, b2: int, i: int|
            #![trigger fbuckets[b][b2].paths@[i]]
            0 <= b < fbuckets.len() && 0 <= b2 < fbuckets[b].len() && 0 <= i
                < fbuckets[b][b2].paths@.len() ==> path_digest_from_entries(
                entries,
                fbuckets[b][b2].paths@[i]@,
                digest_of(contents[fbuckets[b][b2].paths@[i]@]),
            ),
        // every entry's digest is the digest of its content
        forall|j: int|
            0 <= j < entries.len() ==> (#[trigger] entries[j]).2 == digest_of(
                contents[entries[j].0],
            ),
        // the clusters were assembled from those entries
        is_cluster_grouping(entries, clusters),
        // two enumerated files with byte-identical contents
        0 <= f1 < files.len(),
        0 <= f2 < files.len(),
        files[f1].0 != files[f2].0,
        contents[files[f1].0] == contents[files[f2].0],
    ensures
        exists|b: int|
            0 <= b < clusters.len() && views_of((#[trigger] clusters[b]).paths@).contains(
                files[f1].0,
            ) && views_of(clusters[b].paths@).contains(files[f2].0),
        forall|b1: int, b2: int|
            0 <= b1 < clusters.len() && 0 <= b2 < clusters.len() && views_of(
                (#[trigger] clusters[b1]).paths@,
            ).contains(files[f1].0) && views_of((#[trigger] clusters[b2]).paths@).contains(
                files[f1].0,
            ) ==> b1 == b2,
{
    let p1 = files[f1].0;
    let p2 = files[f2].0;
    // Stage 1: equal contents give equal sizes, so both land in one bucket.
    assert(files[f1].1 == files[f2].1);
    let (g1, g2) = if f1 < f2 { (f1, f2) } else { (f2, f1) };
    lemma_key_stage_completeness(files, sbuckets, g1, g2);
    let sb = choose|b: int|
        0 <= b < sbuckets.len() && sbuckets[b].key == files[g1].1 && views_of(
            sbuckets[b].paths@,
        ).contains(files[g1].0) && views_of(sbuckets[b].paths@).contains(files[g2].0);
    let sv = views_of(sbuckets[sb].paths@);
    let i1 = choose|i: int| 0 <= i < sv.len() && sv[i] == p1;
    let i2 = choose|i: int| 0 <= i < sv.len() && sv[i] == p2;
    assert(sv.len() == sbuckets[sb].paths@.len());
    assert(sbuckets[sb].paths@[i1]@ == p1);
    assert(sbuckets[sb].paths@[i2]@ == p2);
    // Stage 2: equal contents give equal leading windows, so equal keys.
    assert(fp_inputs[sb][i1] == (p1, xxh3_of(prefix_of(contents[p1]))));
    assert(fp_inputs[sb][i2] == (p2, xxh3_of(prefix_of(contents[p2]))));
    assert(fp_inputs[sb][i1].1 == fp_inputs[sb][i2].1);
    assert(i1 != i2);
    let (h1, h2) = if i1 < i2 { (i1, i2) } else { (i2, i1) };
    lemma_key_stage_completeness(fp_inputs[sb], fbuckets[sb], h1, h2);
    let fb = choose|b2: int|
        0 <= b2 < fbuckets[sb].len() && fbuckets[sb][b2].key == fp_inputs[sb][h1].1 && views_of(
            fbuckets[sb][b2].paths@,
        ).contains(fp_inputs[sb][h1].0) && views_of(fbuckets[sb][b2].paths@).contains(
            fp_inputs[sb][h2].0,
        );
    let fv = views_of(fbuckets[sb][fb].paths@);
    let m1 = choose|i: int| 0 <= i < fv.len() && fv[i] == p1;
    let m2 = choose|i: int| 0 <= i < fv.len() && fv[i] == p2;
    assert(fbuckets[sb][fb].paths@[m1]@ == p1);
    assert(fbuckets[sb][fb].paths@[m2]@ == p2);
    // Stage 3: both survivors were hashed, with one digest.
    assert(path_digest_from_entries(entries, p1, digest_of(contents[p1])));
    assert(path_digest_from_entries(entries, p2, digest_of(contents[p2])));
    let j1 = choose|j: int|
        0 <= j < entries.len() && entries[j].2 == digest_of(contents[p1]) && entries[j].0 == p1;
    let j2 = choose|j: int|
        0 <= j < entries.len() && entries[j].2 == digest_of(contents[p2]) && entries[j].0 == p2;
    assert(j1 != j2);
    assert(entries[j1].2 == entries[j2].2);
    let (e1, e2) = if j1 < j2 { (j1, j2) } else { (j2, j1) };
    lemma_cluster_completeness(entries, clusters, e1, e2);
    let cb = choose|b: int|
        0 <= b < clusters.len() && clusters[b].digest@ == entries[e1].2 && views_of(
            clusters[b].paths@,
        ).contains(entries[e1].0) && views_of(clusters[b].paths@).contains(entries[e2].0);
    assert(0 <= cb < clusters.len() && views_of(clusters[cb].paths@).contains(p1) && views_of(
        clusters[cb].paths@,
    ).contains(p2));
    // Uniqueness: a member's cluster key is the digest of its content, and
    // cluster keys are pairwise distinct.
    lemma_cluster_soundness(contents, entries, clusters);
    assert forall|b1: int, b2: int|
        0 <= b1 < clusters.len() && 0 <= b2 < clusters.len() && views_of(
            (#[trigger] clusters[b1]).paths@,
        ).contains(p1) && views_of((#[trigger] clusters[b2]).paths@).contains(p1) implies b1
        == b2 by {
        let n1 = choose|i: int|
            0 <= i < views_of(clusters[b1].paths@).len() && views_of(clusters[b1].paths@)[i] == p1;
        let n2 = choose|i: int|
            0 <= i < views_of(clusters[b2].paths@).len() && views_of(clusters[b2].paths@)[i] == p1;
        assert(clusters[b1].paths@[n1]@ == p1);
        assert(clusters[b2].paths@[n2]@ == p1);
        assert(digest_of(contents[p1]) == clusters[b1].digest@);
        assert(digest_of(contents[p1]) == clusters[b2].digest@);
        if b1 < b2 {
            assert(clusters[b1].digest@ != clusters[b2].digest@);
        }
        if b2 < b1 {
            assert(clusters[b2].digest@ != clusters[b1].digest@);
        }
    }
}

/// Singleton elimination at a key stage: a key borne by fewer than two
/// candidates has no bucket.
pub proof fn lemma_singleton_key_excluded(s: Seq<(Seq<u8>, u64)>, out: Seq<KeyBucket>, k: u64)
    requires
        is_grouping(s, out),
        paths_with_key(s, k).len() < 2,
    ensures
        forall|b: int| 0 <= b < out.len() ==> (#[trigger] out[b]).key != k,
{
    assert forall|b: int| 0 <= b < out.len() implies (#[trigger] out[b]).key != k by {
        if out[b].key == k {
            assert(views_of(out[b].paths@).len() == out[b].paths@.len());
        }
    }
}

/// Singleton elimination at the confirmation stage: a digest borne by fewer
/// than two candidates has no cluster.
pub proof fn lemma_singleton_digest_excluded(
    s: Seq<(Seq<u8>, u64, Seq<u8>)>,
    out: Seq<Cluster>,
    d: Seq<u8>,
)
    requires
        is_cluster_grouping(s, out),
        paths_with_digest(s, d).len() < 2,
    ensures
        forall|b: int| 0 <= b < out.len() ==> (#[trigger] out[b]).digest@ != d,
{
    assert forall|b: int| 0 <= b < out.len() implies (#[trigger] out[b]).digest@ != d by {
        if out[b].digest@ == d {
            assert(views_of(out[b].paths@).len() == out[b].paths@.len());
        }
    }
}

/// Idempotence at a key stage: any two outputs satisfying the grouping
/// contract over the same candidates carry the same keys, and equal-keyed
/// buckets hold exactly the same paths — membership is a function of the
/// candidates alone, only bucket order may vary.
pub proof fn lemma_key_stage_deterministic(
    s: Seq<(Seq<u8>, u64)>,
    out1: Seq<KeyBucket>,
    out2: Seq<KeyBucket>,
)
    requires
        is_grouping(s, out1),
        is_grouping(s, out2),
    ensures
        forall|k: u64| has_bucket(out1, k) <==> has_bucket(out2, k),
        forall|b1: int, b2: int|
            0 <= b1 < out1.len() && 0 <= b2 < out2.len() && (#[trigger] out1[b1]).key == (
            #[trigger] out2[b2]).key ==> views_of(out1[b1].paths@) == views_of(out2[b2].paths@),
{
    assert forall|k: u64| has_bucket(out1, k) <==> has_bucket(out2, k) by {
        if has_bucket(out1, k) {
            let b = choose|b: int| 0 <= b < out1.len() && out1[b].key == k;
            assert(views_of(out1[b].paths@).len() == out1[b].paths@.len());
            assert(paths_with_key(s, k).len() >= 2);
        }
        if has_bucket(out2, k) {
            let b = choose|b: int| 0 <= b < out2.len() && out2[b].key == k;
            assert(views_of(out2[b].paths@).len() == out2[b].paths@.len());
            assert(paths_with_key(s, k).len() >= 2);
        }
    }
}

/// Idempotence at the confirmation stage: any two outputs satisfying the
/// cluster contract over the same candidates carry the same digests, and
/// equal-keyed clusters hold exactly the same paths.
pub proof fn lemma_clusters_deterministic(
    s: Seq<(Seq<u8>, u64, Seq<u8>)>,
    out1: Seq<Cluster>,
    out2: Seq<Cluster>,
)
    requires
        is_cluster_grouping(s, out1),
        is_cluster_grouping(s, out2),
    ensures
        forall|d: Seq<u8>| has_cluster(out1, d) <==> has_cluster(out2, d),
        forall|b1: int, b2: int|
            0 <= b1 < out1.len() && 0 <= b2 < out2.len() && (#[trigger] out1[b1]).digest@ == (
            #[trigger] out2[b2]).digest@ ==> views_of(out1[b1].paths@) == views_of(
                out2[b2].paths@,
            ),
{
    assert forall|d: Seq<u8>| has_cluster(out1, d) <==> has_cluster(out2, d) by {
        if has_cluster(out1, d) {
            let b = choose|b: int| 0 <= b < out1.len() && out1[b].digest@ == d;
            assert(views_of(out1[b].paths@).len() == out1[b].paths@.len());
            assert(paths_with_digest(s, d).len() >= 2);
        }
        if has_cluster(out2, d) {
            let b = choose|b: int| 0 <= b < out2.len() && out2[b].digest@ == d;
            assert(views_of(out2[b].paths@).len() == out2[b].paths@.len());
            assert(paths_with_digest(s, d).len() >= 2);
        }
    }
}

} // verus!
