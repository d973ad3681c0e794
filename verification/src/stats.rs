//! Aggregate statistics over a run: total bytes enumerated and total bytes
//! held in duplicate copies. Sums saturate at the top of `u64` instead of
//! wrapping or panicking.

use vstd::prelude::*;
use crate::records::FileRecord;
use crate::records::record_pairs;
use crate::cluster::Cluster;
use crate::report::cluster_ext;

verus! {

/// `x` clipped to the range of `u64` (sums here are never negative).
pub open spec fn clamp_to_u64(x: int) -> int {
    if x > u64::MAX {
        u64::MAX as int
    } else {
        x
    }
}

/// The sum of the sizes of the enumerated files.
pub open spec fn sum_sizes(s: Seq<(Seq<u8>, u64)>) -> int
    decreases s.len(),
{
    if s.len() == 0 {
        0
    } else {
        sum_sizes(s.drop_last()) + s.last().1
    }
}

/// The bytes a cluster holds beyond one retained copy: its common size times
/// (member count - 1).
pub open spec fn dup_term(c: Cluster) -> int {
    if c.paths@.len() == 0 {
        0
    } else {
        c.size * (c.paths@.len() - 1)
    }
}

/// The total duplicated bytes over a cluster list.
pub open spec fn sum_dup(s: Seq<Cluster>) -> int
    decreases s.len(),
{
    if s.len() == 0 {
        0
    } else {
        sum_dup(s.drop_last()) + dup_term(s.last())
    }
}

pub proof fn lemma_sum_sizes_nonneg(s: Seq<(Seq<u8>, u64)>)
    ensures
        sum_sizes(s) >= 0,
    decreases s.len(),
{
    if s.len() > 0 {
        lemma_sum_sizes_nonneg(s.drop_last());
    }
}

pub proof fn lemma_sum_dup_nonneg(s: Seq<Cluster>)
    ensures
        sum_dup(s) >= 0,
    decreases s.len(),
{
    if s.len() > 0 {
        lemma_sum_dup_nonneg(s.drop_last());
    }
}

/// The duplicated bytes of the clusters whose first member bears the
/// extension label `e`.
pub open spec fn sum_dup_by_ext(s: Seq<Cluster>, e: Seq<u8>) -> int
    decreases s.len(),
{
    if s.len() == 0 {
        0
    } else {
        sum_dup_by_ext(s.drop_last(), e) + if s.last().paths@.len() > 0 && cluster_ext(s.last())
            == e {
            dup_term(s.last())
        } else {
            0
        }
    }
}

pub proof fn lemma_sum_dup_by_ext_nonneg(s: Seq<Cluster>, e: Seq<u8>)
    ensures
        sum_dup_by_ext(s, e) >= 0,
    decreases s.len(),
{
    if s.len() > 0 {
        lemma_sum_dup_by_ext_nonneg(s.drop_last(), e);
    }
}

/// Saturating addition on `u64`.
pub fn sat_add(a: u64, b: u64) -> (r: u64)
    ensures
        r as int == clamp_to_u64(a as int + b as int),
{
    if b > u64::MAX - a {
        u64::MAX
    } else {
        a + b
    }
}

/// The total byte size of the enumerated files, saturating at `u64::MAX`.
pub fn total_size(files: &Vec<FileRecord>) -> (t: u64)
    ensures
        t as int == clamp_to_u64(sum_sizes(record_pairs(files@))),
{
    let ghost s = record_pairs(files@);
    let mut t: u64 = 0;
    let mut i: usize = 0;
    while i < files.len()
        invariant
            i <= files.len(),
            s == record_pairs(files@),
            t as int == clamp_to_u64(sum_sizes(s.take(i as int))),
        decreases files.len() - i,
    {
        proof {
            assert(s.take(i as int + 1).drop_last() =~= s.take(i as int));
            assert(s.take(i as int + 1).last() == s[i as int]);
            assert(s[i as int] == (files@[i as int].path@, files@[i as int].size));
            lemma_sum_sizes_nonneg(s.take(i as int));
        }
        t = sat_add(t, files[i].size);
        i = i + 1;
    }
    proof {
        assert(s.take(s.len() as int) =~= s);
    }
    t
}

/// The total duplicated bytes over the clusters — for each cluster its common
/// size times one less than its member count — saturating at `u64::MAX`.
pub fn duplicated_size(clusters: &Vec<Cluster>) -> (t: u64)
    ensures
        t as int == clamp_to_u64(sum_dup(clusters@)),
{
    let mut t: u64 = 0;
    let mut i: usize = 0;
    while i < clusters.len()
        invariant
            i <= clusters.len(),
            t as int == clamp_to_u64(sum_dup(clusters@.take(i as int))),
        decreases clusters.len() - i,
    {
        proof {
            assert(clusters@.take(i as int + 1).drop_last() =~= clusters@.take(i as int));
            assert(clusters@.take(i as int + 1).last() == clusters@[i as int]);
            lemma_sum_dup_nonneg(clusters@.take(i as int));
        }
        let c = &clusters[i];
        let n = c.paths.len();
        let term: u64 = if n == 0 {
            0
        } else {
            let m: u64 = (n - 1) as u64;
            proof {
                assert((c.size as int) * (m as int) <= (u64::MAX as int) * (u64::MAX as int))
                    by (nonlinear_arith)
                    requires
                        0 <= c.size as int <= u64::MAX as int,
                        0 <= m as int <= u64::MAX as int,
                ;
            }
            let prod: u128 = (c.size as u128) * (m as u128);
            if prod > u64::MAX as u128 {
                u64::MAX
            } else {
                prod as u64
            }
        };
        proof {
            assert(term as int == clamp_to_u64(dup_term(clusters@[i as int])));
        }
        t = sat_add(t, term);
        i = i + 1;
    }
    proof {
        assert(clusters@.take(clusters@.len() as int) =~= clusters@);
    }
    t
}

} // verus!
