//! Fingerprint bucketing: the second filter of the pipeline.
//!
//! Each surviving size bucket is re-partitioned by a fast non-cryptographic
//! 64-bit hash of a bounded leading window of each file. Reading the window
//! is I/O and happens outside the library; the fingerprinting and the
//! bucketing are verified here, with the hash value itself named by
//! `xxh3_of`.

use vstd::prelude::*;
use crate::bytes::copy_bytes;
use crate::grouping::KeyBucket;
use crate::grouping::PathKey;
use crate::grouping::group_by_key;
use crate::grouping::is_grouping;
use crate::grouping::pk_view;

verus! {

/// How many leading bytes of a file feed its fingerprint.
pub const PREFIX_LEN: usize = 4096;

/// The leading window of a file's content that the fingerprint covers.
pub open spec fn prefix_of(content: Seq<u8>) -> Seq<u8> {
    if content.len() <= PREFIX_LEN {
        content
    } else {
        content.take(PREFIX_LEN as int)
    }
}

/// The 64-bit value that `xxhash_rust::xxh3::xxh3_64` computes for a byte
/// string; it depends on the bytes alone.
pub uninterp spec fn xxh3_of(bytes: Seq<u8>) -> u64;

/// Relies on `xxhash_rust::xxh3::xxh3_64`: the fingerprint is a pure
/// function of the input bytes.
#[verifier::external_body]
fn xxh3_chunk(bytes: &Vec<u8>) -> (r: u64)
    ensures
        r == xxh3_of(bytes@),
{
    xxhash_rust::xxh3::xxh3_64(bytes.as_slice())
}

/// One member of a size bucket, with the leading bytes actually read for it
/// (the whole content for a file shorter than the window).
pub struct PrefixEntry {
    pub path: Vec<u8>,
    pub prefix: Vec<u8>,
}

/// The (path, fingerprint) pairs of a prefixed member list.
pub open spec fn fp_pairs(s: Seq<PrefixEntry>) -> Seq<(Seq<u8>, u64)> {
    s.map_values(|e: PrefixEntry| (e.path@, xxh3_of(e.prefix@)))
}

/// Re-partitions one size bucket's members by the fingerprint of their
/// leading bytes, keeping only fingerprints shared by at least two members.
pub fn fingerprint_stage(prefixed: &Vec<PrefixEntry>) -> (out: Vec<KeyBucket>)
    ensures
        is_grouping(fp_pairs(prefixed@), out@),
{
    let ghost s = fp_pairs(prefixed@);
    let mut items: Vec<PathKey> = Vec::new();
    let mut i: usize = 0;
    while i < prefixed.len()
        invariant
            i <= prefixed.len(),
            s == fp_pairs(prefixed@),
            pk_view(items@) == s.take(i as int),
        decreases prefixed.len() - i,
    {
        let ghost it0 = items@;
        let p = copy_bytes(&prefixed[i].path);
        let fp = xxh3_chunk(&prefixed[i].prefix);
        items.push(PathKey { path: p, key: fp });
        proof {
            assert(s[i as int] == (prefixed@[i as int].path@, xxh3_of(prefixed@[i as int].prefix@)));
            assert(pk_view(items@) =~= pk_view(it0).push(s[i as int]));
            assert(pk_view(it0).push(s[i as int]) =~= s.take(i as int + 1));
        }
        i = i + 1;
    }
    proof {
        assert(s.take(s.len() as int) =~= s);
    }
    group_by_key(items)
}

} // verus!
