//! Enumerated files and the pure part of enumeration.
//!
//! Walking the directory trees is I/O and lives outside the library; what
//! arrives here is a flat list of (path, size) records. The enumeration
//! contract that the library can state — zero-length files never enter the
//! pipeline — is enforced by `keep_nonempty`.

use vstd::prelude::*;
use crate::bytes::copy_bytes;

verus! {

/// One enumerated file: its path as a byte string, and its exact byte size.
pub struct FileRecord {
    pub path: Vec<u8>,
    pub size: u64,
}

/// The (path, size) pairs of a record list.
pub open spec fn record_pairs(s: Seq<FileRecord>) -> Seq<(Seq<u8>, u64)> {
    s.map_values(|f: FileRecord| (f.path@, f.size))
}

/// The pairs among `s` whose size is positive, in input order.
pub open spec fn nonempty_of(s: Seq<(Seq<u8>, u64)>) -> Seq<(Seq<u8>, u64)>
    decreases s.len(),
{
    if s.len() == 0 {
        Seq::empty()
    } else if s.last().1 > 0 {
        nonempty_of(s.drop_last()).push(s.last())
    } else {
        nonempty_of(s.drop_last())
    }
}

/// Drops every zero-length file: such a file can never reach a bucket or a
/// cluster.
pub fn keep_nonempty(files: &Vec<FileRecord>) -> (out: Vec<FileRecord>)
    ensures
        record_pairs(out@) == nonempty_of(record_pairs(files@)),
{
    let ghost s = record_pairs(files@);
    let mut out: Vec<FileRecord> = Vec::new();
    let mut i: usize = 0;
    while i < files.len()
        invariant
            i <= files.len(),
            s == record_pairs(files@),
            record_pairs(out@) == nonempty_of(s.take(i as int)),
        decreases files.len() - i,
    {
        let ghost o0 = out@;
        if files[i].size > 0 {
            let p = copy_bytes(&files[i].path);
            out.push(FileRecord { path: p, size: files[i].size });
        }
        proof {
            assert(s.take(i as int + 1).drop_last() =~= s.take(i as int));
            assert(s.take(i as int + 1).last() == s[i as int]);
            assert(s[i as int] == (files@[i as int].path@, files@[i as int].size));
            if files@[i as int].size > 0 {
                assert(record_pairs(out@) =~= record_pairs(o0).push(s[i as int]));
            }
        }
        i = i + 1;
    }
    proof {
        assert(s.take(s.len() as int) =~= s);
    }
    out
}

} // verus!
