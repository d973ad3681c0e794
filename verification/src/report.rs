//! Shaping the pipeline's terminal artifact for its consumers.
//!
//! Reporting layers are pure consumers of this structure: a run's totals and
//! one entry per cluster, with the digest rendered in hex and each member
//! path split into name, containing directory and lowercased extension.

use vstd::prelude::*;
use crate::bytes::bytes_eq;
use crate::bytes::copy_bytes;
use crate::cluster::Cluster;
use crate::records::FileRecord;
use crate::records::record_pairs;
use crate::stats::clamp_to_u64;
use crate::stats::dup_term;
use crate::stats::lemma_sum_dup_by_ext_nonneg;
use crate::stats::sat_add;
use crate::stats::sum_dup_by_ext;
use crate::stats::sum_dup;
use crate::stats::sum_sizes;
use crate::stats::total_size;
use crate::stats::duplicated_size;

verus! {

/// The byte '/' that separates path components.
pub const SLASH: u8 = 47;

/// The byte '.' that separates a file name from its extension.
pub const DOT: u8 = 46;

/// The bytes of the fallback extension label "other".
pub open spec fn other_label() -> Seq<u8> {
    seq![111u8, 116u8, 104u8, 101u8, 114u8]
}

/// The file name: everything after the last '/' (the whole path if none).
pub open spec fn basename_of(p: Seq<u8>) -> Seq<u8>
    decreases p.len(),
{
    if p.len() == 0 {
        Seq::empty()
    } else if p.last() == SLASH {
        Seq::empty()
    } else {
        basename_of(p.drop_last()).push(p.last())
    }
}

/// The containing directory: everything before the last '/' (empty if none).
pub open spec fn dirname_of(p: Seq<u8>) -> Seq<u8>
    decreases p.len(),
{
    if p.len() == 0 {
        Seq::empty()
    } else if p.last() == SLASH {
        p.drop_last()
    } else {
        dirname_of(p.drop_last())
    }
}

/// The part of a file name after its last '.', provided that dot is not the
/// leading byte; `None` for a name without such a dot (including names whose
/// only dot starts them).
pub open spec fn dot_suffix(name: Seq<u8>) -> Option<Seq<u8>>
    decreases name.len(),
{
    if name.len() <= 1 {
        None
    } else if name.last() == DOT {
        Some(Seq::empty())
    } else {
        match dot_suffix(name.drop_last()) {
            Some(s) => Some(s.push(name.last())),
            None => None,
        }
    }
}

/// ASCII lowercasing of one byte.
pub open spec fn ascii_lower(c: u8) -> u8 {
    if 65 <= c <= 90 {
        (c + 32) as u8
    } else {
        c
    }
}

/// ASCII lowercasing of a byte string.
pub open spec fn lower_of(s: Seq<u8>) -> Seq<u8> {
    s.map_values(|c: u8| ascii_lower(c))
}

/// The extension label of a file name: its dot suffix, lowercased, or
/// "other" when it has none.
pub open spec fn extension_of(name: Seq<u8>) -> Seq<u8> {
    match dot_suffix(name) {
        Some(s) => lower_of(s),
        None => other_label(),
    }
}

/// Lowercase hex digit of a value below 16.
pub open spec fn hex_digit(d: u8) -> u8 {
    if d < 10 {
        (48 + d) as u8
    } else {
        (87 + d) as u8
    }
}

/// Lowercase hex rendering of a byte string, two digits per byte.
pub open spec fn hex_of(bytes: Seq<u8>) -> Seq<u8>
    decreases bytes.len(),
{
    if bytes.len() == 0 {
        Seq::empty()
    } else {
        hex_of(bytes.drop_last()).push(hex_digit(bytes.last() / 16)).push(
            hex_digit(bytes.last() % 16),
        )
    }
}

/// Renders a byte string in lowercase hex.
pub fn to_hex(bytes: &Vec<u8>) -> (r: Vec<u8>)
    ensures
        r@ == hex_of(bytes@),
{
    let mut r: Vec<u8> = Vec::new();
    let mut i: usize = 0;
    while i < bytes.len()
        invariant
            i <= bytes.len(),
            r@ == hex_of(bytes@.take(i as int)),
        decreases bytes.len() - i,
    {
        let b = bytes[i];
        let hi = b / 16;
        let lo = b % 16;
        let ghost r0 = r@;
        r.push(if hi < 10 { 48 + hi } else { 87 + hi });
        r.push(if lo < 10 { 48 + lo } else { 87 + lo });
        proof {
            assert(bytes@.take(i as int + 1).drop_last() =~= bytes@.take(i as int));
            assert(bytes@.take(i as int + 1).last() == bytes@[i as int]);
            assert(r@ =~= r0.push(hex_digit(bytes@[i as int] / 16)).push(
                hex_digit(bytes@[i as int] % 16),
            ));
        }
        i = i + 1;
    }
    proof {
        assert(bytes@.take(bytes@.len() as int) =~= bytes@);
    }
    r
}

/// One member file of a reported duplicate set, split for display.
pub struct FileInfo {
    pub name: Vec<u8>,
    pub directory: Vec<u8>,
    pub extension: Vec<u8>,
}

/// Splits a path into file name, containing directory and extension label.
pub fn file_info_of(path: &Vec<u8>) -> (info: FileInfo)
    ensures
        info.name@ == basename_of(path@),
        info.directory@ == dirname_of(path@),
        info.extension@ == extension_of(basename_of(path@)),
{
    let mut name: Vec<u8> = Vec::new();
    let mut dir_len: usize = 0;
    let mut seen_slash = false;
    let mut i: usize = 0;
    while i < path.len()
        invariant
            i <= path.len(),
            name@ == basename_of(path@.take(i as int)),
            if seen_slash {
                dirname_of(path@.take(i as int)) == path@.take(dir_len as int) && dir_len < i
            } else {
                dirname_of(path@.take(i as int)) == Seq::<u8>::empty() && dir_len == 0
            },
        decreases path.len() - i,
    {
        let ghost n0 = name@;
        if path[i] == SLASH {
            name = Vec::new();
            dir_len = i;
            seen_slash = true;
        } else {
            name.push(path[i]);
        }
        proof {
            assert(path@.take(i as int + 1).drop_last() =~= path@.take(i as int));
            assert(path@.take(i as int + 1).last() == path@[i as int]);
            if path@[i as int] != SLASH {
                assert(name@ =~= n0.push(path@[i as int]));
            }
        }
        i = i + 1;
    }
    proof {
        assert(path@.take(path@.len() as int) =~= path@);
    }
    let mut directory: Vec<u8> = Vec::new();
    let mut j: usize = 0;
    while j < dir_len
        invariant
            j <= dir_len,
            dir_len <= path@.len(),
            directory@ == path@.take(dir_len as int).take(j as int),
        decreases dir_len - j,
    {
        directory.push(path[j]);
        proof {
            assert(directory@ =~= path@.take(dir_len as int).take(j as int + 1));
        }
        j = j + 1;
    }
    proof {
        assert(path@.take(dir_len as int).take(dir_len as int) =~= path@.take(dir_len as int));
        if !seen_slash {
            assert(directory@ =~= Seq::<u8>::empty());
        }
    }
    let extension = extension_label(&name);
    FileInfo { name, directory, extension }
}

/// Computes the extension label of a file name.
fn extension_label(name: &Vec<u8>) -> (ext: Vec<u8>)
    ensures
        ext@ == extension_of(name@),
{
    // Find the last '.' that is not the leading byte.
    let mut dot_at: usize = 0;
    let mut found = false;
    let mut i: usize = 0;
    while i < name.len()
        invariant
            i <= name.len(),
            if found {
                1 <= dot_at < i && name@[dot_at as int] == DOT && (forall|j: int|
                    dot_at < j < i ==> name@[j] != DOT) && dot_suffix(name@.take(i as int))
                    == Some(name@.take(i as int).skip(dot_at as int + 1))
            } else {
                dot_suffix(name@.take(i as int)) is None && (forall|j: int|
                    1 <= j < i ==> name@[j] != DOT)
            },
        decreases name.len() - i,
    {
        if name[i] == DOT && i >= 1 {
            dot_at = i;
            found = true;
        }
        proof {
            let t1 = name@.take(i as int + 1);
            assert(t1.drop_last() =~= name@.take(i as int));
            assert(t1.last() == name@[i as int]);
            if name@[i as int] == DOT && i >= 1 {
                assert(t1.skip(i as int + 1) =~= Seq::<u8>::empty());
            } else if found {
                assert(t1.skip(dot_at as int + 1) =~= name@.take(i as int).skip(
                    dot_at as int + 1,
                ).push(name@[i as int]));
            }
        }
        i = i + 1;
    }
    proof {
        assert(name@.take(name@.len() as int) =~= name@);
    }
    if found {
        let mut ext: Vec<u8> = Vec::new();
        let mut j: usize = dot_at + 1;
        while j < name.len()
            invariant
                dot_at + 1 <= j <= name.len(),
                ext@ == lower_of(name@.skip(dot_at as int + 1).take(j - dot_at - 1)),
            decreases name.len() - j,
        {
            let c = name[j];
            let ghost e0 = ext@;
            if 65 <= c && c <= 90 {
                ext.push(c + 32);
            } else {
                ext.push(c);
            }
            proof {
                let sk = name@.skip(dot_at as int + 1);
                assert(sk.take(j - dot_at - 1 + 1) =~= sk.take(j - dot_at - 1).push(
                    name@[j as int],
                ));
                assert(ext@ =~= lower_of(sk.take(j - dot_at - 1)).push(ascii_lower(
                    name@[j as int],
                )));
                assert(lower_of(sk.take(j - dot_at - 1).push(name@[j as int]))
                    =~= lower_of(sk.take(j - dot_at - 1)).push(ascii_lower(name@[j as int])));
            }
            j = j + 1;
        }
        proof {
            let sk = name@.skip(dot_at as int + 1);
            assert(sk.take(name@.len() - dot_at - 1) =~= sk);
        }
        ext
    } else {
        let mut ext: Vec<u8> = Vec::new();
        ext.push(111);
        ext.push(116);
        ext.push(104);
        ext.push(101);
        ext.push(114);
        proof {
            assert(ext@ =~= other_label());
        }
        ext
    }
}

/// One reported duplicate set: hex digest, common size, member files.
pub struct ClusterReport {
    pub digest_hex: Vec<u8>,
    pub size: u64,
    pub files: Vec<FileInfo>,
}

/// The pipeline's terminal artifact.
pub struct Report {
    pub total_files_checked: usize,
    pub total_size_checked: u64,
    pub total_duplicated_size: u64,
    pub sets: Vec<ClusterReport>,
}

/// Builds the terminal report: the run's totals and one entry per cluster,
/// with digests in hex and each member path split for display.
pub fn build_report(files: &Vec<FileRecord>, clusters: &Vec<Cluster>) -> (r: Report)
    ensures
        r.total_files_checked == files@.len(),
        r.total_size_checked as int == clamp_to_u64(sum_sizes(record_pairs(files@))),
        r.total_duplicated_size as int == clamp_to_u64(sum_dup(clusters@)),
        r.sets@.len() == clusters@.len(),
        forall|k: int|
            0 <= k < clusters@.len() ==> {
                let cr = #[trigger] r.sets@[k];
                cr.digest_hex@ == hex_of(clusters@[k].digest@) && cr.size == clusters@[k].size
                    && cr.files@.len() == clusters@[k].paths@.len() && forall|i: int|
                    0 <= i < cr.files@.len() ==> (#[trigger] cr.files@[i]).name@ == basename_of(
                        clusters@[k].paths@[i]@,
                    ) && cr.files@[i].directory@ == dirname_of(clusters@[k].paths@[i]@)
                        && cr.files@[i].extension@ == extension_of(
                        basename_of(clusters@[k].paths@[i]@),
                    )
            },
{
    let total_size_checked = total_size(files);
    let total_duplicated_size = duplicated_size(clusters);
    let mut sets: Vec<ClusterReport> = Vec::new();
    let mut k: usize = 0;
    while k < clusters.len()
        invariant
            k <= clusters.len(),
            sets@.len() == k,
            forall|k2: int|
                0 <= k2 < k ==> {
                    let cr = #[trigger] sets@[k2];
                    cr.digest_hex@ == hex_of(clusters@[k2].digest@) && cr.size
                        == clusters@[k2].size && cr.files@.len() == clusters@[k2].paths@.len()
                        && forall|i: int|
                        0 <= i < cr.files@.len() ==> (#[trigger] cr.files@[i]).name@ == basename_of(
                            clusters@[k2].paths@[i]@,
                        ) && cr.files@[i].directory@ == dirname_of(clusters@[k2].paths@[i]@)
                            && cr.files@[i].extension@ == extension_of(
                            basename_of(clusters@[k2].paths@[i]@),
                        )
                },
        decreases clusters.len() - k,
    {
        let c = &clusters[k];
        let mut infos: Vec<FileInfo> = Vec::new();
        let mut i: usize = 0;
        while i < c.paths.len()
            invariant
                i <= c.paths@.len(),
                infos@.len() == i,
                forall|i2: int|
                    0 <= i2 < i ==> (#[trigger] infos@[i2]).name@ == basename_of(c.paths@[i2]@)
                        && infos@[i2].directory@ == dirname_of(c.paths@[i2]@)
                        && infos@[i2].extension@ == extension_of(basename_of(c.paths@[i2]@)),
            decreases c.paths@.len() - i,
        {
            let info = file_info_of(&c.paths[i]);
            infos.push(info);
            i = i + 1;
        }
        let hex = to_hex(&c.digest);
        sets.push(ClusterReport { digest_hex: hex, size: c.size, files: infos });
        k = k + 1;
    }
    Report {
        total_files_checked: files.len(),
        total_size_checked,
        total_duplicated_size,
        sets,
    }
}

/// The extension label of a cluster: that of its first member path.
pub open spec fn cluster_ext(c: Cluster) -> Seq<u8> {
    extension_of(basename_of(c.paths@[0]@))
}

/// Some entry of the label list `es` holds the bytes `e`.
pub open spec fn holds_ext(es: Seq<Vec<u8>>, e: Seq<u8>) -> bool {
    exists|i: int| 0 <= i < es.len() && es[i]@ == e
}

/// One row of the by-extension breakdown.
pub struct ExtTotal {
    pub ext: Vec<u8>,
    pub total: u64,
}

/// Whether a list of labels holds `x`.
fn contains_ext(es: &Vec<Vec<u8>>, x: &Vec<u8>) -> (r: bool)
    ensures
        r == holds_ext(es@, x@),
{
    let mut i: usize = 0;
    while i < es.len()
        invariant
            i <= es.len(),
            forall|j: int| 0 <= j < i ==> (#[trigger] es@[j])@ != x@,
        decreases es.len() - i,
    {
        if bytes_eq(&es[i], x) {
            assert(holds_ext(es@, x@)) by { assert(es@[i as int]@ == x@) };
            return true;
        }
        i = i + 1;
    }
    assert(!holds_ext(es@, x@));
    false
}

/// Aggregates the duplicated bytes per extension label of each cluster's
/// first member: one row per label that some non-empty cluster bears, each
/// row's total the saturating sum of that label's cluster terms.
pub fn ext_totals(clusters: &Vec<Cluster>) -> (out: Vec<ExtTotal>)
    ensures
        forall|b: int|
            0 <= b < out@.len() ==> (#[trigger] out@[b]).total as int == clamp_to_u64(
                sum_dup_by_ext(clusters@, out@[b].ext@),
            ),
        forall|b1: int, b2: int|
            0 <= b1 < b2 < out@.len() ==> (#[trigger] out@[b1]).ext@ != (#[trigger] out@[b2]).ext@,
        forall|k: int|
            0 <= k < clusters@.len() && (#[trigger] clusters@[k]).paths@.len() > 0 ==> exists|b: int|
                0 <= b < out@.len() && out@[b].ext@ == cluster_ext(clusters@[k]),
{
    // First pass: the distinct labels, in order of first appearance.
    let mut labels: Vec<Vec<u8>> = Vec::new();
    let mut k: usize = 0;
    while k < clusters.len()
        invariant
            k <= clusters.len(),
            forall|k2: int|
                0 <= k2 < k && (#[trigger] clusters@[k2]).paths@.len() > 0 ==> holds_ext(
                    labels@,
                    cluster_ext(clusters@[k2]),
                ),
            forall|b1: int, b2: int|
                0 <= b1 < b2 < labels@.len() ==> (#[trigger] labels@[b1])@ != (
                #[trigger] labels@[b2])@,
        decreases clusters.len() - k,
    {
        let ghost l0 = labels@;
        if clusters[k].paths.len() > 0 {
            let info = file_info_of(&clusters[k].paths[0]);
            if !contains_ext(&labels, &info.extension) {
                labels.push(info.extension);
            }
        }
        proof {
            if clusters@[k as int].paths@.len() > 0 {
                assert(holds_ext(labels@, cluster_ext(clusters@[k as int]))) by {
                    if holds_ext(l0, cluster_ext(clusters@[k as int])) {
                        let idx = choose|idx: int|
                            0 <= idx < l0.len() && l0[idx]@ == cluster_ext(clusters@[k as int]);
                        assert(labels@[idx]@ == cluster_ext(clusters@[k as int]));
                    } else {
                        assert(labels@[labels@.len() - 1]@ == cluster_ext(clusters@[k as int]));
                    }
                }
            }
            assert forall|k2: int|
                0 <= k2 < k && (#[trigger] clusters@[k2]).paths@.len() > 0 implies holds_ext(
                labels@,
                cluster_ext(clusters@[k2]),
            ) by {
                let idx = choose|idx: int|
                    0 <= idx < l0.len() && l0[idx]@ == cluster_ext(clusters@[k2]);
                assert(labels@[idx]@ == cluster_ext(clusters@[k2]));
            }
            assert forall|b1: int, b2: int| 0 <= b1 < b2 < labels@.len() implies (
            #[trigger] labels@[b1])@ != (#[trigger] labels@[b2])@ by {
                if b2 >= l0.len() {
                    if labels@[b1]@ == labels@[b2]@ {
                        assert(holds_ext(l0, labels@[b2]@)) by {
                            assert(l0[b1]@ == labels@[b2]@);
                        }
                        assert(false);
                    }
                }
            }
        }
        k = k + 1;
    }
    // Second pass: the saturating total of each label.
    let mut out: Vec<ExtTotal> = Vec::new();
    let mut li: usize = 0;
    while li < labels.len()
        invariant
            li <= labels.len(),
            out@.len() == li,
            forall|b: int|
                0 <= b < out@.len() ==> (#[trigger] out@[b]).total as int == clamp_to_u64(
                    sum_dup_by_ext(clusters@, out@[b].ext@),
                ) && out@[b].ext@ == labels@[b]@,
        decreases labels.len() - li,
    {
        let mut t: u64 = 0;
        let mut k2: usize = 0;
        while k2 < clusters.len()
            invariant
                k2 <= clusters.len(),
                li < labels.len(),
                t as int == clamp_to_u64(sum_dup_by_ext(clusters@.take(k2 as int), labels@[li as int]@)),
            decreases clusters.len() - k2,
        {
            proof {
                assert(clusters@.take(k2 as int + 1).drop_last() =~= clusters@.take(k2 as int));
                assert(clusters@.take(k2 as int + 1).last() == clusters@[k2 as int]);
                lemma_sum_dup_by_ext_nonneg(clusters@.take(k2 as int), labels@[li as int]@);
            }
            let c = &clusters[k2];
            let mut term: u64 = 0;
            if c.paths.len() > 0 {
                let info = file_info_of(&c.paths[0]);
                if bytes_eq(&info.extension, &labels[li]) {
                    let n = c.paths.len();
                    let m: u64 = (n - 1) as u64;
                    proof {
                        assert((c.size as int) * (m as int) <= (u64::MAX as int) * (
                        u64::MAX as int)) by (nonlinear_arith)
                            requires
                                0 <= c.size as int <= u64::MAX as int,
                                0 <= m as int <= u64::MAX as int,
                        ;
                    }
                    let prod: u128 = (c.size as u128) * (m as u128);
                    term = if prod > u64::MAX as u128 {
                        u64::MAX
                    } else {
                        prod as u64
                    };
                    proof {
                        assert(term as int == clamp_to_u64(dup_term(clusters@[k2 as int])));
                    }
                }
            }
            t = sat_add(t, term);
            k2 = k2 + 1;
        }
        proof {
            assert(clusters@.take(clusters@.len() as int) =~= clusters@);
        }
        let e = copy_bytes(&labels[li]);
        out.push(ExtTotal { ext: e, total: t });
        li = li + 1;
    }
    proof {
        assert forall|k3: int|
            0 <= k3 < clusters@.len() && (#[trigger] clusters@[k3]).paths@.len() > 0 implies exists|
            b: int,
        | 0 <= b < out@.len() && out@[b].ext@ == cluster_ext(clusters@[k3]) by {
            assert(holds_ext(labels@, cluster_ext(clusters@[k3])));
            let idx = choose|idx: int|
                0 <= idx < labels@.len() && labels@[idx]@ == cluster_ext(clusters@[k3]);
            assert(out@[idx].ext@ == cluster_ext(clusters@[k3]));
        }
    }
    out
}

} // verus!
