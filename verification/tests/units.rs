use dupfind::bytes::bytes_eq;
use dupfind::bytes::copy_bytes;
use dupfind::cluster::assemble_clusters;
use dupfind::cluster::DigestEntry;
use dupfind::fingerprint::fingerprint_stage;
use dupfind::fingerprint::PrefixEntry;
use dupfind::grouping::group_by_size;
use dupfind::hashing::hash_bytes;
use dupfind::records::keep_nonempty;
use dupfind::records::FileRecord;
use dupfind::report::build_report;
use dupfind::report::ext_totals;
use dupfind::report::file_info_of;
use dupfind::report::to_hex;
use dupfind::stats::duplicated_size;
use dupfind::stats::total_size;

fn b(s: &str) -> Vec<u8> {
    s.as_bytes().to_vec()
}

#[test]
fn byte_helpers() {
    let v = vec![1u8, 2, 3];
    assert_eq!(copy_bytes(&v), v);
    assert!(bytes_eq(&v, &vec![1u8, 2, 3]));
    assert!(!bytes_eq(&v, &vec![1u8, 2]));
    assert!(!bytes_eq(&v, &vec![1u8, 2, 4]));
}

#[test]
fn hex_rendering() {
    assert_eq!(to_hex(&vec![0u8, 0xab, 0xff]), b("00abff"));
    assert_eq!(to_hex(&Vec::new()), b(""));
    assert_eq!(to_hex(&vec![0x12u8, 0x34]), b("1234"));
}

#[test]
fn digest_is_blake3() {
    // The trusted hasher must agree with blake3 itself, chunked or not.
    let content = vec![99u8; 10000];
    let d = hash_bytes(&content);
    assert_eq!(d.len(), 32);
    assert_eq!(d, blake3::hash(&content).as_bytes().to_vec());
    let mut h = dupfind::hashing::ContentHasher::new();
    h.update(&content[..8192].to_vec());
    h.update(&content[8192..].to_vec());
    assert_eq!(h.finalize(), d);
    // Not the identity, and content-sensitive.
    assert_ne!(d, content);
    assert_ne!(hash_bytes(&b("a")), hash_bytes(&b("b")));
    assert_eq!(hash_bytes(&b("a")), hash_bytes(&b("a")));
}

#[test]
fn fingerprints_are_xxh3() {
    // Equal windows share a bucket; the key is the real xxh3 value.
    let prefixed = vec![
        PrefixEntry { path: b("x/a"), prefix: vec![1u8, 2, 3] },
        PrefixEntry { path: b("y/a"), prefix: vec![1u8, 2, 3] },
        PrefixEntry { path: b("z/c"), prefix: vec![9u8, 9, 9] },
    ];
    let out = fingerprint_stage(&prefixed);
    assert_eq!(out.len(), 1);
    assert_eq!(out[0].key, xxhash_rust::xxh3::xxh3_64(&[1u8, 2, 3]));
    assert_eq!(out[0].paths, vec![b("x/a"), b("y/a")]);
}

#[test]
fn size_grouping_membership() {
    let files = vec![
        FileRecord { path: b("a"), size: 5 },
        FileRecord { path: b("b"), size: 7 },
        FileRecord { path: b("c"), size: 5 },
        FileRecord { path: b("d"), size: 9 },
        FileRecord { path: b("e"), size: 7 },
        FileRecord { path: b("f"), size: 5 },
    ];
    let out = group_by_size(&files);
    assert_eq!(out.len(), 2);
    assert_eq!(out[0].key, 5);
    assert_eq!(out[0].paths, vec![b("a"), b("c"), b("f")]);
    assert_eq!(out[1].key, 7);
    assert_eq!(out[1].paths, vec![b("b"), b("e")]);
}

#[test]
fn keep_nonempty_drops_only_zero() {
    let files = vec![
        FileRecord { path: b("a"), size: 0 },
        FileRecord { path: b("b"), size: 1 },
        FileRecord { path: b("c"), size: 0 },
        FileRecord { path: b("d"), size: 2 },
    ];
    let kept = keep_nonempty(&files);
    assert_eq!(kept.len(), 2);
    assert_eq!(kept[0].path, b("b"));
    assert_eq!(kept[0].size, 1);
    assert_eq!(kept[1].path, b("d"));
    assert_eq!(kept[1].size, 2);
}

#[test]
fn clusters_merge_on_digest_alone() {
    // Digest equality is the sole source of truth: entries from different
    // buckets with one digest become one cluster.
    let d1 = vec![1u8; 32];
    let d2 = vec![2u8; 32];
    let entries = vec![
        DigestEntry { path: b("a"), size: 10, digest: d1.clone() },
        DigestEntry { path: b("b"), size: 10, digest: d2.clone() },
        DigestEntry { path: b("c"), size: 10, digest: d1.clone() },
        DigestEntry { path: b("d"), size: 10, digest: d1.clone() },
    ];
    let out = assemble_clusters(&entries);
    assert_eq!(out.len(), 1);
    assert_eq!(out[0].digest, d1);
    assert_eq!(out[0].size, 10);
    assert_eq!(out[0].paths, vec![b("a"), b("c"), b("d")]);
}

#[test]
fn saturating_totals() {
    let files = vec![
        FileRecord { path: b("a"), size: u64::MAX },
        FileRecord { path: b("b"), size: 5 },
    ];
    assert_eq!(total_size(&files), u64::MAX);
    let files2 = vec![FileRecord { path: b("a"), size: 3 }, FileRecord { path: b("b"), size: 4 }];
    assert_eq!(total_size(&files2), 7);
}

#[test]
fn path_splitting() {
    let info = file_info_of(&b("dir/sub/Photo.JPG"));
    assert_eq!(info.name, b("Photo.JPG"));
    assert_eq!(info.directory, b("dir/sub"));
    assert_eq!(info.extension, b("jpg"));

    let info2 = file_info_of(&b("plain"));
    assert_eq!(info2.name, b("plain"));
    assert_eq!(info2.directory, b(""));
    assert_eq!(info2.extension, b("other"));

    let info3 = file_info_of(&b("dir/.hidden"));
    assert_eq!(info3.name, b(".hidden"));
    assert_eq!(info3.directory, b("dir"));
    assert_eq!(info3.extension, b("other"));

    let info4 = file_info_of(&b("a/b.tar.gz"));
    assert_eq!(info4.name, b("b.tar.gz"));
    assert_eq!(info4.extension, b("gz"));
}

#[test]
fn report_shape() {
    let files = vec![
        FileRecord { path: b("d1/a.txt"), size: 100 },
        FileRecord { path: b("d2/a.txt"), size: 100 },
        FileRecord { path: b("d1/b.txt"), size: 50 },
    ];
    let content = vec![3u8; 100];
    let digest = hash_bytes(&content);
    let clusters = vec![dupfind::cluster::Cluster {
        digest: digest.clone(),
        size: 100,
        paths: vec![b("d1/a.txt"), b("d2/a.txt")],
    }];
    let r = build_report(&files, &clusters);
    assert_eq!(r.total_files_checked, 3);
    assert_eq!(r.total_size_checked, 250);
    assert_eq!(r.total_duplicated_size, 100);
    assert_eq!(r.sets.len(), 1);
    assert_eq!(r.sets[0].digest_hex, to_hex(&digest));
    assert_eq!(r.sets[0].digest_hex, blake3::hash(&content).to_hex().as_bytes().to_vec());
    assert_eq!(r.sets[0].size, 100);
    assert_eq!(r.sets[0].files.len(), 2);
    assert_eq!(r.sets[0].files[0].name, b("a.txt"));
    assert_eq!(r.sets[0].files[0].directory, b("d1"));
    assert_eq!(r.sets[0].files[0].extension, b("txt"));
    assert_eq!(duplicated_size(&clusters), 100);
}

#[test]
fn ext_totals_by_first_member() {
    let c1 = dupfind::cluster::Cluster {
        digest: vec![1u8; 32],
        size: 100,
        paths: vec![b("d1/a.jpg"), b("d2/a.JPG")],
    };
    let c2 = dupfind::cluster::Cluster {
        digest: vec![2u8; 32],
        size: 40,
        paths: vec![b("d1/b.jpg"), b("d2/b.jpg"), b("d3/b.jpg")],
    };
    let c3 = dupfind::cluster::Cluster {
        digest: vec![3u8; 32],
        size: 7,
        paths: vec![b("d1/noext"), b("d2/noext")],
    };
    let rows = ext_totals(&vec![c1, c2, c3]);
    assert_eq!(rows.len(), 2);
    assert_eq!(rows[0].ext, b("jpg"));
    // 100 * (2 - 1) + 40 * (3 - 1)
    assert_eq!(rows[0].total, 180);
    assert_eq!(rows[1].ext, b("other"));
    assert_eq!(rows[1].total, 7);
}
