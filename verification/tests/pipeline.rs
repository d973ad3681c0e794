use dupfind::cluster::assemble_clusters;
use dupfind::cluster::DigestEntry;
use dupfind::fingerprint::fingerprint_stage;
use dupfind::fingerprint::PrefixEntry;
use dupfind::grouping::group_by_size;
use dupfind::grouping::KeyBucket;
use dupfind::hashing::hash_bytes;
use dupfind::records::keep_nonempty;
use dupfind::records::FileRecord;
use dupfind::stats::duplicated_size;
use dupfind::stats::total_size;

fn b(s: &str) -> Vec<u8> {
    s.as_bytes().to_vec()
}

fn record(path: &str, size: u64) -> FileRecord {
    FileRecord { path: b(path), size }
}

/// Runs the whole pipeline over in-memory (path, content) pairs.
fn run_pipeline(entries: &[(Vec<u8>, Vec<u8>)]) -> Vec<dupfind::cluster::Cluster> {
    let files: Vec<FileRecord> = entries
        .iter()
        .map(|(p, c)| FileRecord { path: p.clone(), size: c.len() as u64 })
        .collect();
    let kept = keep_nonempty(&files);
    let sbuckets = group_by_size(&kept);
    let mut fbuckets: Vec<(u64, KeyBucket)> = Vec::new();
    for sb in &sbuckets {
        let prefixed: Vec<PrefixEntry> = sb
            .paths
            .iter()
            .map(|p| {
                let content = &entries.iter().find(|(ep, _)| ep == p).unwrap().1;
                let window = if content.len() > 4096 { &content[..4096] } else { &content[..] };
                PrefixEntry { path: p.clone(), prefix: window.to_vec() }
            })
            .collect();
        for fb in fingerprint_stage(&prefixed) {
            fbuckets.push((sb.key, fb));
        }
    }
    let mut dentries: Vec<DigestEntry> = Vec::new();
    for (size, fb) in &fbuckets {
        for p in &fb.paths {
            let content = &entries.iter().find(|(ep, _)| ep == p).unwrap().1;
            dentries.push(DigestEntry { path: p.clone(), size: *size, digest: hash_bytes(content) });
        }
    }
    assemble_clusters(&dentries)
}

#[test]
fn two_dirs_one_identical_pair() {
    // Two directories, each with a.txt and b.txt: the a.txt copies are
    // byte-identical (100 bytes), the b.txt copies differ in one byte.
    let content_a = vec![7u8; 100];
    let mut content_b1 = vec![1u8; 100];
    let mut content_b2 = vec![1u8; 100];
    content_b1[50] = 10;
    content_b2[50] = 20;
    let entries = [
        (b("dir1/a.txt"), content_a.clone()),
        (b("dir1/b.txt"), content_b1),
        (b("dir2/a.txt"), content_a.clone()),
        (b("dir2/b.txt"), content_b2),
    ];
    let clusters = run_pipeline(&entries);
    assert_eq!(clusters.len(), 1);
    assert_eq!(clusters[0].size, 100);
    assert_eq!(clusters[0].paths.len(), 2);
    assert!(clusters[0].paths.contains(&b("dir1/a.txt")));
    assert!(clusters[0].paths.contains(&b("dir2/a.txt")));
    assert_eq!(clusters[0].digest, hash_bytes(&content_a));
    assert_eq!(duplicated_size(&clusters), 100);
}

#[test]
fn different_sizes_never_grouped() {
    // A 3-byte file and an 8000-byte file share their leading 3 bytes but
    // differ in size: size bucketing rejects them before fingerprinting.
    let small = vec![5u8, 6u8, 7u8];
    let mut large = vec![0u8; 8000];
    large[0] = 5;
    large[1] = 6;
    large[2] = 7;
    let entries = [(b("one/x.bin"), small), (b("two/y.bin"), large)];
    let clusters = run_pipeline(&entries);
    assert_eq!(clusters.len(), 0);

    let files = vec![record("one/x.bin", 3), record("two/y.bin", 8000)];
    let sbuckets = group_by_size(&files);
    assert_eq!(sbuckets.len(), 0);
}

#[test]
fn zero_byte_file_excluded() {
    // A zero-byte file never enters any bucket or cluster.
    let entries = [
        (b("dir1/empty"), Vec::new()),
        (b("dir2/empty"), Vec::new()),
        (b("dir1/full"), vec![9u8; 10]),
        (b("dir2/full"), vec![9u8; 10]),
    ];
    let clusters = run_pipeline(&entries);
    assert_eq!(clusters.len(), 1);
    assert!(!clusters[0].paths.contains(&b("dir1/empty")));
    assert!(!clusters[0].paths.contains(&b("dir2/empty")));

    let files = vec![record("dir1/empty", 0), record("dir2/empty", 0)];
    let kept = keep_nonempty(&files);
    assert_eq!(kept.len(), 0);
    assert_eq!(group_by_size(&kept).len(), 0);
}

#[test]
fn run_twice_same_clusters() {
    // An unchanged file set yields identical cluster membership.
    let entries = [
        (b("a/one"), vec![1u8; 64]),
        (b("b/one"), vec![1u8; 64]),
        (b("a/two"), vec![2u8; 64]),
        (b("b/two"), vec![2u8; 64]),
        (b("a/three"), vec![3u8; 64]),
    ];
    let c1 = run_pipeline(&entries);
    let c2 = run_pipeline(&entries);
    assert_eq!(c1.len(), 2);
    assert_eq!(c1.len(), c2.len());
    for (x, y) in c1.iter().zip(c2.iter()) {
        assert_eq!(x.digest, y.digest);
        assert_eq!(x.size, y.size);
        assert_eq!(x.paths, y.paths);
    }
}

#[test]
fn cluster_members_share_size_and_digest() {
    // Size invariant and digest invariant on a concrete run: every member
    // re-hashes to the cluster key, and reports the cluster's size.
    let content = vec![42u8; 321];
    let entries = [
        (b("p/a"), content.clone()),
        (b("q/a"), content.clone()),
        (b("r/a"), content.clone()),
        (b("p/b"), vec![8u8; 321]),
    ];
    let clusters = run_pipeline(&entries);
    assert_eq!(clusters.len(), 1);
    assert_eq!(clusters[0].paths.len(), 3);
    for p in &clusters[0].paths {
        let c = entries.iter().find(|(ep, _)| ep == p).map(|(_, c)| c).unwrap();
        assert_eq!(c.len() as u64, clusters[0].size);
        assert_eq!(hash_bytes(c), clusters[0].digest);
    }
}

#[test]
fn singletons_never_reported() {
    // Unique size, unique fingerprint, or unique digest: never clustered.
    let mut tail_differs = vec![6u8; 5000];
    tail_differs[4999] = 1;
    let entries = [
        (b("u/size_unique"), vec![1u8; 17]),
        (b("u/fp_unique"), vec![2u8; 64]),
        (b("u/fp_unique_peer"), vec![3u8; 64]),
        (b("u/digest_unique"), vec![6u8; 5000]),
        (b("u/digest_unique_peer"), tail_differs),
    ];
    let clusters = run_pipeline(&entries);
    assert_eq!(clusters.len(), 0);
}

#[test]
fn totals_over_a_run() {
    let files = vec![record("a", 10), record("b", 20), record("c", 30)];
    assert_eq!(total_size(&files), 60);
    let entries = [
        (b("a/f"), vec![1u8; 10]),
        (b("b/f"), vec![1u8; 10]),
        (b("c/f"), vec![1u8; 10]),
    ];
    let clusters = run_pipeline(&entries);
    assert_eq!(clusters.len(), 1);
    // 10 bytes kept once, duplicated twice over.
    assert_eq!(duplicated_size(&clusters), 20);
}

#[test]
fn fingerprint_window_is_bounded() {
    // Files sharing their whole leading window but differing beyond it pass
    // the fingerprint filter and are separated only by the full digest.
    let mut late_diff = vec![4u8; 5000];
    late_diff[4999] = 9;
    let same = vec![4u8; 5000];
    let entries = [
        (b("w/a"), same.clone()),
        (b("w/b"), late_diff),
        (b("w/c"), same.clone()),
    ];
    let clusters = run_pipeline(&entries);
    assert_eq!(clusters.len(), 1);
    assert_eq!(clusters[0].paths, vec![b("w/a"), b("w/c")]);
    assert_eq!(clusters[0].digest, hash_bytes(&same));
    assert_eq!(duplicated_size(&clusters), 5000);
}
