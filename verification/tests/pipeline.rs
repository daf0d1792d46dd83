use jw::algorithm::HashAlgorithm;
use jw::hasher::hash_content;
use jw::pipeline::{
    checksum_batch, depth_limit, is_hashed, record_for, sink_mode, Counts, EntryKind,
    Exclusions, FileRead, SinkMode,
};
use std::collections::BTreeSet;

fn file(path: &str, content: Option<&[u8]>) -> FileRead {
    FileRead { path: path.to_string(), content: content.map(|c| c.to_vec()) }
}

#[test]
fn exclusions_filter_by_kind() {
    let none = Exclusions { files: false, dirs: false, hidden: false, other: false };
    assert!(none.admits(EntryKind::File));
    assert!(none.admits(EntryKind::Dir));
    assert!(none.admits(EntryKind::Other));
    let no_dirs = Exclusions { files: false, dirs: true, hidden: true, other: false };
    assert!(no_dirs.admits(EntryKind::File));
    assert!(!no_dirs.admits(EntryKind::Dir));
    assert!(no_dirs.admits(EntryKind::Other));
    let only_dirs = Exclusions { files: true, dirs: false, hidden: false, other: true };
    assert!(!only_dirs.admits(EntryKind::File));
    assert!(only_dirs.admits(EntryKind::Dir));
    assert!(!only_dirs.admits(EntryKind::Other));
}

#[test]
fn only_regular_files_are_hashed() {
    assert!(is_hashed(EntryKind::File));
    assert!(!is_hashed(EntryKind::Dir));
    assert!(!is_hashed(EntryKind::Other));
}

#[test]
fn depth_zero_is_unbounded() {
    assert_eq!(depth_limit(0), usize::MAX);
    assert_eq!(depth_limit(1), 1);
    assert_eq!(depth_limit(7), 7);
    assert_eq!(depth_limit(usize::MAX), usize::MAX);
}

#[test]
fn counts_record_and_merge() {
    let mut counts = Counts::new();
    assert_eq!(counts, Counts { files: 0, dirs: 0, other: 0 });
    counts.record(EntryKind::File);
    counts.record(EntryKind::File);
    counts.record(EntryKind::Dir);
    counts.record(EntryKind::Other);
    assert_eq!(counts, Counts { files: 2, dirs: 1, other: 1 });
    counts.merge(&Counts { files: 10, dirs: 20, other: 30 });
    assert_eq!(counts, Counts { files: 12, dirs: 21, other: 31 });
}

#[test]
fn counts_of_a_listing() {
    let kinds = vec![
        EntryKind::Dir,
        EntryKind::File,
        EntryKind::File,
        EntryKind::Other,
        EntryKind::File,
        EntryKind::Dir,
    ];
    assert_eq!(Counts::of(&kinds), Counts { files: 3, dirs: 2, other: 1 });
    assert_eq!(Counts::of(&vec![]), Counts { files: 0, dirs: 0, other: 0 });
}

#[test]
fn sink_modes() {
    assert_eq!(sink_mode(true, false), SinkMode::Live);
    assert_eq!(sink_mode(true, true), SinkMode::Live);
    assert_eq!(sink_mode(false, true), SinkMode::Silent);
    assert_eq!(sink_mode(false, false), SinkMode::Batch);
    for mode in [SinkMode::Live, SinkMode::Batch, SinkMode::Silent] {
        assert!(!(mode.emits_when_ready() && mode.emits_when_drained()));
    }
    assert!(SinkMode::Live.emits_when_ready());
    assert!(SinkMode::Batch.emits_when_drained());
    assert!(!SinkMode::Silent.emits_when_ready());
    assert!(!SinkMode::Silent.emits_when_drained());
}

#[test]
fn unreadable_file_gives_no_record() {
    assert!(record_for(HashAlgorithm::Md5, &file("gone", None)).is_none());
    let record = record_for(HashAlgorithm::Md5, &file("here", Some(b"abc"))).unwrap();
    assert_eq!(record.path, "here");
    assert_eq!(record.digest, "900150983cd24fb0d6963f7d28e17f72");
}

#[test]
fn batch_yields_one_record_per_readable_file() {
    let files = vec![
        file("a", Some(b"abc")),
        file("b", None),
        file("c", Some(b"")),
        file("d", Some(b"abc")),
        file("e", None),
    ];
    for algorithm in [HashAlgorithm::Xxh3, HashAlgorithm::Sha256, HashAlgorithm::Md5] {
        let records = checksum_batch(algorithm, &files);
        let got: Vec<(String, String)> =
            records.iter().map(|r| (r.path.clone(), r.digest.clone())).collect();
        assert_eq!(
            got,
            vec![
                ("a".to_string(), hash_content(algorithm, b"abc")),
                ("c".to_string(), hash_content(algorithm, b"")),
                ("d".to_string(), hash_content(algorithm, b"abc")),
            ]
        );
        for record in &records {
            assert_eq!(record.digest.len(), 2 * algorithm.digest_size());
        }
    }
    assert!(checksum_batch(HashAlgorithm::Md5, &vec![]).is_empty());
}

#[test]
fn emitted_set_does_not_depend_on_order() {
    let files = vec![
        file("a", Some(b"one")),
        file("b", Some(b"two")),
        file("c", None),
        file("d", Some(b"three")),
    ];
    let mut shuffled = files.clone();
    shuffled.reverse();
    shuffled.swap(0, 2);
    for algorithm in [HashAlgorithm::Sha224, HashAlgorithm::Sha512, HashAlgorithm::Xxh3] {
        let first: BTreeSet<(String, String)> =
            checksum_batch(algorithm, &files).into_iter().map(|r| (r.path, r.digest)).collect();
        let second: BTreeSet<(String, String)> =
            checksum_batch(algorithm, &shuffled).into_iter().map(|r| (r.path, r.digest)).collect();
        assert_eq!(first, second);
        assert_eq!(first.len(), 3);
    }
}
