use jw::algorithm::HashAlgorithm;
use jw::index::HashIndex;
use jw::record::{
    format_delimited, format_record, parse_delimited_line, parse_fixed_line, parse_record,
    write_record, LineFormat,
};

fn lines(items: &[&str]) -> Vec<String> {
    items.iter().map(|s| s.to_string()).collect()
}

#[test]
fn fixed_width_line_splits_after_the_digest() {
    let record =
        parse_fixed_line("aabbccddeeff00112233445566778899/var/log/x", HashAlgorithm::Md5).unwrap();
    assert_eq!(record.digest, "aabbccddeeff00112233445566778899");
    assert_eq!(record.path, "/var/log/x");
    let record =
        parse_fixed_line("aabbccddeeff00112233445566778899/var/log/x", HashAlgorithm::Xxh3).unwrap();
    assert_eq!(record.digest, "aabbccddeeff00112233445566778899");
    assert_eq!(record.path, "/var/log/x");
}

#[test]
fn fixed_width_line_keeps_the_path_untrimmed() {
    let line = format!("{} ./a b \t", "0".repeat(56));
    let record = parse_fixed_line(&line, HashAlgorithm::Sha224).unwrap();
    assert_eq!(record.digest, "0".repeat(56));
    assert_eq!(record.path, " ./a b \t");
}

#[test]
fn fixed_width_line_too_short_is_malformed() {
    assert!(parse_fixed_line("", HashAlgorithm::Md5).is_none());
    assert!(parse_fixed_line("aabbccddeeff0011223344556677889", HashAlgorithm::Md5).is_none());
    assert!(parse_fixed_line(&"a".repeat(63), HashAlgorithm::Sha256).is_none());
    assert!(parse_fixed_line(&"a".repeat(127), HashAlgorithm::Sha512).is_none());
}

#[test]
fn fixed_width_line_of_exactly_the_digest_has_an_empty_path() {
    let record = parse_fixed_line(&"ab".repeat(48), HashAlgorithm::Sha384).unwrap();
    assert_eq!(record.digest, "ab".repeat(48));
    assert_eq!(record.path, "");
}

#[test]
fn fixed_width_counts_characters() {
    let line = format!("{}/p/\u{e9}t\u{e9}", "1".repeat(32));
    let record = parse_fixed_line(&line, HashAlgorithm::Md5).unwrap();
    assert_eq!(record.path, "/p/\u{e9}t\u{e9}");
}

#[test]
fn delimited_line_splits_at_the_first_colon() {
    let record = parse_delimited_line("deadbeef:/srv/a:b:c").unwrap();
    assert_eq!(record.digest, "deadbeef");
    assert_eq!(record.path, "/srv/a:b:c");
    let record = parse_delimited_line("cafebabe:").unwrap();
    assert_eq!(record.digest, "cafebabe");
    assert_eq!(record.path, "");
    let record = parse_delimited_line(":x").unwrap();
    assert_eq!(record.digest, "");
    assert_eq!(record.path, "x");
}

#[test]
fn delimited_line_without_colon_is_malformed() {
    assert!(parse_delimited_line("deadbeef /srv/a").is_none());
    assert!(parse_delimited_line("").is_none());
}

#[test]
fn written_lines_read_back() {
    let digest = "00112233445566778899aabbccddeeff";
    let path = "./dir/file: one.txt";
    let fixed = format_record(digest, path);
    assert_eq!(fixed, "00112233445566778899aabbccddeeff./dir/file: one.txt");
    let record = parse_record(&fixed, LineFormat::FixedWidth(HashAlgorithm::Md5)).unwrap();
    assert_eq!((record.digest.as_str(), record.path.as_str()), (digest, path));

    let delimited = format_delimited(digest, path);
    assert_eq!(delimited, "00112233445566778899aabbccddeeff:./dir/file: one.txt");
    let record = parse_record(&delimited, LineFormat::Delimited).unwrap();
    assert_eq!((record.digest.as_str(), record.path.as_str()), (digest, path));
}

#[test]
fn index_starts_empty() {
    let index = HashIndex::new();
    assert_eq!(index.len(), 0);
    assert!(index.get("a").is_none());
    assert!(!index.contains_key("a"));
}

#[test]
fn index_insert_replaces_an_earlier_digest() {
    let mut index = HashIndex::new();
    index.insert("a".to_string(), "11".to_string());
    index.insert("b".to_string(), "22".to_string());
    assert_eq!(index.len(), 2);
    index.insert("a".to_string(), "33".to_string());
    assert_eq!(index.len(), 2);
    assert_eq!(index.get("a").map(|s| s.as_str()), Some("33"));
    assert_eq!(index.get("b").map(|s| s.as_str()), Some("22"));
    assert!(index.contains_key("b"));
    assert!(!index.contains_key("c"));
    assert_eq!(index.record(0).path, "a");
    assert_eq!(index.record(1).digest, "22");
}

#[test]
fn index_from_lines_skips_malformed_and_keeps_the_last() {
    let a = "a".repeat(32);
    let b = "b".repeat(32);
    let c = "c".repeat(32);
    let index = HashIndex::from_lines(
        &lines(&[
            &format!("{}./x", a),
            "short",
            &format!("{}./y", b),
            "",
            &format!("{}./x", c),
        ]),
        LineFormat::FixedWidth(HashAlgorithm::Md5),
    );
    assert_eq!(index.len(), 2);
    assert_eq!(index.get("./x"), Some(&c));
    assert_eq!(index.get("./y"), Some(&b));
    assert!(index.get("short").is_none());
}

#[test]
fn index_from_delimited_lines() {
    let index = HashIndex::from_lines(
        &lines(&["deadbeef:a.txt", "no delimiter here", "cafebabe:b:c.txt"]),
        LineFormat::Delimited,
    );
    assert_eq!(index.len(), 2);
    assert_eq!(index.get("a.txt").map(|s| s.as_str()), Some("deadbeef"));
    assert_eq!(index.get("b:c.txt").map(|s| s.as_str()), Some("cafebabe"));
}

#[test]
fn index_holds_at_most_as_many_paths_as_lines() {
    let a = "a".repeat(32);
    let all = lines(&[&format!("{}p", a), &format!("{}p", a), &format!("{}q", a), "bad"]);
    let index = HashIndex::from_lines(&all, LineFormat::FixedWidth(HashAlgorithm::Xxh3));
    assert!(index.len() <= all.len());
    assert_eq!(index.len(), 2);
    assert_eq!(HashIndex::from_lines(&vec![], LineFormat::Delimited).len(), 0);
}

#[test]
fn record_is_written_in_the_chosen_format() {
    assert_eq!(write_record(LineFormat::Delimited, "ab", "p"), "ab:p");
    assert_eq!(write_record(LineFormat::FixedWidth(HashAlgorithm::Md5), "ab", "p"), "abp");
}
