use jw::diff::{diff, Category, DiffReport, Discrepancy};
use jw::index::HashIndex;
use jw::order::text_before;

fn index(entries: &[(&str, &str)]) -> HashIndex {
    let mut index = HashIndex::new();
    for (path, digest) in entries {
        index.insert(path.to_string(), digest.to_string());
    }
    index
}

fn keys(list: &[Discrepancy]) -> Vec<(String, usize)> {
    list.iter().map(|d| (d.path.clone(), d.source)).collect()
}

fn rows(list: &[Discrepancy]) -> Vec<(String, usize, Option<String>, Option<String>)> {
    list.iter()
        .map(|d| (d.path.clone(), d.source, d.expected.clone(), d.actual.clone()))
        .collect()
}

fn some(text: &str) -> Option<String> {
    Some(text.to_string())
}

fn assert_clean(report: &DiffReport) {
    assert!(report.mismatches.is_empty());
    assert!(report.missing.is_empty());
    assert!(report.excess.is_empty());
    assert_eq!(report.total(), 0);
    assert!(report.is_clean());
}

#[test]
fn one_mismatch_and_one_excess() {
    let baseline = index(&[("a.txt", "deadbeef"), ("b.txt", "cafebabe")]);
    let compared =
        index(&[("a.txt", "deadbeef"), ("b.txt", "0000ffff"), ("c.txt", "11112222")]);
    let report = diff(&baseline, &vec![compared]);
    assert_eq!(
        rows(&report.mismatches),
        vec![("b.txt".to_string(), 0, some("cafebabe"), some("0000ffff"))]
    );
    assert!(report.missing.is_empty());
    assert_eq!(rows(&report.excess), vec![("c.txt".to_string(), 0, None, some("11112222"))]);
    assert_eq!(report.total(), 2);
    assert!(!report.is_clean());
}

#[test]
fn an_index_compared_with_itself_is_clean() {
    let entries = [("a", "01"), ("b", "02"), ("c/d", "03")];
    assert_clean(&diff(&index(&entries), &vec![index(&entries)]));
    assert_clean(&diff(&index(&entries), &vec![index(&entries), index(&entries)]));
    assert_clean(&diff(&index(&[]), &vec![index(&[])]));
}

#[test]
fn no_comparisons_give_a_clean_report() {
    assert_clean(&diff(&index(&[("a", "01")]), &vec![]));
}

#[test]
fn insertion_order_does_not_matter() {
    let baseline = index(&[("a", "01"), ("b", "02"), ("c", "03")]);
    let compared = index(&[("c", "03"), ("a", "01"), ("b", "02")]);
    assert_clean(&diff(&baseline, &vec![compared]));
}

#[test]
fn digests_compare_case_normalized() {
    let baseline = index(&[("a", "DEADBEEF"), ("b", "CafeBabe")]);
    let compared = index(&[("a", "deadbeef"), ("b", "cafebabf")]);
    let report = diff(&baseline, &vec![compared]);
    assert_eq!(
        rows(&report.mismatches),
        vec![("b".to_string(), 0, some("CafeBabe"), some("cafebabf"))]
    );
    assert_eq!(report.total(), 1);
}

#[test]
fn moving_an_entry_turns_missing_into_excess() {
    let before = diff(&index(&[("a", "01"), ("m", "02")]), &vec![index(&[("a", "01")])]);
    assert_eq!(rows(&before.missing), vec![("m".to_string(), 0, some("02"), None)]);
    assert!(before.excess.is_empty());
    assert!(before.mismatches.is_empty());
    assert_eq!(before.total(), 1);

    let after = diff(&index(&[("a", "01")]), &vec![index(&[("a", "01"), ("m", "02")])]);
    assert_eq!(rows(&after.excess), vec![("m".to_string(), 0, None, some("02"))]);
    assert!(after.missing.is_empty());
    assert!(after.mismatches.is_empty());
    assert_eq!(after.total(), 1);
}

#[test]
fn each_comparison_is_classified_on_its_own() {
    let baseline = index(&[("a", "01"), ("b", "02")]);
    let first = index(&[("a", "01")]);
    let second = index(&[("a", "ff"), ("b", "02"), ("z", "09")]);
    let third = index(&[("a", "01"), ("b", "02")]);
    let report = diff(&baseline, &vec![first, second, third]);
    assert_eq!(rows(&report.missing), vec![("b".to_string(), 0, some("02"), None)]);
    assert_eq!(rows(&report.mismatches), vec![("a".to_string(), 1, some("01"), some("ff"))]);
    assert_eq!(rows(&report.excess), vec![("z".to_string(), 1, None, some("09"))]);
    assert_eq!(report.total(), 3);
}

#[test]
fn lists_are_ordered_by_path_then_source() {
    let baseline = index(&[("m", "01"), ("b", "02"), ("zz", "03"), ("a", "04"), ("z", "05")]);
    let first = index(&[("y", "10"), ("c", "11"), ("m", "ff")]);
    let second = index(&[("c", "11"), ("m", "ee"), ("b", "00"), ("B", "12")]);
    let report = diff(&baseline, &vec![first, second]);
    assert_eq!(
        keys(&report.mismatches),
        vec![("b".to_string(), 1), ("m".to_string(), 0), ("m".to_string(), 1)]
    );
    assert_eq!(
        keys(&report.missing),
        vec![
            ("a".to_string(), 0),
            ("a".to_string(), 1),
            ("b".to_string(), 0),
            ("z".to_string(), 0),
            ("z".to_string(), 1),
            ("zz".to_string(), 0),
            ("zz".to_string(), 1),
        ]
    );
    assert_eq!(
        keys(&report.excess),
        vec![
            ("B".to_string(), 1),
            ("c".to_string(), 0),
            ("c".to_string(), 1),
            ("y".to_string(), 0),
        ]
    );
    assert_eq!(report.total(), 14);
}

#[test]
fn no_path_is_both_missing_and_excess() {
    let baseline = index(&[("a", "01"), ("b", "02"), ("c", "03")]);
    let compared = index(&[("b", "02"), ("d", "04"), ("c", "00")]);
    let report = diff(&baseline, &vec![compared]);
    for gone in &report.missing {
        assert!(!report.excess.iter().any(|e| e.path == gone.path && e.source == gone.source));
        assert!(!report.mismatches.iter().any(|e| e.path == gone.path && e.source == gone.source));
    }
    assert_eq!(keys(&report.missing), vec![("a".to_string(), 0)]);
    assert_eq!(keys(&report.excess), vec![("d".to_string(), 0)]);
    assert_eq!(keys(&report.mismatches), vec![("c".to_string(), 0)]);
}

#[test]
fn text_order_is_lexicographic_on_bytes() {
    assert!(text_before("a", "b"));
    assert!(!text_before("b", "a"));
    assert!(!text_before("a", "a"));
    assert!(text_before("", "a"));
    assert!(!text_before("", ""));
    assert!(text_before("a", "ab"));
    assert!(!text_before("ab", "a"));
    assert!(text_before("Z", "a"));
    assert!(text_before("z", "\u{e9}"));
    assert!(text_before("a/b", "a0"));
    for (a, b) in [("x", "y"), ("abc", "abd"), ("", "0"), ("\u{e9}", "\u{ea}")] {
        assert_eq!(text_before(a, b), a < b);
        assert_eq!(text_before(b, a), b < a);
    }
}

#[test]
fn entries_render_as_report_lines() {
    let baseline = index(&[("a", "01"), ("b", "02")]);
    let compared = index(&[("a", "ff"), ("c", "03")]);
    let report = diff(&baseline, &vec![compared]);
    assert_eq!(
        report.mismatches[0].render(Category::Mismatch, "new.idx"),
        "[!(new.idx)] ff != 01 == a"
    );
    assert_eq!(report.missing[0].render(Category::Missing, "new.idx"), "[-(new.idx)] b");
    assert_eq!(report.excess[0].render(Category::Excess, "new.idx"), "[+(new.idx)] 03 c");
}
