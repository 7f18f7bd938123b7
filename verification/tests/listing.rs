use s3_transfer::error::TransferError;
use s3_transfer::listing::{append_page_entries, existence_from_head, HeadOutcome};

fn some(v: &[&str]) -> Vec<Option<String>> {
    v.iter().map(|s| Some(s.to_string())).collect()
}

#[test]
fn page_lists_objects_then_folders() {
    let mut list = Vec::new();
    append_page_entries(
        &mut list,
        "data/",
        None,
        &some(&["data/", "data/a.csv", "data/b.json"]),
        &some(&["data/2023/", "data/2024/"]),
    );
    assert_eq!(list, vec!["data/a.csv", "data/b.json", "data/2023/", "data/2024/"]);
}

#[test]
fn missing_keys_are_skipped() {
    let mut list = Vec::new();
    append_page_entries(&mut list, "", None, &vec![None, Some("x".to_string())], &vec![None]);
    assert_eq!(list, vec!["x"]);
}

#[test]
fn pattern_applies_to_relative_names() {
    let mut list = Vec::new();
    append_page_entries(
        &mut list,
        "data/",
        Some("*.csv"),
        &some(&["data/a.csv", "data/b.json", "data/c.csv"]),
        &some(&["data/x.csv/", "data/y/"]),
    );
    assert_eq!(list, vec!["data/a.csv", "data/c.csv", "data/x.csv/"]);
}

#[test]
fn pattern_keeps_a_subsequence_of_the_plain_listing() {
    let objects = some(&["data/a.csv", "data/b.json", "data/c.csv", "data/"]);
    let folders = some(&["data/x.csv/", "data/y/"]);
    let mut plain = Vec::new();
    append_page_entries(&mut plain, "data/", None, &objects, &folders);
    let mut filtered = Vec::new();
    append_page_entries(&mut filtered, "data/", Some("*.csv"), &objects, &folders);
    assert_eq!(plain, vec!["data/a.csv", "data/b.json", "data/c.csv", "data/x.csv/", "data/y/"]);
    let kept: Vec<String> = plain.iter().filter(|k| k.contains(".csv")).cloned().collect();
    assert_eq!(filtered, kept);
}

#[test]
fn pattern_keeps_a_subsequence_over_several_pages() {
    let pages = vec![
        (some(&["logs/a.txt", "logs/b.gz"]), some(&["logs/old/"])),
        (some(&["logs/c.txt", "logs/d.bin"]), some(&["logs/txt.d/", "logs/new.txt/"])),
    ];
    let mut plain = Vec::new();
    let mut filtered = Vec::new();
    for (objects, folders) in &pages {
        append_page_entries(&mut plain, "logs/", None, objects, folders);
        append_page_entries(&mut filtered, "logs/", Some("*.txt"), objects, folders);
    }
    assert_eq!(
        plain,
        vec!["logs/a.txt", "logs/b.gz", "logs/old/", "logs/c.txt", "logs/d.bin", "logs/txt.d/", "logs/new.txt/"]
    );
    assert_eq!(filtered, vec!["logs/a.txt", "logs/c.txt", "logs/new.txt/"]);
    let mut rest = plain.iter();
    for entry in &filtered {
        assert!(rest.any(|e| e == entry));
    }
}

#[test]
fn question_mark_matches_one_character() {
    let mut list = Vec::new();
    append_page_entries(&mut list, "", Some("a?"), &some(&["a", "ab", "abc"]), &vec![]);
    assert_eq!(list, vec!["ab"]);
}

#[test]
fn star_pattern_selects_everything() {
    let objects = some(&["p/a", "p/", "q/b"]);
    let folders = some(&["p/x/", "p/"]);
    let mut all = Vec::new();
    append_page_entries(&mut all, "p/", None, &objects, &folders);
    let mut star = Vec::new();
    append_page_entries(&mut star, "p/", Some("*"), &objects, &folders);
    assert_eq!(all, star);
    assert_eq!(all, vec!["p/a", "q/b", "p/x/"]);
}

#[test]
fn pages_accumulate() {
    let mut list = vec!["first".to_string()];
    append_page_entries(&mut list, "", None, &some(&["second"]), &vec![]);
    assert_eq!(list, vec!["first", "second"]);
}

#[test]
fn head_found_means_exists() {
    assert_eq!(existence_from_head(HeadOutcome::Found), Ok(true));
}

#[test]
fn head_not_found_means_absent() {
    let o = HeadOutcome::ServiceError { status: 404, detail: "NotFound".to_string() };
    assert_eq!(existence_from_head(o), Ok(false));
}

#[test]
fn head_other_failures_are_errors() {
    let o = HeadOutcome::ServiceError { status: 403, detail: "Forbidden".to_string() };
    assert_eq!(
        existence_from_head(o),
        Err(TransferError::HeadObjectFailed { detail: "Forbidden".to_string() })
    );
    let o = HeadOutcome::OtherError { detail: "timeout".to_string() };
    assert_eq!(
        existence_from_head(o),
        Err(TransferError::HeadObjectFailed { detail: "timeout".to_string() })
    );
}
