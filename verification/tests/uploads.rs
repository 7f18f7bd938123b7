use s3_transfer::checksum::{checksum_header_for_digest, content_sha256_header, content_sha256_hex};
use s3_transfer::chunking::plan_chunks;
use s3_transfer::error::TransferError;
use s3_transfer::ordering::sorted_order;
use std::collections::BTreeMap;

use s3_transfer::upload::{completed_parts, record_outcome, upload_target, CompletedPartInfo, PartOutcome};

fn collect_completed_parts(
    outcomes: &Vec<PartOutcome>,
    counter: i32,
) -> Result<Vec<CompletedPartInfo>, TransferError> {
    let mut parts = BTreeMap::new();
    for o in outcomes {
        record_outcome(&mut parts, o, counter)?;
    }
    Ok(completed_parts(&parts))
}

fn ok(part: i32, tag: &str) -> PartOutcome {
    PartOutcome::Uploaded { part, e_tag: Some(tag.to_string()) }
}

fn done(part: i32, tag: &str) -> CompletedPartInfo {
    CompletedPartInfo { part_number: part, e_tag: tag.to_string() }
}

#[test]
fn parts_are_listed_in_part_order() {
    let outcomes = vec![ok(3, "c"), ok(1, "a"), ok(2, "b")];
    assert_eq!(
        collect_completed_parts(&outcomes, 4),
        Ok(vec![done(1, "a"), done(2, "b"), done(3, "c")])
    );
}

#[test]
fn completion_order_does_not_matter() {
    let a = collect_completed_parts(&vec![ok(2, "b"), ok(1, "a")], 3);
    let b = collect_completed_parts(&vec![ok(1, "a"), ok(2, "b")], 3);
    assert_eq!(a, b);
}

#[test]
fn later_etag_of_a_part_wins() {
    let outcomes = vec![ok(1, "old"), ok(2, "b"), ok(1, "new")];
    assert_eq!(collect_completed_parts(&outcomes, 3), Ok(vec![done(1, "new"), done(2, "b")]));
}

#[test]
fn refused_outcome_leaves_the_list_unchanged() {
    let mut parts = BTreeMap::new();
    record_outcome(&mut parts, &ok(1, "a"), 3).unwrap();
    let r = record_outcome(&mut parts, &PartOutcome::Uploaded { part: 2, e_tag: None }, 3);
    assert_eq!(r, Err(TransferError::MissingETag { part: 2 }));
    assert_eq!(completed_parts(&parts), vec![done(1, "a")]);
}

#[test]
fn no_parts_give_an_empty_list() {
    assert_eq!(collect_completed_parts(&vec![], 1), Ok(vec![]));
}

#[test]
fn missing_etag_is_an_error() {
    let outcomes = vec![ok(1, "a"), PartOutcome::Uploaded { part: 2, e_tag: None }];
    assert_eq!(collect_completed_parts(&outcomes, 3), Err(TransferError::MissingETag { part: 2 }));
}

#[test]
fn failed_part_is_reported_under_the_counter() {
    let outcomes = vec![
        ok(1, "a"),
        PartOutcome::Failed { part: 2, detail: "denied".to_string() },
        PartOutcome::Uploaded { part: 3, e_tag: None },
    ];
    assert_eq!(
        collect_completed_parts(&outcomes, 4),
        Err(TransferError::PartUploadFailed { part: 4, detail: "denied".to_string() })
    );
}

#[test]
fn join_failure_is_an_error() {
    let outcomes = vec![PartOutcome::JoinFailed { detail: "panicked".to_string() }, ok(1, "a")];
    assert_eq!(
        collect_completed_parts(&outcomes, 2),
        Err(TransferError::PartJoinFailed { part: 2, detail: "panicked".to_string() })
    );
}

#[test]
fn sha256_hex_of_abc() {
    assert_eq!(
        content_sha256_hex(b"abc"),
        "ba7816bf8f01cfea414140de5dae2223b00361a396177a9cb410ff61f20015ad"
    );
    assert_eq!(
        content_sha256_hex(b""),
        "e3b0c44298fc1c149afbf4c8996fb92427ae41e4649b934ca495991b7852b855"
    );
}

#[test]
fn checksum_header_is_always_accepted() {
    let h = content_sha256_header(b"abc").unwrap();
    assert_eq!(h.text(), "ba7816bf8f01cfea414140de5dae2223b00361a396177a9cb410ff61f20015ad");
    assert_eq!(
        h.into_value().to_str().unwrap(),
        "ba7816bf8f01cfea414140de5dae2223b00361a396177a9cb410ff61f20015ad"
    );
    let h = checksum_header_for_digest(&[0x00, 0xff, 0x10]).unwrap();
    assert_eq!(h.text(), "00ff10");
    assert_eq!(h.into_value().to_str().unwrap(), "00ff10");
}

#[test]
fn upload_target_of_a_png() {
    let plan = plan_chunks(20).unwrap();
    let head = [0x89u8, b'P', b'N', b'G', 0x0d, 0x0a, 0x1a, 0x0a, 0, 0, 0, 0x0d, b'I', b'H', b'D', b'R'];
    let t = upload_target("img/", "/home/u/logo.png", &plan, &head).unwrap();
    assert_eq!(t.key, "img/logo.png");
    assert_eq!(t.chunk_count, 1);
    assert_eq!(t.mime_type, "image/png");
}

#[test]
fn upload_target_needs_a_file_name() {
    let plan = plan_chunks(20).unwrap();
    assert_eq!(
        upload_target("img/", "/", &plan, b"x"),
        Err(TransferError::MissingFileName { source: "/".to_string() })
    );
}

#[test]
fn folder_entries_sort_by_name() {
    let names = vec!["b.txt".to_string(), "a.txt".to_string(), "B.txt".to_string(), "a".to_string()];
    let order = sorted_order(&names);
    assert_eq!(order, vec![2, 3, 1, 0]);
}

#[test]
fn equal_names_keep_listing_order() {
    let names = vec!["x".to_string(), "w".to_string(), "x".to_string()];
    assert_eq!(sorted_order(&names), vec![1, 0, 2]);
}

#[test]
fn sort_matches_string_order_on_unicode() {
    let names: Vec<String> = ["é", "z", "Ω", "a", "ab", ""].iter().map(|s| s.to_string()).collect();
    let order = sorted_order(&names);
    let got: Vec<&String> = order.iter().map(|&i| &names[i]).collect();
    let mut expected: Vec<&String> = names.iter().collect();
    expected.sort();
    assert_eq!(got, expected);
}
