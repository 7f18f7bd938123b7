//! Uploads: what a file is stored as, the bookkeeping of the parts of a
//! multipart upload, and the checksum header sent with each part.

use std::collections::BTreeMap;
use vstd::prelude::*;
use crate::chunking::ChunkPlan;
use crate::error::TransferError;
use crate::keys::{object_key_of, path_file_name, upload_object_key};

verus! {

/// Name for the MIME type that `mimetype_detector::detect` reports for the
/// given leading bytes of a file.
pub uninterp spec fn detected_mime(head: Seq<u8>) -> Seq<char>;

/// Calls `mimetype_detector::detect` on the leading bytes of a file and takes
/// the MIME text of the result. Trusted: the result is the named
/// `detected_mime` of the bytes.
#[verifier::external_body]
fn detect_mime(head: &[u8]) -> (r: String)
    ensures
        r@ == detected_mime(head@),
{
    mimetype_detector::detect(head).mime().to_string()
}

/// What a file is uploaded as.
#[derive(Debug, Clone, PartialEq, Eq)]
pub struct UploadTarget {
    pub key: String,
    pub chunk_count: u64,
    pub mime_type: String,
}

/// What the file at `source_path`, cut as `plan` and beginning with the bytes
/// `head`, is uploaded below `prefix` as; refused when the path has no file name.
pub fn upload_target(prefix: &str, source_path: &str, plan: &ChunkPlan, head: &[u8]) -> (r: Result<
    UploadTarget,
    TransferError,
>)
    ensures
        path_file_name(source_path@) is None ==> (r matches Err(
            TransferError::MissingFileName { source },
        ) && source@ == source_path@),
        path_file_name(source_path@) matches Some(n) ==> (r matches Ok(t) && t.key@
            == object_key_of(prefix@, n) && t.chunk_count == plan.chunk_count && t.mime_type@
            == detected_mime(head@)),
{
    let mime_type = detect_mime(head);
    match upload_object_key(prefix, source_path) {
        Ok(key) => Ok(UploadTarget { key, chunk_count: plan.chunk_count, mime_type }),
        Err(e) => Err(e),
    }
}

/// What became of the upload of one part.
#[derive(Debug, Clone, PartialEq, Eq)]
pub enum PartOutcome {
    /// The store accepted the part and answered with this ETag, if any.
    Uploaded { part: i32, e_tag: Option<String> },
    /// The store refused the part.
    Failed { part: i32, detail: String },
    /// The task that uploaded the part could not be joined.
    JoinFailed { detail: String },
}

/// A part of a completed multipart upload.
#[derive(Debug, Clone, PartialEq, Eq)]
pub struct CompletedPartInfo {
    pub part_number: i32,
    pub e_tag: String,
}

/// Whether an outcome stops the upload: any failure, and an accepted part
/// without an ETag.
pub open spec fn is_failure(o: PartOutcome) -> bool {
    match o {
        PartOutcome::Uploaded { e_tag, .. } => e_tag is None,
        _ => true,
    }
}

/// The error an outcome that stops the upload is reported as; a failed part
/// is reported under `counter`, the part counter at the time.
pub open spec fn failure_error(o: PartOutcome, counter: i32) -> TransferError {
    match o {
        PartOutcome::Uploaded { part, .. } => TransferError::MissingETag { part },
        PartOutcome::Failed { detail, .. } => TransferError::PartUploadFailed { part: counter, detail },
        PartOutcome::JoinFailed { detail } => TransferError::PartJoinFailed { part: counter, detail },
    }
}

/// `parts` holds the entries of `m`, once each, in increasing part order.
pub open spec fn lists_parts(parts: Seq<CompletedPartInfo>, m: Map<i32, String>) -> bool {
    &&& forall|a: int, b: int|
        0 <= a < b < parts.len() ==> #[trigger] parts[a].part_number < #[trigger] parts[b].part_number
    &&& forall|j: int|
        0 <= j < parts.len() ==> m.contains_key(#[trigger] parts[j].part_number)
            && m[parts[j].part_number] == parts[j].e_tag
    &&& forall|p: i32|
        #[trigger] m.contains_key(p) ==> exists|j: int| 0 <= j < parts.len() && parts[j].part_number == p
}

/// Part numbers are ordered as integers, so the map's operations behave as
/// specified and its entries come out in increasing part order.
proof fn lemma_part_numbers_ordered()
    ensures
        vstd::laws_cmp::obeys_cmp::<i32>(),
        vstd::std_specs::btree::key_obeys_cmp_spec::<i32>(),
        forall|s: Seq<i32>|
            #[trigger] vstd::std_specs::btree::increasing_seq(s) ==> forall|a: int, b: int|
                0 <= a < b < s.len() ==> s[a] < s[b],
{
    broadcast use vstd::laws_cmp::group_laws_cmp;
    broadcast use vstd::std_specs::btree::group_btree_axioms;
    assert forall|s: Seq<i32>| #[trigger] vstd::std_specs::btree::increasing_seq(s) implies forall|
        a: int,
        b: int,
    | 0 <= a < b < s.len() ==> s[a] < s[b] by {
        assert forall|a: int, b: int| 0 <= a < b < s.len() implies s[a] < s[b] by {
            assert(vstd::std_specs::cmp::OrdSpec::cmp_spec(&s[a], &s[b]) is Less);
        }
    }
}

/// Records the outcome of one part upload in the ETags of a multipart upload,
/// kept by part number. An outcome that stops the upload (a failure, or an
/// accepted part without an ETag) is refused and leaves the map as it was; a
/// failed part is reported under `counter`, the part counter at the time. An
/// accepted part's ETag replaces an earlier one of the same part.
pub fn record_outcome(parts: &mut BTreeMap<i32, String>, outcome: &PartOutcome, counter: i32) -> (r:
    Result<(), TransferError>)
    ensures
        is_failure(*outcome) ==> r == Err::<(), TransferError>(failure_error(*outcome, counter)),
        is_failure(*outcome) ==> final(parts)@ == old(parts)@,
        !is_failure(*outcome) ==> r is Ok,
        outcome matches PartOutcome::Uploaded { part, e_tag: Some(t) } ==> final(parts)@ == old(
            parts,
        )@.insert(*part, *t),
{
    proof { lemma_part_numbers_ordered(); }
    match outcome {
        PartOutcome::Uploaded { part, e_tag } => {
            match e_tag {
                Some(t) => {
                    parts.insert(*part, t.clone());
                    Ok(())
                },
                None => Err(TransferError::MissingETag { part: *part }),
            }
        },
        PartOutcome::Failed { detail, .. } => {
            Err(TransferError::PartUploadFailed { part: counter, detail: detail.clone() })
        },
        PartOutcome::JoinFailed { detail } => {
            Err(TransferError::PartJoinFailed { part: counter, detail: detail.clone() })
        },
    }
}

/// The part list that completes a multipart upload: every part of `parts`
/// once, with its ETag, in increasing part order.
pub fn completed_parts(parts: &BTreeMap<i32, String>) -> (r: Vec<CompletedPartInfo>)
    ensures
        lists_parts(r@, parts@),
{
    proof { lemma_part_numbers_ordered(); }
    let mut out: Vec<CompletedPartInfo> = Vec::new();
    let it = parts.iter();
    let ghost entries = vstd::std_specs::iter::IteratorSpec::remaining(&it);
    let ghost keys = entries.map_values(|kv: (&i32, &String)| *kv.0);
    proof {
        assert(vstd::std_specs::btree::increasing_seq(keys));
        assert(entries.no_duplicates());
    }
    for kv in iter: it
        invariant
            entries == iter.seq(),
            keys == entries.map_values(|kv: (&i32, &String)| *kv.0),
            forall|a: int, b: int| 0 <= a < b < keys.len() ==> keys[a] < keys[b],
            entries.len() == parts@.dom().len(),
            forall|i: int|
                0 <= i < entries.len() ==> parts@.contains_key(*entries[i].0) && parts@[*entries[i].0]
                    == *entries[i].1,
            forall|k: i32| #[trigger] parts@.contains_key(k) ==> entries.contains((&k, &parts@[k])),
            out.len() == iter.index(),
            forall|j: int|
                0 <= j < out.len() ==> #[trigger] out[j].part_number == *entries[j].0 && out[j].e_tag
                    == *entries[j].1,
    {
        let (k, v) = kv;
        out.push(CompletedPartInfo { part_number: *k, e_tag: v.clone() });
    }
    proof {
        assert forall|a: int, b: int| 0 <= a < b < out.len() implies #[trigger] out[a].part_number
            < #[trigger] out[b].part_number by {
            assert(keys[a] == *entries[a].0 && keys[b] == *entries[b].0);
        }
        assert forall|p: i32| #[trigger] parts@.contains_key(p) implies exists|j: int|
            0 <= j < out.len() && out[j].part_number == p by {
            let j = choose|j: int| 0 <= j < entries.len() && entries[j] == (&p, &parts@[p]);
            assert(out[j].part_number == p);
        }
    }
    out
}

/// Two ordered lists of the same parts and ETags are the same list: the list
/// that completes an upload does not depend on the order in which the part
/// uploads finished, only on the map they were recorded in.
pub proof fn lemma_part_list_determined_by_map(
    p1: Seq<CompletedPartInfo>,
    p2: Seq<CompletedPartInfo>,
    m: Map<i32, String>,
)
    requires
        lists_parts(p1, m),
        lists_parts(p2, m),
    ensures
        p1 == p2,
    decreases p1.len(),
{
    if p1.len() == 0 {
        if p2.len() > 0 {
            assert(m.contains_key(p2[0].part_number));
        }
        assert(p1 =~= p2);
    } else if p2.len() == 0 {
        assert(m.contains_key(p1[0].part_number));
    } else {
        let a = p1.last();
        let b = p2.last();
        assert(m.contains_key(a.part_number));
        assert(m.contains_key(b.part_number));
        let ja = choose|j: int| 0 <= j < p2.len() && p2[j].part_number == a.part_number;
        let jb = choose|j: int| 0 <= j < p1.len() && p1[j].part_number == b.part_number;
        if ja < p2.len() - 1 {
            assert(p2[ja].part_number < b.part_number);
        }
        if jb < p1.len() - 1 {
            assert(p1[jb].part_number < a.part_number);
        }
        assert(a.part_number == b.part_number);
        assert(a == b);
        let i1 = p1.drop_last();
        let i2 = p2.drop_last();
        let m2 = m.remove(a.part_number);
        assert(lists_parts(i1, m2)) by {
            assert forall|p: i32| #[trigger] m2.contains_key(p) implies exists|j: int|
                0 <= j < i1.len() && i1[j].part_number == p by {
                let j = choose|j: int| 0 <= j < p1.len() && p1[j].part_number == p;
                assert(j != p1.len() - 1);
                assert(i1[j] == p1[j]);
            }
            assert forall|j: int| 0 <= j < i1.len() implies m2.contains_key(
                #[trigger] i1[j].part_number,
            ) && m2[i1[j].part_number] == i1[j].e_tag by {
                assert(i1[j] == p1[j]);
                assert(p1[j].part_number < a.part_number);
            }
        }
        assert(lists_parts(i2, m2)) by {
            assert forall|p: i32| #[trigger] m2.contains_key(p) implies exists|j: int|
                0 <= j < i2.len() && i2[j].part_number == p by {
                let j = choose|j: int| 0 <= j < p2.len() && p2[j].part_number == p;
                assert(j != p2.len() - 1);
                assert(i2[j] == p2[j]);
            }
            assert forall|j: int| 0 <= j < i2.len() implies m2.contains_key(
                #[trigger] i2[j].part_number,
            ) && m2[i2[j].part_number] == i2[j].e_tag by {
                assert(i2[j] == p2[j]);
                assert(p2[j].part_number < b.part_number);
            }
        }
        lemma_part_list_determined_by_map(i1, i2, m2);
        assert(p1 =~= i1.push(a));
        assert(p2 =~= i2.push(b));
    }
}

} // verus!
