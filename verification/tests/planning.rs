use s3_transfer::chunking::{
    byte_ranges, plan_chunks, plan_download, range_header, ByteRange, ChunkPlan, DownloadPlan,
    UploadProgress, CHUNK_SIZE, MAX_CHUNKS,
};
use s3_transfer::error::TransferError;

const MIB5: u64 = 5 * 1024 * 1024;

#[test]
fn chunk_size_is_five_mebibytes() {
    assert_eq!(CHUNK_SIZE, 5_242_880);
    assert_eq!(MAX_CHUNKS, 10_000);
}

#[test]
fn empty_file_is_refused() {
    assert_eq!(plan_chunks(0), Err(TransferError::BadFileSize));
}

#[test]
fn small_file_is_one_chunk() {
    assert_eq!(
        plan_chunks(1),
        Ok(ChunkPlan { file_size: 1, chunk_count: 1, last_chunk_size: 1 })
    );
}

#[test]
fn exact_multiple_has_full_last_chunk() {
    assert_eq!(
        plan_chunks(2 * MIB5),
        Ok(ChunkPlan { file_size: 2 * MIB5, chunk_count: 2, last_chunk_size: MIB5 })
    );
}

#[test]
fn chunk_count_rounds_up() {
    assert_eq!(
        plan_chunks(2 * MIB5 + 7),
        Ok(ChunkPlan { file_size: 2 * MIB5 + 7, chunk_count: 3, last_chunk_size: 7 })
    );
}

#[test]
fn largest_allowed_file() {
    let p = plan_chunks(MAX_CHUNKS * MIB5).unwrap();
    assert_eq!(p.chunk_count, MAX_CHUNKS);
    assert_eq!(plan_chunks(MAX_CHUNKS * MIB5 + 1), Err(TransferError::TooManyChunks));
}

#[test]
fn huge_file_is_too_many_chunks() {
    assert_eq!(plan_chunks(u64::MAX), Err(TransferError::TooManyChunks));
}

#[test]
fn ranges_tile_the_file() {
    let size = 3 * MIB5 + 10;
    let r = byte_ranges(size);
    assert_eq!(
        r,
        vec![
            ByteRange { start: 0, end: MIB5 - 1 },
            ByteRange { start: MIB5, end: 2 * MIB5 - 1 },
            ByteRange { start: 2 * MIB5, end: 3 * MIB5 - 1 },
            ByteRange { start: 3 * MIB5, end: size - 1 },
        ]
    );
    for w in r.windows(2) {
        assert_eq!(w[1].start, w[0].end + 1);
    }
}

#[test]
fn download_without_length_is_refused() {
    assert_eq!(plan_download(None), Err(TransferError::MissingFileSize));
}

#[test]
fn download_of_empty_object_is_refused() {
    assert_eq!(plan_download(Some(0)), Err(TransferError::BadFileSize));
}

#[test]
fn negative_length_wraps_to_a_huge_size() {
    assert_eq!(plan_download(Some(-1)), Err(TransferError::TooManyChunks));
}

#[test]
fn small_object_downloads_in_one_request() {
    assert_eq!(plan_download(Some(100)), Ok(DownloadPlan::Single { file_size: 100 }));
    assert_eq!(
        plan_download(Some(MIB5 as i64)),
        Ok(DownloadPlan::Single { file_size: MIB5 })
    );
}

#[test]
fn large_object_downloads_by_ranges() {
    let size = MIB5 + 1;
    assert_eq!(
        plan_download(Some(size as i64)),
        Ok(DownloadPlan::Ranged {
            file_size: size,
            ranges: vec![
                ByteRange { start: 0, end: MIB5 - 1 },
                ByteRange { start: MIB5, end: MIB5 },
            ],
        })
    );
}

#[test]
fn range_header_text() {
    assert_eq!(range_header(ByteRange { start: 0, end: 5242879 }), "bytes=0-5242879");
    assert_eq!(range_header(ByteRange { start: 10, end: 10 }), "bytes=10-10");
    assert_eq!(
        range_header(ByteRange { start: u64::MAX, end: 9 }),
        "bytes=18446744073709551615-9"
    );
}

#[test]
fn upload_parts_are_numbered_from_one() {
    let mut p = UploadProgress::new();
    assert_eq!(p.next_part(), 1);
    assert!(!p.is_finished());
    assert_eq!(p.record_chunk(CHUNK_SIZE), Ok(Some(1)));
    assert!(!p.is_finished());
    assert_eq!(p.record_chunk(CHUNK_SIZE), Ok(Some(2)));
    assert_eq!(p.record_chunk(12), Ok(Some(3)));
    assert!(p.is_finished());
    assert_eq!(p.next_part(), 4);
}

#[test]
fn short_chunk_ends_the_upload() {
    let mut p = UploadProgress::new();
    assert_eq!(p.record_chunk(CHUNK_SIZE), Ok(Some(1)));
    assert_eq!(p.record_chunk(100), Ok(Some(2)));
    assert!(p.is_finished());
}

#[test]
fn empty_first_read_is_refused_and_changes_nothing() {
    let mut p = UploadProgress::new();
    let before = p;
    assert_eq!(p.record_chunk(0), Err(TransferError::EmptyChunk));
    assert_eq!(p, before);
    assert!(!p.is_finished());
    assert_eq!(p.next_part(), 1);
}

#[test]
fn empty_read_after_a_part_ends_the_upload() {
    let mut p = UploadProgress::new();
    assert_eq!(p.record_chunk(CHUNK_SIZE), Ok(Some(1)));
    assert_eq!(p.record_chunk(0), Ok(None));
    assert!(p.is_finished());
    assert_eq!(p.next_part(), 2);
}

#[test]
fn reading_a_file_gives_full_parts_then_the_rest() {
    let size = 2 * MIB5 + 3;
    let lengths: Vec<u64> = byte_ranges(size).iter().map(|r| r.end - r.start + 1).collect();
    assert_eq!(lengths, vec![MIB5, MIB5, 3]);
    let mut p = UploadProgress::new();
    for (i, len) in lengths.iter().enumerate() {
        assert!(!p.is_finished());
        assert_eq!(p.record_chunk(*len as usize), Ok(Some(i as i32 + 1)));
    }
    assert!(p.is_finished());
}

#[test]
fn upload_of_an_exact_multiple_ends_after_its_last_part() {
    let size = 2 * MIB5;
    let lengths: Vec<u64> = byte_ranges(size).iter().map(|r| r.end - r.start + 1).collect();
    assert_eq!(lengths, vec![MIB5, MIB5]);
    let mut p = UploadProgress::new();
    assert_eq!(p.record_chunk(lengths[0] as usize), Ok(Some(1)));
    assert!(!p.is_finished());
    assert_eq!(p.record_chunk(lengths[1] as usize), Ok(Some(2)));
    assert!(!p.is_finished());
    assert_eq!(p.record_chunk(0), Ok(None));
    assert!(p.is_finished());
    assert_eq!(p.next_part(), 3);
}

#[test]
fn upload_of_exactly_one_chunk_is_one_part() {
    let plan = plan_chunks(MIB5).unwrap();
    assert_eq!(plan.chunk_count, 1);
    let mut p = UploadProgress::new();
    assert_eq!(p.record_chunk(CHUNK_SIZE), Ok(Some(1)));
    assert_eq!(p.record_chunk(0), Ok(None));
    assert!(p.is_finished());
    assert_eq!(p.next_part(), 2);
}

#[test]
fn a_file_that_grows_is_read_to_its_end() {
    let mut p = UploadProgress::new();
    assert_eq!(p.record_chunk(CHUNK_SIZE), Ok(Some(1)));
    assert_eq!(p.record_chunk(CHUNK_SIZE), Ok(Some(2)));
    assert_eq!(p.record_chunk(7), Ok(Some(3)));
    assert!(p.is_finished());
}
