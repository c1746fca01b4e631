use gb10x::disk::{decode_index_entry, encode_index_entry, read_u32, read_u64, DiskHeader};
use gb10x::format::{PlePackHeader, PlePackIoError};
use gb10x::layout::plan_exact_layout;
use gb10x::reader::{
    index_entry, open_sidecar, open_verified_sidecar, plan_row_read, read_sidecar_row,
    verify_hot_overlay, SidecarLayout,
};
use gb10x::writer::{align_up, ExactPleRowSource, PlePackWriter, SidecarImage};

const ROW_COUNT: u64 = 40;
const ROW_BYTES: u32 = 320;
const BLOCK_BYTES: u32 = 4096;
const DIGEST: [u8; 32] = [7; 32];

fn source_row(row: u32) -> Vec<u8> {
    (0..ROW_BYTES as usize).map(|i| (row as usize * 31 + i) as u8).collect()
}

fn image() -> SidecarImage {
    let trace = vec![vec![9, 3, 7, 3], vec![9, 7, 11], vec![2, 1], vec![7, 9]];
    let plan = plan_exact_layout(ROW_COUNT, ROW_BYTES, BLOCK_BYTES, &trace).unwrap();
    PlePackWriter::prepare_overlay(ROW_COUNT, ROW_BYTES, DIGEST, &plan).unwrap()
}

/// Lay the image out as the file writer does: header, index, then each hot row's copy.
fn sidecar_bytes(img: &SidecarImage) -> Vec<u8> {
    let mut file = vec![0u8; img.report.file_bytes as usize];
    file[..128].copy_from_slice(&img.header_bytes);
    let start = img.report.index_offset as usize;
    file[start..start + img.index_payload.len()].copy_from_slice(&img.index_payload);
    for &(row, offset) in &img.row_writes {
        let offset = offset as usize;
        file[offset..offset + ROW_BYTES as usize].copy_from_slice(&source_row(row));
    }
    file
}

fn read_row(file: &[u8], layout: &SidecarLayout, row: u32) -> Vec<u8> {
    match plan_row_read(file, layout, row, ROW_BYTES as usize).unwrap() {
        Some((a, b)) => file[a..b].to_vec(),
        None => source_row(row),
    }
}

#[test]
fn exact_overlay_roundtrips_every_logical_row() {
    let img = image();
    assert_eq!(img.report.hot_rows, 6);
    assert_eq!(img.report.index_offset, 128);
    assert_eq!(img.report.index_bytes, 6 * 12);
    assert_eq!(img.data_offset, 4096);
    assert_eq!(img.report.file_bytes, img.data_offset + img.report.overlay_bytes);
    let rows: Vec<u32> = img.index.iter().map(|e| e.0).collect();
    assert_eq!(rows, vec![1, 2, 3, 7, 9, 11]);

    let file = sidecar_bytes(&img);
    let layout = open_sidecar(&file, DIGEST, ROW_COUNT, ROW_BYTES).expect("sidecar opens");
    assert_eq!(layout.hot_row_count, 6);
    assert_eq!(layout.data_offset as u64, img.data_offset);
    for row in 0..ROW_COUNT as u32 {
        assert_eq!(read_row(&file, &layout, row), source_row(row), "row {row}");
        let hot = plan_row_read(&file, &layout, row, ROW_BYTES as usize).unwrap().is_some();
        assert_eq!(hot, rows.contains(&row));
    }
    assert!(matches!(
        plan_row_read(&file, &layout, ROW_COUNT as u32, ROW_BYTES as usize),
        Err(PlePackIoError::Layout(_))
    ));
    assert!(matches!(
        plan_row_read(&file, &layout, 0, 1),
        Err(PlePackIoError::RowBufferWidth { expected: 320, actual: 1 })
    ));
}

#[test]
fn corrupted_overlay_index_digest_is_rejected() {
    let img = image();
    let mut file = sidecar_bytes(&img);
    file[128 + 5] ^= 0x40;
    assert!(matches!(
        open_sidecar(&file, DIGEST, ROW_COUNT, ROW_BYTES),
        Err(PlePackIoError::IndexDigestMismatch)
    ));
}

#[test]
fn source_digest_mismatch_is_rejected() {
    let file = sidecar_bytes(&image());
    assert!(matches!(
        open_sidecar(&file, [8; 32], ROW_COUNT, ROW_BYTES),
        Err(PlePackIoError::SourceDigestMismatch)
    ));
    assert!(matches!(
        open_sidecar(&file, DIGEST, ROW_COUNT + 1, ROW_BYTES),
        Err(PlePackIoError::Format("sidecar/source logical row counts differ"))
    ));
    assert!(matches!(
        open_sidecar(&file[..file.len() - 1], DIGEST, ROW_COUNT, ROW_BYTES),
        Err(PlePackIoError::Format("sidecar file length does not match header"))
    ));
    let mut bad_magic = file.clone();
    bad_magic[0] = 0;
    assert!(matches!(
        open_sidecar(&bad_magic, DIGEST, ROW_COUNT, ROW_BYTES),
        Err(PlePackIoError::Format("PLEPack magic mismatch"))
    ));
}

#[test]
fn writer_rejects_a_plan_for_another_source() {
    let trace = vec![vec![1, 2]];
    let plan = plan_exact_layout(ROW_COUNT, ROW_BYTES, BLOCK_BYTES, &trace).unwrap();
    assert!(matches!(
        PlePackWriter::prepare_overlay(ROW_COUNT + 1, ROW_BYTES, DIGEST, &plan),
        Err(PlePackIoError::Format("source and layout row counts differ"))
    ));
    assert!(matches!(
        PlePackWriter::prepare_overlay(ROW_COUNT, ROW_BYTES + 1, DIGEST, &plan),
        Err(PlePackIoError::Format("source and layout row widths differ"))
    ));
}

#[test]
fn header_and_index_entries_roundtrip_through_their_encodings() {
    let logical = PlePackHeader::new(DIGEST, ROW_COUNT, ROW_BYTES, BLOCK_BYTES, [3; 32]).unwrap();
    let disk = DiskHeader::new(logical, 2, 24, 4096, 4096).unwrap();
    let bytes = disk.encode();
    assert_eq!(bytes.len(), 128);
    let decoded = DiskHeader::decode(&bytes).unwrap();
    assert_eq!(decoded.logical, disk.logical);
    assert_eq!(
        (decoded.hot_row_count, decoded.index_bytes, decoded.data_offset, decoded.overlay_bytes),
        (2, 24, 4096, 4096)
    );
    assert!(DiskHeader::new(logical_copy(), 2, 25, 4096, 4096).is_err());
    assert!(DiskHeader::new(logical_copy(), 2, 24, 100, 4096).is_err());

    let entry = encode_index_entry(11, 8192);
    assert_eq!(entry.len(), 12);
    assert_eq!(decode_index_entry(&entry).unwrap(), (11, 8192));
    assert!(decode_index_entry(&entry[..11]).is_err());
    assert_eq!(read_u32(&entry, 0).unwrap(), 11);
    assert_eq!(read_u64(&entry, 4).unwrap(), 8192);
    assert!(read_u64(&entry, 5).is_err());
    assert_eq!(align_up(130, 4096).unwrap(), 4096);
    assert_eq!(align_up(8192, 4096).unwrap(), 8192);
}

fn logical_copy() -> PlePackHeader {
    PlePackHeader::new(DIGEST, ROW_COUNT, ROW_BYTES, BLOCK_BYTES, [3; 32]).unwrap()
}

/// The exact rows `source_row` describes, as a row source.
struct TestSource;

impl ExactPleRowSource for TestSource {
    fn row_count(&self) -> u64 {
        ROW_COUNT
    }

    fn row_bytes(&self) -> u32 {
        ROW_BYTES
    }

    fn source_digest(&self) -> [u8; 32] {
        DIGEST
    }

    fn read_exact_row(&self, logical_row: u32, dst: &mut [u8]) -> Result<(), PlePackIoError> {
        dst.copy_from_slice(&source_row(logical_row));
        Ok(())
    }
}

/// A source whose every read fails.
struct FailingSource;

impl ExactPleRowSource for FailingSource {
    fn row_count(&self) -> u64 {
        ROW_COUNT
    }

    fn row_bytes(&self) -> u32 {
        ROW_BYTES
    }

    fn source_digest(&self) -> [u8; 32] {
        DIGEST
    }

    fn read_exact_row(&self, _logical_row: u32, _dst: &mut [u8]) -> Result<(), PlePackIoError> {
        Err(PlePackIoError::Format("source unavailable"))
    }
}

#[test]
fn hot_overlay_check_reports_a_failing_source() {
    let img = image();
    let file = sidecar_bytes(&img);
    let layout = open_sidecar(&file, DIGEST, ROW_COUNT, ROW_BYTES).unwrap();
    assert!(matches!(
        verify_hot_overlay(&file, &layout, &FailingSource),
        Err(PlePackIoError::Format("source unavailable"))
    ));
}

#[test]
fn corrupted_hot_overlay_data_is_rejected_on_open() {
    let img = image();
    let mut file = sidecar_bytes(&img);
    let layout = open_sidecar(&file, DIGEST, ROW_COUNT, ROW_BYTES).unwrap();
    assert_eq!(verify_hot_overlay(&file, &layout, &TestSource).unwrap().0, 6);
    let (row, offset) = img.row_writes[2];
    file[offset as usize + 17] ^= 1;
    let layout = open_sidecar(&file, DIGEST, ROW_COUNT, ROW_BYTES).unwrap();
    match verify_hot_overlay(&file, &layout, &TestSource).map(|(n, _)| n) {
        Err(PlePackIoError::OverlayDataMismatch { logical_row }) => assert_eq!(logical_row, row),
        other => panic!("unexpected {other:?}"),
    }
    assert!(matches!(
        index_entry(&file, &layout, 6),
        Err(PlePackIoError::Format("hot index ordinal out of range"))
    ));
}

/// The rows of `source_row` under another source digest.
struct OtherSource;

impl ExactPleRowSource for OtherSource {
    fn row_count(&self) -> u64 {
        ROW_COUNT
    }

    fn row_bytes(&self) -> u32 {
        ROW_BYTES
    }

    fn source_digest(&self) -> [u8; 32] {
        [8; 32]
    }

    fn read_exact_row(&self, logical_row: u32, dst: &mut [u8]) -> Result<(), PlePackIoError> {
        dst.copy_from_slice(&source_row(logical_row));
        Ok(())
    }
}

#[test]
fn opening_checks_the_source_digest_the_index_digest_and_every_hot_row() {
    let img = image();
    let file = sidecar_bytes(&img);
    let layout = open_verified_sidecar(&file, &TestSource).unwrap().0;
    assert_eq!(layout.hot_row_count, 6);
    assert!(matches!(
        open_verified_sidecar(&file, &OtherSource),
        Err(PlePackIoError::SourceDigestMismatch)
    ));
    let mut flipped = file.clone();
    flipped[img.report.index_offset as usize] ^= 1;
    assert!(matches!(
        open_verified_sidecar(&flipped, &TestSource),
        Err(PlePackIoError::IndexDigestMismatch)
    ));
    let mut corrupted = file.clone();
    let (row, offset) = img.row_writes[4];
    corrupted[offset as usize] ^= 0x80;
    match open_verified_sidecar(&corrupted, &TestSource).map(|(l, _)| l) {
        Err(PlePackIoError::OverlayDataMismatch { logical_row }) => assert_eq!(logical_row, row),
        other => panic!("unexpected {other:?}"),
    }
}

#[test]
fn an_opened_sidecar_reads_back_every_source_row() {
    let img = image();
    let file = sidecar_bytes(&img);
    let layout = open_verified_sidecar(&file, &TestSource).unwrap().0;
    for row in 0..ROW_COUNT as u32 {
        let mut dst = vec![0u8; ROW_BYTES as usize];
        read_sidecar_row(&file, &layout, &TestSource, row, &mut dst).unwrap();
        assert_eq!(dst, source_row(row), "row {row}");
    }
    let mut dst = vec![0u8; ROW_BYTES as usize];
    assert!(matches!(
        read_sidecar_row(&file, &layout, &FailingSource, 0, &mut dst),
        Err(PlePackIoError::Format("source unavailable"))
    ));
    read_sidecar_row(&file, &layout, &FailingSource, 9, &mut dst).unwrap();
    assert_eq!(dst, source_row(9));
    assert!(matches!(
        read_sidecar_row(&file, &layout, &TestSource, ROW_COUNT as u32, &mut dst),
        Err(PlePackIoError::Layout(_))
    ));
    let mut short = vec![0u8; 3];
    assert!(matches!(
        read_sidecar_row(&file, &layout, &TestSource, 9, &mut short),
        Err(PlePackIoError::RowBufferWidth { expected: 320, actual: 3 })
    ));
}

#[test]
fn a_sidecar_without_hot_rows_is_verified_without_reading_the_source() {
    let plan = plan_exact_layout(ROW_COUNT, ROW_BYTES, BLOCK_BYTES, &[]).unwrap();
    let img = PlePackWriter::prepare_overlay(ROW_COUNT, ROW_BYTES, DIGEST, &plan).unwrap();
    let file = sidecar_bytes(&img);
    let layout = open_sidecar(&file, DIGEST, ROW_COUNT, ROW_BYTES).unwrap();
    assert_eq!(layout.hot_row_count, 0);
    assert_eq!(verify_hot_overlay(&file, &layout, &FailingSource).unwrap().0, 0);
}

#[test]
fn an_index_entry_outside_the_sidecar_is_reported_before_any_source_read() {
    let img = image();
    let file = sidecar_bytes(&img);
    let mut layout = open_sidecar(&file, DIGEST, ROW_COUNT, ROW_BYTES).unwrap();
    layout.index_offset = file.len();
    assert!(matches!(
        verify_hot_overlay(&file, &layout, &FailingSource),
        Err(PlePackIoError::Format("hot index entry outside sidecar"))
    ));
}
