use gb10x::digest::sha256_digest;
use gb10x::format::PlePackIoError;
use gb10x::raw_source::raw_row_count;
use gb10x::safetensors::{locate_row, RowSpan};

/// A flat row source held in memory, read the way the file-backed source reads its mapping.
struct RawRows {
    bytes: Vec<u8>,
    row_count: u64,
    row_bytes: u32,
}

impl RawRows {
    fn open(bytes: Vec<u8>, row_bytes: u32) -> Result<Self, PlePackIoError> {
        let row_count = raw_row_count(bytes.len() as u64, row_bytes)?;
        Ok(RawRows { bytes, row_count, row_bytes })
    }

    fn read_exact_row(&self, row: u32, dst: &mut [u8]) -> Result<(), PlePackIoError> {
        let span = RowSpan {
            logical_row_start: 0,
            row_count: self.row_count,
            data_start: 0,
            data_end: self.bytes.len(),
        };
        let (_, start, end) = locate_row(&[span], self.row_count, self.row_bytes, row, dst.len())?;
        dst.copy_from_slice(&self.bytes[start..end]);
        Ok(())
    }

    fn source_digest(&self) -> [u8; 32] {
        sha256_digest(&self.bytes)
    }
}

#[test]
fn raw_source_maps_exact_fixed_width_rows() {
    let source = RawRows::open((0_u8..24).collect(), 8).expect("raw source");
    assert_eq!(source.row_count, 3);
    assert_eq!(source.row_bytes, 8);
    let mut row = [0_u8; 8];
    source.read_exact_row(1, &mut row).unwrap();
    assert_eq!(row, [8, 9, 10, 11, 12, 13, 14, 15]);
}

#[test]
fn raw_source_rejects_partial_rows_and_bad_buffers() {
    assert!(RawRows::open(vec![1_u8; 17], 8).is_err());
    let source = RawRows::open(vec![1_u8; 16], 8).unwrap();
    let mut wrong = [0_u8; 7];
    assert!(matches!(
        source.read_exact_row(0, &mut wrong),
        Err(PlePackIoError::RowBufferWidth { .. })
    ));
}

#[test]
fn raw_source_digest_changes_when_source_bytes_change() {
    let a = RawRows::open(vec![3_u8; 16], 8).unwrap();
    let b = RawRows::open(vec![4_u8; 16], 8).unwrap();
    assert_ne!(a.source_digest(), b.source_digest());
}

#[test]
fn raw_geometry_errors_are_distinguished() {
    assert!(matches!(raw_row_count(16, 0), Err(PlePackIoError::Layout(_))));
    assert!(matches!(raw_row_count(0, 8), Err(PlePackIoError::Layout(_))));
    assert!(matches!(raw_row_count(17, 8), Err(PlePackIoError::Format(_))));
    assert_eq!(raw_row_count(16, 8).unwrap(), 2);
}

#[test]
fn the_digest_of_nothing_is_the_standard_empty_digest() {
    let d = sha256_digest(&[]);
    assert_eq!(&d[..4], &[0xe3, 0xb0, 0xc4, 0x42]);
    assert_ne!(sha256_digest(b"a"), sha256_digest(b"b"));
}
