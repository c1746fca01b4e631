//! Exact PLEPack metadata shared by the layout planner, the sidecar encoder and the reader.
use vstd::prelude::*;

verus! {

/// Eight-byte file-format identity for exact GB10X PLEPack artifacts (`b"GB10XPLE"`).
pub const PLEPACK_MAGIC: [u8; 8] = [0x47, 0x42, 0x31, 0x30, 0x58, 0x50, 0x4c, 0x45];

/// Initial exact PLEPack format version.
pub const PLEPACK_VERSION: u32 = 1;

/// Size of the logical row-ID space: row IDs are `u32`.
pub const LOGICAL_ROW_SPACE: u64 = 0x1_0000_0000;

/// PLEPack construction, layout or validation failure.
#[derive(Clone, Copy, Debug, PartialEq, Eq)]
pub enum PlePackError {
    /// Row/block geometry cannot represent an exact pack.
    InvalidGeometry(&'static str),
    /// A workload trace referenced a logical row outside the immutable base region.
    TraceRowOutOfRange {
        /// Invalid logical row ID.
        row: u32,
        /// Number of rows in the exact cold base region.
        row_count: u64,
    },
    /// A logical row lookup addressed outside the immutable base region.
    LogicalRowOutOfRange {
        /// Invalid logical row ID.
        row: u32,
        /// Number of rows in the exact cold base region.
        row_count: u64,
    },
    /// Checked integer arithmetic failed while computing a file layout.
    Overflow(&'static str),
}

/// Integrity or structural failure while building or consuming an exact PLEPack sidecar.
#[derive(Debug)]
pub enum PlePackIoError {
    /// Layout/provenance geometry is invalid.
    Layout(PlePackError),
    /// Filesystem operation failed.
    Io(std::io::Error),
    /// On-disk structure is malformed or internally inconsistent.
    Format(&'static str),
    /// Exact source provider rejected a request.
    Source(&'static str),
    /// Caller provided a row buffer of the wrong width.
    RowBufferWidth {
        /// Exact source row width.
        expected: usize,
        /// Caller-provided buffer width.
        actual: usize,
    },
    /// Sidecar was created against a different immutable source row stream.
    SourceDigestMismatch,
    /// Serialized hot-overlay index was modified or corrupted.
    IndexDigestMismatch,
    /// A stored hot-overlay row differs from the exact source row.
    OverlayDataMismatch {
        /// Logical row whose overlay copy differs.
        logical_row: u32,
    },
}

/// `std::io::Error` only travels through [`PlePackIoError::Io`]; its contents are never read.
#[verifier::external_type_specification]
#[verifier::external_body]
pub struct ExIoError(std::io::Error);

/// Immutable provenance and geometry for one exact PLEPack dataset.
#[derive(Clone, Debug, PartialEq, Eq)]
pub struct PlePackHeader {
    /// File-format identity.
    pub magic: [u8; 8],
    /// File-format version.
    pub version: u32,
    /// SHA-256 digest of the exact source PLE row stream.
    pub source_digest: [u8; 32],
    /// Number of logical rows in the cold identity-mapped base region.
    pub row_count: u64,
    /// Exact byte width of one logical row.
    pub row_bytes: u32,
    /// Physical block size used by locality-optimized overlay storage.
    pub block_bytes: u32,
    /// SHA-256 digest of the serialized hot-overlay index payload.
    pub index_digest: [u8; 32],
}

/// What `PlePackHeader::new` rejects, in the order it checks; `None` when the geometry is valid.
pub open spec fn header_geometry_error(row_count: u64, row_bytes: u32, block_bytes: u32) -> Option<
    PlePackError,
> {
    if row_count == 0 {
        Some(PlePackError::InvalidGeometry("row_count must be nonzero"))
    } else if row_bytes == 0 {
        Some(PlePackError::InvalidGeometry("row_bytes must be nonzero"))
    } else if block_bytes == 0 {
        Some(PlePackError::InvalidGeometry("block_bytes must be nonzero"))
    } else if block_bytes < row_bytes {
        Some(PlePackError::InvalidGeometry("block_bytes must fit at least one complete row"))
    } else if row_count > LOGICAL_ROW_SPACE {
        Some(PlePackError::InvalidGeometry("logical row space must fit u32 row identifiers"))
    } else {
        None
    }
}

impl PlePackHeader {
    /// Valid geometry: nonempty rows that fit a block, and a `u32`-addressable row space.
    pub open spec fn well_formed(&self) -> bool {
        &&& self.magic@ == PLEPACK_MAGIC@
        &&& self.version == PLEPACK_VERSION
        &&& header_geometry_error(self.row_count, self.row_bytes, self.block_bytes) is None
    }

    /// Construct validated exact PLEPack metadata.
    pub fn new(
        source_digest: [u8; 32],
        row_count: u64,
        row_bytes: u32,
        block_bytes: u32,
        index_digest: [u8; 32],
    ) -> (r: Result<Self, PlePackError>)
        ensures
            match header_geometry_error(row_count, row_bytes, block_bytes) {
                Some(e) => r == Err::<Self, PlePackError>(e),
                None => r is Ok && {
                    let h = r->Ok_0;
                    &&& h.well_formed()
                    &&& h.source_digest@ == source_digest@
                    &&& h.index_digest@ == index_digest@
                    &&& h.row_count == row_count
                    &&& h.row_bytes == row_bytes
                    &&& h.block_bytes == block_bytes
                },
            },
            r is Ok <==> (0 < row_count <= 0x1_0000_0000 && 0 < row_bytes <= block_bytes),
    {
        if row_count == 0 {
            return Err(PlePackError::InvalidGeometry("row_count must be nonzero"));
        }
        if row_bytes == 0 {
            return Err(PlePackError::InvalidGeometry("row_bytes must be nonzero"));
        }
        if block_bytes == 0 {
            return Err(PlePackError::InvalidGeometry("block_bytes must be nonzero"));
        }
        if block_bytes < row_bytes {
            return Err(PlePackError::InvalidGeometry("block_bytes must fit at least one complete row"));
        }
        if row_count > LOGICAL_ROW_SPACE {
            return Err(
                PlePackError::InvalidGeometry("logical row space must fit u32 row identifiers"),
            );
        }
        Ok(Self {
            magic: PLEPACK_MAGIC,
            version: PLEPACK_VERSION,
            source_digest,
            row_count,
            row_bytes,
            block_bytes,
            index_digest,
        })
    }
}

} // verus!
