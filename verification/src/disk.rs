//! Fixed-width PLEPack sidecar header and hot-index entry encoding.
use crate::format::{
    header_geometry_error, PlePackError, PlePackHeader, PlePackIoError, PLEPACK_MAGIC, PLEPACK_VERSION,
};
use vstd::bytes::*;
use vstd::prelude::*;

verus! {

/// Byte length of the encoded sidecar header.
pub const DISK_HEADER_BYTES: u64 = 128;

/// Byte length of one encoded hot-index entry (`u32` row, `u64` overlay offset).
pub const INDEX_ENTRY_BYTES: u64 = 12;

/// Flags value of an exact hot-overlay sidecar.
pub const EXACT_OVERLAY_FLAGS: u32 = 1;

/// Decoded sidecar header: logical metadata plus the physical hot-index/overlay geometry.
#[derive(Clone, Debug)]
pub struct DiskHeader {
    pub logical: PlePackHeader,
    pub hot_row_count: u64,
    pub index_bytes: u64,
    pub data_offset: u64,
    pub overlay_bytes: u64,
}

/// What `DiskHeader::new` rejects, in the order it checks.
pub open spec fn disk_geometry_error(
    block_bytes: u32,
    hot_row_count: u64,
    index_bytes: u64,
    data_offset: u64,
    overlay_bytes: u64,
) -> Option<PlePackIoError> {
    if hot_row_count * INDEX_ENTRY_BYTES > u64::MAX {
        Some(PlePackIoError::Format("hot index byte count overflow"))
    } else if index_bytes != hot_row_count * INDEX_ENTRY_BYTES {
        Some(PlePackIoError::Format("hot index byte count does not match hot row count"))
    } else if DISK_HEADER_BYTES + index_bytes > u64::MAX {
        Some(PlePackIoError::Format("index end overflow"))
    } else if data_offset < DISK_HEADER_BYTES + index_bytes {
        Some(PlePackIoError::Format("overlay data overlaps index"))
    } else if !multiple_of(data_offset, block_bytes as u64) {
        Some(PlePackIoError::Format("overlay data offset is not block aligned"))
    } else if !multiple_of(overlay_bytes, block_bytes as u64) {
        Some(PlePackIoError::Format("overlay byte length is not block aligned"))
    } else {
        None
    }
}

/// `x` is a multiple of `y` (only zero is a multiple of zero).
pub open spec fn multiple_of(x: u64, y: u64) -> bool {
    if y == 0 {
        x == 0
    } else {
        x % y == 0
    }
}

/// Little-endian `u32` stored at `offset`.
pub open spec fn u32_at(bytes: Seq<u8>, offset: int) -> u32 {
    spec_u32_from_le_bytes(bytes.subrange(offset, offset + 4))
}

/// Little-endian `u64` stored at `offset`.
pub open spec fn u64_at(bytes: Seq<u8>, offset: int) -> u64 {
    spec_u64_from_le_bytes(bytes.subrange(offset, offset + 8))
}

/// The 128-byte header image of `h`.
pub open spec fn encoded_header(h: DiskHeader) -> Seq<u8> {
    PLEPACK_MAGIC@ + spec_u32_to_le_bytes(PLEPACK_VERSION) + spec_u32_to_le_bytes(EXACT_OVERLAY_FLAGS)
        + h.logical.source_digest@ + spec_u64_to_le_bytes(h.logical.row_count)
        + spec_u32_to_le_bytes(h.logical.row_bytes) + spec_u32_to_le_bytes(h.logical.block_bytes)
        + spec_u64_to_le_bytes(h.hot_row_count) + spec_u64_to_le_bytes(h.index_bytes)
        + spec_u64_to_le_bytes(h.data_offset) + spec_u64_to_le_bytes(h.overlay_bytes)
        + h.logical.index_digest@
}

/// The first reason `bytes` is not a valid sidecar header, in the order decoding checks.
pub open spec fn header_decode_error(bytes: Seq<u8>) -> Option<PlePackIoError> {
    if bytes.len() < DISK_HEADER_BYTES {
        Some(PlePackIoError::Format("sidecar is shorter than header"))
    } else if bytes.subrange(0, 8) != PLEPACK_MAGIC@ {
        Some(PlePackIoError::Format("PLEPack magic mismatch"))
    } else if u32_at(bytes, 8) != PLEPACK_VERSION {
        Some(PlePackIoError::Format("PLEPack version mismatch"))
    } else if u32_at(bytes, 12) != EXACT_OVERLAY_FLAGS {
        Some(PlePackIoError::Format("unsupported PLEPack flags"))
    } else if header_geometry_error(u64_at(bytes, 48), u32_at(bytes, 56), u32_at(bytes, 60)) is Some {
        Some(
            PlePackIoError::Layout(
                header_geometry_error(u64_at(bytes, 48), u32_at(bytes, 56), u32_at(bytes, 60))->0,
            ),
        )
    } else {
        disk_geometry_error(
            u32_at(bytes, 60),
            u64_at(bytes, 64),
            u64_at(bytes, 72),
            u64_at(bytes, 80),
            u64_at(bytes, 88),
        )
    }
}

/// `h` holds exactly the fields stored in the header image `bytes`.
pub open spec fn header_fields_match(h: DiskHeader, bytes: Seq<u8>) -> bool {
    &&& h.logical.magic@ == PLEPACK_MAGIC@
    &&& h.logical.version == PLEPACK_VERSION
    &&& h.logical.source_digest@ == bytes.subrange(16, 48)
    &&& h.logical.row_count == u64_at(bytes, 48)
    &&& h.logical.row_bytes == u32_at(bytes, 56)
    &&& h.logical.block_bytes == u32_at(bytes, 60)
    &&& h.hot_row_count == u64_at(bytes, 64)
    &&& h.index_bytes == u64_at(bytes, 72)
    &&& h.data_offset == u64_at(bytes, 80)
    &&& h.overlay_bytes == u64_at(bytes, 88)
    &&& h.logical.index_digest@ == bytes.subrange(96, 128)
}

/// Append every byte of `piece` to `out`.
fn append_bytes(out: &mut Vec<u8>, piece: &[u8])
    ensures
        final(out)@ == old(out)@ + piece@,
{
    let mut i: usize = 0;
    while i < piece.len()
        invariant
            i <= piece@.len(),
            out@ == old(out)@ + piece@.take(i as int),
        decreases piece@.len() - i,
    {
        out.push(piece[i]);
        assert(piece@.take(i + 1) =~= piece@.take(i as int).push(piece@[i as int]));
        i += 1;
    }
    assert(piece@.take(i as int) =~= piece@);
}

/// Little-endian `u32` at `offset`, failing on arithmetic overflow or truncation.
pub fn read_u32(bytes: &[u8], offset: usize) -> (r: Result<u32, PlePackIoError>)
    ensures
        offset + 4 > usize::MAX ==> r == Err::<u32, PlePackIoError>(
            PlePackIoError::Format("u32 header offset overflow"),
        ),
        offset + 4 <= usize::MAX && offset + 4 > bytes@.len() ==> r == Err::<u32, PlePackIoError>(
            PlePackIoError::Format("truncated u32 header field"),
        ),
        offset + 4 <= bytes@.len() ==> r == Ok::<u32, PlePackIoError>(u32_at(bytes@, offset as int)),
{
    let len = bytes.len();
    let end = match offset.checked_add(4) {
        Some(e) => e,
        None => {
            return Err(PlePackIoError::Format("u32 header offset overflow"));
        },
    };
    if end > len {
        return Err(PlePackIoError::Format("truncated u32 header field"));
    }
    let slice = vstd::slice::slice_subrange(bytes, offset, end);
    Ok(u32_from_le_bytes(slice))
}

/// Little-endian `u64` at `offset`, failing on arithmetic overflow or truncation.
pub fn read_u64(bytes: &[u8], offset: usize) -> (r: Result<u64, PlePackIoError>)
    ensures
        offset + 8 > usize::MAX ==> r == Err::<u64, PlePackIoError>(
            PlePackIoError::Format("u64 header offset overflow"),
        ),
        offset + 8 <= usize::MAX && offset + 8 > bytes@.len() ==> r == Err::<u64, PlePackIoError>(
            PlePackIoError::Format("truncated u64 header field"),
        ),
        offset + 8 <= bytes@.len() ==> r == Ok::<u64, PlePackIoError>(u64_at(bytes@, offset as int)),
{
    let len = bytes.len();
    let end = match offset.checked_add(8) {
        Some(e) => e,
        None => {
            return Err(PlePackIoError::Format("u64 header offset overflow"));
        },
    };
    if end > len {
        return Err(PlePackIoError::Format("truncated u64 header field"));
    }
    let slice = vstd::slice::slice_subrange(bytes, offset, end);
    Ok(u64_from_le_bytes(slice))
}

impl DiskHeader {
    /// Validate the hot-index and overlay geometry against the logical header.
    pub fn new(
        logical: PlePackHeader,
        hot_row_count: u64,
        index_bytes: u64,
        data_offset: u64,
        overlay_bytes: u64,
    ) -> (r: Result<Self, PlePackIoError>)
        ensures
            match disk_geometry_error(
                logical.block_bytes,
                hot_row_count,
                index_bytes,
                data_offset,
                overlay_bytes,
            ) {
                Some(e) => r == Err::<Self, PlePackIoError>(e),
                None => r is Ok && r->Ok_0 == (DiskHeader {
                    logical,
                    hot_row_count,
                    index_bytes,
                    data_offset,
                    overlay_bytes,
                }),
            },
    {
        let expected_index_bytes = match hot_row_count.checked_mul(INDEX_ENTRY_BYTES) {
            Some(e) => e,
            None => {
                return Err(PlePackIoError::Format("hot index byte count overflow"));
            },
        };
        if index_bytes != expected_index_bytes {
            return Err(PlePackIoError::Format("hot index byte count does not match hot row count"));
        }
        let minimum_data_offset = match DISK_HEADER_BYTES.checked_add(index_bytes) {
            Some(e) => e,
            None => {
                return Err(PlePackIoError::Format("index end overflow"));
            },
        };
        if data_offset < minimum_data_offset {
            return Err(PlePackIoError::Format("overlay data overlaps index"));
        }
        if !data_offset.is_multiple_of(logical.block_bytes as u64) {
            return Err(PlePackIoError::Format("overlay data offset is not block aligned"));
        }
        if !overlay_bytes.is_multiple_of(logical.block_bytes as u64) {
            return Err(PlePackIoError::Format("overlay byte length is not block aligned"));
        }
        Ok(Self { logical, hot_row_count, index_bytes, data_offset, overlay_bytes })
    }

    /// Encode the 128-byte little-endian header image.
    pub fn encode(&self) -> (r: Vec<u8>)
        ensures
            r@ == encoded_header(*self),
            r@.len() == DISK_HEADER_BYTES,
    {
        let mut out: Vec<u8> = Vec::new();
        append_bytes(&mut out, PLEPACK_MAGIC.as_slice());
        append_bytes(&mut out, u32_to_le_bytes(PLEPACK_VERSION).as_slice());
        append_bytes(&mut out, u32_to_le_bytes(EXACT_OVERLAY_FLAGS).as_slice());
        append_bytes(&mut out, self.logical.source_digest.as_slice());
        append_bytes(&mut out, u64_to_le_bytes(self.logical.row_count).as_slice());
        append_bytes(&mut out, u32_to_le_bytes(self.logical.row_bytes).as_slice());
        append_bytes(&mut out, u32_to_le_bytes(self.logical.block_bytes).as_slice());
        append_bytes(&mut out, u64_to_le_bytes(self.hot_row_count).as_slice());
        append_bytes(&mut out, u64_to_le_bytes(self.index_bytes).as_slice());
        append_bytes(&mut out, u64_to_le_bytes(self.data_offset).as_slice());
        append_bytes(&mut out, u64_to_le_bytes(self.overlay_bytes).as_slice());
        append_bytes(&mut out, self.logical.index_digest.as_slice());
        proof {
            lemma_auto_spec_u32_to_from_le_bytes();
            lemma_auto_spec_u64_to_from_le_bytes();
        }
        out
    }

    /// Decode and validate a sidecar header image.
    pub fn decode(bytes: &[u8]) -> (r: Result<Self, PlePackIoError>)
        ensures
            match header_decode_error(bytes@) {
                Some(e) => r == Err::<Self, PlePackIoError>(e),
                None => r is Ok && header_fields_match(r->Ok_0, bytes@),
            },
    {
        if bytes.len() < DISK_HEADER_BYTES as usize {
            return Err(PlePackIoError::Format("sidecar is shorter than header"));
        }
        let magic = vstd::slice::slice_subrange(bytes, 0, 8);
        let mut k: usize = 0;
        while k < 8
            invariant
                k <= 8,
                bytes@.len() >= DISK_HEADER_BYTES,
                magic@ == bytes@.subrange(0, 8),
                forall|j: int| 0 <= j < k ==> magic@[j] == PLEPACK_MAGIC@[j],
            decreases 8 - k,
        {
            if magic[k] != PLEPACK_MAGIC[k] {
                return Err(PlePackIoError::Format("PLEPack magic mismatch"));
            }
            k += 1;
        }
        assert(bytes@.subrange(0, 8) =~= PLEPACK_MAGIC@);
        let version = read_u32(bytes, 8)?;
        if version != PLEPACK_VERSION {
            return Err(PlePackIoError::Format("PLEPack version mismatch"));
        }
        let flags = read_u32(bytes, 12)?;
        if flags != EXACT_OVERLAY_FLAGS {
            return Err(PlePackIoError::Format("unsupported PLEPack flags"));
        }
        let mut source_digest = [0u8; 32];
        let mut index_digest = [0u8; 32];
        let mut i: usize = 0;
        while i < 32
            invariant
                bytes@.len() >= DISK_HEADER_BYTES,
                forall|j: int|
                    0 <= j < i ==> source_digest@[j] == bytes@[16 + j] && index_digest@[j]
                        == bytes@[96 + j],
            decreases 32 - i,
        {
            source_digest[i] = bytes[16 + i];
            index_digest[i] = bytes[96 + i];
            i += 1;
        }
        assert(source_digest@ =~= bytes@.subrange(16, 48));
        assert(index_digest@ =~= bytes@.subrange(96, 128));
        let row_count = read_u64(bytes, 48)?;
        let row_bytes = read_u32(bytes, 56)?;
        let block_bytes = read_u32(bytes, 60)?;
        let hot_row_count = read_u64(bytes, 64)?;
        let index_bytes = read_u64(bytes, 72)?;
        let data_offset = read_u64(bytes, 80)?;
        let overlay_bytes = read_u64(bytes, 88)?;
        let logical = match PlePackHeader::new(
            source_digest,
            row_count,
            row_bytes,
            block_bytes,
            index_digest,
        ) {
            Ok(h) => h,
            Err(e) => {
                return Err(PlePackIoError::Layout(e));
            },
        };
        Self::new(logical, hot_row_count, index_bytes, data_offset, overlay_bytes)
    }
}

/// Decoding the image of a valid header gives back every field of that header.
pub proof fn law_header_roundtrip(h: DiskHeader)
    requires
        header_geometry_error(h.logical.row_count, h.logical.row_bytes, h.logical.block_bytes) is None,
        disk_geometry_error(
            h.logical.block_bytes,
            h.hot_row_count,
            h.index_bytes,
            h.data_offset,
            h.overlay_bytes,
        ) is None,
        h.logical.magic@ == PLEPACK_MAGIC@,
        h.logical.version == PLEPACK_VERSION,
    ensures
        encoded_header(h).len() == DISK_HEADER_BYTES,
        header_decode_error(encoded_header(h)) is None,
        header_fields_match(h, encoded_header(h)),
{
    lemma_auto_spec_u32_to_from_le_bytes();
    lemma_auto_spec_u64_to_from_le_bytes();
    let b = encoded_header(h);
    assert(b.len() == 128);
    assert(b.subrange(0, 8) =~= PLEPACK_MAGIC@);
    assert(b.subrange(8, 12) =~= spec_u32_to_le_bytes(PLEPACK_VERSION));
    assert(b.subrange(12, 16) =~= spec_u32_to_le_bytes(EXACT_OVERLAY_FLAGS));
    assert(b.subrange(16, 48) =~= h.logical.source_digest@);
    assert(b.subrange(48, 56) =~= spec_u64_to_le_bytes(h.logical.row_count));
    assert(b.subrange(56, 60) =~= spec_u32_to_le_bytes(h.logical.row_bytes));
    assert(b.subrange(60, 64) =~= spec_u32_to_le_bytes(h.logical.block_bytes));
    assert(b.subrange(64, 72) =~= spec_u64_to_le_bytes(h.hot_row_count));
    assert(b.subrange(72, 80) =~= spec_u64_to_le_bytes(h.index_bytes));
    assert(b.subrange(80, 88) =~= spec_u64_to_le_bytes(h.data_offset));
    assert(b.subrange(88, 96) =~= spec_u64_to_le_bytes(h.overlay_bytes));
    assert(b.subrange(96, 128) =~= h.logical.index_digest@);
}

/// The 12-byte image of a hot-index entry.
pub open spec fn encoded_index_entry(logical_row: u32, overlay_offset: u64) -> Seq<u8> {
    spec_u32_to_le_bytes(logical_row) + spec_u64_to_le_bytes(overlay_offset)
}

/// Encode one hot-index entry.
pub fn encode_index_entry(logical_row: u32, overlay_offset: u64) -> (r: Vec<u8>)
    ensures
        r@ == encoded_index_entry(logical_row, overlay_offset),
        r@.len() == INDEX_ENTRY_BYTES,
{
    let mut out: Vec<u8> = Vec::new();
    append_bytes(&mut out, u32_to_le_bytes(logical_row).as_slice());
    append_bytes(&mut out, u64_to_le_bytes(overlay_offset).as_slice());
    out
}

/// Decode one hot-index entry.
pub fn decode_index_entry(bytes: &[u8]) -> (r: Result<(u32, u64), PlePackIoError>)
    ensures
        bytes@.len() != INDEX_ENTRY_BYTES ==> r == Err::<(u32, u64), PlePackIoError>(
            PlePackIoError::Format("invalid hot index entry width"),
        ),
        bytes@.len() == INDEX_ENTRY_BYTES ==> r == Ok::<(u32, u64), PlePackIoError>(
            (u32_at(bytes@, 0), u64_at(bytes@, 4)),
        ),
{
    if bytes.len() != INDEX_ENTRY_BYTES as usize {
        return Err(PlePackIoError::Format("invalid hot index entry width"));
    }
    let row = read_u32(bytes, 0)?;
    let offset = read_u64(bytes, 4)?;
    Ok((row, offset))
}

/// Decoding an encoded hot-index entry gives back the entry.
pub proof fn law_index_entry_roundtrip(logical_row: u32, overlay_offset: u64)
    ensures
        encoded_index_entry(logical_row, overlay_offset).len() == INDEX_ENTRY_BYTES,
        u32_at(encoded_index_entry(logical_row, overlay_offset), 0) == logical_row,
        u64_at(encoded_index_entry(logical_row, overlay_offset), 4) == overlay_offset,
{
    lemma_auto_spec_u32_to_from_le_bytes();
    lemma_auto_spec_u64_to_from_le_bytes();
    let e = encoded_index_entry(logical_row, overlay_offset);
    assert(e.subrange(0, 4) =~= spec_u32_to_le_bytes(logical_row));
    assert(e.subrange(4, 12) =~= spec_u64_to_le_bytes(overlay_offset));
}

} // verus!
