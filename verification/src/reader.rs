//! Exact PLEPack sidecar checks and lookups over the sidecar's bytes.
use crate::digest::{sha256, sha256_digest};
use crate::disk::{
    decode_index_entry, header_decode_error, header_fields_match, u32_at, u64_at, DiskHeader,
    DISK_HEADER_BYTES, INDEX_ENTRY_BYTES,
};
use crate::format::{PlePackError, PlePackHeader, PlePackIoError};
use vstd::prelude::*;

verus! {

/// Hot-index entry `k` of a serialized index: `(logical_row, overlay_offset)`.
pub open spec fn entry_at(index: Seq<u8>, k: int) -> (u32, u64) {
    (u32_at(index, k * 12), u64_at(index, k * 12 + 4))
}

/// The first failing check of index entries `k..n`, given the row of entry `k - 1` (if any).
pub open spec fn entries_error(
    index: Seq<u8>,
    k: int,
    n: int,
    previous: Option<u32>,
    row_count: u64,
    row_bytes: u32,
    block_bytes: u32,
    overlay_bytes: u64,
) -> Option<&'static str>
    decreases n - k,
{
    if k < 0 || k >= n {
        None
    } else {
        let (row, off) = entry_at(index, k);
        if row >= row_count {
            Some("hot index contains logical row outside source")
        } else if previous matches Some(p) && p >= row {
            Some("hot index logical rows are not strictly sorted")
        } else if off + row_bytes > u64::MAX {
            Some("hot index row end overflow")
        } else if off + row_bytes > overlay_bytes {
            Some("hot index row exceeds overlay data region")
        } else if off % (block_bytes as u64) + row_bytes > block_bytes {
            Some("hot index row crosses overlay block boundary")
        } else {
            entries_error(index, k + 1, n, Some(row), row_count, row_bytes, block_bytes, overlay_bytes)
        }
    }
}

/// The first failing check of a serialized hot index of `n` entries against `disk`.
pub open spec fn index_error(index: Seq<u8>, n: int, disk: DiskHeader) -> Option<&'static str> {
    if n * 12 > usize::MAX {
        Some("hot index validation size overflow")
    } else if index.len() != n * 12 {
        Some("hot index length does not match row count")
    } else {
        entries_error(
            index,
            0,
            n,
            None,
            disk.logical.row_count,
            disk.logical.row_bytes,
            disk.logical.block_bytes,
            disk.overlay_bytes,
        )
    }
}

proof fn lemma_entries_error_step(
    index: Seq<u8>,
    k: int,
    n: int,
    previous: Option<u32>,
    row_count: u64,
    row_bytes: u32,
    block_bytes: u32,
    overlay_bytes: u64,
)
    requires
        0 <= k < n,
    ensures
        entries_error(index, k, n, previous, row_count, row_bytes, block_bytes, overlay_bytes) == ({
            let (row, off) = entry_at(index, k);
            if row >= row_count {
                Some("hot index contains logical row outside source")
            } else if previous matches Some(p) && p >= row {
                Some("hot index logical rows are not strictly sorted")
            } else if off + row_bytes > u64::MAX {
                Some("hot index row end overflow")
            } else if off + row_bytes > overlay_bytes {
                Some("hot index row exceeds overlay data region")
            } else if off % (block_bytes as u64) + row_bytes > block_bytes {
                Some("hot index row crosses overlay block boundary")
            } else {
                entries_error(index, k + 1, n, Some(row), row_count, row_bytes, block_bytes, overlay_bytes)
            }
        }),
{
}

/// Validate a serialized hot index of `hot_row_count` entries against its sidecar header: the
/// right length, in-range strictly ascending rows, and whole rows inside the overlay that never
/// cross a block boundary.
pub fn validate_index(index: &[u8], hot_row_count: usize, disk: &DiskHeader) -> (r: Result<(), PlePackIoError>)
    requires
        disk.logical.block_bytes > 0,
    ensures
        match index_error(index@, hot_row_count as int, *disk) {
            Some(msg) => r == Err::<(), PlePackIoError>(PlePackIoError::Format(msg)),
            None => r is Ok,
        },
{
    let expected = match hot_row_count.checked_mul(12) {
        Some(v) => v,
        None => {
            return Err(PlePackIoError::Format("hot index validation size overflow"));
        },
    };
    if index.len() != expected {
        return Err(PlePackIoError::Format("hot index length does not match row count"));
    }
    let row_count = disk.logical.row_count;
    let row_bytes = disk.logical.row_bytes as u64;
    let block_bytes = disk.logical.block_bytes as u64;
    let mut previous: Option<u32> = None;
    let mut k: usize = 0;
    while k < hot_row_count
        invariant
            k <= hot_row_count,
            index@.len() == hot_row_count * 12,
            expected == hot_row_count * 12,
            row_count == disk.logical.row_count,
            row_bytes == disk.logical.row_bytes,
            block_bytes == disk.logical.block_bytes,
            block_bytes > 0,
            k == 0 ==> previous is None,
            k > 0 ==> previous == Some(entry_at(index@, k - 1).0),
            index_error(index@, hot_row_count as int, *disk) == entries_error(
                index@,
                k as int,
                hot_row_count as int,
                previous,
                disk.logical.row_count,
                disk.logical.row_bytes,
                disk.logical.block_bytes,
                disk.overlay_bytes,
            ),
        decreases hot_row_count - k,
    {
        proof {
            lemma_entries_error_step(
                index@,
                k as int,
                hot_row_count as int,
                previous,
                disk.logical.row_count,
                disk.logical.row_bytes,
                disk.logical.block_bytes,
                disk.overlay_bytes,
            );
        }
        assert((k + 1) * 12 <= hot_row_count * 12) by (nonlinear_arith)
            requires
                k < hot_row_count,
        ;
        let start = k * 12;
        let entry = vstd::slice::slice_subrange(index, start, start + 12);
        let (row, off) = match decode_index_entry(entry) {
            Ok(e) => e,
            Err(e) => {
                return Err(e);
            },
        };
        proof {
            assert(entry@ =~= index@.subrange(k * 12, k * 12 + 12));
            assert(entry@.subrange(0, 4) =~= index@.subrange(k * 12, k * 12 + 4));
            assert(entry@.subrange(4, 12) =~= index@.subrange(k * 12 + 4, k * 12 + 12));
        }
        if row as u64 >= row_count {
            return Err(PlePackIoError::Format("hot index contains logical row outside source"));
        }
        match previous {
            Some(p) => {
                if p >= row {
                    return Err(PlePackIoError::Format("hot index logical rows are not strictly sorted"));
                }
            },
            None => {},
        }
        let row_end = match off.checked_add(row_bytes) {
            Some(v) => v,
            None => {
                return Err(PlePackIoError::Format("hot index row end overflow"));
            },
        };
        if row_end > disk.overlay_bytes {
            return Err(PlePackIoError::Format("hot index row exceeds overlay data region"));
        }
        let in_block = off % block_bytes;
        if in_block + row_bytes > block_bytes {
            return Err(PlePackIoError::Format("hot index row crosses overlay block boundary"));
        }
        previous = Some(row);
        k += 1;
    }
    Ok(())
}


/// Where the parts of an opened, verified sidecar lie in its bytes.
#[derive(Clone, Debug)]
pub struct SidecarLayout {
    /// Immutable exact provenance/geometry.
    pub header: PlePackHeader,
    /// Number of hot-index entries.
    pub hot_row_count: usize,
    /// Offset of the hot index.
    pub index_offset: usize,
    /// Offset of the overlay data region.
    pub data_offset: usize,
    /// Length of the overlay data region.
    pub overlay_bytes: u64,
}

/// Why a sidecar's bytes do not belong to a source with this digest and geometry, in the order
/// checked (after the header decodes to `disk`).
pub open spec fn sidecar_mismatch(
    bytes: Seq<u8>,
    disk: DiskHeader,
    source_digest: Seq<u8>,
    row_count: u64,
    row_bytes: u32,
) -> Option<PlePackIoError> {
    if disk.logical.source_digest@ != source_digest {
        Some(PlePackIoError::SourceDigestMismatch)
    } else if disk.logical.row_count != row_count {
        Some(PlePackIoError::Format("sidecar/source logical row counts differ"))
    } else if disk.logical.row_bytes != row_bytes {
        Some(PlePackIoError::Format("sidecar/source logical row widths differ"))
    } else if disk.data_offset + disk.overlay_bytes > u64::MAX {
        Some(PlePackIoError::Format("sidecar file length overflow"))
    } else if bytes.len() != disk.data_offset + disk.overlay_bytes {
        Some(PlePackIoError::Format("sidecar file length does not match header"))
    } else if disk.index_bytes > usize::MAX {
        Some(PlePackIoError::Format("index byte length does not fit usize"))
    } else if DISK_HEADER_BYTES + disk.index_bytes > usize::MAX {
        Some(PlePackIoError::Format("index end does not fit usize"))
    } else if DISK_HEADER_BYTES + disk.index_bytes > bytes.len() {
        Some(PlePackIoError::Format("hot index lies outside sidecar"))
    } else if sha256(bytes.subrange(DISK_HEADER_BYTES as int, DISK_HEADER_BYTES + disk.index_bytes))
        != disk.logical.index_digest@ {
        Some(PlePackIoError::IndexDigestMismatch)
    } else if disk.hot_row_count > usize::MAX {
        Some(PlePackIoError::Format("hot row count does not fit usize"))
    } else {
        match index_error(
            bytes.subrange(DISK_HEADER_BYTES as int, DISK_HEADER_BYTES + disk.index_bytes),
            disk.hot_row_count as int,
            disk,
        ) {
            Some(msg) => Some(PlePackIoError::Format(msg)),
            None => if disk.data_offset > usize::MAX {
                Some(PlePackIoError::Format("overlay data offset does not fit usize"))
            } else {
                None
            },
        }
    }
}

/// Whether two digests are equal.
fn same_digest(a: &[u8; 32], b: &[u8; 32]) -> (r: bool)
    ensures
        r == (a@ == b@),
{
    let mut i: usize = 0;
    while i < 32
        invariant
            i <= 32,
            a@.len() == 32,
            b@.len() == 32,
            forall|j: int| 0 <= j < i ==> a@[j] == b@[j],
        decreases 32 - i,
    {
        if a[i] != b[i] {
            return false;
        }
        i += 1;
    }
    assert(a@ =~= b@);
    true
}

/// Entries that pass the index checks from `k` on ascend strictly, after `previous`.
/// Entries that pass the checks name rows inside the source.
proof fn lemma_entries_in_source(
    index: Seq<u8>,
    k: int,
    n: int,
    previous: Option<u32>,
    row_count: u64,
    row_bytes: u32,
    block_bytes: u32,
    overlay_bytes: u64,
)
    requires
        0 <= k <= n,
        entries_error(index, k, n, previous, row_count, row_bytes, block_bytes, overlay_bytes) is None,
    ensures
        forall|a: int| k <= a < n ==> (#[trigger] entry_at(index, a)).0 < row_count,
    decreases n - k,
{
    if k < n {
        let row = entry_at(index, k).0;
        lemma_entries_in_source(index, k + 1, n, Some(row), row_count, row_bytes, block_bytes, overlay_bytes);
    }
}

proof fn lemma_entries_ascend(
    index: Seq<u8>,
    k: int,
    n: int,
    previous: Option<u32>,
    row_count: u64,
    row_bytes: u32,
    block_bytes: u32,
    overlay_bytes: u64,
)
    requires
        0 <= k <= n,
        entries_error(index, k, n, previous, row_count, row_bytes, block_bytes, overlay_bytes) is None,
    ensures
        forall|a: int, b: int| k <= a < b < n ==> (#[trigger] entry_at(index, a)).0 < (#[trigger] entry_at(index, b)).0,
        k < n && previous is Some ==> previous->0 < entry_at(index, k).0,
    decreases n - k,
{
    if k < n {
        lemma_entries_error_step(index, k, n, previous, row_count, row_bytes, block_bytes, overlay_bytes);
        let row = entry_at(index, k).0;
        lemma_entries_ascend(index, k + 1, n, Some(row), row_count, row_bytes, block_bytes, overlay_bytes);
        assert forall|a: int, b: int| k <= a < b < n implies (#[trigger] entry_at(index, a)).0 < (#[trigger] entry_at(index, b)).0 by {
            if a == k && b > k + 1 {
                assert(entry_at(index, k + 1).0 < entry_at(index, b).0);
            }
        }
    }
}

/// Open a sidecar from its bytes: decode and check the header, bind it to a source with this
/// digest and geometry, hash-verify the hot index and validate every entry.
pub fn open_sidecar(bytes: &[u8], source_digest: [u8; 32], row_count: u64, row_bytes: u32) -> (r: Result<
    SidecarLayout,
    PlePackIoError,
>)
    ensures
        match header_decode_error(bytes@) {
            Some(e) => r == Err::<SidecarLayout, PlePackIoError>(e),
            None => exists|disk: DiskHeader|
                #[trigger] header_fields_match(disk, bytes@) && match sidecar_mismatch(
                    bytes@,
                    disk,
                    source_digest@,
                    row_count,
                    row_bytes,
                ) {
                    Some(e) => r == Err::<SidecarLayout, PlePackIoError>(e),
                    None => r matches Ok(l) && l.header == disk.logical && l.hot_row_count == disk.hot_row_count
                        && l.index_offset == DISK_HEADER_BYTES && l.data_offset == disk.data_offset
                        && l.overlay_bytes == disk.overlay_bytes && index_fits(bytes@, l) && index_ascending(
                        bytes@,
                        l,
                    ),
                },
        },        r matches Ok(l) ==> {
            &&& l.header.source_digest@ == source_digest@
            &&& l.header.row_count == row_count
            &&& l.header.row_bytes == row_bytes
            &&& bytes@.len() == l.data_offset + l.overlay_bytes
            &&& l.index_offset == DISK_HEADER_BYTES
            &&& sha256(bytes@.subrange(DISK_HEADER_BYTES as int, DISK_HEADER_BYTES + l.hot_row_count * 12))
                == l.header.index_digest@
            &&& index_fits(bytes@, l)
            &&& index_ascending(bytes@, l)
            &&& forall|k: int| 0 <= k < l.hot_row_count ==> (#[trigger] layout_entry(bytes@, l, k)).0 < row_count
        },
{
    let disk = DiskHeader::decode(bytes)?;
    proof {
        assert(header_fields_match(disk, bytes@));
    }
    if !same_digest(&disk.logical.source_digest, &source_digest) {
        return Err(PlePackIoError::SourceDigestMismatch);
    }
    if disk.logical.row_count != row_count {
        return Err(PlePackIoError::Format("sidecar/source logical row counts differ"));
    }
    if disk.logical.row_bytes != row_bytes {
        return Err(PlePackIoError::Format("sidecar/source logical row widths differ"));
    }
    let expected_file_bytes = match disk.data_offset.checked_add(disk.overlay_bytes) {
        Some(v) => v,
        None => {
            return Err(PlePackIoError::Format("sidecar file length overflow"));
        },
    };
    if bytes.len() as u64 != expected_file_bytes {
        return Err(PlePackIoError::Format("sidecar file length does not match header"));
    }
    if disk.index_bytes > usize::MAX as u64 {
        return Err(PlePackIoError::Format("index byte length does not fit usize"));
    }
    let index_bytes = disk.index_bytes as usize;
    let index_end = match 128usize.checked_add(index_bytes) {
        Some(v) => v,
        None => {
            return Err(PlePackIoError::Format("index end does not fit usize"));
        },
    };
    if index_end > bytes.len() {
        return Err(PlePackIoError::Format("hot index lies outside sidecar"));
    }
    let index = vstd::slice::slice_subrange(bytes, 128, index_end);
    let actual = sha256_digest(index);
    if !same_digest(&actual, &disk.logical.index_digest) {
        return Err(PlePackIoError::IndexDigestMismatch);
    }
    if disk.hot_row_count > usize::MAX as u64 {
        return Err(PlePackIoError::Format("hot row count does not fit usize"));
    }
    let hot_row_count = disk.hot_row_count as usize;
    validate_index(index, hot_row_count, &disk)?;
    if disk.data_offset > usize::MAX as u64 {
        return Err(PlePackIoError::Format("overlay data offset does not fit usize"));
    }
    let layout = SidecarLayout {
        header: disk.logical,
        hot_row_count,
        index_offset: 128,
        data_offset: disk.data_offset as usize,
        overlay_bytes: disk.overlay_bytes,
    };
    proof {
        lemma_entries_ascend(
            index@,
            0,
            hot_row_count as int,
            None,
            disk.logical.row_count,
            disk.logical.row_bytes,
            disk.logical.block_bytes,
            disk.overlay_bytes,
        );
        lemma_entries_in_source(
            index@,
            0,
            hot_row_count as int,
            None,
            disk.logical.row_count,
            disk.logical.row_bytes,
            disk.logical.block_bytes,
            disk.overlay_bytes,
        );
        assert(index@.len() == hot_row_count * 12);
        assert(actual@ == disk.logical.index_digest@);
        assert forall|k: int| 0 <= k < hot_row_count implies #[trigger] layout_entry(bytes@, layout, k)
            == entry_at(index@, k) by {
            assert(bytes@.subrange(128 + k * 12, 128 + k * 12 + 4) =~= index@.subrange(k * 12, k * 12 + 4));
            assert(bytes@.subrange(128 + k * 12 + 4, 128 + k * 12 + 4 + 8) =~= index@.subrange(
                k * 12 + 4,
                k * 12 + 4 + 8,
            ));
        }
        assert forall|a: int, b: int| 0 <= a < b < layout.hot_row_count implies (#[trigger] layout_entry(
            bytes@,
            layout,
            a,
        )).0 < (#[trigger] layout_entry(bytes@, layout, b)).0 by {
            assert(layout_entry(bytes@, layout, a) == entry_at(index@, a));
            assert(layout_entry(bytes@, layout, b) == entry_at(index@, b));
        }
    }
    Ok(layout)
}

/// Hot-index entry `k` of an opened sidecar's bytes.
pub open spec fn layout_entry(bytes: Seq<u8>, l: SidecarLayout, k: int) -> (u32, u64) {
    (u32_at(bytes, l.index_offset + k * 12), u64_at(bytes, l.index_offset + k * 12 + 4))
}

/// The whole hot index lies inside the bytes.
pub open spec fn index_fits(bytes: Seq<u8>, l: SidecarLayout) -> bool {
    l.index_offset + l.hot_row_count * 12 <= bytes.len()
}

/// The hot index rows are strictly ascending.
pub open spec fn index_ascending(bytes: Seq<u8>, l: SidecarLayout) -> bool {
    forall|a: int, b: int|
        0 <= a < b < l.hot_row_count ==> (#[trigger] layout_entry(bytes, l, a)).0 < (#[trigger] layout_entry(
            bytes,
            l,
            b,
        )).0
}

/// The overlay offset the hot index records for `row`, if any.
pub open spec fn overlay_offset_for(bytes: Seq<u8>, l: SidecarLayout, row: u32) -> Option<u64> {
    if exists|k: int| 0 <= k < l.hot_row_count && (#[trigger] layout_entry(bytes, l, k)).0 == row {
        Some(layout_entry(bytes, l, choose|k: int| 0 <= k < l.hot_row_count && (#[trigger] layout_entry(bytes, l, k)).0 == row).1)
    } else {
        None
    }
}

/// Hot-index entry `ordinal` of an opened sidecar.
pub fn index_entry(bytes: &[u8], l: &SidecarLayout, ordinal: usize) -> (r: Result<(u32, u64), PlePackIoError>)
    ensures
        ordinal >= l.hot_row_count ==> r == Err::<(u32, u64), PlePackIoError>(
            PlePackIoError::Format("hot index ordinal out of range"),
        ),
        ordinal < l.hot_row_count && l.index_offset + ordinal * 12 > usize::MAX ==> r == Err::<(u32, u64), PlePackIoError>(
            PlePackIoError::Format("hot index entry offset overflow"),
        ),
        ordinal < l.hot_row_count && l.index_offset + ordinal * 12 <= usize::MAX && l.index_offset + ordinal * 12 + 12
            > usize::MAX ==> r == Err::<(u32, u64), PlePackIoError>(PlePackIoError::Format("hot index entry end overflow")),
        ordinal < l.hot_row_count && l.index_offset + ordinal * 12 + 12 <= usize::MAX && l.index_offset
            + ordinal * 12 + 12 > bytes@.len() ==> r == Err::<(u32, u64), PlePackIoError>(
            PlePackIoError::Format("hot index entry outside sidecar"),
        ),
        ordinal < l.hot_row_count && l.index_offset + ordinal * 12 + 12 <= bytes@.len() ==> r == Ok::<
            (u32, u64),
            PlePackIoError,
        >(layout_entry(bytes@, *l, ordinal as int)),
{
    let blen = bytes.len();
    if ordinal >= l.hot_row_count {
        return Err(PlePackIoError::Format("hot index ordinal out of range"));
    }
    let rel = match ordinal.checked_mul(12) {
        Some(v) => v,
        None => {
            return Err(PlePackIoError::Format("hot index entry offset overflow"));
        },
    };
    let start = match l.index_offset.checked_add(rel) {
        Some(v) => v,
        None => {
            return Err(PlePackIoError::Format("hot index entry offset overflow"));
        },
    };
    let end = match start.checked_add(12) {
        Some(v) => v,
        None => {
            return Err(PlePackIoError::Format("hot index entry end overflow"));
        },
    };
    if end > bytes.len() {
        return Err(PlePackIoError::Format("hot index entry outside sidecar"));
    }
    let entry = vstd::slice::slice_subrange(bytes, start, end);
    proof {
        assert(entry@.subrange(0, 4) =~= bytes@.subrange(start as int, start + 4));
        assert(entry@.subrange(4, 12) =~= bytes@.subrange(start + 4, start + 12));
    }
    decode_index_entry(entry)
}

/// Binary-search the hot index for `row`.
pub fn find_overlay_offset(bytes: &[u8], l: &SidecarLayout, row: u32) -> (r: Result<Option<u64>, PlePackIoError>)
    ensures
        index_fits(bytes@, *l) && index_ascending(bytes@, *l) ==> r == Ok::<Option<u64>, PlePackIoError>(
            overlay_offset_for(bytes@, *l, row),
        ),        index_fits(bytes@, *l) && index_ascending(bytes@, *l) ==> match r {
            Ok(Some(off)) => exists|k: int| 0 <= k < l.hot_row_count && #[trigger] layout_entry(bytes@, *l, k) == (row, off),
            Ok(None) => forall|k: int| 0 <= k < l.hot_row_count ==> (#[trigger] layout_entry(bytes@, *l, k)).0 != row,
            Err(_) => false,
        },
{
    let mut low: usize = 0;
    let mut high: usize = l.hot_row_count;
    while low < high
        invariant
            low <= high <= l.hot_row_count,
            index_fits(bytes@, *l) && index_ascending(bytes@, *l) ==> forall|k: int|
                0 <= k < l.hot_row_count && (#[trigger] layout_entry(bytes@, *l, k)).0 == row ==> low <= k < high,
        decreases high - low,
    {
        let middle = low + (high - low) / 2;
        proof {
            if index_fits(bytes@, *l) {
                assert(l.index_offset + middle * 12 + 12 <= bytes@.len()) by (nonlinear_arith)
                    requires
                        l.index_offset + l.hot_row_count * 12 <= bytes@.len(),
                        middle < l.hot_row_count,
                ;
            }
        }
        let (found, offset) = index_entry(bytes, l, middle)?;
        if found < row {
            proof {
                if index_fits(bytes@, *l) && index_ascending(bytes@, *l) {
                    assert forall|k: int| 0 <= k < l.hot_row_count && (#[trigger] layout_entry(bytes@, *l, k)).0 == row implies middle + 1 <= k < high by {
                        if k <= middle {
                            if k < middle {
                                assert(layout_entry(bytes@, *l, k).0 < layout_entry(bytes@, *l, middle as int).0);
                            }
                        }
                    }
                }
            }
            low = middle + 1;
        } else if found > row {
            proof {
                if index_fits(bytes@, *l) && index_ascending(bytes@, *l) {
                    assert forall|k: int| 0 <= k < l.hot_row_count && (#[trigger] layout_entry(bytes@, *l, k)).0 == row implies low <= k < middle by {
                        if k >= middle {
                            if k > middle {
                                assert(layout_entry(bytes@, *l, middle as int).0 < layout_entry(bytes@, *l, k).0);
                            }
                        }
                    }
                }
            }
            high = middle;
        } else {
            proof {
                if index_fits(bytes@, *l) && index_ascending(bytes@, *l) {
                    assert(layout_entry(bytes@, *l, middle as int).0 == row);
                    let k = choose|k: int| 0 <= k < l.hot_row_count && (#[trigger] layout_entry(bytes@, *l, k)).0 == row;
                    if k < middle {
                        assert(layout_entry(bytes@, *l, k).0 < layout_entry(bytes@, *l, middle as int).0);
                    }
                    if k > middle {
                        assert(layout_entry(bytes@, *l, middle as int).0 < layout_entry(bytes@, *l, k).0);
                    }
                }
            }
            return Ok(Some(offset));
        }
    }
    Ok(None)
}

/// Byte range `[start, end)` of the overlay row stored at `overlay_offset`, or the failing
/// check; messages name the verification pass when `verifying`.
pub open spec fn overlay_range(l: SidecarLayout, bytes_len: int, overlay_offset: u64, verifying: bool) -> Result<(int, int), &'static str> {
    let rb = l.header.row_bytes;
    if overlay_offset + rb > u64::MAX {
        Err(if verifying { "overlay verification row end overflow" } else { "overlay row end overflow" })
    } else if overlay_offset + rb > l.overlay_bytes {
        Err(if verifying { "overlay verification row exceeds data region" } else { "overlay row exceeds verified data region" })
    } else if l.data_offset + overlay_offset > u64::MAX {
        Err(if verifying { "overlay verification absolute offset overflow" } else { "overlay absolute row offset overflow" })
    } else if l.data_offset + overlay_offset > usize::MAX {
        Err(if verifying { "overlay verification offset does not fit usize" } else { "overlay row offset does not fit usize" })
    } else if l.data_offset + overlay_offset + rb > usize::MAX {
        Err(if verifying { "overlay verification slice end overflow" } else { "overlay row slice end overflow" })
    } else if l.data_offset + overlay_offset + rb > bytes_len {
        Err(if verifying { "overlay verification row lies outside sidecar" } else { "overlay row lies outside sidecar" })
    } else {
        Ok((l.data_offset + overlay_offset, l.data_offset + overlay_offset + rb))
    }
}

/// Byte range of the overlay row stored at `overlay_offset`.
pub fn overlay_row_range(l: &SidecarLayout, bytes_len: usize, overlay_offset: u64, verifying: bool) -> (r: Result<
    (usize, usize),
    PlePackIoError,
>)
    ensures
        match overlay_range(*l, bytes_len as int, overlay_offset, verifying) {
            Ok((a, b)) => r == Ok::<(usize, usize), PlePackIoError>((a as usize, b as usize)),
            Err(msg) => r == Err::<(usize, usize), PlePackIoError>(PlePackIoError::Format(msg)),
        },
{
    let rb = l.header.row_bytes as u64;
    let relative_end = match overlay_offset.checked_add(rb) {
        Some(v) => v,
        None => {
            return Err(PlePackIoError::Format(if verifying { "overlay verification row end overflow" } else { "overlay row end overflow" }));
        },
    };
    if relative_end > l.overlay_bytes {
        return Err(PlePackIoError::Format(if verifying { "overlay verification row exceeds data region" } else { "overlay row exceeds verified data region" }));
    }
    let absolute = match (l.data_offset as u64).checked_add(overlay_offset) {
        Some(v) => v,
        None => {
            return Err(PlePackIoError::Format(if verifying { "overlay verification absolute offset overflow" } else { "overlay absolute row offset overflow" }));
        },
    };
    if absolute > usize::MAX as u64 {
        return Err(PlePackIoError::Format(if verifying { "overlay verification offset does not fit usize" } else { "overlay row offset does not fit usize" }));
    }
    let start = absolute as usize;
    let end = match start.checked_add(l.header.row_bytes as usize) {
        Some(v) => v,
        None => {
            return Err(PlePackIoError::Format(if verifying { "overlay verification slice end overflow" } else { "overlay row slice end overflow" }));
        },
    };
    if end > bytes_len {
        return Err(PlePackIoError::Format(if verifying { "overlay verification row lies outside sidecar" } else { "overlay row lies outside sidecar" }));
    }
    Ok((start, end))
}

/// Where `read_exact_row` takes `row` from: `Some(range)` of the overlay copy in the sidecar,
/// `None` to read it from the exact source; or the failing check.
pub fn plan_row_read(bytes: &[u8], l: &SidecarLayout, row: u32, dst_len: usize) -> (r: Result<
    Option<(usize, usize)>,
    PlePackIoError,
>)
    ensures
        row >= l.header.row_count ==> r == Err::<Option<(usize, usize)>, PlePackIoError>(
            PlePackIoError::Layout(PlePackError::LogicalRowOutOfRange { row, row_count: l.header.row_count }),
        ),
        row < l.header.row_count && dst_len != l.header.row_bytes ==> r == Err::<Option<(usize, usize)>, PlePackIoError>(
            PlePackIoError::RowBufferWidth { expected: l.header.row_bytes as usize, actual: dst_len },
        ),
        r matches Ok(Some((a, b))) ==> a <= b <= bytes@.len() && b - a == dst_len,
        r is Ok ==> row < l.header.row_count && dst_len == l.header.row_bytes,
        index_fits(bytes@, *l) && index_ascending(bytes@, *l) ==> match r {
            Ok(Some((a, b))) => exists|k: int|
                0 <= k < l.hot_row_count && (#[trigger] layout_entry(bytes@, *l, k)).0 == row && a == l.data_offset
                    + layout_entry(bytes@, *l, k).1,
            Ok(None) => forall|k: int| 0 <= k < l.hot_row_count ==> (#[trigger] layout_entry(bytes@, *l, k)).0 != row,
            Err(_) => true,
        },
        row < l.header.row_count && dst_len == l.header.row_bytes && index_fits(bytes@, *l) && index_ascending(bytes@, *l) ==> match overlay_offset_for(bytes@, *l, row) {
            None => r == Ok::<Option<(usize, usize)>, PlePackIoError>(None),
            Some(off) => match overlay_range(*l, bytes@.len() as int, off, false) {
                Ok((a, b)) => r == Ok::<Option<(usize, usize)>, PlePackIoError>(Some((a as usize, b as usize))),
                Err(msg) => r == Err::<Option<(usize, usize)>, PlePackIoError>(PlePackIoError::Format(msg)),
            },
        },
{
    if row as u64 >= l.header.row_count {
        return Err(PlePackIoError::Layout(PlePackError::LogicalRowOutOfRange { row, row_count: l.header.row_count }));
    }
    let expected = l.header.row_bytes as usize;
    if dst_len != expected {
        return Err(PlePackIoError::RowBufferWidth { expected, actual: dst_len });
    }
    match find_overlay_offset(bytes, l, row)? {
        Some(off) => {
            let range = overlay_row_range(l, bytes.len(), off, false)?;
            Ok(Some(range))
        },
        None => Ok(None),
    }
}

/// Verify the overlay copy of hot row `logical_row`, stored at `overlay_offset`, against the
/// exact source row `expected`, byte for byte.
#[verifier::loop_isolation(false)]
pub fn verify_overlay_row(
    bytes: &[u8],
    l: &SidecarLayout,
    logical_row: u32,
    overlay_offset: u64,
    expected: &[u8],
) -> (r: Result<(), PlePackIoError>)
    ensures
        match overlay_range(*l, bytes@.len() as int, overlay_offset, true) {
            Err(msg) => r == Err::<(), PlePackIoError>(PlePackIoError::Format(msg)),
            Ok((a, b)) => if bytes@.subrange(a, b) == expected@ {
                r is Ok
            } else {
                r == Err::<(), PlePackIoError>(PlePackIoError::OverlayDataMismatch { logical_row })
            },
        },
{
    let (start, end) = overlay_row_range(l, bytes.len(), overlay_offset, true)?;
    let actual = vstd::slice::slice_subrange(bytes, start, end);
    if actual.len() != expected.len() {
        return Err(PlePackIoError::OverlayDataMismatch { logical_row });
    }
    let mut i: usize = 0;
    while i < actual.len()
        invariant
            i <= actual@.len(),
            actual@.len() == expected@.len(),
            actual@ == bytes@.subrange(start as int, end as int),
            forall|j: int| 0 <= j < i ==> actual@[j] == expected@[j],
        decreases actual@.len() - i,
    {
        if actual[i] != expected[i] {
            assert(actual@[i as int] != expected@[i as int]);
            return Err(PlePackIoError::OverlayDataMismatch { logical_row });
        }
        i += 1;
    }
    assert(actual@ =~= expected@);
    Ok(())
}


/// What `index_entry` returns for ordinal `k`: the entry, or the message of its failure.
pub open spec fn entry_outcome(bytes: Seq<u8>, l: SidecarLayout, k: int) -> Result<(u32, u64), &'static str> {
    if k >= l.hot_row_count {
        Err("hot index ordinal out of range")
    } else if l.index_offset + k * 12 > usize::MAX {
        Err("hot index entry offset overflow")
    } else if l.index_offset + k * 12 + 12 > usize::MAX {
        Err("hot index entry end overflow")
    } else if l.index_offset + k * 12 + 12 > bytes.len() {
        Err("hot index entry outside sidecar")
    } else {
        Ok(layout_entry(bytes, l, k))
    }
}

/// Hot row `k` of an opened sidecar has a complete index entry whose overlay copy lies in the
/// verified data region.
pub open spec fn hot_row_in_place(bytes: Seq<u8>, l: SidecarLayout, k: int) -> bool {
    &&& l.index_offset + k * 12 + 12 <= bytes.len()
    &&& overlay_range(l, bytes.len() as int, layout_entry(bytes, l, k).1, true) is Ok
}

/// The overlay copy of hot row `k` of an opened sidecar.
pub open spec fn hot_row_copy(bytes: Seq<u8>, l: SidecarLayout, k: int) -> Seq<u8> {
    let (a, b) = overlay_range(l, bytes.len() as int, layout_entry(bytes, l, k).1, true)->Ok_0;
    bytes.subrange(a, b)
}

/// Verify every stored hot row of an opened sidecar byte for byte against `source`, in index
/// order, before any read is served: the number of rows checked, with the rows the source
/// handed back (ghost), ordinal by ordinal.
///
/// Each row is read from `source` into a buffer of the sidecar's row width and compared with
/// `verify_overlay_row`; the first failure (of the index, the source or the comparison) is
/// returned. The trait states nothing of what `source` hands back, so on success the contract
/// says that each overlay copy equals what the source handed back for it, and before the first
/// source read it says exactly what is returned.
pub fn verify_hot_overlay<S: crate::writer::ExactPleRowSource>(
    bytes: &[u8],
    l: &SidecarLayout,
    source: &S,
) -> (r: Result<(u64, Ghost<Seq<Seq<u8>>>), PlePackIoError>)
    ensures
        l.hot_row_count == 0 ==> (r matches Ok((n, _)) && n == 0),
        l.hot_row_count > 0 ==> match entry_outcome(bytes@, *l, 0) {
            Err(m) => (r matches Err(e) && e == PlePackIoError::Format(m)),
            Ok(_) => true,
        },
        r matches Ok((n, rows)) ==> {
            &&& n == l.hot_row_count
            &&& rows@.len() == n
            &&& forall|k: int| 0 <= k < l.hot_row_count ==> #[trigger] hot_row_in_place(bytes@, *l, k)
            &&& forall|k: int| 0 <= k < l.hot_row_count ==> #[trigger] hot_row_copy(bytes@, *l, k) == rows@[k]
        },
{
    let width = l.header.row_bytes as usize;
    let mut expected: Vec<u8> = Vec::new();
    let mut z: usize = 0;
    while z < width
        invariant
            z <= width,
        decreases width - z,
    {
        expected.push(0u8);
        z += 1;
    }
    let ghost mut rows: Seq<Seq<u8>> = Seq::empty();
    let mut k: usize = 0;
    while k < l.hot_row_count
        invariant
            k <= l.hot_row_count,
            rows.len() == k,
            k > 0 ==> entry_outcome(bytes@, *l, 0) is Ok,
            forall|j: int| 0 <= j < k ==> #[trigger] hot_row_in_place(bytes@, *l, j),
            forall|j: int| 0 <= j < k ==> #[trigger] hot_row_copy(bytes@, *l, j) == rows[j],
        decreases l.hot_row_count - k,
    {
        let (row, offset) = match index_entry(bytes, l, k) {
            Ok(e) => e,
            Err(e) => {
                return Err(e);
            },
        };
        if let Err(e) = source.read_exact_row(row, expected.as_mut_slice()) {
            return Err(e);
        }
        if let Err(e) = verify_overlay_row(bytes, l, row, offset, expected.as_slice()) {
            return Err(e);
        }
        proof {
            rows = rows.push(expected@);
        }
        assert(hot_row_in_place(bytes@, *l, k as int));
        assert(hot_row_copy(bytes@, *l, k as int) == rows[k as int]);
        k += 1;
    }
    Ok((k as u64, Ghost(rows)))
}

/// Open the sidecar `bytes` against `source` and verify every hot row byte for byte against it
/// before any read is served, as opening a reader does: the layout, with the rows the source
/// handed back for the hot rows (ghost).
///
/// The source's digest, row count and row width go to `open_sidecar` as the source reports
/// them; a header that does not decode is refused whatever the source holds.
pub fn open_verified_sidecar<S: crate::writer::ExactPleRowSource>(bytes: &[u8], source: &S) -> (r: Result<
    (SidecarLayout, Ghost<Seq<Seq<u8>>>),
    PlePackIoError,
>)
    ensures
        header_decode_error(bytes@) matches Some(e) ==> (r matches Err(x) && x == e),
        r matches Ok((l, rows)) ==> {
            &&& header_decode_error(bytes@) is None
            &&& index_fits(bytes@, l)
            &&& index_ascending(bytes@, l)
            &&& rows@.len() == l.hot_row_count
            &&& forall|k: int| 0 <= k < l.hot_row_count ==> #[trigger] hot_row_in_place(bytes@, l, k)
            &&& forall|k: int| 0 <= k < l.hot_row_count ==> #[trigger] hot_row_copy(bytes@, l, k) == rows@[k]
        },
{
    let digest = source.source_digest();
    let row_count = source.row_count();
    let row_bytes = source.row_bytes();
    let l = match open_sidecar(bytes, digest, row_count, row_bytes) {
        Ok(l) => l,
        Err(e) => {
            return Err(e);
        },
    };
    match verify_hot_overlay(bytes, &l, source) {
        Ok((_, rows)) => Ok((l, rows)),
        Err(e) => Err(e),
    }
}

/// Read logical row `row` of an opened sidecar into `dst`: the overlay copy when the hot index
/// holds the row, else whatever `source` reads for it.
pub fn read_sidecar_row<S: crate::writer::ExactPleRowSource>(
    bytes: &[u8],
    l: &SidecarLayout,
    source: &S,
    row: u32,
    dst: &mut [u8],
) -> (r: Result<(), PlePackIoError>)
    ensures
        row >= l.header.row_count ==> r == Err::<(), PlePackIoError>(
            PlePackIoError::Layout(PlePackError::LogicalRowOutOfRange { row, row_count: l.header.row_count }),
        ),
        row < l.header.row_count && old(dst)@.len() != l.header.row_bytes ==> r == Err::<(), PlePackIoError>(
            PlePackIoError::RowBufferWidth { expected: l.header.row_bytes as usize, actual: old(dst)@.len() as usize },
        ),
        row < l.header.row_count && old(dst)@.len() == l.header.row_bytes && index_fits(bytes@, *l)
            && index_ascending(bytes@, *l) ==> match overlay_offset_for(bytes@, *l, row) {
            None => true,
            Some(off) => match overlay_range(*l, bytes@.len() as int, off, false) {
                Ok((a, b)) => r is Ok && final(dst)@ == bytes@.subrange(a, b),
                Err(msg) => r == Err::<(), PlePackIoError>(PlePackIoError::Format(msg)),
            },
        },
{
    let n = dst.len();
    match plan_row_read(bytes, l, row, n) {
        Err(e) => Err(e),
        Ok(None) => source.read_exact_row(row, dst),
        Ok(Some((a, b))) => {
            let mut i: usize = 0;
            while i < n
                invariant
                    n == b - a,
                    a <= b <= bytes@.len(),
                    dst@.len() == n,
                    i <= n,
                    forall|j: int| 0 <= j < i ==> dst@[j] == bytes@[a + j],
                decreases n - i,
            {
                dst[i] = bytes[a + i];
                i += 1;
            }
            assert(dst@ =~= bytes@.subrange(a as int, b as int));
            Ok(())
        },
    }
}
} // verus!
