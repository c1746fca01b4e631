//! Exact hot-overlay PLEPack sidecar image: everything the writer puts in the file.
use crate::digest::{sha256, sha256_digest};
use crate::disk::{
    disk_geometry_error, encode_index_entry, encoded_header, encoded_index_entry, DiskHeader,
    DISK_HEADER_BYTES, INDEX_ENTRY_BYTES,
};
use crate::format::{header_geometry_error, PlePackError, PlePackHeader, PlePackIoError};
use crate::layout::{HotOverlayPlacement, LayoutPlan, LayoutView};
use std::collections::BTreeMap;
use vstd::std_specs::iter::IteratorSpec;
use vstd::prelude::*;

verus! {

broadcast use {vstd::std_specs::btree::group_btree_axioms, vstd::laws_cmp::group_laws_cmp};

/// Exact logical-row provider for the original PLE tensors. An overlay miss delegates to it
/// byte-for-byte; PLEPack never changes a cold row.
pub trait ExactPleRowSource {
    /// Number of logical PLE rows exposed by the source.
    fn row_count(&self) -> u64;

    /// Exact byte width of one logical row.
    fn row_bytes(&self) -> u32;

    /// SHA-256 digest identifying the immutable logical source row stream.
    fn source_digest(&self) -> [u8; 32];

    /// Read one logical row byte-for-byte into `dst`.
    fn read_exact_row(&self, logical_row: u32, dst: &mut [u8]) -> Result<(), PlePackIoError>;
}

/// Measured byte geometry of one published hot-overlay sidecar.
#[derive(Clone, Copy, Debug, PartialEq, Eq)]
pub struct PlePackWriteReport {
    /// Number of unique exact logical rows duplicated into the hot overlay.
    pub hot_rows: u64,
    /// Byte offset of the sorted hot index in the sidecar.
    pub index_offset: u64,
    /// Serialized hot-index byte count.
    pub index_bytes: u64,
    /// Block-padded hot-overlay data byte count.
    pub overlay_bytes: u64,
    /// Final complete sidecar file size.
    pub file_bytes: u64,
}

/// Stateless exact PLEPack hot-overlay builder.
pub struct PlePackWriter;

/// What the source/plan pairing check rejects, in order.
pub open spec fn source_plan_error(row_count: u64, row_bytes: u32, plan: LayoutView) -> Option<&'static str> {
    if row_count != plan.row_count {
        Some("source and layout row counts differ")
    } else if row_bytes != plan.row_bytes {
        Some("source and layout row widths differ")
    } else if row_count == 0 || row_bytes == 0 {
        Some("source geometry is empty")
    } else {
        None
    }
}

/// The source must expose exactly the plan's rows, of the plan's width.
pub fn validate_source_plan(row_count: u64, row_bytes: u32, plan: &LayoutPlan) -> (r: Result<(), PlePackIoError>)
    ensures
        match source_plan_error(row_count, row_bytes, plan@) {
            Some(msg) => r == Err::<(), PlePackIoError>(PlePackIoError::Format(msg)),
            None => r is Ok,
        },        r is Ok <==> (row_count == plan@.row_count && row_bytes == plan@.row_bytes && row_count != 0
            && row_bytes != 0),
{
    if row_count != plan.base_row_count() {
        return Err(PlePackIoError::Format("source and layout row counts differ"));
    }
    if row_bytes != plan.row_bytes() {
        return Err(PlePackIoError::Format("source and layout row widths differ"));
    }
    if row_count == 0 || row_bytes == 0 {
        return Err(PlePackIoError::Format("source geometry is empty"));
    }
    Ok(())
}

/// Byte offset of a placement inside the overlay region, when it fits `u64`.
pub open spec fn overlay_offset_of(p: HotOverlayPlacement, block_bytes: u32) -> Option<u64> {
    if p.block_id * block_bytes + p.offset_in_block > u64::MAX {
        None
    } else {
        Some((p.block_id * block_bytes + p.offset_in_block) as u64)
    }
}

/// Some placement's overlay offset does not fit `u64`.
pub open spec fn some_offset_overflows(ps: Seq<HotOverlayPlacement>, block_bytes: u32) -> bool {
    exists|i: int| 0 <= i < ps.len() && overlay_offset_of(#[trigger] ps[i], block_bytes) is None
}

/// The hot-index entry of each placement, in placement order.
pub open spec fn index_entries(ps: Seq<HotOverlayPlacement>, block_bytes: u32) -> Seq<(u32, u64)> {
    ps.map_values(|p: HotOverlayPlacement| (p.logical_row, overlay_offset_of(p, block_bytes)->0))
}

/// Two placements duplicate the same logical row.
pub open spec fn rows_repeat(ps: Seq<HotOverlayPlacement>) -> bool {
    exists|i: int, j: int|
        0 <= i < ps.len() && 0 <= j < ps.len() && i != j && (#[trigger] ps[i]).logical_row == (
        #[trigger] ps[j]).logical_row
}

/// Rows strictly ascending.
pub open spec fn ascending_rows(idx: Seq<(u32, u64)>) -> bool {
    forall|i: int, j: int| 0 <= i < j < idx.len() ==> (#[trigger] idx[i]).0 < (#[trigger] idx[j]).0
}

/// `idx` lists exactly the entries of `entries`, in ascending row order.
pub open spec fn is_sorted_index(idx: Seq<(u32, u64)>, entries: Seq<(u32, u64)>) -> bool {
    &&& ascending_rows(idx)
    &&& idx.len() == entries.len()
    &&& forall|e: (u32, u64)| idx.contains(e) <==> entries.contains(e)
}

/// The serialized hot index: each entry's 12-byte image, in order.
pub open spec fn encoded_index(idx: Seq<(u32, u64)>) -> Seq<u8>
    decreases idx.len(),
{
    if idx.len() == 0 {
        Seq::empty()
    } else {
        encoded_index(idx.drop_last()) + encoded_index_entry(idx.last().0, idx.last().1)
    }
}

/// The hot-index entries of `ps`, failing on an overlay offset that does not fit `u64`.
fn collect_entries(ps: &[HotOverlayPlacement], block_bytes: u32) -> (r: Result<Vec<(u32, u64)>, PlePackIoError>)
    ensures
        some_offset_overflows(ps@, block_bytes) ==> r == Err::<Vec<(u32, u64)>, PlePackIoError>(
            PlePackIoError::Format("hot overlay offset overflow"),
        ),
        !some_offset_overflows(ps@, block_bytes) ==> (r matches Ok(v) && v@ == index_entries(ps@, block_bytes)),
{
    let mut out: Vec<(u32, u64)> = Vec::new();
    let mut i: usize = 0;
    while i < ps.len()
        invariant
            i <= ps@.len(),
            out@ == index_entries(ps@.take(i as int), block_bytes),
            forall|k: int| 0 <= k < i ==> overlay_offset_of(#[trigger] ps@[k], block_bytes) is Some,
        decreases ps@.len() - i,
    {
        let p = ps[i];
        let off = match p.block_id.checked_mul(block_bytes as u64) {
            Some(base) => base.checked_add(p.offset_in_block as u64),
            None => None,
        };
        match off {
            Some(o) => {
                out.push((p.logical_row, o));
                assert(out@ =~= index_entries(ps@.take(i + 1), block_bytes));
            },
            None => {
                assert(overlay_offset_of(ps@[i as int], block_bytes) is None) by (nonlinear_arith)
                    requires
                        p == ps@[i as int],
                        p.block_id * block_bytes > u64::MAX || p.block_id * block_bytes + p.offset_in_block
                            > u64::MAX,
                        block_bytes >= 0,
                        p.offset_in_block >= 0,
                ;
                return Err(PlePackIoError::Format("hot overlay offset overflow"));
            },
        }
        i += 1;
    }
    assert(ps@.take(i as int) =~= ps@);
    Ok(out)
}

/// The entries sorted by row; `None` when a row repeats.
fn sort_index(entries: &Vec<(u32, u64)>) -> (r: Option<Vec<(u32, u64)>>)
    ensures
        match r {
            Some(idx) => is_sorted_index(idx@, entries@) && forall|i: int, j: int|
                0 <= i < entries@.len() && 0 <= j < entries@.len() && i != j ==> (#[trigger] entries@[i]).0
                    != (#[trigger] entries@[j]).0,
            None => exists|i: int, j: int|
                0 <= i < entries@.len() && 0 <= j < entries@.len() && i != j && (#[trigger] entries@[i]).0
                    == (#[trigger] entries@[j]).0,
        },
{
    let mut map: BTreeMap<u32, u64> = BTreeMap::new();
    let mut i: usize = 0;
    while i < entries.len()
        invariant
            i <= entries@.len(),
            forall|k: u32| #[trigger] map@.contains_key(k) <==> exists|j: int| 0 <= j < i && entries@[j].0 == k,
            forall|j: int| 0 <= j < i ==> #[trigger] map@[entries@[j].0] == entries@[j].1,
            forall|a: int, b: int| 0 <= a < i && 0 <= b < i && a != b ==> (#[trigger] entries@[a]).0 != (
                #[trigger] entries@[b]).0,
            map@.dom().len() == i,
            map@.dom().finite(),
        decreases entries@.len() - i,
    {
        let (row, off) = entries[i];
        if map.contains_key(&row) {
            proof {
                let j = choose|j: int| 0 <= j < i && entries@[j].0 == row;
                assert(entries@[j].0 == entries@[i as int].0);
            }
            return None;
        }
        let ghost before = map@;
        map.insert(row, off);
        proof {
            assert(!before.dom().contains(row));
            assert(map@.dom() == before.dom().insert(row));
            assert forall|k: u32| #[trigger] map@.contains_key(k) <==> exists|j: int| 0 <= j < i + 1 && entries@[j].0 == k by {
                if k == row {
                    assert(entries@[i as int].0 == k);
                } else if map@.contains_key(k) {
                    assert(before.contains_key(k));
                }
            }
        }
        i += 1;
    }
    let mut idx: Vec<(u32, u64)> = Vec::new();
    let ghost pairs = vstd::std_specs::btree::spec_btree_map_iter(&map).remaining();
    let entries_iter = map.iter();
    proof {
        let keys = entries_iter.remaining().map_values(|kv: (&u32, &u64)| *kv.0);
        assert(vstd::std_specs::btree::increasing_seq(keys));
        lemma_increasing_keys(keys);
    }
    for kv in it: entries_iter
        invariant
            it.seq() == pairs,
            idx@.len() == it.index(),
            forall|k: int| 0 <= k < idx@.len() ==> #[trigger] idx@[k] == (*pairs[k].0, *pairs[k].1),
    {
        let (k, v) = kv;
        idx.push((*k, *v));
    }
    proof {
        let keys = pairs.map_values(|kv: (&u32, &u64)| *kv.0);
        assert(idx@.len() == pairs.len());
        assert(pairs.len() == map@.dom().len());
        assert forall|a: int, b: int| 0 <= a < b < idx@.len() implies (#[trigger] idx@[a]).0 < (
            #[trigger] idx@[b]).0 by {
            assert(keys[a] == idx@[a].0);
            assert(keys[b] == idx@[b].0);
            assert(keys[a] < keys[b]);
        }
        assert forall|e: (u32, u64)| idx@.contains(e) <==> entries@.contains(e) by {
            if idx@.contains(e) {
                let a = choose|a: int| 0 <= a < idx@.len() && idx@[a] == e;
                assert(map@.contains_key(*pairs[a].0) && map@[*pairs[a].0] == *pairs[a].1);
                let j = choose|j: int| 0 <= j < i && entries@[j].0 == e.0;
                assert(map@[entries@[j].0] == entries@[j].1);
                assert(entries@[j] == e);
            }
            if entries@.contains(e) {
                let j = choose|j: int| 0 <= j < entries@.len() && entries@[j] == e;
                assert(map@.contains_key(e.0));
                assert(map@[entries@[j].0] == entries@[j].1);
                assert(pairs.contains((&e.0, &map@[e.0])));
                let a = choose|a: int| 0 <= a < pairs.len() && pairs[a] == (&e.0, &map@[e.0]);
                assert(idx@[a] == e);
            }
        }
    }
    Some(idx)
}


/// Keys that a `BTreeMap` yields in increasing order are strictly ascending integers.
proof fn lemma_increasing_keys(keys: Seq<u32>)
    requires
        vstd::std_specs::btree::increasing_seq(keys),
    ensures
        forall|a: int, b: int| 0 <= a < b < keys.len() ==> keys[a] < keys[b],
{
    assert forall|a: int, b: int| 0 <= a < b < keys.len() implies keys[a] < keys[b] by {
        assert(vstd::std_specs::cmp::OrdSpec::cmp_spec(&keys[a], &keys[b]) is Less);
    }
}


/// The serialized hot index of `idx`.
fn encode_index(idx: &Vec<(u32, u64)>) -> (r: Vec<u8>)
    ensures
        r@ == encoded_index(idx@),
        r@.len() == idx@.len() * INDEX_ENTRY_BYTES,
{
    let mut out: Vec<u8> = Vec::new();
    let mut i: usize = 0;
    while i < idx.len()
        invariant
            i <= idx@.len(),
            out@ == encoded_index(idx@.take(i as int)),
            out@.len() == i * INDEX_ENTRY_BYTES,
        decreases idx@.len() - i,
    {
        let (row, off) = idx[i];
        let entry = encode_index_entry(row, off);
        let mut k: usize = 0;
        let ghost before = out@;
        while k < entry.len()
            invariant
                k <= entry@.len(),
                out@ == before + entry@.take(k as int),
            decreases entry@.len() - k,
        {
            out.push(entry[k]);
            assert(entry@.take(k + 1) =~= entry@.take(k as int).push(entry@[k as int]));
            k += 1;
        }
        assert(entry@.take(k as int) =~= entry@);
        assert(idx@.take(i + 1).drop_last() =~= idx@.take(i as int));
        assert(out@.len() == (i + 1) * INDEX_ENTRY_BYTES) by (nonlinear_arith)
            requires
                out@.len() == i * INDEX_ENTRY_BYTES + 12,
                INDEX_ENTRY_BYTES == 12,
        ;
        i += 1;
    }
    assert(idx@.take(i as int) =~= idx@);
    out
}

/// `value` rounded up to a multiple of `alignment`, or the failing check.
pub open spec fn aligned_up(value: u64, alignment: u64) -> Result<u64, &'static str> {
    if alignment == 0 {
        Err("zero sidecar alignment")
    } else if value % alignment == 0 {
        Ok(value)
    } else if value + (alignment - value % alignment) > u64::MAX {
        Err("sidecar alignment overflow")
    } else {
        Ok((value + (alignment - value % alignment)) as u64)
    }
}

/// Round `value` up to a multiple of `alignment`.
pub fn align_up(value: u64, alignment: u64) -> (r: Result<u64, PlePackIoError>)
    ensures
        match aligned_up(value, alignment) {
            Ok(v) => r == Ok::<u64, PlePackIoError>(v),
            Err(msg) => r == Err::<u64, PlePackIoError>(PlePackIoError::Format(msg)),
        },        r matches Ok(v) ==> alignment > 0 && v % alignment == 0 && value <= v < value + alignment,
        alignment == 0 ==> r is Err,
{
    proof {
        if aligned_up(value, alignment) is Ok {
            crate::sidecar_roundtrip::lemma_aligned_up(value, alignment);
        }
    }
    if alignment == 0 {
        return Err(PlePackIoError::Format("zero sidecar alignment"));
    }
    let remainder = value % alignment;
    if remainder == 0 {
        return Ok(value);
    }
    match value.checked_add(alignment - remainder) {
        Some(v) => Ok(v),
        None => Err(PlePackIoError::Format("sidecar alignment overflow")),
    }
}

/// Block-padded overlay bytes: through the last placement's block, or the failing check.
pub open spec fn overlay_storage(ps: Seq<HotOverlayPlacement>, block_bytes: u32) -> Result<u64, &'static str> {
    if ps.len() == 0 {
        Ok(0)
    } else if ps.last().block_id + 1 > u64::MAX || (ps.last().block_id + 1) * block_bytes > u64::MAX {
        Err("hot overlay storage size overflow")
    } else {
        Ok(((ps.last().block_id + 1) * block_bytes) as u64)
    }
}

/// Block-padded overlay bytes of a plan.
pub fn overlay_storage_bytes(plan: &LayoutPlan) -> (r: Result<u64, PlePackIoError>)
    ensures
        match overlay_storage(plan@.placements, plan@.block_bytes) {
            Ok(v) => r == Ok::<u64, PlePackIoError>(v),
            Err(msg) => r == Err::<u64, PlePackIoError>(PlePackIoError::Format(msg)),
        },
{
    let ps = plan.hot_overlay_placements();
    if ps.len() == 0 {
        return Ok(0);
    }
    let last = ps[ps.len() - 1];
    match last.block_id.checked_add(1) {
        Some(blocks) => match blocks.checked_mul(plan.block_bytes() as u64) {
            Some(v) => Ok(v),
            None => Err(PlePackIoError::Format("hot overlay storage size overflow")),
        },
        None => Err(PlePackIoError::Format("hot overlay storage size overflow")),
    }
}


/// Everything an exact hot-overlay sidecar file holds, ready to be written.
#[derive(Debug)]
pub struct SidecarImage {
    /// The decoded header.
    pub header: DiskHeader,
    /// The 128-byte header image, written at offset 0.
    pub header_bytes: Vec<u8>,
    /// Hot-index entries `(logical_row, overlay_offset)`, ascending by row.
    pub index: Vec<(u32, u64)>,
    /// The serialized hot index, written at `report.index_offset`.
    pub index_payload: Vec<u8>,
    /// Absolute file offset of the overlay data region.
    pub data_offset: u64,
    /// For each placement, in plan order: the logical row and the absolute file offset of its copy.
    pub row_writes: Vec<(u32, u64)>,
    /// Measured geometry of the file.
    pub report: PlePackWriteReport,
}

/// Absolute file offset of a placement's copy.
pub open spec fn absolute_offset(p: HotOverlayPlacement, block_bytes: u32, data_offset: u64) -> int {
    data_offset + overlay_offset_of(p, block_bytes)->0
}

/// Some placement's absolute file offset does not fit `u64`.
pub open spec fn some_absolute_overflows(ps: Seq<HotOverlayPlacement>, block_bytes: u32, data_offset: u64) -> bool {
    exists|i: int| 0 <= i < ps.len() && absolute_offset(#[trigger] ps[i], block_bytes, data_offset) > u64::MAX
}

/// Data-region offset of a sidecar with `n` hot rows and blocks of `block_bytes`.
pub open spec fn data_offset_for(n: nat, block_bytes: u32) -> Result<u64, &'static str> {
    aligned_up((DISK_HEADER_BYTES + n * INDEX_ENTRY_BYTES) as u64, block_bytes as u64)
}

/// Why building the sidecar image for a source with `row_count` rows of `row_bytes` and a plan
/// fails, in the order checked; `None` when it succeeds.
pub open spec fn sidecar_error(row_count: u64, row_bytes: u32, plan: LayoutView) -> Option<PlePackIoError> {
    let ps = plan.placements;
    let bb = plan.block_bytes;
    let n = ps.len();
    match source_plan_error(row_count, row_bytes, plan) {
        Some(m) => Some(PlePackIoError::Format(m)),
        None => if some_offset_overflows(ps, bb) {
            Some(PlePackIoError::Format("hot overlay offset overflow"))
        } else if rows_repeat(ps) {
            Some(PlePackIoError::Format("hot overlay logical rows are not unique"))
        } else if n * INDEX_ENTRY_BYTES > usize::MAX {
            Some(PlePackIoError::Format("hot index allocation overflow"))
        } else if DISK_HEADER_BYTES + n * INDEX_ENTRY_BYTES > u64::MAX {
            Some(PlePackIoError::Format("hot index end overflow"))
        } else {
            match data_offset_for(n, bb) {
                Err(m) => Some(PlePackIoError::Format(m)),
                Ok(data_offset) => match overlay_storage(ps, bb) {
                    Err(m) => Some(PlePackIoError::Format(m)),
                    Ok(overlay) => match header_geometry_error(row_count, row_bytes, bb) {
                        Some(e) => Some(PlePackIoError::Layout(e)),
                        None => match disk_geometry_error(
                            bb,
                            n as u64,
                            (n * INDEX_ENTRY_BYTES) as u64,
                            data_offset,
                            overlay,
                        ) {
                            Some(e) => Some(e),
                            None => if data_offset + overlay > u64::MAX {
                                Some(PlePackIoError::Format("sidecar file size overflow"))
                            } else if some_absolute_overflows(ps, bb, data_offset) {
                                Some(PlePackIoError::Format("hot overlay absolute offset overflow"))
                            } else {
                                None
                            },
                        },
                    },
                },
            }
        }
    }
}

/// `img` is the sidecar of a source with `row_count` rows of `row_bytes` and digest `digest`,
/// laid out by `plan`.
pub open spec fn is_sidecar_of(img: SidecarImage, row_count: u64, row_bytes: u32, digest: Seq<u8>, plan: LayoutView) -> bool {
    let ps = plan.placements;
    let bb = plan.block_bytes;
    let n = ps.len();
    let data_offset = data_offset_for(n, bb)->Ok_0;
    let overlay = overlay_storage(ps, bb)->Ok_0;
    &&& is_sorted_index(img.index@, index_entries(ps, bb))
    &&& img.index_payload@ == encoded_index(img.index@)
    &&& img.header.logical.well_formed()
    &&& img.header.logical.source_digest@ == digest
    &&& img.header.logical.index_digest@ == sha256(img.index_payload@)
    &&& img.header.logical.row_count == row_count
    &&& img.header.logical.row_bytes == row_bytes
    &&& img.header.logical.block_bytes == bb
    &&& img.header.hot_row_count == n
    &&& img.header.index_bytes == n * INDEX_ENTRY_BYTES
    &&& img.header.data_offset == data_offset
    &&& img.header.overlay_bytes == overlay
    &&& img.header_bytes@ == encoded_header(img.header)
    &&& img.data_offset == data_offset
    &&& img.row_writes@.len() == n
    &&& forall|i: int|
        0 <= i < n ==> #[trigger] img.row_writes@[i] == (ps[i].logical_row, absolute_offset(ps[i], bb, data_offset) as u64)
    &&& img.report == PlePackWriteReport {
        hot_rows: n as u64,
        index_offset: DISK_HEADER_BYTES,
        index_bytes: (n * INDEX_ENTRY_BYTES) as u64,
        overlay_bytes: overlay,
        file_bytes: (data_offset + overlay) as u64,
    }
}

impl PlePackWriter {
    /// Build the complete image of an exact hot-overlay sidecar for `plan` over a source with
    /// `source_row_count` rows of `source_row_bytes` bytes and digest `source_digest`: the
    /// row-sorted hot index and its digest, the header, and where each hot row's copy goes.
    #[verifier::loop_isolation(false)]
    pub fn prepare_overlay(
        source_row_count: u64,
        source_row_bytes: u32,
        source_digest: [u8; 32],
        plan: &LayoutPlan,
    ) -> (r: Result<SidecarImage, PlePackIoError>)
        ensures
            match sidecar_error(source_row_count, source_row_bytes, plan@) {
                Some(PlePackIoError::Format(m)) => r == Err::<SidecarImage, PlePackIoError>(PlePackIoError::Format(m)),
                Some(PlePackIoError::Layout(e)) => r == Err::<SidecarImage, PlePackIoError>(PlePackIoError::Layout(e)),
                Some(_) => false,
                None => r matches Ok(img) && is_sidecar_of(img, source_row_count, source_row_bytes, source_digest@, plan@),
            },
    {
        validate_source_plan(source_row_count, source_row_bytes, plan)?;
        let ps = plan.hot_overlay_placements();
        let bb = plan.block_bytes();
        let entries = collect_entries(ps, bb)?;
        let index = match sort_index(&entries) {
            Some(idx) => idx,
            None => {
                proof {
                    let (i, j) = choose|i: int, j: int|
                        0 <= i < entries@.len() && 0 <= j < entries@.len() && i != j && (#[trigger] entries@[i]).0
                            == (#[trigger] entries@[j]).0;
                    assert(entries@[i].0 == ps@[i].logical_row);
                    assert(entries@[j].0 == ps@[j].logical_row);
                    assert(rows_repeat(ps@));
                }
                return Err(PlePackIoError::Format("hot overlay logical rows are not unique"));
            },
        };
        proof {
            assert(!rows_repeat(ps@)) by {
                if rows_repeat(ps@) {
                    let (i, j) = choose|i: int, j: int|
                        0 <= i < ps@.len() && 0 <= j < ps@.len() && i != j && (#[trigger] ps@[i]).logical_row
                            == (#[trigger] ps@[j]).logical_row;
                    assert(entries@[i].0 == ps@[i].logical_row);
                    assert(entries@[j].0 == ps@[j].logical_row);
                }
            }
        }
        let n = ps.len();
        let alloc = match n.checked_mul(12) {
            Some(v) => v,
            None => {
                return Err(PlePackIoError::Format("hot index allocation overflow"));
            },
        };
        let payload = encode_index(&index);
        let index_digest = crate::digest::sha256_digest(payload.as_slice());
        let index_bytes = alloc as u64;
        let index_end = match DISK_HEADER_BYTES.checked_add(index_bytes) {
            Some(v) => v,
            None => {
                return Err(PlePackIoError::Format("hot index end overflow"));
            },
        };
        let data_offset = align_up(index_end, bb as u64)?;
        let overlay_bytes = overlay_storage_bytes(plan)?;
        let logical = match PlePackHeader::new(source_digest, source_row_count, source_row_bytes, bb, index_digest) {
            Ok(h) => h,
            Err(e) => {
                return Err(PlePackIoError::Layout(e));
            },
        };
        let header = DiskHeader::new(logical, n as u64, index_bytes, data_offset, overlay_bytes)?;
        let file_bytes = match data_offset.checked_add(overlay_bytes) {
            Some(v) => v,
            None => {
                return Err(PlePackIoError::Format("sidecar file size overflow"));
            },
        };
        let mut row_writes: Vec<(u32, u64)> = Vec::new();
        let mut i: usize = 0;
        while i < n
            invariant
                n == ps@.len(),
                i <= n,
                entries@ == index_entries(ps@, bb),
                row_writes@.len() == i,
                forall|k: int| 0 <= k < i ==> #[trigger] row_writes@[k] == (ps@[k].logical_row, absolute_offset(ps@[k], bb, data_offset) as u64),
                forall|k: int| 0 <= k < i ==> absolute_offset(#[trigger] ps@[k], bb, data_offset) <= u64::MAX,
            decreases n - i,
        {
            let (row, off) = entries[i];
            let absolute = match data_offset.checked_add(off) {
                Some(v) => v,
                None => {
                    assert(absolute_offset(ps@[i as int], bb, data_offset) > u64::MAX);
                    return Err(PlePackIoError::Format("hot overlay absolute offset overflow"));
                },
            };
            row_writes.push((row, absolute));
            i += 1;
        }
        let header_bytes = header.encode();
        let report = PlePackWriteReport {
            hot_rows: n as u64,
            index_offset: DISK_HEADER_BYTES,
            index_bytes,
            overlay_bytes,
            file_bytes,
        };
        Ok(SidecarImage { header, header_bytes, index, index_payload: payload, data_offset, row_writes, report })
    }
}

} // verus!
