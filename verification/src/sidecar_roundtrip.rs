//! What a reader finds in a sidecar file laid out from a prepared image: the laws that tie the
//! writer's image to the reader's checks and lookups.
use crate::digest::sha256;
use crate::disk::{
    disk_geometry_error, encoded_header, encoded_index_entry, header_decode_error,
    header_fields_match, law_header_roundtrip, law_index_entry_roundtrip, u32_at, u64_at,
    DiskHeader, DISK_HEADER_BYTES, INDEX_ENTRY_BYTES,
};
use crate::format::{header_geometry_error, PlePackIoError};
use crate::layout::{law_no_hot_row_crosses_block_boundary, lemma_rows_per_block_positive, LayoutView};
use crate::reader::{
    entries_error, entry_at, index_ascending, index_error, index_fits, layout_entry, overlay_offset_for,
    overlay_range, sidecar_mismatch, SidecarLayout,
};
use crate::writer::{
    aligned_up, ascending_rows, data_offset_for, encoded_index, index_entries, is_sidecar_of,
    is_sorted_index, overlay_offset_of, overlay_storage, rows_repeat, sidecar_error,
    some_absolute_overflows, some_offset_overflows, source_plan_error, SidecarImage,
};
use vstd::prelude::*;

verus! {

/// A serialized index is twelve bytes per entry.
pub proof fn lemma_encoded_index_len(idx: Seq<(u32, u64)>)
    ensures
        encoded_index(idx).len() == idx.len() * 12,
    decreases idx.len(),
{
    if idx.len() > 0 {
        lemma_encoded_index_len(idx.drop_last());
        law_index_entry_roundtrip(idx.last().0, idx.last().1);
    }
}

/// Entry `k`'s twelve-byte image sits at byte `12 * k` of the serialized index.
pub proof fn lemma_encoded_index_entry(idx: Seq<(u32, u64)>, k: int)
    requires
        0 <= k < idx.len(),
    ensures
        encoded_index(idx).subrange(k * 12, k * 12 + 12) == encoded_index_entry(idx[k].0, idx[k].1),
    decreases idx.len(),
{
    let p = idx.drop_last();
    lemma_encoded_index_len(p);
    law_index_entry_roundtrip(idx.last().0, idx.last().1);
    let whole = encoded_index(idx);
    assert(whole == encoded_index(p) + encoded_index_entry(idx.last().0, idx.last().1));
    if k == idx.len() - 1 {
        assert(whole.subrange(k * 12, k * 12 + 12) =~= encoded_index_entry(idx[k].0, idx[k].1));
    } else {
        lemma_encoded_index_entry(p, k);
        assert(p[k] == idx[k]);
        assert(whole.subrange(k * 12, k * 12 + 12) =~= encoded_index(p).subrange(k * 12, k * 12 + 12));
    }
}

/// Reading entry `k` of a serialized index gives back entry `k`.
pub proof fn lemma_entry_at_encoded(idx: Seq<(u32, u64)>, k: int)
    requires
        0 <= k < idx.len(),
    ensures
        entry_at(encoded_index(idx), k) == idx[k],
{
    lemma_encoded_index_len(idx);
    lemma_encoded_index_entry(idx, k);
    law_index_entry_roundtrip(idx[k].0, idx[k].1);
    let whole = encoded_index(idx);
    let e = encoded_index_entry(idx[k].0, idx[k].1);
    assert(whole.subrange(k * 12, k * 12 + 4) =~= e.subrange(0, 4));
    assert(whole.subrange(k * 12 + 4, k * 12 + 4 + 8) =~= e.subrange(4, 12));
}


/// What a successful image preparation has checked, one fact per check.
pub proof fn lemma_sidecar_checks(row_count: u64, row_bytes: u32, plan: LayoutView)
    requires
        sidecar_error(row_count, row_bytes, plan) is None,
    ensures
        source_plan_error(row_count, row_bytes, plan) is None,
        row_count == plan.row_count,
        row_bytes == plan.row_bytes,
        !some_offset_overflows(plan.placements, plan.block_bytes),
        !rows_repeat(plan.placements),
        plan.placements.len() * INDEX_ENTRY_BYTES <= usize::MAX,
        DISK_HEADER_BYTES + plan.placements.len() * INDEX_ENTRY_BYTES <= u64::MAX,
        data_offset_for(plan.placements.len(), plan.block_bytes) is Ok,
        overlay_storage(plan.placements, plan.block_bytes) is Ok,
        header_geometry_error(row_count, row_bytes, plan.block_bytes) is None,
        disk_geometry_error(
            plan.block_bytes,
            plan.placements.len() as u64,
            (plan.placements.len() * INDEX_ENTRY_BYTES) as u64,
            data_offset_for(plan.placements.len(), plan.block_bytes)->Ok_0,
            overlay_storage(plan.placements, plan.block_bytes)->Ok_0,
        ) is None,
        data_offset_for(plan.placements.len(), plan.block_bytes)->Ok_0 + overlay_storage(
            plan.placements,
            plan.block_bytes,
        )->Ok_0 <= u64::MAX,
        !some_absolute_overflows(
            plan.placements,
            plan.block_bytes,
            data_offset_for(plan.placements.len(), plan.block_bytes)->Ok_0,
        ),
{
}

/// A value rounded up to an alignment is at least the value and a multiple of the alignment.
pub proof fn lemma_aligned_up(value: u64, alignment: u64)
    requires
        aligned_up(value, alignment) is Ok,
    ensures
        aligned_up(value, alignment)->Ok_0 >= value,
        aligned_up(value, alignment)->Ok_0 % alignment == 0,
{
    if value % alignment != 0 {
        let a = alignment as int;
        let v = value as int;
        assert((v + (a - v % a)) % a == 0) by (nonlinear_arith)
            requires
                a > 0,
        {
            vstd::arithmetic::div_mod::lemma_fundamental_div_mod(v, a);
            vstd::arithmetic::div_mod::lemma_mod_multiples_basic(v / a + 1, a);
            assert(v + (a - v % a) == (v / a + 1) * a);
        }
    }
}

/// The copy of hot row `i` lies in its block, inside the overlay region, at the in-block offset
/// the plan gives it.
pub proof fn lemma_placement_fits(plan: LayoutView, i: int)
    requires
        plan.well_formed(),
        0 <= i < plan.placements.len(),
        !some_offset_overflows(plan.placements, plan.block_bytes),
        overlay_storage(plan.placements, plan.block_bytes) is Ok,
    ensures
        overlay_offset_of(plan.placements[i], plan.block_bytes) is Some,
        plan.placements[i].logical_row < plan.row_count,
        overlay_offset_of(plan.placements[i], plan.block_bytes)->0 % (plan.block_bytes as u64)
            == plan.placements[i].offset_in_block,
        plan.placements[i].offset_in_block + plan.row_bytes <= plan.block_bytes,
        overlay_offset_of(plan.placements[i], plan.block_bytes)->0 + plan.row_bytes <= overlay_storage(
            plan.placements,
            plan.block_bytes,
        )->Ok_0,
{
    let ps = plan.placements;
    let n = ps.len() as int;
    let bb = plan.block_bytes as int;
    let rb = plan.row_bytes as int;
    let rpb = plan.rows_per_block();
    let p = ps[i];
    assert(overlay_offset_of(ps[i], plan.block_bytes) is Some);
    law_no_hot_row_crosses_block_boundary(plan);
    lemma_rows_per_block_positive(plan);
    let o = p.offset_in_block as int;
    let b = p.block_id as int;
    assert(o < bb);
    vstd::arithmetic::div_mod::lemma_mod_multiples_vanish(b, o, bb);
    vstd::arithmetic::div_mod::lemma_small_mod(o as nat, bb as nat);
    assert(bb * b == b * bb) by (nonlinear_arith);
    let last = ps[n - 1];
    assert(last == ps.last());
    vstd::arithmetic::div_mod::lemma_div_is_ordered(i, n - 1, rpb);
    assert(b == i / rpb);
    assert(last.block_id as int == (n - 1) / rpb);
    assert(b * bb + o + rb <= (last.block_id + 1) * bb) by (nonlinear_arith)
        requires
            b <= last.block_id,
            o + rb <= bb,
            bb > 0,
    ;
}

/// Index entry `e` names an in-range row whose copy lies inside the overlay and its block.
pub open spec fn entry_fits(e: (u32, u64), row_count: u64, row_bytes: u32, block_bytes: u32, overlay: u64) -> bool {
    &&& e.0 < row_count
    &&& e.1 + row_bytes <= overlay
    &&& e.1 % (block_bytes as u64) + row_bytes <= block_bytes
}

/// Entries from `k` on pass every index check when they ascend and each fits.
proof fn lemma_entries_pass(
    index: Seq<u8>,
    idx: Seq<(u32, u64)>,
    k: int,
    previous: Option<u32>,
    row_count: u64,
    row_bytes: u32,
    block_bytes: u32,
    overlay: u64,
)
    requires
        0 <= k <= idx.len(),
        forall|j: int| 0 <= j < idx.len() ==> entry_at(index, j) == #[trigger] idx[j],
        ascending_rows(idx),
        k == 0 ==> previous is None,
        k > 0 ==> previous == Some(idx[k - 1].0),
        forall|j: int| 0 <= j < idx.len() ==> entry_fits(#[trigger] idx[j], row_count, row_bytes, block_bytes, overlay),
    ensures
        entries_error(index, k, idx.len() as int, previous, row_count, row_bytes, block_bytes, overlay) is None,
    decreases idx.len() - k,
{
    if k < idx.len() {
        assert(entry_at(index, k) == idx[k]);
        assert(entry_fits(idx[k], row_count, row_bytes, block_bytes, overlay));
        if k > 0 {
            assert(idx[k - 1].0 < idx[k].0);
        }
        lemma_entries_pass(index, idx, k + 1, Some(idx[k].0), row_count, row_bytes, block_bytes, overlay);
    }
}

/// Every entry of a prepared image's index fits.
proof fn lemma_image_entries_fit(img: SidecarImage, row_count: u64, row_bytes: u32, digest: Seq<u8>, plan: LayoutView)
    requires
        plan.well_formed(),
        sidecar_error(row_count, row_bytes, plan) is None,
        is_sidecar_of(img, row_count, row_bytes, digest, plan),
    ensures
        img.index@.len() == plan.placements.len(),
        forall|j: int|
            0 <= j < img.index@.len() ==> entry_fits(
                #[trigger] img.index@[j],
                row_count,
                row_bytes,
                plan.block_bytes,
                overlay_storage(plan.placements, plan.block_bytes)->Ok_0,
            ),
{
    lemma_sidecar_checks(row_count, row_bytes, plan);
    let ps = plan.placements;
    let bb = plan.block_bytes;
    let entries = index_entries(ps, bb);
    assert forall|j: int| 0 <= j < img.index@.len() implies entry_fits(
        #[trigger] img.index@[j],
        row_count,
        row_bytes,
        bb,
        overlay_storage(ps, bb)->Ok_0,
    ) by {
        assert(img.index@.contains(img.index@[j]));
        assert(entries.contains(img.index@[j]));
        let i = choose|i: int| 0 <= i < entries.len() && entries[i] == img.index@[j];
        lemma_placement_fits(plan, i);
    }
}


/// `file` holds the image `img`: its header image at offset 0, its serialized index right
/// behind the header, and exactly the reported file length.
pub open spec fn holds_image(file: Seq<u8>, img: SidecarImage) -> bool {
    &&& file.len() == img.report.file_bytes
    &&& file.subrange(0, DISK_HEADER_BYTES as int) == img.header_bytes@
    &&& file.subrange(DISK_HEADER_BYTES as int, DISK_HEADER_BYTES + img.index_payload@.len())
        == img.index_payload@
}

/// A file that holds `b`'s first 128 bytes reads the same header fields as `b`.
proof fn lemma_same_header_bytes(file: Seq<u8>, b: Seq<u8>)
    requires
        b.len() == DISK_HEADER_BYTES,
        file.len() >= DISK_HEADER_BYTES,
        file.subrange(0, DISK_HEADER_BYTES as int) == b,
    ensures
        header_decode_error(file) == header_decode_error(b),
        forall|h: DiskHeader| header_fields_match(h, file) <==> #[trigger] header_fields_match(h, b),
{
    assert(file.subrange(0, 8) =~= b.subrange(0, 8));
    assert(file.subrange(8, 12) =~= b.subrange(8, 12));
    assert(file.subrange(12, 16) =~= b.subrange(12, 16));
    assert(file.subrange(16, 48) =~= b.subrange(16, 48));
    assert(file.subrange(48, 56) =~= b.subrange(48, 56));
    assert(file.subrange(56, 60) =~= b.subrange(56, 60));
    assert(file.subrange(60, 64) =~= b.subrange(60, 64));
    assert(file.subrange(64, 72) =~= b.subrange(64, 72));
    assert(file.subrange(72, 80) =~= b.subrange(72, 80));
    assert(file.subrange(80, 88) =~= b.subrange(80, 88));
    assert(file.subrange(88, 96) =~= b.subrange(88, 96));
    assert(file.subrange(96, 128) =~= b.subrange(96, 128));
}

/// `a` and `b` hold the same header fields.
pub open spec fn same_fields(a: DiskHeader, b: DiskHeader) -> bool {
    &&& a.logical.source_digest@ == b.logical.source_digest@
    &&& a.logical.index_digest@ == b.logical.index_digest@
    &&& a.logical.row_count == b.logical.row_count
    &&& a.logical.row_bytes == b.logical.row_bytes
    &&& a.logical.block_bytes == b.logical.block_bytes
    &&& a.hot_row_count == b.hot_row_count
    &&& a.index_bytes == b.index_bytes
    &&& a.data_offset == b.data_offset
    &&& a.overlay_bytes == b.overlay_bytes
}

/// A sidecar prepared for a plan and written out as its image opens against the source it was
/// prepared for: the header decodes to the image's header, and every check that binds the
/// sidecar to that source (digest, geometry, file length, index digest, index entries) passes.
pub proof fn law_prepared_sidecar_opens(
    img: SidecarImage,
    row_count: u64,
    row_bytes: u32,
    digest: Seq<u8>,
    plan: LayoutView,
    file: Seq<u8>,
)
    requires
        plan.well_formed(),
        sidecar_error(row_count, row_bytes, plan) is None,
        is_sidecar_of(img, row_count, row_bytes, digest, plan),
        holds_image(file, img),
        file.len() <= usize::MAX,
    ensures
        header_decode_error(file) is None,
        header_fields_match(img.header, file),
        forall|disk: DiskHeader|
            #[trigger] header_fields_match(disk, file) ==> same_fields(disk, img.header) && sidecar_mismatch(
                file,
                disk,
                digest,
                row_count,
                row_bytes,
            ) is None,
{
    lemma_sidecar_checks(row_count, row_bytes, plan);
    let h = img.header;
    let ps = plan.placements;
    let n = ps.len();
    let bb = plan.block_bytes;
    let data_offset = data_offset_for(n, bb)->Ok_0;
    let overlay = overlay_storage(ps, bb)->Ok_0;
    law_header_roundtrip(h);
    lemma_same_header_bytes(file, encoded_header(h));
    lemma_aligned_up((DISK_HEADER_BYTES + n * INDEX_ENTRY_BYTES) as u64, bb as u64);
    lemma_image_entries_fit(img, row_count, row_bytes, digest, plan);
    lemma_encoded_index_len(img.index@);
    let index = file.subrange(DISK_HEADER_BYTES as int, DISK_HEADER_BYTES + n * INDEX_ENTRY_BYTES);
    assert(index == encoded_index(img.index@));
    assert forall|j: int| 0 <= j < img.index@.len() implies entry_at(index, j) == #[trigger] img.index@[j] by {
        lemma_entry_at_encoded(img.index@, j);
    }
    lemma_entries_pass(index, img.index@, 0, None, row_count, row_bytes, bb, overlay);
    assert forall|disk: DiskHeader| #[trigger] header_fields_match(disk, file) implies same_fields(disk, h) && sidecar_mismatch(
        file,
        disk,
        digest,
        row_count,
        row_bytes,
    ) is None by {
        assert(disk.logical.source_digest@ == h.logical.source_digest@);
        assert(disk.logical.index_digest@ == h.logical.index_digest@);
        assert(index_error(index, n as int, disk) is None);
    }
}


/// A prepared sidecar refuses every other source: opened against a source digest other than the
/// one it was prepared for, its first failing check is `SourceDigestMismatch`.
pub proof fn law_prepared_sidecar_refuses_another_source(
    img: SidecarImage,
    row_count: u64,
    row_bytes: u32,
    digest: Seq<u8>,
    plan: LayoutView,
    file: Seq<u8>,
    other: Seq<u8>,
)
    requires
        plan.well_formed(),
        sidecar_error(row_count, row_bytes, plan) is None,
        is_sidecar_of(img, row_count, row_bytes, digest, plan),
        holds_image(file, img),
        file.len() <= usize::MAX,
        other != digest,
    ensures
        forall|disk: DiskHeader|
            #[trigger] header_fields_match(disk, file) ==> sidecar_mismatch(file, disk, other, row_count, row_bytes)
                == Some(PlePackIoError::SourceDigestMismatch),
{
    law_prepared_sidecar_opens(img, row_count, row_bytes, digest, plan, file);
}

/// The hot index bytes of a sidecar whose header is `h`.
pub open spec fn index_region(file: Seq<u8>, h: DiskHeader) -> Seq<u8> {
    file.subrange(DISK_HEADER_BYTES as int, DISK_HEADER_BYTES + h.index_bytes)
}

/// A prepared sidecar whose hot index bytes were changed, header kept, is refused with
/// `IndexDigestMismatch` whenever the changed index's SHA-256 differs from the original's.
pub proof fn law_prepared_sidecar_refuses_a_changed_index(
    img: SidecarImage,
    row_count: u64,
    row_bytes: u32,
    digest: Seq<u8>,
    plan: LayoutView,
    file: Seq<u8>,
    changed: Seq<u8>,
)
    requires
        plan.well_formed(),
        sidecar_error(row_count, row_bytes, plan) is None,
        is_sidecar_of(img, row_count, row_bytes, digest, plan),
        holds_image(file, img),
        file.len() <= usize::MAX,
        changed.len() == file.len(),
        changed.subrange(0, DISK_HEADER_BYTES as int) == file.subrange(0, DISK_HEADER_BYTES as int),
        sha256(index_region(changed, img.header)) != sha256(index_region(file, img.header)),
    ensures
        forall|disk: DiskHeader|
            #[trigger] header_fields_match(disk, changed) ==> sidecar_mismatch(changed, disk, digest, row_count, row_bytes)
                == Some(PlePackIoError::IndexDigestMismatch),
{
    law_prepared_sidecar_opens(img, row_count, row_bytes, digest, plan, file);
    let head = file.subrange(0, DISK_HEADER_BYTES as int);
    lemma_same_header_bytes(changed, head);
    lemma_same_header_bytes(file, head);
    assert forall|disk: DiskHeader| #[trigger] header_fields_match(disk, changed) implies sidecar_mismatch(
        changed,
        disk,
        digest,
        row_count,
        row_bytes,
    ) == Some(PlePackIoError::IndexDigestMismatch) by {
        assert(header_fields_match(disk, head));
        assert(header_fields_match(disk, file));
        assert(same_fields(disk, img.header));
        assert(sidecar_mismatch(file, disk, digest, row_count, row_bytes) is None);
        assert(index_region(file, disk) == index_region(file, img.header));
        assert(index_region(changed, disk) == index_region(changed, img.header));
    }
}

/// Where the plan places `row` among its hot placements, if it is hot.
pub open spec fn hot_slot(plan: LayoutView, row: u32) -> Option<int> {
    if exists|i: int| 0 <= i < plan.placements.len() && (#[trigger] plan.placements[i]).logical_row == row {
        Some(choose|i: int| 0 <= i < plan.placements.len() && (#[trigger] plan.placements[i]).logical_row == row)
    } else {
        None
    }
}

/// `l` locates the parts of a sidecar whose header is `h` (as opening it reports).
pub open spec fn locates(l: SidecarLayout, h: DiskHeader) -> bool {
    &&& l.header.row_count == h.logical.row_count
    &&& l.header.row_bytes == h.logical.row_bytes
    &&& l.header.block_bytes == h.logical.block_bytes
    &&& l.hot_row_count == h.hot_row_count
    &&& l.index_offset == DISK_HEADER_BYTES
    &&& l.data_offset == h.data_offset
    &&& l.overlay_bytes == h.overlay_bytes
}

/// `file` holds, where the image writes each hot row's copy, that row of the source `rows`.
pub open spec fn copies_rows(file: Seq<u8>, img: SidecarImage, rows: Seq<Seq<u8>>, row_bytes: u32) -> bool {
    forall|i: int|
        0 <= i < img.row_writes@.len() ==> file.subrange(
            (#[trigger] img.row_writes@[i]).1 as int,
            img.row_writes@[i].1 + row_bytes,
        ) == rows[img.row_writes@[i].0 as int]
}

/// Reading a prepared sidecar gives back every row of the source it was prepared for: the
/// opened hot index lies inside the file and ascends; a row the plan keeps hot is found there,
/// at the range where the image wrote its copy, which holds exactly that source row; and any
/// other row is not found, so it is read from the exact source.
pub proof fn law_prepared_sidecar_reads_each_row(
    img: SidecarImage,
    row_count: u64,
    row_bytes: u32,
    digest: Seq<u8>,
    plan: LayoutView,
    file: Seq<u8>,
    rows: Seq<Seq<u8>>,
    l: SidecarLayout,
    row: u32,
)
    requires
        plan.well_formed(),
        sidecar_error(row_count, row_bytes, plan) is None,
        is_sidecar_of(img, row_count, row_bytes, digest, plan),
        holds_image(file, img),
        copies_rows(file, img, rows, row_bytes),
        file.len() <= usize::MAX,
        locates(l, img.header),
    ensures
        index_fits(file, l),
        index_ascending(file, l),
        match hot_slot(plan, row) {
            None => overlay_offset_for(file, l, row) is None,
            Some(i) => {
                &&& overlay_offset_for(file, l, row) is Some
                &&& overlay_range(l, file.len() as int, overlay_offset_for(file, l, row)->0, false) == Ok::<
                    (int, int),
                    &'static str,
                >((img.row_writes@[i].1 as int, img.row_writes@[i].1 + row_bytes))
                &&& file.subrange(img.row_writes@[i].1 as int, img.row_writes@[i].1 + row_bytes)
                    == rows[row as int]
            },
        },
{
    lemma_sidecar_checks(row_count, row_bytes, plan);
    let idx = img.index@;
    let ps = plan.placements;
    let n = ps.len();
    let bb = plan.block_bytes;
    let data_offset = data_offset_for(n, bb)->Ok_0;
    let overlay = overlay_storage(ps, bb)->Ok_0;
    let entries = index_entries(ps, bb);
    lemma_aligned_up((DISK_HEADER_BYTES + n * INDEX_ENTRY_BYTES) as u64, bb as u64);
    lemma_image_entries_fit(img, row_count, row_bytes, digest, plan);
    lemma_encoded_index_len(idx);
    let index = file.subrange(DISK_HEADER_BYTES as int, DISK_HEADER_BYTES + n * INDEX_ENTRY_BYTES);
    assert(index == encoded_index(idx));
    assert forall|k: int| 0 <= k < n implies #[trigger] layout_entry(file, l, k) == idx[k] by {
        lemma_entry_at_encoded(idx, k);
        assert(file.subrange(128 + k * 12, 128 + k * 12 + 4) =~= index.subrange(k * 12, k * 12 + 4));
        assert(file.subrange(128 + k * 12 + 4, 128 + k * 12 + 4 + 8) =~= index.subrange(
            k * 12 + 4,
            k * 12 + 4 + 8,
        ));
    }
    assert forall|a: int, b: int| 0 <= a < b < l.hot_row_count implies (#[trigger] layout_entry(
        file,
        l,
        a,
    )).0 < (#[trigger] layout_entry(file, l, b)).0 by {
        assert(layout_entry(file, l, a) == idx[a]);
        assert(layout_entry(file, l, b) == idx[b]);
    }
    match hot_slot(plan, row) {
        None => {
            if exists|k: int| 0 <= k < l.hot_row_count && (#[trigger] layout_entry(file, l, k)).0 == row {
                let k = choose|k: int| 0 <= k < l.hot_row_count && (#[trigger] layout_entry(file, l, k)).0 == row;
                assert(layout_entry(file, l, k) == idx[k]);
                assert(idx.contains(idx[k]));
                let j = choose|j: int| 0 <= j < entries.len() && entries[j] == idx[k];
                assert(ps[j].logical_row == row);
            }
        },
        Some(i) => {
            lemma_placement_fits(plan, i);
            assert(ps[i].logical_row == row);
            assert(entries[i] == (row, overlay_offset_of(ps[i], bb)->0));
            assert(entries.contains(entries[i]));
            let k = choose|k: int| 0 <= k < idx.len() && idx[k] == entries[i];
            assert(layout_entry(file, l, k) == idx[k]);
            let k2 = choose|k: int| 0 <= k < l.hot_row_count && (#[trigger] layout_entry(file, l, k)).0 == row;
            assert(layout_entry(file, l, k2) == idx[k2]);
            assert(k2 == k) by {
                if k2 < k {
                    assert(idx[k2].0 < idx[k].0);
                }
                if k < k2 {
                    assert(idx[k].0 < idx[k2].0);
                }
            }
            assert(img.row_writes@[i] == (ps[i].logical_row, crate::writer::absolute_offset(ps[i], bb, data_offset) as u64));
        },
    }
}

} // verus!
