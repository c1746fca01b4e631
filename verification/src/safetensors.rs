//! Exact PLE rows sourced from safetensors shards: manifest rules, header parsing, tensor
//! checks, the source digest stream and row addressing.
use crate::digest::{absorbed, sha256, sha256_finalize, sha256_new, sha256_update, Sha256Stream};
use crate::disk::{read_u64, u64_at};
use crate::format::{PlePackError, PlePackIoError, LOGICAL_ROW_SPACE};
use crate::json::{
    find_member, get, json_document, json_view, lemma_items_view_all, lemma_members_view_all, member,
    members_view, parse_json, JsonValue, JsonView,
};
use crate::text::{all_white_space, chars_of, is_blank, lemma_scan, same_text, scan, scan_exec, CharClass};
use vstd::prelude::*;
use vstd::utf8::encode_utf8;
use vstd::bytes::{spec_u32_to_le_bytes, spec_u64_to_le_bytes, u32_to_le_bytes, u64_to_le_bytes};

verus! {

/// Bytes of the little-endian header-length prefix of a safetensors file.
pub const SAFETENSORS_PREFIX_BYTES: usize = 8;

/// Bytes of one BF16 element.
pub const BF16_BYTES: u64 = 2;

/// Domain separator that starts every safetensors PLE source digest stream
/// (`GB10X-SAFETENSORS-PLE-V1` and a NUL byte).
pub const DIGEST_DOMAIN: [u8; 25] = [
    0x47, 0x42, 0x31, 0x30, 0x58, 0x2d, 0x53, 0x41, 0x46, 0x45, 0x54, 0x45, 0x4e, 0x53, 0x4f, 0x52,
    0x53, 0x2d, 0x50, 0x4c, 0x45, 0x2d, 0x56, 0x31, 0x00,
];

/// One logical PLE tensor range inside a safetensors file.
#[derive(Clone, Debug, PartialEq, Eq)]
pub struct SafetensorsPlePart {
    /// File path relative to the pinned model directory.
    pub file: String,
    /// Exact safetensors tensor name containing this PLE part.
    pub tensor_name: String,
    /// First logical PLE row exposed by this tensor.
    pub logical_row_start: u64,
    /// Number of exact PLE rows in this tensor.
    pub row_count: u64,
}

/// Immutable manifest binding logical PLE rows to pinned safetensors tensors.
#[derive(Clone, Debug, PartialEq, Eq)]
pub struct SafetensorsPleManifest {
    /// Canonical model repository identifier.
    pub model_id: String,
    /// Exact immutable model revision/commit.
    pub model_revision: String,
    /// Number of BF16 elements in one logical PLE row.
    pub row_elements: u32,
    /// Ordered physical PLE tensor parts covering one contiguous logical row space.
    pub parts: Vec<SafetensorsPlePart>,
}

/// Exact safetensors tensor location retained for diagnostics/evidence.
#[derive(Clone, Debug, PartialEq, Eq)]
pub struct SafetensorsTensorRef {
    /// Relative safetensors file path.
    pub file: String,
    /// Exact tensor name.
    pub tensor_name: String,
    /// Tensor dtype string from the safetensors header.
    pub dtype: String,
    /// Tensor shape from the safetensors header.
    pub shape: Vec<u64>,
    /// Absolute file offset of the first tensor byte.
    pub data_offset: u64,
}

/// The path segment `..`.
pub open spec fn parent_segment() -> Seq<char> {
    seq!['.', '.']
}

/// Some `/`-separated segment of `p`, from the one starting at `pos` on, is `..`.
pub open spec fn has_parent_segment(p: Seq<char>, pos: int) -> bool
    decreases p.len() - pos,
{
    if pos < 0 || pos > p.len() {
        false
    } else {
        let c = scan(p, pos, CharClass::Slash);
        if p.subrange(pos, c) == parent_segment() {
            true
        } else if c >= p.len() {
            false
        } else {
            proof {
                lemma_scan(p, pos, CharClass::Slash);
            }
            has_parent_segment(p, c + 1)
        }
    }
}

/// A (POSIX) path that is absolute or climbs out through a `..` component, so it does not
/// stay inside the directory it is joined to.
pub open spec fn escapes_directory(p: Seq<char>) -> bool {
    (p.len() > 0 && p[0] == '/') || has_parent_segment(p, 0)
}

/// Whether the path `value` escapes the directory it is joined to.
pub fn path_escapes(value: &str) -> (r: bool)
    ensures
        r == escapes_directory(value@),
{
    let p = chars_of(value);
    if p.len() > 0 && p[0] == '/' {
        return true;
    }
    let mut pos: usize = 0;
    while pos <= p.len()
        invariant
            p@ == value@,
            !(p@.len() > 0 && p@[0] == '/'),
            pos <= p@.len() + 1,
            pos <= p@.len() ==> has_parent_segment(p@, 0) == has_parent_segment(p@, pos as int),
            pos > p@.len() ==> !has_parent_segment(p@, 0),
        decreases p@.len() + 1 - pos,
    {
        let c = scan_exec(&p, pos, p.len(), CharClass::Slash);
        proof {
            crate::text::lemma_scan_suffix(p@, pos as int, 0, CharClass::Slash);
            assert(p@.subrange(pos as int, p@.len() as int) =~= p@.subrange(pos as int, p@.len() as int));
        }
        let ghost seg = p@.subrange(pos as int, c as int);
        if c - pos == 2 && p[pos] == '.' && p[pos + 1] == '.' {
            assert(seg =~= parent_segment());
            return true;
        }
        assert(seg != parent_segment()) by {
            if seg == parent_segment() {
                assert(seg.len() == 2);
                assert(seg[0] == p@[pos as int]);
                assert(seg[1] == p@[pos + 1]);
            }
        }
        if c == p.len() {
            return false;
        }
        pos = c + 1;
    }
    false
}

/// Reject a manifest file path that would leave the model directory.
pub fn safe_relative_path(value: &str) -> (r: Result<(), PlePackIoError>)
    ensures
        escapes_directory(value@) ==> r == Err::<(), PlePackIoError>(
            PlePackIoError::Format("PLE manifest file path must remain inside model directory"),
        ),
        !escapes_directory(value@) ==> r is Ok,
{
    if path_escapes(value) {
        return Err(PlePackIoError::Format("PLE manifest file path must remain inside model directory"));
    }
    Ok(())
}

/// The first manifest-part failure from part `i` on, with `next` the row the part must start at.
pub open spec fn parts_error(parts: Seq<SafetensorsPlePart>, i: int, next: int) -> Option<&'static str>
    decreases parts.len() - i,
{
    if i < 0 || i >= parts.len() {
        None
    } else {
        let p = parts[i];
        if all_white_space(p.file@) {
            Some("PLE manifest part file is empty")
        } else if all_white_space(p.tensor_name@) {
            Some("PLE manifest tensor name is empty")
        } else if escapes_directory(p.file@) {
            Some("PLE manifest file path must remain inside model directory")
        } else if p.row_count == 0 {
            Some("PLE manifest part row_count must be nonzero")
        } else if p.logical_row_start != next {
            Some("PLE manifest parts must cover a contiguous logical row space")
        } else if next + p.row_count > u64::MAX {
            Some("PLE manifest row count overflow")
        } else {
            parts_error(parts, i + 1, next + p.row_count)
        }
    }
}

/// The first failing manifest check, in the order checked.
pub open spec fn manifest_error(m: SafetensorsPleManifest) -> Option<&'static str> {
    if all_white_space(m.model_id@) {
        Some("PLE manifest model_id is empty")
    } else if all_white_space(m.model_revision@) {
        Some("PLE manifest model_revision is empty")
    } else if m.row_elements == 0 {
        Some("PLE manifest row_elements must be nonzero")
    } else if m.parts@.len() == 0 {
        Some("PLE manifest contains no parts")
    } else {
        parts_error(m.parts@, 0, 0)
    }
}

/// Validate a manifest: non-blank identity, non-zero row width, and parts with non-blank names,
/// paths inside the model directory and non-zero row counts that tile rows `0..` contiguously.
pub fn validate_manifest(manifest: &SafetensorsPleManifest) -> (r: Result<(), PlePackIoError>)
    ensures
        match manifest_error(*manifest) {
            Some(msg) => r == Err::<(), PlePackIoError>(PlePackIoError::Format(msg)),
            None => r is Ok,
        },        r is Ok ==> manifest_is_sound(*manifest),
{
    proof {
        if manifest_error(*manifest) is None {
            lemma_parts_sound(manifest.parts@, 0, 0);
        }
    }
    if is_blank(manifest.model_id.as_str()) {
        return Err(PlePackIoError::Format("PLE manifest model_id is empty"));
    }
    if is_blank(manifest.model_revision.as_str()) {
        return Err(PlePackIoError::Format("PLE manifest model_revision is empty"));
    }
    if manifest.row_elements == 0 {
        return Err(PlePackIoError::Format("PLE manifest row_elements must be nonzero"));
    }
    if manifest.parts.len() == 0 {
        return Err(PlePackIoError::Format("PLE manifest contains no parts"));
    }
    let mut next_row: u64 = 0;
    let mut i: usize = 0;
    while i < manifest.parts.len()
        invariant
            i <= manifest.parts@.len(),
            manifest_error(*manifest) == parts_error(manifest.parts@, i as int, next_row as int),
        decreases manifest.parts@.len() - i,
    {
        let part = &manifest.parts[i];
        if is_blank(part.file.as_str()) {
            return Err(PlePackIoError::Format("PLE manifest part file is empty"));
        }
        if is_blank(part.tensor_name.as_str()) {
            return Err(PlePackIoError::Format("PLE manifest tensor name is empty"));
        }
        safe_relative_path(part.file.as_str())?;
        if part.row_count == 0 {
            return Err(PlePackIoError::Format("PLE manifest part row_count must be nonzero"));
        }
        if part.logical_row_start != next_row {
            return Err(PlePackIoError::Format("PLE manifest parts must cover a contiguous logical row space"));
        }
        next_row = match next_row.checked_add(part.row_count) {
            Some(n) => n,
            None => {
                return Err(PlePackIoError::Format("PLE manifest row count overflow"));
            },
        };
        i += 1;
    }
    Ok(())
}


/// One tensor entry of a safetensors header.
#[derive(Debug)]
pub struct ParsedTensor {
    /// Tensor name (the header member's key).
    pub name: String,
    /// Element type, such as `BF16`.
    pub dtype: String,
    /// Dimensions.
    pub shape: Vec<u64>,
    /// Start of the payload, relative to the data section.
    pub data_start: u64,
    /// End (exclusive) of the payload, relative to the data section.
    pub data_end: u64,
}

/// A validated safetensors header.
#[derive(Debug)]
pub struct ParsedHeader {
    /// Absolute file offset of the data section.
    pub data_section_start: u64,
    /// Tensor entries in header order.
    pub tensors: Vec<ParsedTensor>,
}

/// Abstract tensor entry.
pub struct TensorView {
    pub name: Seq<char>,
    pub dtype: Seq<char>,
    pub shape: Seq<u64>,
    pub data_start: u64,
    pub data_end: u64,
}

/// The abstract entry of `t`.
pub open spec fn tensor_view(t: ParsedTensor) -> TensorView {
    TensorView {
        name: t.name@,
        dtype: t.dtype@,
        shape: t.shape@,
        data_start: t.data_start,
        data_end: t.data_end,
    }
}

/// The dimensions of a shape array, or `None` when one is not a `u64`.
pub open spec fn shape_dims(items: Seq<JsonView>) -> Option<Seq<u64>>
    decreases items.len(),
{
    if items.len() == 0 {
        Some(Seq::empty())
    } else {
        match (items.last(), shape_dims(items.drop_last())) {
            (JsonView::Number(Some(d)), Some(dims)) => Some(dims.push(d)),
            _ => None,
        }
    }
}

/// The tensor entry that header member `name: v` describes, with `data_len` bytes of data
/// section, or the first failing check.
pub open spec fn tensor_entry(name: Seq<char>, v: JsonView, data_len: u64) -> Result<TensorView, &'static str> {
    match v {
        JsonView::Object(ms) => match member(ms, "dtype"@) {
            Some(JsonView::Str(dtype)) => match member(ms, "shape"@) {
                Some(JsonView::Array(dims)) => match shape_dims(dims) {
                    None => Err("safetensors tensor shape contains a non-u64 dimension"),
                    Some(shape) => match member(ms, "data_offsets"@) {
                        Some(JsonView::Array(offs)) => if offs.len() != 2 {
                            Err("safetensors tensor data_offsets must contain exactly two values")
                        } else {
                            match offs[0] {
                                JsonView::Number(Some(start)) => match offs[1] {
                                    JsonView::Number(Some(end)) => if end < start {
                                        Err("safetensors tensor offsets are descending")
                                    } else if end > data_len {
                                        Err("safetensors tensor payload lies outside data section")
                                    } else {
                                        Ok(
                                            TensorView {
                                                name,
                                                dtype,
                                                shape,
                                                data_start: start,
                                                data_end: end,
                                            },
                                        )
                                    },
                                    _ => Err("invalid safetensors tensor end offset"),
                                },
                                _ => Err("invalid safetensors tensor start offset"),
                            }
                        },
                        _ => Err("safetensors tensor data_offsets is missing"),
                    },
                },
                _ => Err("safetensors tensor shape is missing"),
            },
            _ => Err("safetensors tensor dtype is missing"),
        },
        _ => Err("safetensors tensor entry must be an object"),
    }
}

/// The key of the metadata member that is not a tensor.
pub open spec fn metadata_key() -> Seq<char> {
    "__metadata__"@
}

/// The tensor entries of the first `n` header members (skipping metadata), or the first
/// failing check.
pub open spec fn tensors_of(ms: Seq<(Seq<char>, JsonView)>, n: int, data_len: u64) -> Result<
    Seq<TensorView>,
    &'static str,
>
    decreases n,
{
    if n <= 0 {
        Ok(Seq::empty())
    } else {
        match tensors_of(ms, n - 1, data_len) {
            Err(e) => Err(e),
            Ok(ts) => if ms[n - 1].0 == metadata_key() {
                Ok(ts)
            } else {
                match tensor_entry(ms[n - 1].0, ms[n - 1].1, data_len) {
                    Err(e) => Err(e),
                    Ok(t) => Ok(ts.push(t)),
                }
            },
        }
    }
}

/// Parsed tensors whose payloads lie inside a data section of `data_len` bytes, ordered ends,
/// at least one of them, and no two sharing a byte.
pub open spec fn tensors_fit_apart(ts: Seq<ParsedTensor>, data_len: int) -> bool {
    &&& ts.len() > 0
    &&& forall|i: int| 0 <= i < ts.len() ==> (#[trigger] ts[i]).data_start <= ts[i].data_end <= data_len
    &&& forall|i: int, j: int|
        0 <= i < ts.len() && 0 <= j < ts.len() && i != j ==> (#[trigger] ts[i]).data_end <= (#[trigger] ts[j]).data_start
            || ts[j].data_end <= ts[i].data_start
}

/// Entries that `tensors_of` accepts have ordered ends inside the data section.
proof fn lemma_tensors_of_bounds(ms: Seq<(Seq<char>, JsonView)>, n: int, data_len: u64)
    requires
        tensors_of(ms, n, data_len) is Ok,
    ensures
        forall|i: int|
            0 <= i < tensors_of(ms, n, data_len)->Ok_0.len() ==> (#[trigger] tensors_of(ms, n, data_len)->Ok_0[i]).data_start
                <= tensors_of(ms, n, data_len)->Ok_0[i].data_end <= data_len,
    decreases n,
{
    if n > 0 {
        lemma_tensors_of_bounds(ms, n - 1, data_len);
    }
}

/// Two payload ranges share a byte.
pub open spec fn ranges_overlap(a: TensorView, b: TensorView) -> bool {
    a.data_start < b.data_end && b.data_start < a.data_end
}

/// What parsing a header gives when `bytes` starts the file and the file is `file_len` bytes
/// long: the data-section offset and the tensor entries, or the first failing check.
pub open spec fn header_outcome_in(bytes: Seq<u8>, file_len: int) -> Result<(u64, Seq<TensorView>), &'static str> {
    if bytes.len() < 8 {
        Err("missing safetensors header length")
    } else if u64_at(bytes, 0) == 0 {
        Err("safetensors header length must be nonzero")
    } else if 8 + u64_at(bytes, 0) > u64::MAX {
        Err("safetensors header boundary overflow")
    } else if 8 + u64_at(bytes, 0) > usize::MAX {
        Err("safetensors header end does not fit usize")
    } else if 8 + u64_at(bytes, 0) > file_len || 8 + u64_at(bytes, 0) > bytes.len() {
        Err("safetensors header extends beyond file")
    } else {
        let start = 8 + u64_at(bytes, 0);
        match json_document(bytes.subrange(8, start)) {
            None => Err("invalid safetensors header JSON"),
            Some(root) => match header_tensors_outcome(root, (file_len - start) as u64) {
                Err(e) => Err(e),
                Ok(ts) => Ok((start as u64, ts)),
            },
        }
    }
}

/// The tensor entries a parsed header JSON describes for a data section of `data_len` bytes, or
/// the first failing check: the header is an object, each entry is well formed, there is at
/// least one tensor, and no two payloads share a byte.
pub open spec fn header_tensors_outcome(root: JsonView, data_len: u64) -> Result<Seq<TensorView>, &'static str> {
    match root {
        JsonView::Object(ms) => match tensors_of(ms, ms.len() as int, data_len) {
            Err(e) => Err(e),
            Ok(ts) => if ts.len() == 0 {
                Err("safetensors file contains no tensors")
            } else if exists|i: int, j: int|
                0 <= i < ts.len() && 0 <= j < ts.len() && i != j && ranges_overlap(
                    #[trigger] ts[i],
                    #[trigger] ts[j],
                ) {
                Err("safetensors tensor payload ranges overlap")
            } else {
                Ok(ts)
            },
        },
        _ => Err("safetensors header must be a JSON object"),
    }
}

/// What `parse_header` returns for a whole file's bytes.
pub open spec fn header_outcome(bytes: Seq<u8>) -> Result<(u64, Seq<TensorView>), &'static str> {
    header_outcome_in(bytes, bytes.len() as int)
}

/// The dimensions of a shape array.
fn shape_of(items: &Vec<JsonValue>) -> (r: Option<Vec<u64>>)
    ensures
        match shape_dims(crate::json::items_view(items@)) {
            Some(d) => r matches Some(v) && v@ == d,
            None => r is None,
        },
{
    proof {
        lemma_items_view_all(items@);
    }
    let ghost iv = crate::json::items_view(items@);
    let mut dims: Vec<u64> = Vec::new();
    let mut i: usize = 0;
    while i < items.len()
        invariant
            i <= items@.len(),
            iv == crate::json::items_view(items@),
            iv.len() == items@.len(),
            forall|k: int| 0 <= k < items@.len() ==> #[trigger] iv[k] == json_view(items@[k]),
            shape_dims(iv.take(i as int)) == Some(dims@),
        decreases items@.len() - i,
    {
        assert(iv.take(i + 1).drop_last() =~= iv.take(i as int));
        assert(iv.take(i + 1).last() == json_view(items@[i as int]));
        match &items[i] {
            JsonValue::Number(Some(d)) => {
                dims.push(*d);
            },
            _ => {
                proof {
                    lemma_shape_dims_prefix_none(iv, i + 1, iv.len() as int);
                    assert(iv.take(iv.len() as int) =~= iv);
                }
                return None;
            },
        }
        i += 1;
    }
    assert(iv.take(i as int) =~= iv);
    Some(dims)
}

proof fn lemma_shape_dims_prefix_none(items: Seq<JsonView>, k: int, j: int)
    requires
        0 <= k <= j <= items.len(),
        shape_dims(items.take(k)) is None,
    ensures
        shape_dims(items.take(j)) is None,
    decreases j - k,
{
    if j > k {
        lemma_shape_dims_prefix_none(items, k, j - 1);
        assert(items.take(j).drop_last() =~= items.take(j - 1));
    }
}

/// The tensor entry for header member `name: v`.
fn tensor_entry_exec(name: &String, v: &JsonValue, data_len: u64) -> (r: Result<ParsedTensor, &'static str>)
    ensures
        match tensor_entry(name@, json_view(*v), data_len) {
            Ok(t) => r matches Ok(p) && tensor_view(p) == t,
            Err(e) => r == Err::<ParsedTensor, &'static str>(e),
        },
{
    let ms = match v {
        JsonValue::Object(ms) => ms,
        _ => {
            return Err("safetensors tensor entry must be an object");
        },
    };
    proof {
        lemma_members_view_all(ms@);
    }
    let dtype = match find_member(ms, "dtype") {
        Some(i) => match &ms[i].1 {
            JsonValue::Str(d) => d.clone(),
            _ => {
                return Err("safetensors tensor dtype is missing");
            },
        },
        None => {
            return Err("safetensors tensor dtype is missing");
        },
    };
    let shape = match find_member(ms, "shape") {
        Some(i) => match &ms[i].1 {
            JsonValue::Array(items) => match shape_of(items) {
                Some(d) => d,
                None => {
                    return Err("safetensors tensor shape contains a non-u64 dimension");
                },
            },
            _ => {
                return Err("safetensors tensor shape is missing");
            },
        },
        None => {
            return Err("safetensors tensor shape is missing");
        },
    };
    let offsets = match find_member(ms, "data_offsets") {
        Some(i) => match &ms[i].1 {
            JsonValue::Array(items) => items,
            _ => {
                return Err("safetensors tensor data_offsets is missing");
            },
        },
        None => {
            return Err("safetensors tensor data_offsets is missing");
        },
    };
    proof {
        lemma_items_view_all(offsets@);
    }
    if offsets.len() != 2 {
        return Err("safetensors tensor data_offsets must contain exactly two values");
    }
    let data_start = match &offsets[0] {
        JsonValue::Number(Some(x)) => *x,
        _ => {
            return Err("invalid safetensors tensor start offset");
        },
    };
    let data_end = match &offsets[1] {
        JsonValue::Number(Some(x)) => *x,
        _ => {
            return Err("invalid safetensors tensor end offset");
        },
    };
    if data_end < data_start {
        return Err("safetensors tensor offsets are descending");
    }
    if data_end > data_len {
        return Err("safetensors tensor payload lies outside data section");
    }
    Ok(ParsedTensor { name: name.clone(), dtype, shape, data_start, data_end })
}


/// The abstract entries of `ts`.
pub open spec fn tensors_view(ts: Seq<ParsedTensor>) -> Seq<TensorView> {
    ts.map_values(|t: ParsedTensor| tensor_view(t))
}

/// Parse and validate the header of a safetensors file of `file_len` bytes from its leading
/// `bytes`: a non-zero little-endian length prefix, a JSON object header inside the file,
/// well-formed tensor entries whose payloads lie in the data section, at least one tensor, and
/// no two payloads sharing a byte.
pub fn parse_header_in(bytes: &[u8], file_len: u64) -> (r: Result<ParsedHeader, PlePackIoError>)
    ensures
        match header_outcome_in(bytes@, file_len as int) {
            Ok((start, ts)) => r matches Ok(h) && h.data_section_start == start && tensors_view(
                h.tensors@,
            ) == ts,
            Err(msg) => r == Err::<ParsedHeader, PlePackIoError>(PlePackIoError::Format(msg)),
        },
        r matches Ok(h) ==> {
            &&& bytes@.len() >= 8
            &&& u64_at(bytes@, 0) != 0
            &&& h.data_section_start == 8 + u64_at(bytes@, 0)
            &&& h.data_section_start <= file_len
            &&& h.data_section_start <= bytes@.len()
            &&& tensors_fit_apart(h.tensors@, file_len - h.data_section_start)
        },
{
    let len = bytes.len();
    if len < SAFETENSORS_PREFIX_BYTES {
        return Err(PlePackIoError::Format("missing safetensors header length"));
    }
    let header_len = match read_u64(bytes, 0) {
        Ok(v) => v,
        Err(e) => {
            return Err(e);
        },
    };
    if header_len == 0 {
        return Err(PlePackIoError::Format("safetensors header length must be nonzero"));
    }
    let data_section_start = match 8u64.checked_add(header_len) {
        Some(v) => v,
        None => {
            return Err(PlePackIoError::Format("safetensors header boundary overflow"));
        },
    };
    if data_section_start > usize::MAX as u64 {
        return Err(PlePackIoError::Format("safetensors header end does not fit usize"));
    }
    let header_end = data_section_start as usize;
    if data_section_start > file_len || header_end > len {
        return Err(PlePackIoError::Format("safetensors header extends beyond file"));
    }
    let text = vstd::slice::slice_subrange(bytes, 8, header_end);
    let root = match parse_json(text) {
        Some(v) => v,
        None => {
            return Err(PlePackIoError::Format("invalid safetensors header JSON"));
        },
    };
    match header_tensors(&root, file_len - data_section_start) {
        Ok(tensors) => Ok(ParsedHeader { data_section_start, tensors }),
        Err(e) => Err(e),
    }
}

/// The tensor entries of a parsed safetensors header JSON whose data section holds `data_len`
/// bytes; `__metadata__` is skipped.
pub fn header_tensors(root: &JsonValue, data_len: u64) -> (r: Result<Vec<ParsedTensor>, PlePackIoError>)
    ensures
        match header_tensors_outcome(json_view(*root), data_len) {
            Ok(ts) => r matches Ok(v) && tensors_view(v@) == ts,
            Err(msg) => r == Err::<Vec<ParsedTensor>, PlePackIoError>(PlePackIoError::Format(msg)),
        },
        r matches Ok(v) ==> tensors_fit_apart(v@, data_len as int),
{
    proof {
        if let Ok(ts) = header_tensors_outcome(json_view(*root), data_len) {
            if let JsonView::Object(ms) = json_view(*root) {
                lemma_tensors_of_bounds(ms, ms.len() as int, data_len);
            }
        }
    }
    let ms = match root {
        JsonValue::Object(ms) => ms,
        _ => {
            return Err(PlePackIoError::Format("safetensors header must be a JSON object"));
        },
    };
    let ghost mv = members_view(ms@);
    proof {
        lemma_members_view_all(ms@);
    }
    let mut tensors: Vec<ParsedTensor> = Vec::new();
    assert(tensors_view(tensors@) =~= Seq::<TensorView>::empty());
    let mut i: usize = 0;
    while i < ms.len()
        invariant
            i <= ms@.len(),
            mv == members_view(ms@),
            mv.len() == ms@.len(),
            forall|k: int| 0 <= k < ms@.len() ==> #[trigger] mv[k] == (ms@[k].0@, json_view(ms@[k].1)),
            tensors_of(mv, i as int, data_len) == Ok::<Seq<TensorView>, &'static str>(tensors_view(tensors@)),
            json_view(*root) == JsonView::Object(mv),
        decreases ms@.len() - i,
    {
        let name = &ms[i].0;
        let is_metadata = same_text(name.as_str(), "__metadata__");
        if !is_metadata {
            match tensor_entry_exec(name, &ms[i].1, data_len) {
                Ok(t) => {
                    let ghost before = tensors@;
                    tensors.push(t);
                    assert(tensors_view(tensors@) =~= tensors_view(before).push(tensor_view(t)));
                },
                Err(e) => {
                    proof {
                        lemma_tensors_of_err(mv, i + 1, mv.len() as int, data_len);
                    }
                    return Err(PlePackIoError::Format(e));
                },
            }
        }
        i += 1;
    }
    if tensors.len() == 0 {
        return Err(PlePackIoError::Format("safetensors file contains no tensors"));
    }
    if any_overlap(&tensors) {
        return Err(PlePackIoError::Format("safetensors tensor payload ranges overlap"));
    }
    proof {
        let tv = tensors_view(tensors@);
        lemma_tensors_of_bounds(mv, mv.len() as int, data_len);
        assert forall|k: int| 0 <= k < tensors@.len() implies #[trigger] tv[k] == tensor_view(tensors@[k]) by {}
        assert forall|a: int, b: int|
            0 <= a < tensors@.len() && 0 <= b < tensors@.len() && a != b implies (#[trigger] tensors@[a]).data_end
            <= (#[trigger] tensors@[b]).data_start || tensors@[b].data_end <= tensors@[a].data_start by {
            assert(!ranges_overlap(tv[a], tv[b]));
        }
        assert forall|k: int| 0 <= k < tensors@.len() implies (#[trigger] tensors@[k]).data_start
            <= tensors@[k].data_end <= data_len by {
            assert(tv[k] == tensor_view(tensors@[k]));
        }
    }
    Ok(tensors)
}

/// Parse and validate the header of a whole safetensors file.
pub fn parse_header(bytes: &[u8]) -> (r: Result<ParsedHeader, PlePackIoError>)
    ensures
        match header_outcome(bytes@) {
            Ok((start, ts)) => r matches Ok(h) && h.data_section_start == start && tensors_view(
                h.tensors@,
            ) == ts,
            Err(msg) => r == Err::<ParsedHeader, PlePackIoError>(PlePackIoError::Format(msg)),
        },
        r matches Ok(h) ==> h.data_section_start <= bytes@.len() && tensors_fit_apart(
            h.tensors@,
            bytes@.len() - h.data_section_start,
        ),
{
    parse_header_in(bytes, bytes.len() as u64)
}

/// Whether two tensors' payloads share a byte.
fn any_overlap(tensors: &Vec<ParsedTensor>) -> (r: bool)
    ensures
        r == exists|i: int, j: int|
            0 <= i < tensors@.len() && 0 <= j < tensors@.len() && i != j && ranges_overlap(
                #[trigger] tensors_view(tensors@)[i],
                #[trigger] tensors_view(tensors@)[j],
            ),
{
    let ghost tv = tensors_view(tensors@);
    assert forall|k: int| 0 <= k < tensors@.len() implies #[trigger] tv[k] == tensor_view(tensors@[k]) by {}
    let mut a: usize = 0;
    while a < tensors.len()
        invariant
            a <= tensors@.len(),
            tv == tensors_view(tensors@),
            tv.len() == tensors@.len(),
            forall|x: int, y: int|
                0 <= x < a && 0 <= y < tv.len() && x != y ==> !ranges_overlap(#[trigger] tv[x], #[trigger] tv[y]),
        decreases tensors@.len() - a,
    {
        let mut b: usize = 0;
        while b < tensors.len()
            invariant
                a < tensors@.len(),
                b <= tensors@.len(),
                tv == tensors_view(tensors@),
                tv.len() == tensors@.len(),
                forall|x: int, y: int|
                    0 <= x < a && 0 <= y < tv.len() && x != y ==> !ranges_overlap(#[trigger] tv[x], #[trigger] tv[y]),
                forall|y: int| 0 <= y < b && a != y ==> !ranges_overlap(tv[a as int], #[trigger] tv[y]),
            decreases tensors@.len() - b,
        {
            if a != b && tensors[a].data_start < tensors[b].data_end && tensors[b].data_start
                < tensors[a].data_end {
                assert(ranges_overlap(tv[a as int], tv[b as int]));
                return true;
            }
            b += 1;
        }
        a += 1;
    }
    false
}

proof fn lemma_tensors_of_err(ms: Seq<(Seq<char>, JsonView)>, k: int, j: int, data_len: u64)
    requires
        0 <= k <= j <= ms.len(),
        tensors_of(ms, k, data_len) is Err,
    ensures
        tensors_of(ms, j, data_len) == tensors_of(ms, k, data_len),
    decreases j - k,
{
    if j > k {
        lemma_tensors_of_err(ms, k, j - 1, data_len);
    }
}


/// The byte width of a row of `row_elements` BF16 elements, or the failing check.
pub open spec fn row_width(row_elements: u32) -> Result<u32, &'static str> {
    if row_elements * 2 > u32::MAX {
        Err("safetensors PLE row width exceeds u32")
    } else {
        Ok((row_elements * 2) as u32)
    }
}

/// The byte width of a row of `row_elements` BF16 elements.
pub fn row_bytes_for(row_elements: u32) -> (r: Result<u32, PlePackIoError>)
    ensures
        match row_width(row_elements) {
            Ok(w) => r == Ok::<u32, PlePackIoError>(w),
            Err(msg) => r == Err::<u32, PlePackIoError>(PlePackIoError::Format(msg)),
        },        r is Ok <==> row_elements * 2 <= u32::MAX,
        r matches Ok(w) ==> w == row_elements * 2,
{
    let wide = (row_elements as u64) * BF16_BYTES;
    if wide > 0xffff_ffff {
        return Err(PlePackIoError::Format("safetensors PLE row width exceeds u32"));
    }
    Ok(wide as u32)
}

/// A mapped file shorter than the header-length prefix cannot be a safetensors file.
pub fn check_file_len(file_len: u64) -> (r: Result<(), PlePackIoError>)
    ensures
        file_len < 8 ==> r == Err::<(), PlePackIoError>(
            PlePackIoError::Format("safetensors file is shorter than header-length prefix"),
        ),
        file_len >= 8 ==> r is Ok,
{
    if file_len < 8 {
        return Err(PlePackIoError::Format("safetensors file is shorter than header-length prefix"));
    }
    Ok(())
}

/// Index of the first tensor entry named `name`.
pub open spec fn first_named(ts: Seq<TensorView>, name: Seq<char>) -> Option<int> {
    if exists|i: int| 0 <= i < ts.len() && ts[i].name == name {
        Some(choose|i: int| 0 <= i < ts.len() && ts[i].name == name && forall|j: int| 0 <= j < i ==> ts[j].name != name)
    } else {
        None
    }
}

/// Where the payload of `part`'s tensor lies in its file (absolute `[start, end)`), or the
/// first failing check: the tensor exists, is BF16 of shape `[row_count, row_elements]`, has
/// exactly `row_count * row_bytes` payload bytes and ends inside the file.
pub open spec fn part_payload(
    data_section_start: u64,
    ts: Seq<TensorView>,
    part: SafetensorsPlePart,
    row_elements: u32,
    row_bytes: u32,
    file_len: u64,
) -> Result<(u64, u64), &'static str> {
    match first_named(ts, part.tensor_name@) {
        None => Err("manifest tensor is missing from safetensors header"),
        Some(i) => {
            let t = ts[i];
            if t.dtype != "BF16"@ {
                Err("PLE safetensors tensor dtype must be BF16")
            } else if t.shape.len() != 2 || t.shape[0] != part.row_count || t.shape[1] != row_elements {
                Err("PLE safetensors tensor shape does not match manifest geometry")
            } else if part.row_count * row_bytes > u64::MAX {
                Err("PLE safetensors tensor byte length overflow")
            } else if t.data_end < t.data_start {
                Err("safetensors tensor offsets are descending")
            } else if t.data_end - t.data_start != part.row_count * row_bytes {
                Err("PLE safetensors tensor byte length does not match shape")
            } else if data_section_start + t.data_start > u64::MAX {
                Err("safetensors tensor absolute offset overflow")
            } else if data_section_start + t.data_end > u64::MAX {
                Err("safetensors tensor absolute end overflow")
            } else if data_section_start + t.data_end > file_len {
                Err("safetensors tensor payload lies outside file")
            } else if data_section_start + t.data_end > usize::MAX {
                Err("safetensors tensor end does not fit usize")
            } else {
                Ok(((data_section_start + t.data_start) as u64, (data_section_start + t.data_end) as u64))
            }
        },
    }
}

/// Locate and check the payload of `part`'s tensor in a parsed header.
pub fn tensor_payload(
    header: &ParsedHeader,
    part: &SafetensorsPlePart,
    row_elements: u32,
    row_bytes: u32,
    file_len: u64,
) -> (r: Result<(usize, usize), PlePackIoError>)
    ensures
        match part_payload(
            header.data_section_start,
            tensors_view(header.tensors@),
            *part,
            row_elements,
            row_bytes,
            file_len,
        ) {
            Ok((start, end)) => r == Ok::<(usize, usize), PlePackIoError>((start as usize, end as usize)),
            Err(msg) => r == Err::<(usize, usize), PlePackIoError>(PlePackIoError::Format(msg)),
        },
        r matches Ok((a, b)) ==> {
            &&& b - a == part.row_count * row_bytes
            &&& b <= file_len
            &&& exists|k: int|
                0 <= k < header.tensors@.len() && (#[trigger] header.tensors@[k]).name@ == part.tensor_name@
                    && header.tensors@[k].dtype@ == "BF16"@ && header.tensors@[k].shape@ == seq![part.row_count, row_elements as u64]
                    && a == header.data_section_start + header.tensors@[k].data_start
        },
{
    let ghost tv = tensors_view(header.tensors@);
    let ts = &header.tensors;
    let mut i: usize = 0;
    while i < ts.len() && !same_text(ts[i].name.as_str(), part.tensor_name.as_str())
        invariant
            i <= ts@.len(),
            tv == tensors_view(ts@),
            forall|j: int| 0 <= j < i ==> tv[j].name != part.tensor_name@,
        decreases ts@.len() - i,
    {
        assert(tv[i as int] == tensor_view(ts@[i as int]));
        i += 1;
    }
    if i == ts.len() {
        return Err(PlePackIoError::Format("manifest tensor is missing from safetensors header"));
    }
    proof {
        assert(tv[i as int] == tensor_view(ts@[i as int]));
        let k = first_named(tv, part.tensor_name@)->0;
        assert(k == i) by {
            if k < i {
                assert(tv[k].name != part.tensor_name@);
            }
            if k > i {
                assert(tv[i as int].name == part.tensor_name@);
            }
        }
    }
    let t = &ts[i];
    if !same_text(t.dtype.as_str(), "BF16") {
        return Err(PlePackIoError::Format("PLE safetensors tensor dtype must be BF16"));
    }
    if t.shape.len() != 2 || t.shape[0] != part.row_count || t.shape[1] != row_elements as u64 {
        return Err(PlePackIoError::Format("PLE safetensors tensor shape does not match manifest geometry"));
    }
    let expected = match part.row_count.checked_mul(row_bytes as u64) {
        Some(v) => v,
        None => {
            return Err(PlePackIoError::Format("PLE safetensors tensor byte length overflow"));
        },
    };
    if t.data_end < t.data_start {
        return Err(PlePackIoError::Format("safetensors tensor offsets are descending"));
    }
    if t.data_end - t.data_start != expected {
        return Err(PlePackIoError::Format("PLE safetensors tensor byte length does not match shape"));
    }
    let start = match header.data_section_start.checked_add(t.data_start) {
        Some(v) => v,
        None => {
            return Err(PlePackIoError::Format("safetensors tensor absolute offset overflow"));
        },
    };
    let end = match header.data_section_start.checked_add(t.data_end) {
        Some(v) => v,
        None => {
            return Err(PlePackIoError::Format("safetensors tensor absolute end overflow"));
        },
    };
    if end > file_len {
        return Err(PlePackIoError::Format("safetensors tensor payload lies outside file"));
    }
    if end > usize::MAX as u64 {
        return Err(PlePackIoError::Format("safetensors tensor end does not fit usize"));
    }
    Ok((start as usize, end as usize))
}

/// Length-prefixed string bytes as they enter the digest stream.
pub open spec fn digest_text(s: Seq<char>) -> Seq<u8> {
    spec_u64_to_le_bytes(encode_utf8(s).len() as u64) + encode_utf8(s)
}

/// The digest stream before any part: domain, model ID, revision, row width, part count.
pub open spec fn digest_prefix(m: SafetensorsPleManifest) -> Seq<u8> {
    DIGEST_DOMAIN@ + digest_text(m.model_id@) + digest_text(m.model_revision@) + spec_u32_to_le_bytes(
        m.row_elements,
    ) + spec_u64_to_le_bytes(m.parts@.len() as u64)
}

/// What one part adds to the digest stream: file, tensor name, row start, row count, payload.
pub open spec fn digest_part(p: SafetensorsPlePart, payload: Seq<u8>) -> Seq<u8> {
    digest_text(p.file@) + digest_text(p.tensor_name@) + spec_u64_to_le_bytes(p.logical_row_start)
        + spec_u64_to_le_bytes(p.row_count) + payload
}

/// The digest of a safetensors PLE source, fed part by part.
pub struct SourceDigest {
    stream: Sha256Stream,
}

impl SourceDigest {
    /// The bytes fed so far.
    pub closed spec fn fed(&self) -> Seq<u8> {
        absorbed(self.stream)
    }

    fn absorb_text(&mut self, s: &str)
        ensures
            final(self).fed() == old(self).fed() + digest_text(s@),
    {
        let bytes = s.as_bytes();
        let len = u64_to_le_bytes(bytes.len() as u64);
        sha256_update(&mut self.stream, len.as_slice());
        sha256_update(&mut self.stream, bytes);
        assert(old(self).fed() + len@ + bytes@ =~= old(self).fed() + digest_text(s@));
    }

    /// Start the stream for `m`.
    pub fn begin(m: &SafetensorsPleManifest) -> (r: Self)
        ensures
            r.fed() == digest_prefix(*m),
    {
        let mut d = SourceDigest { stream: sha256_new() };
        sha256_update(&mut d.stream, DIGEST_DOMAIN.as_slice());
        d.absorb_text(m.model_id.as_str());
        d.absorb_text(m.model_revision.as_str());
        let re = u32_to_le_bytes(m.row_elements);
        sha256_update(&mut d.stream, re.as_slice());
        let n = u64_to_le_bytes(m.parts.len() as u64);
        sha256_update(&mut d.stream, n.as_slice());
        assert(d.fed() =~= digest_prefix(*m));
        d
    }

    /// Feed one part and its tensor payload.
    pub fn absorb_part(&mut self, p: &SafetensorsPlePart, payload: &[u8])
        ensures
            final(self).fed() == old(self).fed() + digest_part(*p, payload@),
    {
        self.absorb_text(p.file.as_str());
        self.absorb_text(p.tensor_name.as_str());
        let a = u64_to_le_bytes(p.logical_row_start);
        sha256_update(&mut self.stream, a.as_slice());
        let b = u64_to_le_bytes(p.row_count);
        sha256_update(&mut self.stream, b.as_slice());
        sha256_update(&mut self.stream, payload);
        assert(final(self).fed() =~= old(self).fed() + digest_part(*p, payload@));
    }

    /// The digest of everything fed.
    pub fn finish(self) -> (r: [u8; 32])
        ensures
            r@ == sha256(self.fed()),
    {
        sha256_finalize(self.stream)
    }
}

/// What parts `0..n` add to the digest stream, part `i` with tensor payload `payloads[i]`.
pub open spec fn parts_stream(parts: Seq<SafetensorsPlePart>, payloads: Seq<Seq<u8>>, n: int) -> Seq<u8>
    decreases n,
{
    if n <= 0 {
        Seq::empty()
    } else {
        parts_stream(parts, payloads, n - 1) + digest_part(parts[n - 1], payloads[n - 1])
    }
}

/// The whole digest stream of a source with manifest `m` whose part `i` has tensor payload
/// `payloads[i]`: the manifest prefix, then every part in manifest order.
pub open spec fn source_stream(m: SafetensorsPleManifest, payloads: Seq<Seq<u8>>) -> Seq<u8> {
    digest_prefix(m) + parts_stream(m.parts@, payloads, m.parts@.len() as int)
}

/// The byte contents of `slices`.
pub open spec fn slices_view<'a>(slices: Seq<&'a [u8]>) -> Seq<Seq<u8>> {
    slices.map_values(|x: &'a [u8]| x@)
}

/// The source digest of manifest `m` whose part `i` has tensor payload `payloads[i]`: the
/// SHA-256 of the manifest prefix followed by every part and its payload, in manifest order.
pub fn source_digest(m: &SafetensorsPleManifest, payloads: &Vec<&[u8]>) -> (r: [u8; 32])
    requires
        payloads@.len() == m.parts@.len(),
    ensures
        r@ == sha256(source_stream(*m, slices_view(payloads@))),
{
    let ghost pv = slices_view(payloads@);
    let mut d = SourceDigest::begin(m);
    let mut i: usize = 0;
    while i < m.parts.len()
        invariant
            i <= m.parts@.len(),
            payloads@.len() == m.parts@.len(),
            pv == slices_view(payloads@),
            d.fed() == digest_prefix(*m) + parts_stream(m.parts@, pv, i as int),
        decreases m.parts@.len() - i,
    {
        d.absorb_part(&m.parts[i], payloads[i]);
        assert(pv[i as int] == payloads@[i as int]@);
        assert(digest_prefix(*m) + parts_stream(m.parts@, pv, i as int) + digest_part(m.parts@[i as int], pv[i as int])
            =~= digest_prefix(*m) + parts_stream(m.parts@, pv, i + 1));
        i += 1;
    }
    d.finish()
}

/// Parts with payloads of equal lengths add streams of equal lengths.
proof fn lemma_parts_stream_len(parts: Seq<SafetensorsPlePart>, a: Seq<Seq<u8>>, b: Seq<Seq<u8>>, n: int)
    requires
        0 <= n <= a.len(),
        a.len() == b.len(),
        forall|i: int| 0 <= i < n ==> (#[trigger] a[i]).len() == b[i].len(),
    ensures
        parts_stream(parts, a, n).len() == parts_stream(parts, b, n).len(),
    decreases n,
{
    if n > 0 {
        lemma_parts_stream_len(parts, a, b, n - 1);
        assert(a[n - 1].len() == b[n - 1].len());
    }
}

/// The digest stream binds every referenced payload byte: two sources of the same manifest
/// whose part payloads have the same lengths feed the same stream only when every payload is
/// the same. (Different payloads therefore give different source digests unless SHA-256
/// collides.)
pub proof fn law_source_stream_binds_payloads(m: SafetensorsPleManifest, a: Seq<Seq<u8>>, b: Seq<Seq<u8>>)
    requires
        a.len() == m.parts@.len(),
        b.len() == m.parts@.len(),
        forall|i: int| 0 <= i < a.len() ==> (#[trigger] a[i]).len() == b[i].len(),
        source_stream(m, a) == source_stream(m, b),
    ensures
        a == b,
{
    let pre = digest_prefix(m);
    let n = m.parts@.len() as int;
    assert(parts_stream(m.parts@, a, n) =~= source_stream(m, a).subrange(pre.len() as int, source_stream(m, a).len() as int));
    assert(parts_stream(m.parts@, b, n) =~= source_stream(m, b).subrange(pre.len() as int, source_stream(m, b).len() as int));
    lemma_parts_stream_equal(m.parts@, a, b, n);
    assert(a =~= b);
}

/// Equal part streams with equal payload lengths have equal payloads.
#[verifier::spinoff_prover]
#[verifier::rlimit(40)]
proof fn lemma_parts_stream_equal(parts: Seq<SafetensorsPlePart>, a: Seq<Seq<u8>>, b: Seq<Seq<u8>>, n: int)
    requires
        0 <= n <= a.len(),
        a.len() == b.len(),
        forall|i: int| 0 <= i < a.len() ==> (#[trigger] a[i]).len() == b[i].len(),
        parts_stream(parts, a, n) == parts_stream(parts, b, n),
    ensures
        forall|i: int| 0 <= i < n ==> (#[trigger] a[i]) == b[i],
    decreases n,
{
    if n > 0 {
        let sa = parts_stream(parts, a, n - 1);
        let sb = parts_stream(parts, b, n - 1);
        let ta = digest_part(parts[n - 1], a[n - 1]);
        let tb = digest_part(parts[n - 1], b[n - 1]);
        lemma_parts_stream_len(parts, a, b, n - 1);
        assert(sa + ta == sb + tb);
        assert(sa =~= (sa + ta).subrange(0, sa.len() as int));
        assert(sb =~= (sb + tb).subrange(0, sb.len() as int));
        assert(ta =~= (sa + ta).subrange(sa.len() as int, (sa + ta).len() as int));
        assert(tb =~= (sb + tb).subrange(sb.len() as int, (sb + tb).len() as int));
        lemma_parts_stream_equal(parts, a, b, n - 1);
        let meta = digest_text(parts[n - 1].file@) + digest_text(parts[n - 1].tensor_name@)
            + spec_u64_to_le_bytes(parts[n - 1].logical_row_start) + spec_u64_to_le_bytes(parts[n - 1].row_count);
        assert(ta == meta + a[n - 1]);
        assert(tb == meta + b[n - 1]);
        assert(a[n - 1] =~= ta.subrange(meta.len() as int, ta.len() as int));
        assert(b[n - 1] =~= tb.subrange(meta.len() as int, tb.len() as int));
    }
}

/// The logical row count of a manifest's parts, or the failing check.
pub open spec fn manifest_rows(parts: Seq<SafetensorsPlePart>, n: int) -> Option<int>
    decreases n,
{
    if n <= 0 {
        Some(0)
    } else {
        match manifest_rows(parts, n - 1) {
            None => None,
            Some(t) => if t + parts[n - 1].row_count > u64::MAX {
                None
            } else {
                Some(t + parts[n - 1].row_count)
            },
        }
    }
}

/// The total logical row count of a manifest, which must fit the `u32` row-ID space.
pub fn total_rows(m: &SafetensorsPleManifest) -> (r: Result<u64, PlePackIoError>)
    ensures
        match manifest_rows(m.parts@, m.parts@.len() as int) {
            None => r == Err::<u64, PlePackIoError>(PlePackIoError::Format("safetensors PLE row count overflow")),
            Some(t) => if t > LOGICAL_ROW_SPACE {
                r == Err::<u64, PlePackIoError>(
                    PlePackIoError::Layout(PlePackError::InvalidGeometry("logical row space must fit u32 row identifiers")),
                )
            } else {
                r == Ok::<u64, PlePackIoError>(t as u64)
            },
        },
{
    let mut total: u64 = 0;
    let mut i: usize = 0;
    while i < m.parts.len()
        invariant
            i <= m.parts@.len(),
            manifest_rows(m.parts@, i as int) == Some(total as int),
        decreases m.parts@.len() - i,
    {
        total = match total.checked_add(m.parts[i].row_count) {
            Some(t) => t,
            None => {
                proof {
                    lemma_manifest_rows_none(m.parts@, i + 1, m.parts@.len() as int);
                }
                return Err(PlePackIoError::Format("safetensors PLE row count overflow"));
            },
        };
        i += 1;
    }
    if total > LOGICAL_ROW_SPACE {
        return Err(
            PlePackIoError::Layout(PlePackError::InvalidGeometry("logical row space must fit u32 row identifiers")),
        );
    }
    Ok(total)
}

proof fn lemma_manifest_rows_none(parts: Seq<SafetensorsPlePart>, k: int, j: int)
    requires
        0 <= k <= j,
        manifest_rows(parts, k) is None,
    ensures
        manifest_rows(parts, j) is None,
    decreases j - k,
{
    if j > k {
        lemma_manifest_rows_none(parts, k, j - 1);
    }
}


/// Where one mapped part's rows lie: its logical rows and its payload bytes in the mapping.
#[derive(Clone, Copy, Debug, PartialEq, Eq)]
pub struct RowSpan {
    /// First logical row of the part.
    pub logical_row_start: u64,
    /// Number of logical rows of the part.
    pub row_count: u64,
    /// Offset of the part's payload in its mapping.
    pub data_start: usize,
    /// End (exclusive) of the part's payload in its mapping.
    pub data_end: usize,
}

/// Span `sp` holds logical row `row`.
pub open spec fn holds_row(sp: RowSpan, row: int) -> bool {
    sp.logical_row_start <= row < sp.logical_row_start + sp.row_count
}

/// Index of the first span that holds logical row `row`.
pub open spec fn span_of(spans: Seq<RowSpan>, row: int) -> Option<int> {
    if exists|i: int| 0 <= i < spans.len() && holds_row(#[trigger] spans[i], row) {
        Some(
            choose|i: int|
                0 <= i < spans.len() && holds_row(spans[i], row) && forall|j: int|
                    0 <= j < i ==> !holds_row(#[trigger] spans[j], row),
        )
    } else {
        None
    }
}

/// Where logical row `row` of width `row_bytes` lies: `(span, start, end)` in that span's
/// mapping, or the failing check, in the order checked.
pub open spec fn row_location(
    spans: Seq<RowSpan>,
    row_count: u64,
    row_bytes: u32,
    row: u32,
    dst_len: usize,
) -> Result<(int, int, int), PlePackIoError> {
    if row >= row_count {
        Err(PlePackIoError::Layout(PlePackError::LogicalRowOutOfRange { row, row_count }))
    } else if dst_len != row_bytes {
        Err(PlePackIoError::RowBufferWidth { expected: row_bytes as usize, actual: dst_len })
    } else {
        match span_of(spans, row as int) {
            None => Err(PlePackIoError::Format("logical PLE row is not covered by mapped safetensors parts")),
            Some(i) => {
                let sp = spans[i];
                let offset = (row - sp.logical_row_start) * row_bytes;
                if offset > u64::MAX {
                    Err(PlePackIoError::Format("safetensors PLE row offset overflow"))
                } else if offset > usize::MAX {
                    Err(PlePackIoError::Format("safetensors PLE row offset does not fit usize"))
                } else if sp.data_start + offset > usize::MAX {
                    Err(PlePackIoError::Format("safetensors PLE absolute row offset overflow"))
                } else if sp.data_start + offset + row_bytes > usize::MAX {
                    Err(PlePackIoError::Format("safetensors PLE row end overflow"))
                } else if sp.data_start + offset + row_bytes > sp.data_end {
                    Err(PlePackIoError::Format("safetensors PLE row exceeds tensor payload"))
                } else {
                    Ok((i, sp.data_start + offset, sp.data_start + offset + row_bytes))
                }
            },
        }
    }
}

/// Locate logical row `row` among the mapped parts, for a destination of `dst_len` bytes.
pub fn locate_row(spans: &[RowSpan], row_count: u64, row_bytes: u32, row: u32, dst_len: usize) -> (r:
    Result<(usize, usize, usize), PlePackIoError>)
    ensures
        match row_location(spans@, row_count, row_bytes, row, dst_len) {
            Ok((i, start, end)) => r matches Ok((a, b, c)) && a == i && b == start && c == end,
            Err(PlePackIoError::Format(msg)) => r == Err::<(usize, usize, usize), PlePackIoError>(
                PlePackIoError::Format(msg),
            ),
            Err(PlePackIoError::Layout(e)) => r == Err::<(usize, usize, usize), PlePackIoError>(
                PlePackIoError::Layout(e),
            ),
            Err(PlePackIoError::RowBufferWidth { expected, actual }) => r == Err::<
                (usize, usize, usize),
                PlePackIoError,
            >(PlePackIoError::RowBufferWidth { expected, actual }),
            Err(_) => false,
        },
        r matches Ok((k, a, b)) ==> {
            &&& row < row_count
            &&& dst_len == row_bytes
            &&& 0 <= k < spans@.len()
            &&& spans@[k as int].logical_row_start <= row < spans@[k as int].logical_row_start + spans@[k as int].row_count
            &&& a == spans@[k as int].data_start + (row - spans@[k as int].logical_row_start) * row_bytes
            &&& b == a + row_bytes
            &&& b <= spans@[k as int].data_end
        },
{
    if row as u64 >= row_count {
        return Err(PlePackIoError::Layout(PlePackError::LogicalRowOutOfRange { row, row_count }));
    }
    let expected = row_bytes as usize;
    if dst_len != expected {
        return Err(PlePackIoError::RowBufferWidth { expected, actual: dst_len });
    }
    let logical = row as u64;
    let mut i: usize = 0;
    while i < spans.len()
        invariant
            i <= spans@.len(),
            logical == row,
            row < row_count,
            dst_len == row_bytes,
            expected == row_bytes,
            forall|j: int| 0 <= j < i ==> !holds_row(#[trigger] spans@[j], row as int),
        decreases spans@.len() - i,
    {
        let sp = spans[i];
        if logical >= sp.logical_row_start && logical - sp.logical_row_start < sp.row_count {
            proof {
                let k = span_of(spans@, row as int)->0;
                assert(holds_row(spans@[i as int], row as int));
                assert(k == i) by {
                    if k < i {
                        assert(!holds_row(spans@[k], row as int));
                    }
                    if k > i {
                        assert(!holds_row(spans@[i as int], row as int));
                    }
                }
            }
            let relative = logical - sp.logical_row_start;
            let rb = row_bytes as u64;
            assert(relative * rb == (row - spans@[i as int].logical_row_start) * row_bytes) by {
                assert(relative == row - spans@[i as int].logical_row_start);
                assert(rb == row_bytes);
            }
            let offset = match relative.checked_mul(rb) {
                Some(v) => v,
                None => {
                    return Err(PlePackIoError::Format("safetensors PLE row offset overflow"));
                },
            };
            if offset > usize::MAX as u64 {
                return Err(PlePackIoError::Format("safetensors PLE row offset does not fit usize"));
            }
            let start = match sp.data_start.checked_add(offset as usize) {
                Some(v) => v,
                None => {
                    return Err(PlePackIoError::Format("safetensors PLE absolute row offset overflow"));
                },
            };
            let end = match start.checked_add(expected) {
                Some(v) => v,
                None => {
                    return Err(PlePackIoError::Format("safetensors PLE row end overflow"));
                },
            };
            if end > sp.data_end {
                return Err(PlePackIoError::Format("safetensors PLE row exceeds tensor payload"));
            }
            return Ok((i, start, end));
        }
        i += 1;
    }
    Err(PlePackIoError::Format("logical PLE row is not covered by mapped safetensors parts"))
}


/// `spans` map the manifest parts `parts` in order: span `i` holds part `i`'s logical rows and
/// exactly their `row_bytes`-wide payload.
pub open spec fn spans_of(parts: Seq<SafetensorsPlePart>, spans: Seq<RowSpan>, row_bytes: u32) -> bool {
    &&& spans.len() == parts.len()
    &&& forall|i: int|
        0 <= i < spans.len() ==> {
            let sp = #[trigger] spans[i];
            &&& sp.logical_row_start == parts[i].logical_row_start
            &&& sp.row_count == parts[i].row_count
            &&& sp.data_start <= sp.data_end
            &&& sp.data_end - sp.data_start == parts[i].row_count * row_bytes
        }
}

/// A prefix of parts whose total fits counts fits too, and adds up part by part.
proof fn lemma_manifest_rows_prefix(parts: Seq<SafetensorsPlePart>, i: int, n: int)
    requires
        0 <= i <= n <= parts.len(),
        manifest_rows(parts, n) is Some,
    ensures
        manifest_rows(parts, i) is Some,
        manifest_rows(parts, i)->0 <= manifest_rows(parts, n)->0,
    decreases n - i,
{
    if i < n {
        lemma_manifest_rows_prefix(parts, i, n - 1);
    }
}

/// Parts that pass the manifest checks from `i` on tile the rows from the total of the first
/// `i` parts up to the total of all parts: each such row lies in some part from `i` on.
proof fn lemma_parts_tile(parts: Seq<SafetensorsPlePart>, i: int, row: int)
    requires
        0 <= i <= parts.len(),
        manifest_rows(parts, parts.len() as int) is Some,
        manifest_rows(parts, i) is Some,
        parts_error(parts, i, manifest_rows(parts, i)->0) is None,
        manifest_rows(parts, i)->0 <= row < manifest_rows(parts, parts.len() as int)->0,
    ensures
        exists|j: int|
            i <= j < parts.len() && parts[j].logical_row_start <= row < parts[j].logical_row_start
                + #[trigger] parts[j].row_count,
    decreases parts.len() - i,
{
    let next = manifest_rows(parts, i)->0;
    if i == parts.len() {
        assert(false);
    } else {
        lemma_manifest_rows_prefix(parts, i + 1, parts.len() as int);
        assert(manifest_rows(parts, i + 1)->0 == next + parts[i].row_count);
        if row >= next + parts[i].row_count {
            lemma_parts_tile(parts, i + 1, row);
        }
    }
}

/// When some span holds `row`, a first one does.
proof fn lemma_first_span(spans: Seq<RowSpan>, row: int, j: int)
    requires
        0 <= j < spans.len(),
        holds_row(spans[j], row),
    ensures
        exists|i: int|
            0 <= i < spans.len() && holds_row(spans[i], row) && forall|k: int|
                0 <= k < i ==> !holds_row(#[trigger] spans[k], row),
    decreases j,
{
    if exists|k: int| 0 <= k < j && holds_row(#[trigger] spans[k], row) {
        let k = choose|k: int| 0 <= k < j && holds_row(#[trigger] spans[k], row);
        lemma_first_span(spans, row, k);
    } else {
        assert(forall|k: int| 0 <= k < j ==> !holds_row(#[trigger] spans[k], row));
    }
}

/// A row a span holds lies inside that span's payload when the payload is exactly its rows.
proof fn lemma_row_in_span(sp: RowSpan, row: u32, row_bytes: u32)
    requires
        holds_row(sp, row as int),
        sp.data_start <= sp.data_end,
        sp.data_end - sp.data_start == sp.row_count * row_bytes,
    ensures
        0 <= (row - sp.logical_row_start) * row_bytes,
        sp.data_start + (row - sp.logical_row_start) * row_bytes + row_bytes <= sp.data_end,
{
    let rel = row - sp.logical_row_start;
    assert(rel * row_bytes + row_bytes <= sp.row_count * row_bytes) by (nonlinear_arith)
        requires
            0 <= rel < sp.row_count,
            row_bytes >= 0,
    ;
    assert(0 <= rel * row_bytes) by (nonlinear_arith)
        requires
            0 <= rel,
            row_bytes >= 0,
    ;
}

/// Every logical row of a valid manifest is found in its mapped parts: locating it succeeds,
/// in a part that holds it, at that row's place in the part's payload.
pub proof fn law_valid_manifest_locates_every_row(
    m: SafetensorsPleManifest,
    spans: Seq<RowSpan>,
    row_bytes: u32,
    row: u32,
)
    requires
        manifest_error(m) is None,
        manifest_rows(m.parts@, m.parts@.len() as int) is Some,
        spans_of(m.parts@, spans, row_bytes),
        row < manifest_rows(m.parts@, m.parts@.len() as int)->0,
    ensures
        ({
            let total = manifest_rows(m.parts@, m.parts@.len() as int)->0;
            &&& row_location(spans, total as u64, row_bytes, row, row_bytes as usize) is Ok
            &&& row_location(spans, total as u64, row_bytes, row, row_bytes as usize) matches Ok((i, start, end))
                && holds_row(spans[i], row as int) && start == spans[i].data_start + (row
                - spans[i].logical_row_start) * row_bytes && end == start + row_bytes
        }),
{
    let parts = m.parts@;
    assert(parts_error(parts, 0, 0) is None);
    lemma_parts_tile(parts, 0, row as int);
    let j = choose|j: int|
        0 <= j < parts.len() && parts[j].logical_row_start <= row < parts[j].logical_row_start
            + #[trigger] parts[j].row_count;
    assert(spans[j].logical_row_start == parts[j].logical_row_start);
    assert(holds_row(spans[j], row as int));
    lemma_first_span(spans, row as int, j);
    let i = span_of(spans, row as int)->0;
    assert(0 <= i < spans.len() && holds_row(spans[i], row as int));
    let sp = spans[i];
    assert(sp.data_end - sp.data_start == parts[i].row_count * row_bytes);
    lemma_row_in_span(sp, row, row_bytes);
}


/// An accepted manifest: non-blank identity, non-zero row width, at least one part, and parts
/// with non-blank names, paths inside the model directory and non-zero row counts that tile
/// logical rows from 0 on, part after part.
pub open spec fn manifest_is_sound(m: SafetensorsPleManifest) -> bool {
    &&& !all_white_space(m.model_id@)
    &&& !all_white_space(m.model_revision@)
    &&& m.row_elements != 0
    &&& m.parts@.len() > 0
    &&& m.parts@[0].logical_row_start == 0
    &&& forall|i: int| 0 <= i < m.parts@.len() ==> parts_sound_at(m.parts@, i)
}

/// Part `i` is named, stays inside the model directory, holds rows, and (if another follows)
/// ends where the next one starts.
pub open spec fn parts_sound_at(parts: Seq<SafetensorsPlePart>, i: int) -> bool {
    let p = parts[i];
    &&& !all_white_space(p.file@)
    &&& !all_white_space(p.tensor_name@)
    &&& !escapes_directory(p.file@)
    &&& p.row_count != 0
    &&& p.logical_row_start + p.row_count <= u64::MAX
    &&& i + 1 < parts.len() ==> parts[i + 1].logical_row_start == p.logical_row_start + p.row_count
}

/// Parts `i..` that pass the checks from row `next` on are sound and start at `next`.
proof fn lemma_parts_sound(parts: Seq<SafetensorsPlePart>, i: int, next: int)
    requires
        0 <= i,
        parts_error(parts, i, next) is None,
    ensures
        i < parts.len() ==> parts[i].logical_row_start == next,
        forall|k: int| i <= k < parts.len() ==> #[trigger] parts_sound_at(parts, k),
    decreases parts.len() - i,
{
    if i < parts.len() {
        lemma_parts_sound(parts, i + 1, next + parts[i].row_count);
    }
}
} // verus!
