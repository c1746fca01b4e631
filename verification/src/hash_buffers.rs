//! Bounded physical verification of the persistent Qwen3.8 PLE hash buffers: which files hold
//! them, what their tensors must look like, and the pinned values their payloads must hold.
use crate::disk::u64_at;
use crate::format::PlePackIoError;
use crate::json::{
    find_member, get, json_document, json_view, lemma_members_view_all, member_total, members_all_kept,
    parse_json, text_members, JsonValue, JsonView,
};
use crate::safetensors::{
    escapes_directory, first_named, header_outcome_in, parse_header_in, path_escapes, tensors_view,
    ParsedHeader, TensorView,
};
use crate::text::{all_white_space, chars_of, is_blank, same_text, subrange_equals};
use vstd::prelude::*;

verus! {

/// Largest `model.safetensors.index.json` the verifier reads.
pub const MAX_INDEX_BYTES: u64 = 16 * 1024 * 1024;

/// Largest safetensors header (prefix included) the verifier reads.
pub const MAX_SAFETENSORS_HEADER_BYTES: u64 = 16 * 1024 * 1024;

/// Bytes of one `I64` element.
pub const I64_BYTES: u64 = 8;

/// Number of persistent Qwen3.8 PLE hash buffers checked by the bounded verifier.
pub const QWEN38_PLE_HASH_BUFFER_COUNT: usize = 3;

/// Exact payload bytes read by a successful bounded Qwen3.8 PLE hash-buffer verification.
pub const QWEN38_PLE_HASH_BUFFER_PAYLOAD_BYTES: u64 = 280;

/// Pinned per-layer hash multipliers.
pub const LAYER_MULTIPLIERS: [i64; 3] = [23_703_573_157_769, 20_109_073_645_365, 8_052_911_324_071];

/// Pinned n-gram head vocabulary sizes.
pub const NGRAM_HEADS_VOCAB_SIZES: [i64; 16] = [
    20_000_003,
    20_000_023,
    20_000_033,
    20_000_047,
    20_000_059,
    20_000_063,
    20_000_069,
    20_000_077,
    20_000_081,
    20_000_093,
    20_000_107,
    20_000_147,
    20_000_153,
    20_000_159,
    20_000_161,
    20_000_171,
];

/// Pinned n-gram head row offsets.
pub const NGRAM_HEADS_OFFSETS: [i64; 16] = [
    0,
    20_000_003,
    40_000_026,
    60_000_059,
    80_000_106,
    100_000_165,
    120_000_228,
    140_000_297,
    160_000_374,
    180_000_455,
    200_000_548,
    220_000_655,
    240_000_802,
    260_000_955,
    280_001_114,
    300_001_275,
];

/// Local byte-read evidence of a successful hash-buffer verification.
#[derive(Clone, Copy, Debug, PartialEq, Eq)]
pub struct Qwen38PleHashBufferVerification {
    /// Number of required persistent hash buffers that matched their pinned values.
    pub buffers_verified: usize,
    /// Number of distinct safetensors files opened for the three buffers.
    pub files_read: usize,
    /// Exact bytes read from `model.safetensors.index.json`.
    pub index_bytes_read: u64,
    /// Exact prefix-plus-header bytes read from referenced safetensors files.
    pub header_bytes_read: u64,
    /// Exact selected tensor payload bytes read from referenced safetensors files.
    pub payload_bytes_read: u64,
}

/// Tensor name of hash buffer `k` (in verification order).
pub fn hash_buffer_name(k: usize) -> (r: &'static str)
    requires
        k < 3,
    ensures
        r@ == hash_buffer_name_spec(k as int),
{
    proof {
        reveal_strlit("model.language_model.layers.1.ple.ple_embedding.layer_multipliers");
        reveal_strlit("model.language_model.layers.1.ple.ple_embedding.ngram_heads_vocab_sizes");
        reveal_strlit("model.language_model.layers.1.ple.ple_embedding.ngram_heads_offsets");
    }
    if k == 0 {
        "model.language_model.layers.1.ple.ple_embedding.layer_multipliers"
    } else if k == 1 {
        "model.language_model.layers.1.ple.ple_embedding.ngram_heads_vocab_sizes"
    } else {
        "model.language_model.layers.1.ple.ple_embedding.ngram_heads_offsets"
    }
}

/// Tensor name of hash buffer `k`.
pub open spec fn hash_buffer_name_spec(k: int) -> Seq<char> {
    if k == 0 {
        "model.language_model.layers.1.ple.ple_embedding.layer_multipliers"@
    } else if k == 1 {
        "model.language_model.layers.1.ple.ple_embedding.ngram_heads_vocab_sizes"@
    } else {
        "model.language_model.layers.1.ple.ple_embedding.ngram_heads_offsets"@
    }
}

/// Pinned values of hash buffer `k`.
pub open spec fn expected_values(k: int) -> Seq<i64> {
    if k == 0 {
        LAYER_MULTIPLIERS@
    } else if k == 1 {
        NGRAM_HEADS_VOCAB_SIZES@
    } else {
        NGRAM_HEADS_OFFSETS@
    }
}

/// Pinned values of hash buffer `k`.
pub fn hash_buffer_expected(k: usize) -> (r: &'static [i64])
    requires
        k < 3,
    ensures
        r@ == expected_values(k as int),
{
    if k == 0 {
        LAYER_MULTIPLIERS.as_slice()
    } else if k == 1 {
        NGRAM_HEADS_VOCAB_SIZES.as_slice()
    } else {
        NGRAM_HEADS_OFFSETS.as_slice()
    }
}

/// Why a hash-buffer file path is rejected, if it is.
pub open spec fn hash_buffer_path_error(value: Seq<char>) -> Option<&'static str> {
    if all_white_space(value) {
        Some("Qwen3.8 hash-buffer mapped file path is empty")
    } else if !(value.len() >= 12 && value.subrange(value.len() - 12, value.len() as int) == ".safetensors"@) {
        Some("Qwen3.8 hash-buffer mapped file path must end in .safetensors")
    } else if escapes_directory(value) {
        Some("Qwen3.8 hash-buffer mapped file path escapes model directory")
    } else {
        None
    }
}

/// Check a hash-buffer file path: non-blank, a `.safetensors` file, inside the model directory.
pub fn safe_safetensors_relative_path(value: &str) -> (r: Result<(), PlePackIoError>)
    ensures
        match hash_buffer_path_error(value@) {
            Some(m) => r == Err::<(), PlePackIoError>(PlePackIoError::Format(m)),
            None => r is Ok,
        },        r is Ok <==> (!all_white_space(value@) && value@.len() >= 12 && value@.subrange(
            value@.len() - 12,
            value@.len() as int,
        ) == ".safetensors"@ && !escapes_directory(value@)),
{
    if is_blank(value) {
        return Err(PlePackIoError::Format("Qwen3.8 hash-buffer mapped file path is empty"));
    }
    let v = chars_of(value);
    let ext = chars_of(".safetensors");
    proof {
        reveal_strlit(".safetensors");
    }
    if v.len() < 12 || !subrange_equals(&v, v.len() - 12, v.len(), &ext) {
        return Err(PlePackIoError::Format("Qwen3.8 hash-buffer mapped file path must end in .safetensors"));
    }
    if path_escapes(value) {
        return Err(PlePackIoError::Format("Qwen3.8 hash-buffer mapped file path escapes model directory"));
    }
    Ok(())
}

/// The file of each hash buffer named by an index's weight map, or the first failure. An index
/// whose parsed document lost members the text writes (an object repeats a key) is invalid.
pub open spec fn hash_buffer_files_of(index: Seq<u8>) -> Result<Seq<Seq<char>>, &'static str> {
    match json_document(index) {
        None => Err("invalid model.safetensors.index.json"),
        Some(root) => if text_members(index) != member_total(root) {
            Err("invalid model.safetensors.index.json")
        } else {
            hash_buffer_files_in_root(root)
        },
    }
}

/// The file of each hash buffer named by a parsed index document, or the first failure.
pub open spec fn hash_buffer_files_in_root(root: JsonView) -> Result<Seq<Seq<char>>, &'static str> {
    match get(root, "weight_map"@) {
        Some(JsonView::Object(ms)) => files_from(ms, 0),
        _ => Err("safetensors index is missing weight_map object"),
    }
}

/// The files of hash buffers `k..3`, or the first failure.
pub open spec fn files_from(ms: Seq<(Seq<char>, JsonView)>, k: int) -> Result<Seq<Seq<char>>, &'static str>
    decreases 3 - k,
{
    if k < 0 || k >= 3 {
        Ok(Seq::empty())
    } else {
        match crate::json::member(ms, hash_buffer_name_spec(k)) {
            Some(JsonView::Str(file)) => match hash_buffer_path_error(file) {
                Some(e) => Err(e),
                None => match files_from(ms, k + 1) {
                    Ok(rest) => Ok(seq![file] + rest),
                    Err(e) => Err(e),
                },
            },
            _ => Err("safetensors index is missing a required Qwen3.8 PLE hash buffer"),
        }
    }
}

/// The file that holds each hash buffer, in verification order; an index that repeats a key in
/// any object is refused.
pub fn hash_buffer_files(index: &[u8]) -> (r: Result<Vec<String>, PlePackIoError>)
    ensures
        match hash_buffer_files_of(index@) {
            Ok(files) => r matches Ok(v) && v@.len() == files.len() && forall|k: int|
                0 <= k < files.len() ==> (#[trigger] v@[k])@ == files[k],
            Err(m) => r == Err::<Vec<String>, PlePackIoError>(PlePackIoError::Format(m)),
        },        r matches Ok(v) ==> v@.len() == 3 && forall|k: int|
            0 <= k < 3 ==> !all_white_space((#[trigger] v@[k])@) && !escapes_directory(v@[k]@),
{
    proof {
        if let Ok(files) = hash_buffer_files_of(index@) {
            if let Some(root) = json_document(index@) {
                if let Some(JsonView::Object(ms)) = get(root, "weight_map"@) {
                    lemma_files_from(ms, 0);
                }
            }
        }
    }
    match parse_json(index) {
        Some(root) => if !members_all_kept(index, &root) {
            Err(PlePackIoError::Format("invalid model.safetensors.index.json"))
        } else {
            hash_buffer_files_of_root(&root)
        },
        None => Err(PlePackIoError::Format("invalid model.safetensors.index.json")),
    }
}

/// The file that holds each hash buffer, in verification order, from a parsed index document.
pub fn hash_buffer_files_of_root(root: &JsonValue) -> (r: Result<Vec<String>, PlePackIoError>)
    ensures
        match hash_buffer_files_in_root(json_view(*root)) {
            Ok(files) => r matches Ok(v) && v@.len() == files.len() && forall|k: int|
                0 <= k < files.len() ==> (#[trigger] v@[k])@ == files[k],
            Err(m) => r == Err::<Vec<String>, PlePackIoError>(PlePackIoError::Format(m)),
        },
{
    let top = match root {
        JsonValue::Object(ms) => ms,
        _ => {
            return Err(PlePackIoError::Format("safetensors index is missing weight_map object"));
        },
    };
    proof {
        lemma_members_view_all(top@);
    }
    let wm = match find_member(top, "weight_map") {
        Some(i) => match &top[i].1 {
            JsonValue::Object(wm) => wm,
            _ => {
                return Err(PlePackIoError::Format("safetensors index is missing weight_map object"));
            },
        },
        None => {
            return Err(PlePackIoError::Format("safetensors index is missing weight_map object"));
        },
    };
    let ghost mv = crate::json::members_view(wm@);
    let mut files: Vec<String> = Vec::new();
    proof {
        lemma_members_view_all(wm@);
        match files_from(mv, 0) {
            Ok(rest) => {
                assert(files@.map_values(|f: String| f@) + rest =~= rest);
            },
            Err(_) => {},
        }
    }
    let mut k: usize = 0;
    while k < 3
        invariant
            k <= 3,
            mv == crate::json::members_view(wm@),
            files_from(mv, 0) == (match files_from(mv, k as int) {
                Ok(rest) => Ok::<Seq<Seq<char>>, &'static str>(files@.map_values(|f: String| f@) + rest),
                Err(e) => Err(e),
            }),
            files@.len() == k,
            hash_buffer_files_in_root(json_view(*root)) == files_from(mv, 0),
        decreases 3 - k,
    {
        let name = hash_buffer_name(k);
        let file = match find_member(wm, name) {
            Some(i) => match &wm[i].1 {
                JsonValue::Str(f) => f,
                _ => {
                    return Err(PlePackIoError::Format("safetensors index is missing a required Qwen3.8 PLE hash buffer"));
                },
            },
            None => {
                return Err(PlePackIoError::Format("safetensors index is missing a required Qwen3.8 PLE hash buffer"));
            },
        };
        safe_safetensors_relative_path(file.as_str())?;
        let ghost before = files@;
        files.push(file.clone());
        proof {
            match files_from(mv, k + 1) {
                Ok(rest) => {
                    assert(before.map_values(|f: String| f@) + (seq![file@] + rest) =~= files@.map_values(
                        |f: String| f@,
                    ) + rest);
                },
                Err(_) => {},
            }
        }
        k += 1;
    }
    proof {
        assert(files_from(mv, 3) == Ok::<Seq<Seq<char>>, &'static str>(Seq::empty()));
        assert(files@.map_values(|f: String| f@) + Seq::<Seq<char>>::empty() =~= files@.map_values(|f: String| f@));
    }
    Ok(files)
}


/// Where hash buffer `k`'s payload lies in its file (absolute start and byte count), or the
/// failing check: the tensor exists, is `I64`, has the pinned one-dimensional shape and exactly
/// eight bytes per element.
pub open spec fn hash_buffer_payload(data_section_start: u64, ts: Seq<TensorView>, k: int) -> Result<(u64, u64), &'static str> {
    let n = expected_values(k).len();
    match first_named(ts, hash_buffer_name_spec(k)) {
        None => Err("safetensors hash-buffer tensor is missing from header"),
        Some(i) => {
            let t = ts[i];
            if t.dtype != "I64"@ {
                Err("Qwen3.8 PLE hash-buffer tensor dtype must be I64")
            } else if t.shape != seq![n as u64] {
                Err("Qwen3.8 PLE hash-buffer tensor shape does not match pinned geometry")
            } else if t.data_end < t.data_start {
                Err("safetensors hash-buffer offsets are descending")
            } else if t.data_end - t.data_start != n * 8 {
                Err("Qwen3.8 PLE hash-buffer payload length does not match I64 shape")
            } else if data_section_start + t.data_start > u64::MAX {
                Err("safetensors hash-buffer absolute offset overflow")
            } else {
                Ok(((data_section_start + t.data_start) as u64, (n * 8) as u64))
            }
        },
    }
}

/// Locate and check hash buffer `k`'s payload in a parsed header.
pub fn check_hash_buffer_tensor(header: &ParsedHeader, k: usize) -> (r: Result<(u64, usize), PlePackIoError>)
    requires
        k < 3,
    ensures
        match hash_buffer_payload(header.data_section_start, tensors_view(header.tensors@), k as int) {
            Ok((start, len)) => r == Ok::<(u64, usize), PlePackIoError>((start, len as usize)),
            Err(m) => r == Err::<(u64, usize), PlePackIoError>(PlePackIoError::Format(m)),
        },
        r matches Ok((start, len)) ==> exists|i: int|
            0 <= i < header.tensors@.len() && #[trigger] header.tensors@[i].name@ == hash_buffer_name_spec(k as int)
                && header.tensors@[i].dtype@ == "I64"@ && header.tensors@[i].shape@ == seq![expected_values(k as int).len() as u64]
                && header.tensors@[i].data_end - header.tensors@[i].data_start == len && len == expected_values(k as int).len() * 8
                && start == header.data_section_start + header.tensors@[i].data_start,
{
    let ghost tv = tensors_view(header.tensors@);
    let name = hash_buffer_name(k);
    let expected = hash_buffer_expected(k);
    let n = expected.len();
    let ts = &header.tensors;
    let mut i: usize = 0;
    while i < ts.len() && !same_text(ts[i].name.as_str(), name)
        invariant
            i <= ts@.len(),
            tv == tensors_view(ts@),
            name@ == hash_buffer_name_spec(k as int),
            forall|j: int| 0 <= j < i ==> tv[j].name != name@,
        decreases ts@.len() - i,
    {
        assert(tv[i as int] == crate::safetensors::tensor_view(ts@[i as int]));
        i += 1;
    }
    if i == ts.len() {
        return Err(PlePackIoError::Format("safetensors hash-buffer tensor is missing from header"));
    }
    proof {
        assert(tv[i as int] == crate::safetensors::tensor_view(ts@[i as int]));
        let f = first_named(tv, name@)->0;
        assert(f == i) by {
            if f < i {
                assert(tv[f].name != name@);
            }
            if f > i {
                assert(tv[i as int].name == name@);
            }
        }
    }
    let t = &ts[i];
    if !same_text(t.dtype.as_str(), "I64") {
        return Err(PlePackIoError::Format("Qwen3.8 PLE hash-buffer tensor dtype must be I64"));
    }
    if t.shape.len() != 1 || t.shape[0] != n as u64 {
        proof {
            if t.shape@ == seq![n as u64] {
                assert(t.shape@.len() == 1 && t.shape@[0] == n as u64);
            }
        }
        return Err(PlePackIoError::Format("Qwen3.8 PLE hash-buffer tensor shape does not match pinned geometry"));
    }
    assert(t.shape@ =~= seq![n as u64]);
    let bytes = (n as u64) * 8;
    if t.data_end < t.data_start {
        return Err(PlePackIoError::Format("safetensors hash-buffer offsets are descending"));
    }
    if t.data_end - t.data_start != bytes {
        return Err(PlePackIoError::Format("Qwen3.8 PLE hash-buffer payload length does not match I64 shape"));
    }
    let start = match header.data_section_start.checked_add(t.data_start) {
        Some(v) => v,
        None => {
            return Err(PlePackIoError::Format("safetensors hash-buffer absolute offset overflow"));
        },
    };
    Ok((start, bytes as usize))
}

/// The `i64` stored little-endian at element `k` of a payload.
pub open spec fn i64_at(payload: Seq<u8>, k: int) -> i64 {
    u64_at(payload, k * 8) as i64
}

/// Compare an `I64` payload with its pinned values.
pub fn verify_i64_payload(payload: &[u8], expected: &[i64]) -> (r: Result<(), PlePackIoError>)
    ensures
        payload@.len() != expected@.len() * 8 ==> r == Err::<(), PlePackIoError>(
            PlePackIoError::Format("Qwen3.8 PLE hash-buffer payload width is invalid"),
        ),
        payload@.len() == expected@.len() * 8 ==> (r is Ok <==> forall|k: int|
            0 <= k < expected@.len() ==> i64_at(payload@, k) == #[trigger] expected@[k]),
        payload@.len() == expected@.len() * 8 && r is Err ==> r == Err::<(), PlePackIoError>(
            PlePackIoError::Format("physical Qwen3.8 PLE hash-buffer value differs from pinned upstream default"),
        ),
{
    let n = expected.len();
    let plen = payload.len();
    let bytes = match n.checked_mul(8) {
        Some(v) => v,
        None => {
            return Err(PlePackIoError::Format("Qwen3.8 PLE hash-buffer payload width is invalid"));
        },
    };
    if plen != bytes {
        return Err(PlePackIoError::Format("Qwen3.8 PLE hash-buffer payload width is invalid"));
    }
    let mut k: usize = 0;
    while k < n
        invariant
            k <= n,
            n == expected@.len(),
            payload@.len() == n * 8,
            bytes == n * 8,
            forall|j: int| 0 <= j < k ==> i64_at(payload@, j) == #[trigger] expected@[j],
        decreases n - k,
    {
        assert((k + 1) * 8 <= n * 8) by (nonlinear_arith)
            requires
                k < n,
        ;
        let v = match crate::disk::read_u64(payload, k * 8) {
            Ok(v) => v,
            Err(e) => {
                return Err(e);
            },
        };
        if v as i64 != expected[k] {
            return Err(PlePackIoError::Format("physical Qwen3.8 PLE hash-buffer value differs from pinned upstream default"));
        }
        k += 1;
    }
    Ok(())
}

/// The final consistency checks of a verification that read `payload_bytes` payload bytes and
/// matched `buffers` buffers.
pub fn check_hash_buffer_totals(payload_bytes: u64, buffers: usize) -> (r: Result<(), PlePackIoError>)
    ensures
        payload_bytes != QWEN38_PLE_HASH_BUFFER_PAYLOAD_BYTES ==> r == Err::<(), PlePackIoError>(
            PlePackIoError::Format("Qwen3.8 PLE hash-buffer payload contract is internally inconsistent"),
        ),
        payload_bytes == QWEN38_PLE_HASH_BUFFER_PAYLOAD_BYTES && buffers != QWEN38_PLE_HASH_BUFFER_COUNT ==> r == Err::<(), PlePackIoError>(
            PlePackIoError::Format("Qwen3.8 PLE hash-buffer count is internally inconsistent"),
        ),
        payload_bytes == QWEN38_PLE_HASH_BUFFER_PAYLOAD_BYTES && buffers == QWEN38_PLE_HASH_BUFFER_COUNT ==> r is Ok,
{
    if payload_bytes != QWEN38_PLE_HASH_BUFFER_PAYLOAD_BYTES {
        return Err(PlePackIoError::Format("Qwen3.8 PLE hash-buffer payload contract is internally inconsistent"));
    }
    if buffers != QWEN38_PLE_HASH_BUFFER_COUNT {
        return Err(PlePackIoError::Format("Qwen3.8 PLE hash-buffer count is internally inconsistent"));
    }
    Ok(())
}

/// The header length a safetensors prefix announces, within the read bound.
pub fn bounded_header_length(prefix: &[u8], max_header_bytes: u64) -> (r: Result<u64, PlePackIoError>)
    ensures
        prefix@.len() < 8 ==> r == Err::<u64, PlePackIoError>(PlePackIoError::Format("missing safetensors header length")),
        prefix@.len() >= 8 && u64_at(prefix@, 0) == 0 ==> r == Err::<u64, PlePackIoError>(
            PlePackIoError::Format("safetensors header length must be nonzero"),
        ),
        prefix@.len() >= 8 && u64_at(prefix@, 0) != 0 && 8 + u64_at(prefix@, 0) > max_header_bytes ==> r == Err::<u64, PlePackIoError>(
            PlePackIoError::Format("safetensors header exceeds configured read bound"),
        ),
        prefix@.len() >= 8 && u64_at(prefix@, 0) != 0 && 8 + u64_at(prefix@, 0) <= max_header_bytes ==> r == Ok::<u64, PlePackIoError>(
            u64_at(prefix@, 0),
        ),
{
    if prefix.len() < 8 {
        return Err(PlePackIoError::Format("missing safetensors header length"));
    }
    let len = crate::disk::read_u64(prefix, 0)?;
    if len == 0 {
        return Err(PlePackIoError::Format("safetensors header length must be nonzero"));
    }
    if len > max_header_bytes || max_header_bytes - len < 8 {
        return Err(PlePackIoError::Format("safetensors header exceeds configured read bound"));
    }
    Ok(len)
}

} // verus!

verus! {

/// Whether text `a` sorts strictly before text `b` (character by character, a proper prefix first).
pub open spec fn text_lt(a: Seq<char>, b: Seq<char>) -> bool
    decreases a.len(),
{
    if b.len() == 0 {
        false
    } else if a.len() == 0 {
        true
    } else if a[0] != b[0] {
        (a[0] as int) < (b[0] as int)
    } else {
        text_lt(a.drop_first(), b.drop_first())
    }
}

/// `text_lt` is a strict total order: irreflexive, asymmetric and total on distinct texts.
pub proof fn lemma_text_lt_total(a: Seq<char>, b: Seq<char>)
    ensures
        !text_lt(a, a),
        !(text_lt(a, b) && text_lt(b, a)),
        a != b ==> text_lt(a, b) || text_lt(b, a),
    decreases a.len(),
{
    if a.len() > 0 {
        lemma_text_lt_total(a.drop_first(), a.drop_first());
    }
    if a.len() > 0 && b.len() > 0 && a[0] == b[0] {
        lemma_text_lt_total(a.drop_first(), b.drop_first());
        if a.drop_first() == b.drop_first() {
            assert forall|i: int| 0 <= i < a.len() implies a[i] == b[i] by {
                if i > 0 {
                    assert(a[i] == a.drop_first()[i - 1]);
                    assert(b[i] == b.drop_first()[i - 1]);
                }
            }
            assert(a =~= b);
        }
    }
    if a.len() == 0 && b.len() == 0 {
        assert(a =~= b);
    }
    if a.len() > 0 && b.len() > 0 && a[0] != b[0] {
        assert((a[0] as int) != (b[0] as int));
    }
}

/// `text_lt` is transitive.
pub proof fn lemma_text_lt_transitive(a: Seq<char>, b: Seq<char>, c: Seq<char>)
    requires
        text_lt(a, b),
        text_lt(b, c),
    ensures
        text_lt(a, c),
    decreases a.len(),
{
    if a.len() > 0 && a[0] == b[0] && b[0] == c[0] {
        lemma_text_lt_transitive(a.drop_first(), b.drop_first(), c.drop_first());
    }
}

/// Whether text `a` sorts strictly before text `b`.
pub fn text_less(a: &str, b: &str) -> (r: bool)
    ensures
        r == text_lt(a@, b@),
{
    let x = chars_of(a);
    let y = chars_of(b);
    let mut i: usize = 0;
    assert(x@.skip(0) =~= x@);
    assert(y@.skip(0) =~= y@);
    while i < x.len() && i < y.len() && x[i] == y[i]
        invariant
            i <= x@.len(),
            i <= y@.len(),
            x@ == a@,
            y@ == b@,
            text_lt(a@, b@) == text_lt(x@.skip(i as int), y@.skip(i as int)),
        decreases x@.len() - i,
    {
        assert(x@.skip(i as int).drop_first() =~= x@.skip(i + 1));
        assert(y@.skip(i as int).drop_first() =~= y@.skip(i + 1));
        i += 1;
    }
    if i == y.len() {
        false
    } else if i == x.len() {
        true
    } else {
        assert(x@.skip(i as int)[0] == x@[i as int]);
        assert(y@.skip(i as int)[0] == y@[i as int]);
        x[i] < y[i]
    }
}

/// How many hash buffers a list of files names: its first three entries at most.
pub open spec fn planned_buffers(files: Seq<String>) -> int {
    if files.len() < 3 {
        files.len() as int
    } else {
        3
    }
}

/// Whether `groups` reads hash buffers `0..n` of `files` file by file: the distinct files in
/// ascending order, each with the ascending buffers it holds.
pub open spec fn is_read_plan(files: Seq<String>, n: int, groups: Seq<(String, Vec<usize>)>) -> bool {
    &&& forall|g: int, h: int|
        0 <= g < h < groups.len() ==> text_lt(#[trigger] groups[g].0@, #[trigger] groups[h].0@)
    &&& forall|g: int| 0 <= g < groups.len() ==> (#[trigger] groups[g]).1@.len() > 0
    &&& forall|g: int, j: int|
        0 <= g < groups.len() && 0 <= j < groups[g].1@.len() ==> {
            let k = #[trigger] groups[g].1@[j];
            k < n && files[k as int]@ == groups[g].0@
        }
    &&& forall|g: int, i: int, j: int|
        0 <= g < groups.len() && 0 <= i < j < groups[g].1@.len() ==> #[trigger] groups[g].1@[i]
            < #[trigger] groups[g].1@[j]
    &&& forall|k: int| 0 <= k < n ==> #[trigger] listed_in(groups, files[k]@, k)
}

/// Whether buffer `k` of file `file` stands in the group of that file.
pub open spec fn listed_in(groups: Seq<(String, Vec<usize>)>, file: Seq<char>, k: int) -> bool {
    exists|g: int| 0 <= g < groups.len() && #[trigger] groups[g].0@ == file && groups[g].1@.contains(k as usize)
}

/// The order in which the hash buffers named by `files` are read: each distinct file among the
/// first three once, in ascending order, with the buffers it holds.
pub fn hash_buffer_read_plan(files: &Vec<String>) -> (r: Vec<(String, Vec<usize>)>)
    ensures
        is_read_plan(files@, planned_buffers(files@), r@),
{
    let n: usize = if files.len() < 3 {
        files.len()
    } else {
        3
    };
    let mut groups: Vec<(String, Vec<usize>)> = Vec::new();
    let mut k: usize = 0;
    while k < n
        invariant
            k <= n,
            n == planned_buffers(files@),
            n <= files@.len(),
            is_read_plan(files@, k as int, groups@),
        decreases n - k,
    {
        let f = &files[k];
        let mut g: usize = 0;
        while g < groups.len() && !same_text(groups[g].0.as_str(), f.as_str())
            invariant
                g <= groups@.len(),
                forall|q: int| 0 <= q < g ==> groups@[q].0@ != f@,
            decreases groups@.len() - g,
        {
            g += 1;
        }
        let ghost old_groups = groups@;
        if g < groups.len() {
            let mut entry = groups.remove(g);
            entry.1.push(k);
            groups.insert(g, entry);
            proof {
                assert(groups@ =~= old_groups.update(g as int, entry));
                assert forall|j: int| 0 <= j <= k implies #[trigger] listed_in(groups@, files@[j]@, j) by {
                    if j == k {
                        assert(groups@[g as int].1@[groups@[g as int].1@.len() - 1] == j as usize);
                        assert(groups@[g as int].0@ == files@[j]@);
                        assert(groups@[g as int].1@.contains(j as usize));
                    } else {
                        assert(listed_in(old_groups, files@[j]@, j));
                        let h = choose|h: int|
                            0 <= h < old_groups.len() && #[trigger] old_groups[h].0@ == files@[j]@
                                && old_groups[h].1@.contains(j as usize);
                        let w = choose|w: int| 0 <= w < old_groups[h].1@.len() && old_groups[h].1@[w] == j as usize;
                        assert(groups@[h].1@[w] == j as usize);
                        assert(groups@[h].0@ == files@[j]@);
                        assert(groups@[h].1@.contains(j as usize));
                    }
                }
            }
        } else {
            let mut p: usize = 0;
            while p < groups.len() && text_less(groups[p].0.as_str(), f.as_str())
                invariant
                    p <= groups@.len(),
                    forall|q: int| 0 <= q < p ==> text_lt(groups@[q].0@, f@),
                decreases groups@.len() - p,
            {
                p += 1;
            }
            proof {
                if p < groups@.len() {
                    lemma_text_lt_total(groups@[p as int].0@, f@);
                    assert forall|q: int| p < q < groups@.len() implies text_lt(f@, groups@[q].0@) by {
                        lemma_text_lt_transitive(f@, groups@[p as int].0@, groups@[q].0@);
                    }
                }
            }
            let mut one: Vec<usize> = Vec::new();
            one.push(k);
            let name = f.clone();
            groups.insert(p, (name, one));
            proof {
                assert(groups@ =~= old_groups.insert(p as int, (name, one)));
                assert forall|g1: int, h1: int| 0 <= g1 < h1 < groups@.len() implies text_lt(
                    #[trigger] groups@[g1].0@,
                    #[trigger] groups@[h1].0@,
                ) by {
                    if g1 < p && h1 > p {
                        lemma_text_lt_transitive(groups@[g1].0@, f@, groups@[h1].0@);
                    }
                }
                assert forall|j: int| 0 <= j <= k implies #[trigger] listed_in(groups@, files@[j]@, j) by {
                    if j == k {
                        assert(groups@[p as int].1@[0] == j as usize);
                        assert(groups@[p as int].0@ == files@[j]@);
                        assert(groups@[p as int].1@.contains(j as usize));
                    } else {
                        assert(listed_in(old_groups, files@[j]@, j));
                        let h = choose|h: int|
                            0 <= h < old_groups.len() && #[trigger] old_groups[h].0@ == files@[j]@
                                && old_groups[h].1@.contains(j as usize);
                        let w = choose|w: int| 0 <= w < old_groups[h].1@.len() && old_groups[h].1@[w] == j as usize;
                        if h < p {
                            assert(groups@[h].1@[w] == j as usize);
                            assert(groups@[h].0@ == files@[j]@);
                            assert(groups@[h].1@.contains(j as usize));
                        } else {
                            assert(groups@[h + 1].1@[w] == j as usize);
                            assert(groups@[h + 1].0@ == files@[j]@);
                            assert(groups@[h + 1].1@.contains(j as usize));
                        }
                    }
                }
            }
        }
        k += 1;
    }
    groups
}


/// Reject an index file longer than the read bound, before it is read.
pub fn check_index_len(len: u64) -> (r: Result<(), PlePackIoError>)
    ensures
        len <= MAX_INDEX_BYTES ==> r is Ok,
        len > MAX_INDEX_BYTES ==> r == Err::<(), PlePackIoError>(
            PlePackIoError::Format("model.safetensors.index.json exceeds configured read bound"),
        ),
{
    if len > MAX_INDEX_BYTES {
        return Err(PlePackIoError::Format("model.safetensors.index.json exceeds configured read bound"));
    }
    Ok(())
}

/// Whether `payload` holds exactly the pinned values of hash buffer `k`.
pub open spec fn payload_matches(payload: Seq<u8>, k: int) -> bool {
    &&& payload.len() == expected_values(k).len() * 8
    &&& forall|i: int| 0 <= i < expected_values(k).len() ==> i64_at(payload, i) == #[trigger] expected_values(k)[i]
}

/// What a running hash-buffer verification has read and checked so far.
pub struct TallyView {
    /// Bytes read from the index.
    pub index_bytes: u64,
    /// Prefix-plus-header bytes read so far.
    pub header_bytes: u64,
    /// Verified payload bytes so far.
    pub payload_bytes: u64,
    /// Each verified buffer with the payload that matched its pinned values, in order.
    pub checked: Seq<(usize, Seq<u8>)>,
}

/// Running evidence of a bounded hash-buffer verification: a header is counted only once it
/// parsed, a payload only once it matched its pinned values.
pub struct HashBufferTally {
    index_bytes: u64,
    header_bytes: u64,
    payload_bytes: u64,
    kinds: Vec<usize>,
    checked: Ghost<Seq<(usize, Seq<u8>)>>,
}

/// Each of the three hash buffers is among `checked`.
pub open spec fn covers_all_buffers(checked: Seq<(usize, Seq<u8>)>) -> bool {
    forall|b: usize| b < 3 ==> #[trigger] buffer_checked(checked, b)
}

/// Hash buffer `b` is among `checked`.
pub open spec fn buffer_checked(checked: Seq<(usize, Seq<u8>)>, b: usize) -> bool {
    exists|j: int| 0 <= j < checked.len() && (#[trigger] checked[j]).0 == b
}

impl View for HashBufferTally {
    type V = TallyView;

    closed spec fn view(&self) -> TallyView {
        TallyView {
            index_bytes: self.index_bytes,
            header_bytes: self.header_bytes,
            payload_bytes: self.payload_bytes,
            checked: self.checked@,
        }
    }
}

impl HashBufferTally {
    /// Every counted buffer is one of the three and matched its pinned values.
    #[verifier::type_invariant]
    closed spec fn tally_inv(self) -> bool {
        &&& self.kinds@.len() == self.checked@.len()
        &&& forall|j: int| 0 <= j < self.kinds@.len() ==> #[trigger] self.kinds@[j] == self.checked@[j].0
        &&& self.index_bytes <= MAX_INDEX_BYTES
        &&& forall|j: int|
            0 <= j < self.checked@.len() ==> (#[trigger] self.checked@[j]).0 < 3 && payload_matches(
                self.checked@[j].1,
                self.checked@[j].0 as int,
            )
    }

    /// Start a verification whose index held `index_len` bytes, refused beyond the read bound.
    pub fn new(index_len: u64) -> (r: Result<Self, PlePackIoError>)
        ensures
            index_len > MAX_INDEX_BYTES ==> (r matches Err(e) && e == PlePackIoError::Format(
                "model.safetensors.index.json exceeds configured read bound",
            )),
            index_len <= MAX_INDEX_BYTES ==> (r matches Ok(t) && t@ == TallyView {
                index_bytes: index_len,
                header_bytes: 0,
                payload_bytes: 0,
                checked: Seq::empty(),
            }),
    {
        if let Err(e) = check_index_len(index_len) {
            return Err(e);
        }
        Ok(HashBufferTally {
            index_bytes: index_len,
            header_bytes: 0,
            payload_bytes: 0,
            kinds: Vec::new(),
            checked: Ghost(Seq::empty()),
        })
    }

    /// Parse the header `head` (prefix included) of a file of `file_len` bytes and count its
    /// bytes; nothing is counted when it fails.
    pub fn add_header(&mut self, head: &[u8], file_len: u64) -> (r: Result<ParsedHeader, PlePackIoError>)
        ensures
            match header_outcome_in(head@, file_len as int) {
                Err(msg) => r == Err::<ParsedHeader, PlePackIoError>(PlePackIoError::Format(msg)),
                Ok((start, ts)) => if old(self)@.header_bytes + head@.len() > u64::MAX {
                    r == Err::<ParsedHeader, PlePackIoError>(
                        PlePackIoError::Format("safetensors header-byte count overflow"),
                    )
                } else {
                    r matches Ok(h) && h.data_section_start == start && tensors_view(h.tensors@) == ts
                },
            },
            r is Ok ==> final(self)@ == (TallyView {
                header_bytes: (old(self)@.header_bytes + head@.len()) as u64,
                ..old(self)@
            }),
            r is Err ==> final(self)@ == old(self)@,
    {
        proof {
            use_type_invariant(&*self);
        }
        let header = parse_header_in(head, file_len)?;
        let n = head.len() as u64;
        let total = match self.header_bytes.checked_add(n) {
            Some(v) => v,
            None => {
                return Err(PlePackIoError::Format("safetensors header-byte count overflow"));
            },
        };
        self.header_bytes = total;
        Ok(header)
    }

    /// Compare the payload of hash buffer `k` with its pinned values and count it; nothing is
    /// counted when it fails.
    pub fn add_buffer(&mut self, k: usize, payload: &[u8]) -> (r: Result<(), PlePackIoError>)
        requires
            k < 3,
        ensures
            payload@.len() != expected_values(k as int).len() * 8 ==> r == Err::<(), PlePackIoError>(
                PlePackIoError::Format("Qwen3.8 PLE hash-buffer payload width is invalid"),
            ),
            payload@.len() == expected_values(k as int).len() * 8 && !payload_matches(payload@, k as int)
                ==> r == Err::<(), PlePackIoError>(
                PlePackIoError::Format("physical Qwen3.8 PLE hash-buffer value differs from pinned upstream default"),
            ),
            payload_matches(payload@, k as int) && old(self)@.payload_bytes + payload@.len() > u64::MAX
                ==> r == Err::<(), PlePackIoError>(
                PlePackIoError::Format("safetensors hash-buffer payload-byte count overflow"),
            ),
            payload_matches(payload@, k as int) && old(self)@.payload_bytes + payload@.len() <= u64::MAX
                && old(self)@.checked.len() < usize::MAX ==> r is Ok,
            payload_matches(payload@, k as int) && old(self)@.payload_bytes + payload@.len() <= u64::MAX
                && old(self)@.checked.len() >= usize::MAX ==> r == Err::<(), PlePackIoError>(
                PlePackIoError::Format("Qwen3.8 PLE hash-buffer count overflow"),
            ),
            r is Ok ==> final(self)@ == (TallyView {
                payload_bytes: (old(self)@.payload_bytes + payload@.len()) as u64,
                checked: old(self)@.checked.push((k, payload@)),
                ..old(self)@
            }),
            r is Err ==> final(self)@ == old(self)@,
    {
        proof {
            use_type_invariant(&*self);
        }
        let expected = hash_buffer_expected(k);
        if let Err(e) = verify_i64_payload(payload, expected) {
            return Err(e);
        }
        let total = match self.payload_bytes.checked_add(payload.len() as u64) {
            Some(v) => v,
            None => {
                return Err(PlePackIoError::Format("safetensors hash-buffer payload-byte count overflow"));
            },
        };
        if self.kinds.len() == usize::MAX {
            return Err(PlePackIoError::Format("Qwen3.8 PLE hash-buffer count overflow"));
        }
        let mut kinds = self.kinds.clone();
        kinds.push(k);
        let ghost next = self.checked@.push((k, payload@));
        proof {
            assert forall|j: int| 0 <= j < next.len() implies (#[trigger] next[j]).0 < 3 && payload_matches(
                next[j].1,
                next[j].0 as int,
            ) by {
                if j < self.checked@.len() {
                    assert(next[j] == self.checked@[j]);
                }
            }
        }
        *self = HashBufferTally {
            index_bytes: self.index_bytes,
            header_bytes: self.header_bytes,
            payload_bytes: total,
            kinds,
            checked: Ghost(next),
        };
        Ok(())
    }

    /// The evidence of the finished verification of `files_read` files: `Ok` exactly when the
    /// pinned 280 payload bytes were verified, one buffer each of the three.
    pub fn finish(self, files_read: usize) -> (r: Result<Qwen38PleHashBufferVerification, PlePackIoError>)
        ensures
            self@.payload_bytes != QWEN38_PLE_HASH_BUFFER_PAYLOAD_BYTES ==> r == Err::<
                Qwen38PleHashBufferVerification,
                PlePackIoError,
            >(PlePackIoError::Format("Qwen3.8 PLE hash-buffer payload contract is internally inconsistent")),
            self@.payload_bytes == QWEN38_PLE_HASH_BUFFER_PAYLOAD_BYTES && (self@.checked.len()
                != QWEN38_PLE_HASH_BUFFER_COUNT || !covers_all_buffers(self@.checked)) ==> r == Err::<
                Qwen38PleHashBufferVerification,
                PlePackIoError,
            >(PlePackIoError::Format("Qwen3.8 PLE hash-buffer count is internally inconsistent")),
            self@.payload_bytes == QWEN38_PLE_HASH_BUFFER_PAYLOAD_BYTES && self@.checked.len()
                == QWEN38_PLE_HASH_BUFFER_COUNT && covers_all_buffers(self@.checked) ==> r == Ok::<
                Qwen38PleHashBufferVerification,
                PlePackIoError,
            >(
                Qwen38PleHashBufferVerification {
                    buffers_verified: QWEN38_PLE_HASH_BUFFER_COUNT,
                    files_read,
                    index_bytes_read: self@.index_bytes,
                    header_bytes_read: self@.header_bytes,
                    payload_bytes_read: QWEN38_PLE_HASH_BUFFER_PAYLOAD_BYTES,
                },
            ),
            r is Ok ==> forall|j: int|
                0 <= j < self@.checked.len() ==> (#[trigger] self@.checked[j]).0 < 3 && payload_matches(
                    self@.checked[j].1,
                    self@.checked[j].0 as int,
                ),
    {
        proof {
            use_type_invariant(&self);
        }
        if let Err(e) = check_hash_buffer_totals(self.payload_bytes, self.kinds.len()) {
            return Err(e);
        }
        let mut b: usize = 0;
        while b < 3
            invariant
                b <= 3,
                self.payload_bytes == QWEN38_PLE_HASH_BUFFER_PAYLOAD_BYTES,
                self.kinds@.len() == QWEN38_PLE_HASH_BUFFER_COUNT,
                self.kinds@.len() == self.checked@.len(),
                forall|j: int| 0 <= j < self.kinds@.len() ==> #[trigger] self.kinds@[j] == self.checked@[j].0,
                forall|c: usize| c < b ==> #[trigger] buffer_checked(self.checked@, c),
            decreases 3 - b,
        {
            let mut j: usize = 0;
            while j < self.kinds.len() && self.kinds[j] != b
                invariant
                    j <= self.kinds@.len(),
                    forall|i: int| 0 <= i < j ==> self.kinds@[i] != b,
                decreases self.kinds@.len() - j,
            {
                j += 1;
            }
            if j == self.kinds.len() {
                proof {
                    assert forall|i: int| 0 <= i < self.checked@.len() implies (#[trigger] self.checked@[i]).0 != b by {
                        assert(self.kinds@[i] == self.checked@[i].0);
                    }
                    assert(!buffer_checked(self.checked@, b));
                }
                return Err(PlePackIoError::Format("Qwen3.8 PLE hash-buffer count is internally inconsistent"));
            }
            assert(self.checked@[j as int].0 == b);
            assert(buffer_checked(self.checked@, b));
            b += 1;
        }
        Ok(Qwen38PleHashBufferVerification {
            buffers_verified: self.kinds.len(),
            files_read,
            index_bytes_read: self.index_bytes,
            header_bytes_read: self.header_bytes,
            payload_bytes_read: self.payload_bytes,
        })
    }
}


/// The files that `files_from` accepts from buffer `k` on are one per remaining buffer, each
/// non-blank and inside the model directory.
proof fn lemma_files_from(ms: Seq<(Seq<char>, JsonView)>, k: int)
    requires
        0 <= k <= 3,
        files_from(ms, k) is Ok,
    ensures
        files_from(ms, k)->Ok_0.len() == 3 - k,
        forall|i: int|
            0 <= i < 3 - k ==> !all_white_space(#[trigger] files_from(ms, k)->Ok_0[i]) && !escapes_directory(
                files_from(ms, k)->Ok_0[i],
            ),
    decreases 3 - k,
{
    if k < 3 {
        lemma_files_from(ms, k + 1);
        let rest = files_from(ms, k + 1)->Ok_0;
        let all = files_from(ms, k)->Ok_0;
        assert forall|i: int| 0 <= i < 3 - k implies !all_white_space(#[trigger] all[i]) && !escapes_directory(all[i]) by {
            if i > 0 {
                assert(all[i] == rest[i - 1]);
            }
        }
    }
}
} // verus!
