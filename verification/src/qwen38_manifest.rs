//! The pinned Qwen3.8-Flash-Next PLE tensor manifest, derived from the checkpoint's safetensors
//! weight map.
use crate::format::PlePackIoError;
use crate::json::{
    find_member, get, json_document, json_view, lemma_members_view_all, members_view, parse_json,
    JsonValue, JsonView,
};
use crate::safetensors::{
    escapes_directory, manifest_error, manifest_rows, parts_error, path_escapes, SafetensorsPleManifest,
    SafetensorsPlePart,
};
use crate::text::{
    all_digits, all_white_space, chars_of, decimal_chars, decimal_string, digits_value, is_blank,
    parse_decimal, parse_decimal_chars, same_text, subrange_equals,
};
use vstd::prelude::*;
use vstd::string::StringExecFns;

verus! {

/// Canonical Hugging Face model ID supported by GB10X.
pub const QWEN38_FLASH_NEXT_MODEL_ID: &'static str = "Qwen/Qwen3.8-Flash-Next";

/// Immutable source revision pinned by GB10X for the initial Qwen3.8-Flash-Next checkpoint.
pub const QWEN38_FLASH_NEXT_REVISION: &'static str = "34567a4712bc9766c4449e2e98e4468bfa24d915";

/// Number of physical PLE tensor parts in the pinned checkpoint.
pub const QWEN38_PLE_PARTS: usize = 128;

/// BF16 elements in one logical PLE row.
pub const QWEN38_PLE_ROW_ELEMENTS: u32 = 160;

/// Logical rows stored in each physical PLE tensor part.
pub const QWEN38_PLE_ROWS_PER_PART: u64 = 2_500_012;

/// Total logical PLE rows in the pinned checkpoint.
pub const QWEN38_PLE_ROWS: u64 = 320_001_536;

/// Tensor-name prefix of a PLE shard.
pub const QWEN38_PLE_TENSOR_PREFIX: &'static str = "model.language_model.layers.1.ple.ple_embedding.ngram_embedding.shard_";

/// Tensor-name suffix of a PLE shard.
pub const QWEN38_PLE_TENSOR_SUFFIX: &'static str = ".weight";

/// File name of the checkpoint's safetensors index.
pub const SAFETENSORS_INDEX_FILE: &'static str = "model.safetensors.index.json";

/// Accept only the pinned checkpoint revision.
pub fn check_pinned_revision(observed_revision: &str) -> (r: Result<(), PlePackIoError>)
    ensures
        observed_revision@ == QWEN38_FLASH_NEXT_REVISION@ ==> r is Ok,
        observed_revision@ != QWEN38_FLASH_NEXT_REVISION@ ==> r == Err::<(), PlePackIoError>(
            PlePackIoError::Format("Qwen3.8 checkpoint revision does not match pinned GB10X source"),
        ),
{
    if !same_text(observed_revision, QWEN38_FLASH_NEXT_REVISION) {
        return Err(PlePackIoError::Format("Qwen3.8 checkpoint revision does not match pinned GB10X source"));
    }
    Ok(())
}

/// The shard text of a PLE shard tensor name (between prefix and suffix), if it is one.
pub open spec fn shard_text(name: Seq<char>) -> Option<Seq<char>> {
    let p = QWEN38_PLE_TENSOR_PREFIX@;
    let s = QWEN38_PLE_TENSOR_SUFFIX@;
    if name.len() >= p.len() + s.len() && name.take(p.len() as int) == p && name.subrange(
        name.len() - s.len(),
        name.len() as int,
    ) == s {
        Some(name.subrange(p.len() as int, name.len() - s.len()))
    } else {
        None
    }
}

/// The shard index a shard text names, or the failing check.
pub open spec fn shard_index(t: Seq<char>) -> Result<int, &'static str> {
    if t.len() == 0 || !all_digits(t) {
        Err("Qwen3.8 PLE shard index must be canonical decimal digits")
    } else if digits_value(t) > usize::MAX {
        Err("Qwen3.8 PLE shard index does not fit usize")
    } else if digits_value(t) >= QWEN38_PLE_PARTS || t != decimal_chars(digits_value(t)) {
        Err("Qwen3.8 PLE shard index is out of range or noncanonical")
    } else {
        Ok(digits_value(t) as int)
    }
}

/// Why a mapped file path of a shard is rejected, if it is.
pub open spec fn mapped_file_error(file: Seq<char>) -> Option<&'static str> {
    if all_white_space(file) {
        Some("Qwen3.8 PLE mapped file path is empty")
    } else if escapes_directory(file) {
        Some("Qwen3.8 PLE mapped file path escapes model directory")
    } else if !(file.len() >= 12 && file.subrange(file.len() - 12, file.len() as int) == ".safetensors"@) {
        Some("Qwen3.8 PLE weight_map target must be a .safetensors file")
    } else {
        None
    }
}

/// The shard slots after the first `n` weight-map members, or the first failure.
pub open spec fn shard_slots(ms: Seq<(Seq<char>, JsonView)>, n: int) -> Result<Seq<Option<(Seq<char>, Seq<char>)>>, &'static str>
    decreases n,
{
    if n <= 0 {
        Ok(Seq::new(QWEN38_PLE_PARTS as nat, |i: int| None))
    } else {
        match shard_slots(ms, n - 1) {
            Err(e) => Err(e),
            Ok(slots) => match shard_text(ms[n - 1].0) {
                None => Ok(slots),
                Some(t) => match shard_index(t) {
                    Err(e) => Err(e),
                    Ok(k) => if slots[k] is Some {
                        Err("Qwen3.8 PLE shard index appears more than once")
                    } else {
                        match ms[n - 1].1 {
                            JsonView::Str(file) => match mapped_file_error(file) {
                                Some(e) => Err(e),
                                None => Ok(slots.update(k, Some((file, ms[n - 1].0)))),
                            },
                            _ => Err("Qwen3.8 PLE weight_map value must be a safetensors file string"),
                        }
                    },
                },
            },
        }
    }
}

/// The manifest a safetensors index describes, as `(file, tensor name)` per shard in shard
/// order, or the first failure.
pub open spec fn index_manifest(index: Seq<u8>) -> Result<Seq<(Seq<char>, Seq<char>)>, &'static str> {
    match json_document(index) {
        None => Err("invalid model.safetensors.index.json"),
        Some(root) => index_root_manifest(root),
    }
}

/// The shards a parsed index document maps, in shard order, or the first failure.
pub open spec fn index_root_manifest(root: JsonView) -> Result<Seq<(Seq<char>, Seq<char>)>, &'static str> {
    match get(root, "weight_map"@) {
        Some(JsonView::Object(ms)) => match shard_slots(ms, ms.len() as int) {
            Err(e) => Err(e),
            Ok(slots) => if exists|k: int| 0 <= k < slots.len() && (#[trigger] slots[k]) is None {
                Err("safetensors index does not contain all 128 pinned Qwen3.8 PLE shards")
            } else {
                Ok(slots.map_values(|s: Option<(Seq<char>, Seq<char>)>| s->0))
            },
        },
        _ => Err("safetensors index is missing weight_map object"),
    }
}


/// Whether `name` is a PLE shard tensor name; its shard text's bounds when it is.
fn shard_text_bounds(name: &Vec<char>, prefix: &Vec<char>, suffix: &Vec<char>) -> (r: Option<(usize, usize)>)
    requires
        prefix@ == QWEN38_PLE_TENSOR_PREFIX@,
        suffix@ == QWEN38_PLE_TENSOR_SUFFIX@,
    ensures
        match shard_text(name@) {
            None => r is None,
            Some(t) => r matches Some((a, b)) && a <= b <= name@.len() && name@.subrange(a as int, b as int) == t,
        },
{
    let n = name.len();
    let p = prefix.len();
    let q = suffix.len();
    if n < p || n - p < q {
        return None;
    }
    let head = subrange_equals(name, 0, p, prefix);
    assert(name@.subrange(0, p as int) =~= name@.take(p as int));
    let tail = subrange_equals(name, n - q, n, suffix);
    if !head || !tail {
        return None;
    }
    Some((p, n - q))
}

/// The shard index of `name[a..b]`.
fn shard_index_exec(name: &Vec<char>, a: usize, b: usize) -> (r: Result<usize, &'static str>)
    requires
        a <= b <= name@.len(),
    ensures
        match shard_index(name@.subrange(a as int, b as int)) {
            Ok(k) => r == Ok::<usize, &'static str>(k as usize),
            Err(e) => r == Err::<usize, &'static str>(e),
        },
{
    let ghost t = name@.subrange(a as int, b as int);
    if a == b {
        return Err("Qwen3.8 PLE shard index must be canonical decimal digits");
    }
    let mut i = a;
    while i < b
        invariant
            a <= i <= b <= name@.len(),
            t == name@.subrange(a as int, b as int),
            forall|j: int| 0 <= j < i - a ==> crate::text::is_digit(#[trigger] t[j]),
        decreases b - i,
    {
        let c = name[i];
        if !('0' <= c && c <= '9') {
            assert(t[i - a] == c);
            return Err("Qwen3.8 PLE shard index must be canonical decimal digits");
        }
        i += 1;
    }
    assert(all_digits(t));
    let value = match parse_decimal_chars(name, a, b, usize::MAX as u64) {
        Some(v) => v,
        None => {
            assert(t.len() > 0 && t[0] != '+');
            assert(t == (if t.len() > 0 && t[0] == '+' { t.drop_first() } else { t }));
            return Err("Qwen3.8 PLE shard index does not fit usize");
        },
    };
    assert(t.len() > 0 && t[0] != '+');
    if value >= 128 {
        return Err("Qwen3.8 PLE shard index is out of range or noncanonical");
    }
    let canonical = chars_of(decimal_string(value).as_str());
    if !subrange_equals(name, a, b, &canonical) {
        return Err("Qwen3.8 PLE shard index is out of range or noncanonical");
    }
    Ok(value as usize)
}

/// Why a mapped file path is rejected, if it is.
fn mapped_file_check(file: &str) -> (r: Option<&'static str>)
    ensures
        r == mapped_file_error(file@),
{
    if is_blank(file) {
        return Some("Qwen3.8 PLE mapped file path is empty");
    }
    if path_escapes(file) {
        return Some("Qwen3.8 PLE mapped file path escapes model directory");
    }
    let f = chars_of(file);
    let ext = chars_of(".safetensors");
    proof {
        reveal_strlit(".safetensors");
    }
    if f.len() < 12 || !subrange_equals(&f, f.len() - 12, f.len(), &ext) {
        return Some("Qwen3.8 PLE weight_map target must be a .safetensors file");
    }
    None
}


proof fn lemma_shard_slots_err(ms: Seq<(Seq<char>, JsonView)>, k: int, j: int)
    requires
        0 <= k <= j,
        shard_slots(ms, k) is Err,
    ensures
        shard_slots(ms, j) == shard_slots(ms, k),
    decreases j - k,
{
    if j > k {
        lemma_shard_slots_err(ms, k, j - 1);
    }
}

/// `slots` holds, shard by shard, what the abstract slots hold.
pub open spec fn slots_match(slots: Seq<Option<(String, String)>>, spec_slots: Seq<Option<(Seq<char>, Seq<char>)>>) -> bool {
    &&& slots.len() == spec_slots.len()
    &&& forall|k: int|
        0 <= k < slots.len() ==> match (#[trigger] slots[k], spec_slots[k]) {
            (None, None) => true,
            (Some((f, t)), Some((sf, st))) => f@ == sf && t@ == st,
            _ => false,
        }
}

/// `m` is the pinned Qwen3.8 manifest whose shard `k` is the file and tensor `parts[k]`.
pub open spec fn pinned_manifest(m: SafetensorsPleManifest, parts: Seq<(Seq<char>, Seq<char>)>) -> bool {
    &&& m.model_id@ == QWEN38_FLASH_NEXT_MODEL_ID@
    &&& m.model_revision@ == QWEN38_FLASH_NEXT_REVISION@
    &&& m.row_elements == QWEN38_PLE_ROW_ELEMENTS
    &&& m.parts@.len() == QWEN38_PLE_PARTS
    &&& forall|k: int|
        0 <= k < QWEN38_PLE_PARTS ==> {
            let p = #[trigger] m.parts@[k];
            &&& p.file@ == parts[k].0
            &&& p.tensor_name@ == parts[k].1
            &&& p.logical_row_start == k * QWEN38_PLE_ROWS_PER_PART
            &&& p.row_count == QWEN38_PLE_ROWS_PER_PART
        }
}

/// Build the exact Qwen3.8 PLE manifest from the bytes of the checkpoint's
/// `model.safetensors.index.json`: exactly the canonical shards `shard_0.weight` through
/// `shard_127.weight`, each mapped to a `.safetensors` file inside the model directory.
pub fn manifest_from_index_json(bytes: &[u8]) -> (r: Result<SafetensorsPleManifest, PlePackIoError>)
    ensures
        match index_manifest(bytes@) {
            Err(msg) => r == Err::<SafetensorsPleManifest, PlePackIoError>(PlePackIoError::Format(msg)),
            Ok(parts) => r matches Ok(m) && pinned_manifest(m, parts),
        },
{
    match parse_json(bytes) {
        Some(root) => manifest_from_index_root(&root),
        None => Err(PlePackIoError::Format("invalid model.safetensors.index.json")),
    }
}

/// Build the exact Qwen3.8 PLE manifest from the parsed index document.
pub fn manifest_from_index_root(root: &JsonValue) -> (r: Result<SafetensorsPleManifest, PlePackIoError>)
    ensures
        match index_root_manifest(json_view(*root)) {
            Err(msg) => r == Err::<SafetensorsPleManifest, PlePackIoError>(PlePackIoError::Format(msg)),
            Ok(parts) => r matches Ok(m) && pinned_manifest(m, parts),
        },
{
    let top = match root {
        JsonValue::Object(ms) => ms,
        _ => {
            return Err(PlePackIoError::Format("safetensors index is missing weight_map object"));
        },
    };
    proof {
        lemma_members_view_all(top@);
    }
    let wm = match find_member(top, "weight_map") {
        Some(i) => match &top[i].1 {
            JsonValue::Object(wm) => wm,
            _ => {
                return Err(PlePackIoError::Format("safetensors index is missing weight_map object"));
            },
        },
        None => {
            return Err(PlePackIoError::Format("safetensors index is missing weight_map object"));
        },
    };
    proof {
        lemma_members_view_all(wm@);
    }
    let ghost mv = members_view(wm@);
    let prefix = chars_of(QWEN38_PLE_TENSOR_PREFIX);
    let suffix = chars_of(QWEN38_PLE_TENSOR_SUFFIX);
    let mut slots: Vec<Option<(String, String)>> = Vec::new();
    let mut z: usize = 0;
    while z < 128
        invariant
            z <= 128,
            slots@.len() == z,
            forall|k: int| 0 <= k < z ==> #[trigger] slots@[k] is None,
        decreases 128 - z,
    {
        slots.push(None);
        z += 1;
    }
    proof {
        assert(slots_match(slots@, Seq::new(QWEN38_PLE_PARTS as nat, |i: int| None)));
    }
    let mut i: usize = 0;
    while i < wm.len()
        invariant
            i <= wm@.len(),
            prefix@ == QWEN38_PLE_TENSOR_PREFIX@,
            suffix@ == QWEN38_PLE_TENSOR_SUFFIX@,
            mv == members_view(wm@),
            mv.len() == wm@.len(),
            forall|k: int| 0 <= k < wm@.len() ==> #[trigger] mv[k] == (wm@[k].0@, json_view(wm@[k].1)),
            shard_slots(mv, i as int) is Ok,
            slots@.len() == 128,
            slots_match(slots@, shard_slots(mv, i as int)->Ok_0),
            index_root_manifest(json_view(*root)) == (match shard_slots(mv, mv.len() as int) {
                Err(e) => Err::<Seq<(Seq<char>, Seq<char>)>, &'static str>(e),
                Ok(sl) => if exists|k: int| 0 <= k < sl.len() && (#[trigger] sl[k]) is None {
                    Err("safetensors index does not contain all 128 pinned Qwen3.8 PLE shards")
                } else {
                    Ok(sl.map_values(|s: Option<(Seq<char>, Seq<char>)>| s->0))
                },
            }),
        decreases wm@.len() - i,
    {
        let name = &wm[i].0;
        let nc = chars_of(name.as_str());
        let ghost prev = shard_slots(mv, i as int)->Ok_0;
        match shard_text_bounds(&nc, &prefix, &suffix) {
            None => {},
            Some((a, b)) => {
                let k = match shard_index_exec(&nc, a, b) {
                    Ok(k) => k,
                    Err(e) => {
                        proof {
                            lemma_shard_slots_err(mv, i + 1, mv.len() as int);
                        }
                        return Err(PlePackIoError::Format(e));
                    },
                };
                if slots[k].is_some() {
                    proof {
                        assert(prev[k as int] is Some);
                        lemma_shard_slots_err(mv, i + 1, mv.len() as int);
                    }
                    return Err(PlePackIoError::Format("Qwen3.8 PLE shard index appears more than once"));
                }
                let file = match &wm[i].1 {
                    JsonValue::Str(f) => f,
                    _ => {
                        proof {
                            lemma_shard_slots_err(mv, i + 1, mv.len() as int);
                        }
                        return Err(PlePackIoError::Format("Qwen3.8 PLE weight_map value must be a safetensors file string"));
                    },
                };
                match mapped_file_check(file.as_str()) {
                    Some(e) => {
                        proof {
                            lemma_shard_slots_err(mv, i + 1, mv.len() as int);
                        }
                        return Err(PlePackIoError::Format(e));
                    },
                    None => {},
                }
                let ghost before = slots@;
                slots.set(k, Some((file.clone(), name.clone())));
                proof {
                    let next = shard_slots(mv, i + 1)->Ok_0;
                    assert(next == prev.update(k as int, Some((file@, name@))));
                    assert forall|j: int| 0 <= j < slots@.len() implies match (#[trigger] slots@[j], next[j]) {
                        (None, None) => true,
                        (Some((f, t)), Some((sf, st))) => f@ == sf && t@ == st,
                        _ => false,
                    } by {
                        if j != k {
                            assert(slots@[j] == before[j]);
                        }
                    }
                }
            },
        }
        i += 1;
    }
    let mut parts: Vec<SafetensorsPlePart> = Vec::new();
    let mut k: usize = 0;
    let ghost final_slots = shard_slots(mv, mv.len() as int)->Ok_0;
    assert(i == wm@.len());
    while k < 128
        invariant
            k <= 128,
            slots@.len() == 128,
            slots_match(slots@, final_slots),
            final_slots == shard_slots(mv, mv.len() as int)->Ok_0,
            shard_slots(mv, mv.len() as int) is Ok,
            forall|j: int| 0 <= j < k ==> (#[trigger] final_slots[j]) is Some,
            parts@.len() == k,
            forall|j: int|
                0 <= j < k ==> {
                    let p = #[trigger] parts@[j];
                    &&& p.file@ == (final_slots[j]->0).0
                    &&& p.tensor_name@ == (final_slots[j]->0).1
                    &&& p.logical_row_start == j * QWEN38_PLE_ROWS_PER_PART
                    &&& p.row_count == QWEN38_PLE_ROWS_PER_PART
                },
            index_root_manifest(json_view(*root)) == (if exists|j: int| 0 <= j < final_slots.len() && (#[trigger] final_slots[j]) is None {
                Err::<Seq<(Seq<char>, Seq<char>)>, &'static str>("safetensors index does not contain all 128 pinned Qwen3.8 PLE shards")
            } else {
                Ok(final_slots.map_values(|s: Option<(Seq<char>, Seq<char>)>| s->0))
            }),
        decreases 128 - k,
    {
        match &slots[k] {
            None => {
                assert(final_slots[k as int] is None);
                return Err(PlePackIoError::Format("safetensors index does not contain all 128 pinned Qwen3.8 PLE shards"));
            },
            Some((f, t)) => {
                assert(k * QWEN38_PLE_ROWS_PER_PART <= 128 * 2_500_012) by (nonlinear_arith)
                    requires
                        k < 128,
                        QWEN38_PLE_ROWS_PER_PART == 2_500_012,
                ;
                parts.push(
                    SafetensorsPlePart {
                        file: f.clone(),
                        tensor_name: t.clone(),
                        logical_row_start: (k as u64) * QWEN38_PLE_ROWS_PER_PART,
                        row_count: QWEN38_PLE_ROWS_PER_PART,
                    },
                );
            },
        }
        k += 1;
    }
    Ok(
        SafetensorsPleManifest {
            model_id: String::from_str(QWEN38_FLASH_NEXT_MODEL_ID),
            model_revision: String::from_str(QWEN38_FLASH_NEXT_REVISION),
            row_elements: QWEN38_PLE_ROW_ELEMENTS,
            parts,
        },
    )
}


/// Every filled slot holds an accepted file path and a PLE shard tensor name.
proof fn lemma_shard_slots_sound(ms: Seq<(Seq<char>, JsonView)>, n: int)
    requires
        shard_slots(ms, n) is Ok,
    ensures
        shard_slots(ms, n)->Ok_0.len() == QWEN38_PLE_PARTS,
        forall|k: int|
            0 <= k < QWEN38_PLE_PARTS && (#[trigger] shard_slots(ms, n)->Ok_0[k]) is Some ==> {
                &&& mapped_file_error((shard_slots(ms, n)->Ok_0[k]->0).0) is None
                &&& shard_text((shard_slots(ms, n)->Ok_0[k]->0).1) is Some
            },
    decreases n,
{
    if n > 0 {
        lemma_shard_slots_sound(ms, n - 1);
    }
}

/// No name of a PLE shard tensor is blank: it starts with the shard prefix.
proof fn lemma_shard_name_not_blank(name: Seq<char>)
    requires
        shard_text(name) is Some,
    ensures
        !all_white_space(name),
{
    reveal_strlit("model.language_model.layers.1.ple.ple_embedding.ngram_embedding.shard_");
    reveal_strlit(".weight");
    assert(name.take(QWEN38_PLE_TENSOR_PREFIX@.len() as int)[0] == name[0]);
    assert(!crate::text::is_white_space(name[0]));
}

/// Parts `i..` of a pinned manifest tile rows from `i * QWEN38_PLE_ROWS_PER_PART` on.
proof fn lemma_pinned_parts_tile(m: SafetensorsPleManifest, parts: Seq<(Seq<char>, Seq<char>)>, i: int)
    requires
        pinned_manifest(m, parts),
        0 <= i <= QWEN38_PLE_PARTS,
        forall|k: int|
            0 <= k < QWEN38_PLE_PARTS ==> mapped_file_error(#[trigger] parts[k].0) is None && !all_white_space(
                parts[k].1,
            ),
    ensures
        parts_error(m.parts@, i, i * QWEN38_PLE_ROWS_PER_PART) is None,
    decreases QWEN38_PLE_PARTS - i,
{
    if i < QWEN38_PLE_PARTS {
        let p = m.parts@[i];
        assert(mapped_file_error(parts[i].0) is None && !all_white_space(parts[i].1));
        assert((i + 1) * QWEN38_PLE_ROWS_PER_PART <= 128 * 2_500_012) by (nonlinear_arith)
            requires
                i < 128,
                QWEN38_PLE_ROWS_PER_PART == 2_500_012,
        ;
        assert(i * QWEN38_PLE_ROWS_PER_PART + QWEN38_PLE_ROWS_PER_PART == (i + 1) * QWEN38_PLE_ROWS_PER_PART)
            by (nonlinear_arith);
        lemma_pinned_parts_tile(m, parts, i + 1);
    }
}

/// A manifest built from the pinned index passes manifest validation: a non-blank identity, a
/// non-zero row width, and parts with accepted file paths and tensor names that tile the
/// logical rows from 0 contiguously, `QWEN38_PLE_ROWS` rows in all.
pub proof fn law_pinned_manifest_is_valid(bytes: Seq<u8>, m: SafetensorsPleManifest)
    requires
        index_manifest(bytes) is Ok,
        pinned_manifest(m, index_manifest(bytes)->Ok_0),
    ensures
        manifest_error(m) is None,
        manifest_rows(m.parts@, m.parts@.len() as int) == Some(QWEN38_PLE_ROWS as int),
{
    let root = json_document(bytes)->0;
    let ms = get(root, "weight_map"@)->0->Object_0;
    let slots = shard_slots(ms, ms.len() as int)->Ok_0;
    let parts = index_manifest(bytes)->Ok_0;
    lemma_shard_slots_sound(ms, ms.len() as int);
    assert forall|k: int| 0 <= k < QWEN38_PLE_PARTS implies mapped_file_error(#[trigger] parts[k].0) is None
        && !all_white_space(parts[k].1) by {
        assert(slots[k] is Some);
        assert(parts[k] == slots[k]->0);
        lemma_shard_name_not_blank(parts[k].1);
    }
    lemma_pinned_parts_tile(m, parts, 0);
    reveal_strlit("Qwen/Qwen3.8-Flash-Next");
    reveal_strlit("34567a4712bc9766c4449e2e98e4468bfa24d915");
    assert(!crate::text::is_white_space(m.model_id@[0]));
    assert(!crate::text::is_white_space(m.model_revision@[0]));
    lemma_pinned_rows(m, 128);
}

/// The first `n` parts of a pinned manifest hold `n * QWEN38_PLE_ROWS_PER_PART` rows.
proof fn lemma_pinned_rows(m: SafetensorsPleManifest, n: int)
    requires
        m.parts@.len() == QWEN38_PLE_PARTS,
        forall|k: int| 0 <= k < QWEN38_PLE_PARTS ==> (#[trigger] m.parts@[k]).row_count == QWEN38_PLE_ROWS_PER_PART,
        0 <= n <= QWEN38_PLE_PARTS,
    ensures
        manifest_rows(m.parts@, n) == Some(n * QWEN38_PLE_ROWS_PER_PART),
    decreases n,
{
    if n > 0 {
        lemma_pinned_rows(m, n - 1);
        assert(m.parts@[n - 1].row_count == QWEN38_PLE_ROWS_PER_PART);
        assert((n - 1) * QWEN38_PLE_ROWS_PER_PART + QWEN38_PLE_ROWS_PER_PART == n * QWEN38_PLE_ROWS_PER_PART)
            by (nonlinear_arith);
        assert(n * QWEN38_PLE_ROWS_PER_PART <= 128 * 2_500_012) by (nonlinear_arith)
            requires
                n <= 128,
                QWEN38_PLE_ROWS_PER_PART == 2_500_012,
        ;
    }
}

} // verus!
