use gb10x::format::PlePackIoError;
use gb10x::qwen38_manifest::{
    check_pinned_revision, manifest_from_index_json, QWEN38_FLASH_NEXT_MODEL_ID,
    QWEN38_FLASH_NEXT_REVISION, QWEN38_PLE_PARTS, QWEN38_PLE_ROWS, QWEN38_PLE_ROWS_PER_PART,
    QWEN38_PLE_ROW_ELEMENTS,
};
use gb10x::safetensors::{total_rows, validate_manifest, SafetensorsPleManifest};
use serde_json::Value;

const TENSOR_PREFIX: &str =
    "model.language_model.layers.1.ple.ple_embedding.ngram_embedding.shard_";

fn tensor_name(index: usize) -> String {
    format!("{TENSOR_PREFIX}{index}.weight")
}

fn valid_weight_map() -> serde_json::Map<String, Value> {
    (0..128)
        .map(|index| {
            (
                tensor_name(index),
                Value::String(format!("model-{:05}-of-00131.safetensors", 5 + index / 4)),
            )
        })
        .collect()
}

fn index_bytes(weight_map: serde_json::Map<String, Value>) -> Vec<u8> {
    let mut metadata = serde_json::Map::new();
    metadata.insert("total_size".into(), Value::from(1u64));
    let mut root = serde_json::Map::new();
    root.insert("metadata".into(), Value::Object(metadata));
    root.insert("weight_map".into(), Value::Object(weight_map));
    serde_json::to_vec_pretty(&Value::Object(root)).unwrap()
}

/// The pinned revision is checked before the index is looked at, as the loader does.
fn qwen38_ple_manifest_from_index(
    index: &[u8],
    revision: &str,
) -> Result<SafetensorsPleManifest, PlePackIoError> {
    check_pinned_revision(revision)?;
    manifest_from_index_json(index)
}

#[test]
fn official_index_shape_builds_one_pinned_contiguous_manifest() {
    let index = index_bytes(valid_weight_map());
    let manifest = qwen38_ple_manifest_from_index(&index, QWEN38_FLASH_NEXT_REVISION)
        .expect("exact pinned index should produce a manifest");

    assert_eq!(manifest.model_id, QWEN38_FLASH_NEXT_MODEL_ID);
    assert_eq!(manifest.model_revision, QWEN38_FLASH_NEXT_REVISION);
    assert_eq!(manifest.row_elements, QWEN38_PLE_ROW_ELEMENTS);
    assert_eq!(manifest.parts.len(), QWEN38_PLE_PARTS);
    assert_eq!(QWEN38_PLE_ROWS_PER_PART * QWEN38_PLE_PARTS as u64, QWEN38_PLE_ROWS);

    for (index, part) in manifest.parts.iter().enumerate() {
        assert_eq!(part.tensor_name, tensor_name(index));
        assert_eq!(part.logical_row_start, index as u64 * QWEN38_PLE_ROWS_PER_PART);
        assert_eq!(part.row_count, QWEN38_PLE_ROWS_PER_PART);
        assert_eq!(part.file, format!("model-{:05}-of-00131.safetensors", 5 + index / 4));
    }
    let last = manifest.parts.last().unwrap();
    assert_eq!(last.logical_row_start + last.row_count, QWEN38_PLE_ROWS);
}

#[test]
fn any_revision_other_than_the_pinned_source_commit_is_rejected() {
    let index = index_bytes(valid_weight_map());
    assert!(qwen38_ple_manifest_from_index(&index, "deadbeef").is_err());
}

#[test]
fn missing_shard_index_is_rejected() {
    let mut map = valid_weight_map();
    map.remove(&tensor_name(73));
    assert!(qwen38_ple_manifest_from_index(&index_bytes(map), QWEN38_FLASH_NEXT_REVISION).is_err());
}

#[test]
fn one_based_config_id_is_not_accepted_as_state_dict_layer_two() {
    let mut map = valid_weight_map();
    map.remove(&tensor_name(64));
    map.insert(
        "model.language_model.layers.2.ple.ple_embedding.ngram_embedding.shard_64.weight".into(),
        Value::String("model-00021-of-00131.safetensors".into()),
    );
    assert!(qwen38_ple_manifest_from_index(&index_bytes(map), QWEN38_FLASH_NEXT_REVISION).is_err());
}

#[test]
fn out_of_range_or_noncanonical_shard_names_are_rejected() {
    let mut map = valid_weight_map();
    map.insert(
        format!("{TENSOR_PREFIX}128.weight"),
        Value::String("model-00038-of-00131.safetensors".into()),
    );
    assert!(qwen38_ple_manifest_from_index(&index_bytes(map), QWEN38_FLASH_NEXT_REVISION).is_err());

    let mut map = valid_weight_map();
    map.remove(&tensor_name(1));
    map.insert(
        format!("{TENSOR_PREFIX}01.weight"),
        Value::String("model-00005-of-00131.safetensors".into()),
    );
    assert!(qwen38_ple_manifest_from_index(&index_bytes(map), QWEN38_FLASH_NEXT_REVISION).is_err());
}

#[test]
fn mapped_file_path_must_not_escape_model_directory() {
    let mut map = valid_weight_map();
    map.insert(tensor_name(9), Value::String("../escape.safetensors".into()));
    assert!(qwen38_ple_manifest_from_index(&index_bytes(map), QWEN38_FLASH_NEXT_REVISION).is_err());
}

#[test]
fn missing_or_non_string_weight_map_entries_are_rejected() {
    assert!(qwen38_ple_manifest_from_index(
        br#"{"metadata": {"total_size": 1}}"#,
        QWEN38_FLASH_NEXT_REVISION
    )
    .is_err());

    let mut map = valid_weight_map();
    map.insert(tensor_name(5), Value::Bool(true));
    assert!(qwen38_ple_manifest_from_index(&index_bytes(map), QWEN38_FLASH_NEXT_REVISION).is_err());
}

fn format_message(r: Result<SafetensorsPleManifest, PlePackIoError>) -> &'static str {
    match r {
        Err(PlePackIoError::Format(m)) => m,
        other => panic!("expected a format error, got {other:?}"),
    }
}

#[test]
fn index_errors_name_the_failing_check() {
    assert_eq!(
        format_message(manifest_from_index_json(b"not json")),
        "invalid model.safetensors.index.json"
    );
    assert_eq!(
        format_message(manifest_from_index_json(b"[]")),
        "safetensors index is missing weight_map object"
    );
    let mut map = valid_weight_map();
    map.insert(tensor_name(3), Value::String("model.bin".into()));
    assert_eq!(
        format_message(manifest_from_index_json(&index_bytes(map))),
        "Qwen3.8 PLE weight_map target must be a .safetensors file"
    );
    let mut map = valid_weight_map();
    map.insert(tensor_name(3), Value::String("/abs/model.safetensors".into()));
    assert_eq!(
        format_message(manifest_from_index_json(&index_bytes(map))),
        "Qwen3.8 PLE mapped file path escapes model directory"
    );
    assert!(matches!(
        check_pinned_revision("deadbeef"),
        Err(PlePackIoError::Format("Qwen3.8 checkpoint revision does not match pinned GB10X source"))
    ));
}

#[test]
fn the_pinned_manifest_passes_manifest_validation() {
    let manifest = manifest_from_index_json(&index_bytes(valid_weight_map())).unwrap();
    assert!(validate_manifest(&manifest).is_ok());
    assert_eq!(total_rows(&manifest).unwrap(), QWEN38_PLE_ROWS);
}
