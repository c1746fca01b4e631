use gb10x::format::PlePackIoError;
use gb10x::hash_buffers::hash_buffer_files_of_root;
use gb10x::json::{members_all_kept, JsonValue};
use gb10x::qwen38_manifest::manifest_from_index_root;
use gb10x::safetensors::header_tensors;

fn text(s: &str) -> JsonValue {
    JsonValue::Str(s.to_string())
}

fn number(n: u64) -> JsonValue {
    JsonValue::Number(Some(n))
}

fn member(key: &str, value: JsonValue) -> (String, JsonValue) {
    (key.to_string(), value)
}

fn tensor(dtype: &str, shape: &[u64], start: u64, end: u64) -> JsonValue {
    JsonValue::Object(vec![
        member("dtype", text(dtype)),
        member("shape", JsonValue::Array(shape.iter().map(|&d| number(d)).collect())),
        member("data_offsets", JsonValue::Array(vec![number(start), number(end)])),
    ])
}

#[test]
fn header_tensors_reads_entries_and_skips_metadata() {
    let root = JsonValue::Object(vec![
        member("__metadata__", JsonValue::Object(vec![member("format", text("pt"))])),
        member("a", tensor("BF16", &[2, 4], 0, 16)),
        member("b", tensor("I64", &[3], 16, 40)),
    ]);
    let ts = header_tensors(&root, 40).unwrap();
    assert_eq!(ts.len(), 2);
    assert_eq!(ts[0].name, "a");
    assert_eq!(ts[0].shape, vec![2, 4]);
    assert_eq!((ts[1].data_start, ts[1].data_end), (16, 40));
    assert_eq!(ts[1].dtype, "I64");
}

#[test]
fn header_tensors_refuses_bad_roots() {
    assert!(matches!(
        header_tensors(&JsonValue::Array(vec![]), 0),
        Err(PlePackIoError::Format("safetensors header must be a JSON object"))
    ));
    assert!(matches!(
        header_tensors(&JsonValue::Object(vec![]), 0),
        Err(PlePackIoError::Format("safetensors file contains no tensors"))
    ));
    let overlapping = JsonValue::Object(vec![
        member("a", tensor("I64", &[2], 0, 16)),
        member("b", tensor("I64", &[2], 8, 24)),
    ]);
    assert!(matches!(
        header_tensors(&overlapping, 24),
        Err(PlePackIoError::Format("safetensors tensor payload ranges overlap"))
    ));
    let outside = JsonValue::Object(vec![member("a", tensor("I64", &[2], 0, 16))]);
    assert!(header_tensors(&outside, 8).is_err());
}

#[test]
fn hash_buffer_files_come_from_the_weight_map_in_buffer_order() {
    let prefix = "model.language_model.layers.1.ple.ple_embedding.";
    let root = JsonValue::Object(vec![member(
        "weight_map",
        JsonValue::Object(vec![
            member(&format!("{prefix}ngram_heads_offsets"), text("c.safetensors")),
            member(&format!("{prefix}layer_multipliers"), text("a.safetensors")),
            member(&format!("{prefix}ngram_heads_vocab_sizes"), text("b.safetensors")),
        ]),
    )]);
    assert_eq!(
        hash_buffer_files_of_root(&root).unwrap(),
        vec!["a.safetensors".to_string(), "b.safetensors".to_string(), "c.safetensors".to_string()]
    );
    assert!(matches!(
        hash_buffer_files_of_root(&JsonValue::Object(vec![])),
        Err(PlePackIoError::Format("safetensors index is missing weight_map object"))
    ));
}

#[test]
fn manifest_root_without_shards_is_refused() {
    let root = JsonValue::Object(vec![member("weight_map", JsonValue::Object(vec![]))]);
    assert!(matches!(
        manifest_from_index_root(&root),
        Err(PlePackIoError::Format(
            "safetensors index does not contain all 128 pinned Qwen3.8 PLE shards"
        ))
    ));
    assert!(matches!(
        manifest_from_index_root(&JsonValue::Null),
        Err(PlePackIoError::Format("safetensors index is missing weight_map object"))
    ));
}

#[test]
fn members_are_kept_unless_an_object_repeats_a_key() {
    let once = br#"{"a":1,"b":{"c":"x:y","d":[{"e":null}]}}"#;
    let tree = JsonValue::Object(vec![
        member("a", number(1)),
        member(
            "b",
            JsonValue::Object(vec![
                member("c", text("x:y")),
                member("d", JsonValue::Array(vec![JsonValue::Object(vec![member("e", JsonValue::Null)])])),
            ]),
        ),
    ]);
    assert!(members_all_kept(once, &tree));
    let twice = br#"{"a":1,"a":2}"#;
    let merged = JsonValue::Object(vec![member("a", number(2))]);
    assert!(!members_all_kept(twice, &merged));
    let escaped = br#"{"k\"":"v:w"}"#;
    assert!(members_all_kept(escaped, &JsonValue::Object(vec![member("k\"", text("v:w"))])));
}
