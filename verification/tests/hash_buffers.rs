use gb10x::format::PlePackIoError;
use gb10x::hash_buffers::{
    bounded_header_length, check_hash_buffer_tensor, check_hash_buffer_totals, check_index_len,
    hash_buffer_expected, hash_buffer_files, hash_buffer_name, hash_buffer_read_plan,
    safe_safetensors_relative_path, text_less, verify_i64_payload,
    HashBufferTally, Qwen38PleHashBufferVerification, MAX_INDEX_BYTES, MAX_SAFETENSORS_HEADER_BYTES,
};
use gb10x::safetensors::parse_header;
use serde_json::Value;

const MULTIPLIERS: &str = "model.language_model.layers.1.ple.ple_embedding.layer_multipliers";
const VOCAB_SIZES: &str = "model.language_model.layers.1.ple.ple_embedding.ngram_heads_vocab_sizes";
const OFFSETS: &str = "model.language_model.layers.1.ple.ple_embedding.ngram_heads_offsets";

const EXPECTED_MULTIPLIERS: [i64; 3] = [23_703_573_157_769, 20_109_073_645_365, 8_052_911_324_071];

fn encode_i64s(values: &[i64]) -> Vec<u8> {
    values.iter().flat_map(|value| value.to_le_bytes()).collect()
}

fn tensor(dtype: &str, len: u64, start: u64, end: u64) -> Value {
    let mut t = serde_json::Map::new();
    t.insert("dtype".into(), Value::from(dtype));
    t.insert("shape".into(), Value::Array(vec![Value::from(len)]));
    t.insert("data_offsets".into(), Value::Array(vec![Value::from(start), Value::from(end)]));
    Value::Object(t)
}

fn safetensors_file(mut tensors: serde_json::Map<String, Value>, payload: &[u8]) -> Vec<u8> {
    let mut meta = serde_json::Map::new();
    meta.insert("format".into(), Value::from("pt"));
    tensors.insert("__metadata__".into(), Value::Object(meta));
    let mut header = serde_json::to_vec(&Value::Object(tensors)).unwrap();
    while header.len() % 8 != 0 {
        header.push(b' ');
    }
    let mut file = Vec::new();
    file.extend_from_slice(&(header.len() as u64).to_le_bytes());
    file.extend_from_slice(&header);
    file.extend_from_slice(payload);
    file
}

fn matching_checkpoint(multiplier_dtype: &str) -> Vec<u8> {
    let m = encode_i64s(hash_buffer_expected(0));
    let v = encode_i64s(hash_buffer_expected(1));
    let o = encode_i64s(hash_buffer_expected(2));
    let mut payload = m.clone();
    payload.extend_from_slice(&v);
    payload.extend_from_slice(&o);
    let mut tensors = serde_json::Map::new();
    tensors.insert(MULTIPLIERS.into(), tensor(multiplier_dtype, 3, 0, m.len() as u64));
    tensors.insert(
        VOCAB_SIZES.into(),
        tensor("I64", 16, m.len() as u64, (m.len() + v.len()) as u64),
    );
    tensors.insert(
        OFFSETS.into(),
        tensor("I64", 16, (m.len() + v.len()) as u64, payload.len() as u64),
    );
    safetensors_file(tensors, &payload)
}

fn index_for(file: &str) -> Vec<u8> {
    let mut weight_map = serde_json::Map::new();
    for name in [MULTIPLIERS, VOCAB_SIZES, OFFSETS] {
        weight_map.insert(name.into(), Value::from(file));
    }
    let mut root = serde_json::Map::new();
    root.insert("weight_map".into(), Value::Object(weight_map));
    serde_json::to_vec_pretty(&Value::Object(root)).unwrap()
}

#[test]
fn pinned_buffers_are_found_and_verified_in_one_file() {
    let files = hash_buffer_files(&index_for("model-00001-of-00131.safetensors")).unwrap();
    assert_eq!(files, vec!["model-00001-of-00131.safetensors"; 3]);

    let file = matching_checkpoint("I64");
    let header_len = bounded_header_length(&file[..8], MAX_SAFETENSORS_HEADER_BYTES).unwrap();
    let header = parse_header(&file).unwrap();
    assert_eq!(header.data_section_start, 8 + header_len);
    let mut payload_bytes = 0u64;
    for k in 0..3 {
        let (start, len) = check_hash_buffer_tensor(&header, k).unwrap();
        let start = start as usize;
        verify_i64_payload(&file[start..start + len], hash_buffer_expected(k)).unwrap();
        payload_bytes += len as u64;
    }
    assert_eq!(payload_bytes, 280);
    assert!(check_hash_buffer_totals(payload_bytes, 3).is_ok());
    assert_eq!(hash_buffer_name(0), MULTIPLIERS);
    assert_eq!(hash_buffer_expected(0), &EXPECTED_MULTIPLIERS);
}

#[test]
fn non_i64_hash_buffer_dtype_is_rejected() {
    let header = parse_header(&matching_checkpoint("F32")).unwrap();
    assert!(matches!(
        check_hash_buffer_tensor(&header, 0),
        Err(PlePackIoError::Format("Qwen3.8 PLE hash-buffer tensor dtype must be I64"))
    ));
    assert!(check_hash_buffer_tensor(&header, 1).is_ok());
}

#[test]
fn a_changed_multiplier_is_rejected() {
    let mut changed = EXPECTED_MULTIPLIERS;
    changed[1] += 1;
    assert!(verify_i64_payload(&encode_i64s(&changed), &EXPECTED_MULTIPLIERS).is_err());
    assert!(verify_i64_payload(&encode_i64s(&EXPECTED_MULTIPLIERS[..2]), &EXPECTED_MULTIPLIERS).is_err());
    assert!(verify_i64_payload(&encode_i64s(&EXPECTED_MULTIPLIERS), &EXPECTED_MULTIPLIERS).is_ok());
}

#[test]
fn escaping_or_foreign_buffer_files_are_rejected() {
    assert!(safe_safetensors_relative_path("model-00001-of-00131.safetensors").is_ok());
    assert!(safe_safetensors_relative_path("../model.safetensors").is_err());
    assert!(safe_safetensors_relative_path("/model.safetensors").is_err());
    assert!(safe_safetensors_relative_path("model.bin").is_err());
    assert!(safe_safetensors_relative_path("  ").is_err());
    assert!(hash_buffer_files(&index_for("../escape.safetensors")).is_err());
    assert!(hash_buffer_files(br#"{"weight_map": {}}"#).is_err());
}

#[test]
fn oversized_or_empty_headers_are_rejected_before_reading_them() {
    let huge = (MAX_SAFETENSORS_HEADER_BYTES).to_le_bytes();
    assert!(matches!(
        bounded_header_length(&huge, MAX_SAFETENSORS_HEADER_BYTES),
        Err(PlePackIoError::Format("safetensors header exceeds configured read bound"))
    ));
    assert!(bounded_header_length(&0u64.to_le_bytes(), MAX_SAFETENSORS_HEADER_BYTES).is_err());
    assert!(bounded_header_length(&[1, 0, 0], MAX_SAFETENSORS_HEADER_BYTES).is_err());
    assert_eq!(bounded_header_length(&16u64.to_le_bytes(), 24).unwrap(), 16);
    assert!(check_hash_buffer_totals(272, 3).is_err());
    assert!(check_hash_buffer_totals(280, 2).is_err());
}

fn names(files: &[&str]) -> Vec<String> {
    files.iter().map(|f| f.to_string()).collect()
}

#[test]
fn read_plan_groups_buffers_by_file_in_ascending_order() {
    let plan = hash_buffer_read_plan(&names(&[
        "model-00002.safetensors",
        "model-00001.safetensors",
        "model-00002.safetensors",
    ]));
    assert_eq!(
        plan,
        vec![
            ("model-00001.safetensors".to_string(), vec![1]),
            ("model-00002.safetensors".to_string(), vec![0, 2]),
        ]
    );
    let one = hash_buffer_read_plan(&names(&["a.safetensors"; 3]));
    assert_eq!(one, vec![("a.safetensors".to_string(), vec![0, 1, 2])]);
    let three = hash_buffer_read_plan(&names(&["c.safetensors", "b.safetensors", "a.safetensors"]));
    assert_eq!(
        three,
        vec![
            ("a.safetensors".to_string(), vec![2]),
            ("b.safetensors".to_string(), vec![1]),
            ("c.safetensors".to_string(), vec![0]),
        ]
    );
}

#[test]
fn read_plan_looks_at_the_first_three_files_only() {
    let plan = hash_buffer_read_plan(&names(&[
        "b.safetensors",
        "b.safetensors",
        "b.safetensors",
        "a.safetensors",
    ]));
    assert_eq!(plan, vec![("b.safetensors".to_string(), vec![0, 1, 2])]);
    assert!(hash_buffer_read_plan(&Vec::new()).is_empty());
}

#[test]
fn text_order_puts_a_prefix_first_and_compares_characters() {
    assert!(text_less("a", "ab"));
    assert!(!text_less("ab", "a"));
    assert!(text_less("a/b", "a0"));
    assert!(!text_less("x", "x"));
    assert!(text_less("", "x"));
}

#[test]
fn index_longer_than_the_bound_is_refused_before_reading() {
    assert!(check_index_len(MAX_INDEX_BYTES).is_ok());
    assert!(matches!(
        check_index_len(MAX_INDEX_BYTES + 1),
        Err(PlePackIoError::Format("model.safetensors.index.json exceeds configured read bound"))
    ));
}

#[test]
fn tally_counts_parsed_headers_and_verified_payloads() {
    let file = matching_checkpoint("I64");
    let header_len = bounded_header_length(&file[..8], MAX_SAFETENSORS_HEADER_BYTES).unwrap();
    let head = &file[..8 + header_len as usize];
    let mut tally = HashBufferTally::new(512).unwrap();
    let header = tally.add_header(head, file.len() as u64).unwrap();
    for k in [0, 1, 2] {
        let (start, len) = check_hash_buffer_tensor(&header, k).unwrap();
        let start = start as usize;
        tally.add_buffer(k, &file[start..start + len]).unwrap();
    }
    assert_eq!(
        tally.finish(1).unwrap(),
        Qwen38PleHashBufferVerification {
            buffers_verified: 3,
            files_read: 1,
            index_bytes_read: 512,
            header_bytes_read: head.len() as u64,
            payload_bytes_read: 280,
        }
    );
}

#[test]
fn tally_refuses_unverified_or_incomplete_evidence() {
    assert!(matches!(
        HashBufferTally::new(MAX_INDEX_BYTES + 1),
        Err(PlePackIoError::Format("model.safetensors.index.json exceeds configured read bound"))
    ));
    let mut tally = HashBufferTally::new(10).unwrap();
    let mut wrong = encode_i64s(hash_buffer_expected(0));
    wrong[0] ^= 1;
    assert!(matches!(
        tally.add_buffer(0, &wrong),
        Err(PlePackIoError::Format(
            "physical Qwen3.8 PLE hash-buffer value differs from pinned upstream default"
        ))
    ));
    assert!(matches!(
        tally.add_buffer(1, &wrong),
        Err(PlePackIoError::Format("Qwen3.8 PLE hash-buffer payload width is invalid"))
    ));
    tally.add_buffer(0, &encode_i64s(hash_buffer_expected(0))).unwrap();
    tally.add_buffer(1, &encode_i64s(hash_buffer_expected(1))).unwrap();
    assert!(matches!(
        tally.finish(1),
        Err(PlePackIoError::Format(
            "Qwen3.8 PLE hash-buffer payload contract is internally inconsistent"
        ))
    ));
    let mut tally = HashBufferTally::new(10).unwrap();
    assert!(matches!(
        tally.add_header(&[0u8; 8], 8),
        Err(PlePackIoError::Format("safetensors header length must be nonzero"))
    ));
    for k in [1, 1, 0] {
        tally.add_buffer(k, &encode_i64s(hash_buffer_expected(k))).unwrap();
    }
    // 128 + 128 + 24 bytes make the pinned total, but one buffer twice is not all three.
    assert!(matches!(
        tally.finish(1),
        Err(PlePackIoError::Format("Qwen3.8 PLE hash-buffer count is internally inconsistent"))
    ));
}

#[test]
fn duplicate_index_member_and_escaping_file_target_are_rejected() {
    let duplicated = format!(
        r#"{{"weight_map":{{"{MULTIPLIERS}":"hashes.safetensors","{VOCAB_SIZES}":"hashes.safetensors","{OFFSETS}":"hashes.safetensors"}},"weight_map":{{"{MULTIPLIERS}":"../escape.safetensors"}}}}"#
    );
    assert!(matches!(
        hash_buffer_files(duplicated.as_bytes()),
        Err(PlePackIoError::Format("invalid model.safetensors.index.json"))
    ));
    let mut weight_map = serde_json::Map::new();
    weight_map.insert(MULTIPLIERS.into(), Value::from("../escape.safetensors"));
    weight_map.insert(VOCAB_SIZES.into(), Value::from("hashes.safetensors"));
    weight_map.insert(OFFSETS.into(), Value::from("hashes.safetensors"));
    let mut root = serde_json::Map::new();
    root.insert("weight_map".into(), Value::Object(weight_map));
    let escaping = serde_json::to_vec(&Value::Object(root)).unwrap();
    assert!(hash_buffer_files(&escaping).is_err());
}

#[test]
fn a_repeated_key_in_a_nested_object_is_refused_and_colons_in_strings_are_not_members() {
    let repeated_inner = format!(
        r#"{{"weight_map":{{"{MULTIPLIERS}":"a.safetensors","{MULTIPLIERS}":"a.safetensors","{VOCAB_SIZES}":"a.safetensors","{OFFSETS}":"a.safetensors"}}}}"#
    );
    assert!(matches!(
        hash_buffer_files(repeated_inner.as_bytes()),
        Err(PlePackIoError::Format("invalid model.safetensors.index.json"))
    ));
    let with_text = format!(
        r#"{{"metadata":{{"note":"a:b \":\" c","total_size":[1,{{"x:y":2}}]}},"weight_map":{{"{MULTIPLIERS}":"a.safetensors","{VOCAB_SIZES}":"a.safetensors","{OFFSETS}":"a.safetensors"}}}}"#
    );
    assert_eq!(
        hash_buffer_files(with_text.as_bytes()).unwrap(),
        vec!["a.safetensors"; 3]
    );
}
