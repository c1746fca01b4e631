use gb10x::format::PlePackIoError;
use gb10x::safetensors::{
    locate_row, parse_header, parse_header_in, row_bytes_for, source_digest, tensor_payload,
    total_rows, validate_manifest, RowSpan, SafetensorsPleManifest, SafetensorsPlePart,
    SourceDigest,
};
use serde_json::Value;

const ROW_ELEMENTS: u32 = 4;
const ROW_BYTES: usize = ROW_ELEMENTS as usize * 2;

fn tensor(dtype: &str, rows: u64, start: usize, end: usize) -> Value {
    let mut t = serde_json::Map::new();
    t.insert("dtype".into(), Value::from(dtype));
    t.insert(
        "shape".into(),
        Value::Array(vec![Value::from(rows), Value::from(ROW_ELEMENTS)]),
    );
    t.insert(
        "data_offsets".into(),
        Value::Array(vec![Value::from(start as u64), Value::from(end as u64)]),
    );
    Value::Object(t)
}

fn safetensors_file(mut tensors: serde_json::Map<String, Value>, data: &[u8]) -> Vec<u8> {
    let mut meta = serde_json::Map::new();
    meta.insert("format".into(), Value::from("pt"));
    tensors.insert("__metadata__".into(), Value::Object(meta));
    let mut header = serde_json::to_vec(&Value::Object(tensors)).unwrap();
    while header.len() % 8 != 0 {
        header.push(b' ');
    }
    let mut file = Vec::new();
    file.extend_from_slice(&(header.len() as u64).to_le_bytes());
    file.extend_from_slice(&header);
    file.extend_from_slice(data);
    file
}

fn one_tensor(name: &str, dtype: &str, rows: u64, data: &[u8]) -> Vec<u8> {
    let mut tensors = serde_json::Map::new();
    tensors.insert(name.into(), tensor(dtype, rows, 0, data.len()));
    safetensors_file(tensors, data)
}

fn part(file: &str, tensor_name: &str, start: u64, rows: u64) -> SafetensorsPlePart {
    SafetensorsPlePart {
        file: file.into(),
        tensor_name: tensor_name.into(),
        logical_row_start: start,
        row_count: rows,
    }
}

fn manifest() -> SafetensorsPleManifest {
    SafetensorsPleManifest {
        model_id: "Qwen/Qwen3.8-Flash-Next".into(),
        model_revision: "test-revision".into(),
        row_elements: ROW_ELEMENTS,
        parts: vec![
            part("part-000.safetensors", "ple.part0", 0, 2),
            part("part-001.safetensors", "ple.part1", 2, 2),
        ],
    }
}

fn rows(seed: u8, n: usize) -> Vec<u8> {
    (0..n * ROW_BYTES).map(|i| seed.wrapping_add(i as u8)).collect()
}

fn format_message<T: std::fmt::Debug>(r: Result<T, PlePackIoError>) -> &'static str {
    match r {
        Err(PlePackIoError::Format(m)) => m,
        other => panic!("expected a format error, got {other:?}"),
    }
}

#[test]
fn a_bf16_part_payload_is_located_exactly() {
    let data = rows(1, 2);
    let file = one_tensor("ple.part0", "BF16", 2, &data);
    let header = parse_header(&file).unwrap();
    assert_eq!(header.tensors.len(), 1);
    assert_eq!(header.tensors[0].name, "ple.part0");
    assert_eq!(header.tensors[0].shape, vec![2, ROW_ELEMENTS as u64]);
    let (start, end) = tensor_payload(
        &header,
        &manifest().parts[0],
        ROW_ELEMENTS,
        ROW_BYTES as u32,
        file.len() as u64,
    )
    .unwrap();
    assert_eq!(&file[start..end], &data[..]);
    assert_eq!(start as u64, header.data_section_start);
}

#[test]
fn non_bf16_or_wrong_width_tensors_are_rejected() {
    let data = rows(1, 2);
    let file = one_tensor("ple.part0", "F16", 2, &data);
    let header = parse_header(&file).unwrap();
    assert_eq!(
        format_message(tensor_payload(&header, &manifest().parts[0], ROW_ELEMENTS, ROW_BYTES as u32, file.len() as u64)),
        "PLE safetensors tensor dtype must be BF16"
    );
    let file = one_tensor("ple.part0", "BF16", 3, &data);
    let header = parse_header(&file).unwrap();
    assert_eq!(
        format_message(tensor_payload(&header, &manifest().parts[0], ROW_ELEMENTS, ROW_BYTES as u32, file.len() as u64)),
        "PLE safetensors tensor shape does not match manifest geometry"
    );
    let header = parse_header(&one_tensor("other", "BF16", 2, &data)).unwrap();
    assert_eq!(
        format_message(tensor_payload(&header, &manifest().parts[0], ROW_ELEMENTS, ROW_BYTES as u32, 1 << 20)),
        "manifest tensor is missing from safetensors header"
    );
}

#[test]
fn overlapping_or_truncated_headers_are_rejected() {
    let data = rows(1, 2);
    let mut tensors = serde_json::Map::new();
    tensors.insert("a".into(), tensor("BF16", 1, 0, ROW_BYTES + 2));
    tensors.insert("b".into(), tensor("BF16", 1, ROW_BYTES, 2 * ROW_BYTES));
    assert!(parse_header(&safetensors_file(tensors, &data)).is_err());

    let file = one_tensor("ple.part0", "BF16", 2, &data);
    assert!(parse_header(&file[..7]).is_err());
    assert!(parse_header(&file[..20]).is_err());
    assert!(parse_header_in(&file, (file.len() - data.len() - 1) as u64).is_err());

    let mut tensors = serde_json::Map::new();
    tensors.insert("a".into(), tensor("BF16", 1, 0, 4 * ROW_BYTES));
    assert!(parse_header(&safetensors_file(tensors, &data)).is_err());
    assert!(parse_header(&safetensors_file(serde_json::Map::new(), &data)).is_err());
}

#[test]
fn manifest_parts_must_cover_one_contiguous_logical_row_space() {
    assert!(validate_manifest(&manifest()).is_ok());
    let mut gap = manifest();
    gap.parts[1].logical_row_start = 3;
    assert_eq!(
        format_message(validate_manifest(&gap)),
        "PLE manifest parts must cover a contiguous logical row space"
    );
    let mut escape = manifest();
    escape.parts[0].file = "../part-000.safetensors".into();
    assert!(validate_manifest(&escape).is_err());
    let mut empty = manifest();
    empty.parts.clear();
    assert_eq!(format_message(validate_manifest(&empty)), "PLE manifest contains no parts");
    let mut zero = manifest();
    zero.parts[1].row_count = 0;
    assert!(validate_manifest(&zero).is_err());
    assert_eq!(total_rows(&manifest()).unwrap(), 4);
    assert_eq!(row_bytes_for(ROW_ELEMENTS).unwrap(), ROW_BYTES as u32);
}

#[test]
fn rows_are_located_across_part_boundaries() {
    let spans = [
        RowSpan { logical_row_start: 0, row_count: 2, data_start: 100, data_end: 100 + 2 * ROW_BYTES },
        RowSpan { logical_row_start: 2, row_count: 2, data_start: 40, data_end: 40 + 2 * ROW_BYTES },
    ];
    assert_eq!(locate_row(&spans, 4, ROW_BYTES as u32, 1, ROW_BYTES).unwrap(), (0, 100 + ROW_BYTES, 100 + 2 * ROW_BYTES));
    assert_eq!(locate_row(&spans, 4, ROW_BYTES as u32, 2, ROW_BYTES).unwrap(), (1, 40, 40 + ROW_BYTES));
    assert!(matches!(
        locate_row(&spans, 4, ROW_BYTES as u32, 4, ROW_BYTES),
        Err(PlePackIoError::Layout(_))
    ));
    assert!(matches!(
        locate_row(&spans, 4, ROW_BYTES as u32, 0, ROW_BYTES - 1),
        Err(PlePackIoError::RowBufferWidth { expected, actual }) if expected == ROW_BYTES && actual == ROW_BYTES - 1
    ));
}

fn digest_of(m: &SafetensorsPleManifest, payloads: &[Vec<u8>]) -> [u8; 32] {
    let slices: Vec<&[u8]> = payloads.iter().map(|p| p.as_slice()).collect();
    source_digest(m, &slices)
}

#[test]
fn source_digest_feeds_the_prefix_then_each_part_in_order() {
    let m = manifest();
    let payloads = vec![rows(1, 2), rows(9, 2)];
    let mut d = SourceDigest::begin(&m);
    for (p, payload) in m.parts.iter().zip(&payloads) {
        d.absorb_part(p, payload);
    }
    assert_eq!(digest_of(&m, &payloads), d.finish());
    let swapped = vec![rows(9, 2), rows(1, 2)];
    assert_ne!(digest_of(&m, &payloads), digest_of(&m, &swapped));
}

#[test]
fn source_digest_changes_when_referenced_tensor_bytes_change() {
    let m = manifest();
    let payloads = vec![rows(1, 2), rows(9, 2)];
    let first = digest_of(&m, &payloads);
    assert_eq!(first, digest_of(&m, &payloads));
    let mut changed = payloads.clone();
    changed[1][3] ^= 1;
    assert_ne!(first, digest_of(&m, &changed));
    let mut renamed = m.clone();
    renamed.model_revision = "other-revision".into();
    assert_ne!(first, digest_of(&renamed, &payloads));
}
