use ferrite_db::storage::FileStorageBackend;
use ferrite_db::storage::Row;
use ferrite_db::storage::StorageError;

fn row(values: &[&str]) -> Row {
    Row { values: values.iter().map(|v| v.to_string()).collect() }
}

fn roundtrip(values: &[&str]) {
    let backend = FileStorageBackend::new();
    let original = row(values);
    let bytes = backend.encode_row(&original);
    let decoded = backend.decode_all_rows(&bytes).expect("one whole record must decode");
    assert_eq!(decoded, vec![original]);
}

#[test]
fn roundtrip_zero_values() {
    roundtrip(&[]);
}

#[test]
fn roundtrip_one_value() {
    roundtrip(&["42"]);
}

#[test]
fn roundtrip_many_values() {
    roundtrip(&["1", "'Alice'", "true", "0", "-17"]);
}

#[test]
fn roundtrip_empty_string_values() {
    roundtrip(&["", "x", ""]);
}

#[test]
fn roundtrip_non_ascii_values() {
    roundtrip(&["héllo wörld", "日本語のテキスト", "añо", "🦀🦀", ""]);
}

#[test]
fn encoding_layout_is_count_then_length_prefixed_values() {
    let backend = FileStorageBackend::new();
    let bytes = backend.encode_row(&row(&["ab", ""]));
    let mut expected: Vec<u8> = Vec::new();
    expected.extend_from_slice(&2u64.to_le_bytes());
    expected.extend_from_slice(&2u64.to_le_bytes());
    expected.extend_from_slice(b"ab");
    expected.extend_from_slice(&0u64.to_le_bytes());
    assert_eq!(bytes, expected);
}

#[test]
fn encoding_matches_bincode_row_serialization() {
    let backend = FileStorageBackend::new();
    let values = vec!["1".to_string(), "'Alice'".to_string(), "".to_string()];
    let ours = backend.encode_row(&Row { values: values.clone() });
    let theirs = bincode::serialize(&values).expect("bincode must serialize");
    assert_eq!(ours, theirs);
}

#[test]
fn decode_of_empty_file_yields_no_rows() {
    let backend = FileStorageBackend::new();
    let bytes: Vec<u8> = Vec::new();
    assert_eq!(backend.decode_all_rows(&bytes).expect("empty input decodes"), Vec::<Row>::new());
}

#[test]
fn decode_preserves_record_order() {
    let backend = FileStorageBackend::new();
    let r1 = row(&["1", "'Alice'"]);
    let r2 = row(&["2", "'Bob'"]);
    let r3 = row(&["3", "'Céline'"]);
    let mut bytes = backend.encode_row(&r1);
    bytes.extend(backend.encode_row(&r2));
    bytes.extend(backend.encode_row(&r3));
    let decoded = backend.decode_all_rows(&bytes).expect("three records must decode");
    assert_eq!(decoded, vec![r1, r2, r3]);
}

#[test]
fn truncated_trailing_record_is_an_error_not_a_short_result() {
    let backend = FileStorageBackend::new();
    let mut bytes = backend.encode_row(&row(&["1", "'Alice'"]));
    bytes.extend(backend.encode_row(&row(&["2", "'Bob'"])));
    bytes.pop();
    let result = backend.decode_all_rows(&bytes);
    assert_eq!(result, Err(StorageError::Decode));
}

#[test]
fn declared_length_beyond_end_of_file_is_an_error() {
    let mut bytes: Vec<u8> = Vec::new();
    bytes.extend_from_slice(&1u64.to_le_bytes());
    bytes.extend_from_slice(&1000u64.to_le_bytes());
    bytes.extend_from_slice(b"abc");
    let backend = FileStorageBackend::new();
    assert_eq!(backend.decode_all_rows(&bytes), Err(StorageError::Decode));
}

#[test]
fn truncated_record_header_is_an_error() {
    let backend = FileStorageBackend::new();
    let bytes: Vec<u8> = vec![1, 0, 0];
    assert_eq!(backend.decode_all_rows(&bytes), Err(StorageError::Decode));
}

#[test]
fn invalid_utf8_value_bytes_are_an_error() {
    let mut bytes: Vec<u8> = Vec::new();
    bytes.extend_from_slice(&1u64.to_le_bytes());
    bytes.extend_from_slice(&2u64.to_le_bytes());
    bytes.extend_from_slice(&[0xff, 0xfe]);
    let backend = FileStorageBackend::new();
    assert_eq!(backend.decode_all_rows(&bytes), Err(StorageError::Decode));
}

#[test]
fn table_file_name_appends_tbl_suffix() {
    let backend = FileStorageBackend::new();
    assert_eq!(backend.table_file_name("users"), "users.tbl");
    assert_eq!(backend.table_file_name(""), ".tbl");
}

#[test]
fn scan_of_missing_file_is_empty_not_an_error() {
    let backend = FileStorageBackend::new();
    let rows = backend.scan_rows(None).expect("a missing file scans as no rows");
    assert!(rows.is_empty());
}

#[test]
fn scan_of_present_bytes_decodes_them() {
    let backend = FileStorageBackend::new();
    let r = row(&["only"]);
    let bytes = backend.encode_row(&r);
    let rows = backend.scan_rows(Some(&bytes)).expect("present bytes decode");
    assert_eq!(rows, vec![r]);
}
