use std::io::Write;

use profiler_core::storage::{compress_snapshot_data, decompress_snapshot_data, StorageError};

#[test]
fn test_compress_decompress() {
    let original = r#"{"test":"data","nested":{"value":123}}"#.to_string();

    let compressed = compress_snapshot_data(&original).unwrap();
    assert!(!compressed.is_empty());

    let decompressed = decompress_snapshot_data(&compressed).unwrap();
    assert_eq!(decompressed, original);
}

#[test]
fn test_compression_ratio() {
    // Create a large JSON with repetitive data
    let mut large_json = String::from("{");
    for i in 0..1000 {
        if i > 0 {
            large_json.push(',');
        }
        large_json.push_str(&format!(
            r#""method{}":{{

"duration":100,"executions":[1,2,3,4,5]}}"#,
            i
        ));
    }
    large_json.push('}');

    let original_size = large_json.len();
    let compressed = compress_snapshot_data(&large_json).unwrap();
    let compressed_size = compressed.len();

    let compression_ratio = (compressed_size as f64 / original_size as f64) * 100.0;

    // Should achieve at least 70% compression on repetitive data
    assert!(
        compression_ratio < 30.0,
        "Compression ratio too low: {}%",
        compression_ratio
    );
}

#[test]
fn test_decompress_rejects_garbage() {
    let garbage: Vec<u8> = vec![1, 2, 3, 4, 5, 6, 7, 8];
    assert_eq!(
        decompress_snapshot_data(&garbage).unwrap_err(),
        StorageError::DecompressionFailed
    );
}

#[test]
fn test_decompress_rejects_non_text_payload() {
    // a well-formed gzip stream whose contents are not UTF-8
    let mut encoder = flate2::write::GzEncoder::new(Vec::new(), flate2::Compression::best());
    encoder.write_all(&[0xff, 0xfe, 0x80]).unwrap();
    let compressed = encoder.finish().unwrap();

    assert_eq!(
        decompress_snapshot_data(&compressed).unwrap_err(),
        StorageError::InvalidEncoding
    );
}

#[test]
fn test_roundtrip_empty_and_unicode() {
    for text in ["", "a", "snapshot \u{2764} data"] {
        let compressed = compress_snapshot_data(text).unwrap();
        assert_eq!(decompress_snapshot_data(&compressed).unwrap(), text);
    }
}
