use geyser_plugin_cos::compression::{compress, compress_best, decompress, CompressionMethod};

#[test]
fn compress_best_round_trip_empty() {
    let data: Vec<u8> = Vec::new();
    let c = compress_best(&data).unwrap();
    // The no-op candidate is four tag bytes; every real compressor adds
    // framing, so the empty payload keeps the no-op method.
    assert_eq!(c, vec![0u8, 0, 0, 0]);
    let d = decompress(&c).unwrap();
    assert_eq!(d, data);
}

#[test]
fn compress_best_round_trip_single_byte() {
    let data: Vec<u8> = vec![42];
    let c = compress_best(&data).unwrap();
    assert_eq!(c, vec![0u8, 0, 0, 0, 42]);
    let d = decompress(&c).unwrap();
    assert_eq!(d, data);
}

#[test]
fn compress_best_round_trip_large() {
    let mut data: Vec<u8> = Vec::new();
    for i in 0..1_200_000usize {
        data.push((i % 251) as u8);
    }
    let c = compress_best(&data).unwrap();
    assert!(c.len() <= data.len() + 4);
    // A periodic megabyte compresses well, so a real method must win.
    assert_ne!(&c[0..4], &[0u8, 0, 0, 0]);
    let d = decompress(&c).unwrap();
    assert_eq!(d, data);
}

#[test]
fn every_method_round_trips() {
    let data: Vec<u8> = b"the same payload through every registered compressor".to_vec();
    for method in [
        CompressionMethod::NoCompression,
        CompressionMethod::Bzip2,
        CompressionMethod::Gzip,
        CompressionMethod::Zstd,
    ] {
        let c = compress(method, &data).unwrap();
        assert_eq!(&c[0..4], &(method_tag(method)).to_le_bytes());
        if !matches!(method, CompressionMethod::NoCompression) {
            // A real compressed form is never the raw payload.
            assert_ne!(&c[4..], &data[..]);
        }
        let d = decompress(&c).unwrap();
        assert_eq!(d, data);
    }
}

fn method_tag(m: CompressionMethod) -> u32 {
    m.tag()
}

#[test]
fn decompress_rejects_short_blob() {
    assert!(decompress(&vec![1u8, 2, 3]).is_err());
}

#[test]
fn decompress_rejects_unknown_tag() {
    assert!(decompress(&vec![9u8, 0, 0, 0, 1, 2, 3]).is_err());
}

#[test]
fn method_tags_follow_registration_order() {
    assert_eq!(CompressionMethod::NoCompression.tag(), 0);
    assert_eq!(CompressionMethod::Bzip2.tag(), 1);
    assert_eq!(CompressionMethod::Gzip.tag(), 2);
    assert_eq!(CompressionMethod::Zstd.tag(), 3);
}

#[test]
fn ties_prefer_the_no_op_method() {
    // Incompressible noise: every compressor output is at least as long as
    // the no-op candidate, which must then win the tie-break order.
    let mut data: Vec<u8> = Vec::new();
    let mut x: u64 = 0x9e3779b97f4a7c15;
    for _ in 0..64 {
        x = x.wrapping_mul(6364136223846793005).wrapping_add(1442695040888963407);
        data.push((x >> 33) as u8);
    }
    let c = compress_best(&data).unwrap();
    if c.len() == data.len() + 4 {
        assert_eq!(&c[0..4], &[0u8, 0, 0, 0]);
    }
    assert_eq!(decompress(&c).unwrap(), data);
}
