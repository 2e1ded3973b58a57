use remote_window::compression::{
    create_frame_compression, CodecError, CompressionKind, FrameCompression, Lz4Compression,
    NoCompression, ZstdCompression,
};

fn sample_frame() -> Vec<u8> {
    let mut v = Vec::new();
    for i in 0..5000u32 {
        v.push((i % 7) as u8);
        v.push((i / 300) as u8);
    }
    v
}

#[test]
fn kind_ids_round_trip() {
    for k in [CompressionKind::Raw, CompressionKind::Zstd, CompressionKind::Lz4] {
        assert_eq!(CompressionKind::from_id(k.id()), Some(k));
    }
    assert_eq!(CompressionKind::Raw.id(), 0);
    assert_eq!(CompressionKind::Zstd.id(), 1);
    assert_eq!(CompressionKind::Lz4.id(), 2);
    assert_eq!(CompressionKind::from_id(3), None);
}

#[test]
fn kind_names() {
    assert_eq!(CompressionKind::Raw.name(), "none");
    assert_eq!(CompressionKind::Zstd.name(), "zstd");
    assert_eq!(CompressionKind::Lz4.name(), "lz4");
    for k in [CompressionKind::Raw, CompressionKind::Zstd, CompressionKind::Lz4] {
        assert_eq!(CompressionKind::from_str(k.name()), Some(k));
    }
}

#[test]
fn kind_from_str_trims_and_ignores_case() {
    assert_eq!(CompressionKind::from_str("  ZSTD\n"), Some(CompressionKind::Zstd));
    assert_eq!(CompressionKind::from_str("Raw"), Some(CompressionKind::Raw));
    assert_eq!(CompressionKind::from_str("none"), Some(CompressionKind::Raw));
    assert_eq!(CompressionKind::from_str("\tLz4 "), Some(CompressionKind::Lz4));
    assert_eq!(CompressionKind::from_str("lz 4"), None);
    assert_eq!(CompressionKind::from_str(""), None);
}

#[test]
fn kind_from_env_defaults() {
    assert_eq!(CompressionKind::from_env(None), CompressionKind::Lz4);
    assert_eq!(CompressionKind::from_env(Some("gzip")), CompressionKind::Zstd);
    assert_eq!(CompressionKind::from_env(Some("none")), CompressionKind::Raw);
}

#[test]
fn every_codec_round_trips() {
    let frame = sample_frame();
    for k in [CompressionKind::Raw, CompressionKind::Zstd, CompressionKind::Lz4] {
        let codec = create_frame_compression(k);
        assert_eq!(codec.kind(), k);
        let packed = codec.compress(&frame).unwrap();
        let unpacked = codec.decompress(&packed, frame.len()).unwrap();
        assert_eq!(unpacked, frame);
    }
}

#[test]
fn packed_codecs_shrink_repetitive_frames() {
    let frame = vec![7u8; 100_000];
    let zstd = ZstdCompression::with_level(3).compress(&frame).unwrap();
    let lz4 = Lz4Compression.compress(&frame).unwrap();
    assert!(zstd.len() < frame.len() / 10);
    assert!(lz4.len() < frame.len() / 10);
    assert_ne!(zstd, frame);
}

#[test]
fn raw_codec_checks_size() {
    let frame = vec![1u8, 2, 3];
    let err = NoCompression.decompress(&frame, 4).unwrap_err();
    match err {
        CodecError::SizeMismatch { got, expected } => {
            assert_eq!(got, 3);
            assert_eq!(expected, 4);
        }
        other => panic!("unexpected {:?}", other),
    }
}

#[test]
fn zstd_checks_size_and_garbage() {
    let frame = sample_frame();
    let codec = ZstdCompression::with_level(3);
    let packed = codec.compress(&frame).unwrap();
    match codec.decompress(&packed, frame.len() + 1).unwrap_err() {
        CodecError::SizeMismatch { got, expected } => {
            assert_eq!(got, frame.len());
            assert_eq!(expected, frame.len() + 1);
        }
        other => panic!("unexpected {:?}", other),
    }
    assert!(matches!(
        codec.decompress(&[1, 2, 3, 4, 5], 10).unwrap_err(),
        CodecError::ZstdDecompress(_)
    ));
}

#[test]
fn lz4_rejects_too_small_room() {
    let frame = sample_frame();
    let packed = Lz4Compression.compress(&frame).unwrap();
    assert!(matches!(
        Lz4Compression.decompress(&packed, frame.len() / 2).unwrap_err(),
        CodecError::Lz4Decompress(_)
    ));
}
