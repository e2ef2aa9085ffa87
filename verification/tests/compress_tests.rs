use courses_data::compress::{compress, decompress, Codec};
use courses_data::error::Error;

const NONE: Codec = Codec { zlib: false, brotli: false };
const ZLIB: Codec = Codec { zlib: true, brotli: false };
const BROTLI: Codec = Codec { zlib: false, brotli: true };
const BOTH: Codec = Codec { zlib: true, brotli: true };

fn samples() -> Vec<Vec<u8>> {
    let mut long = Vec::new();
    for i in 0..20000u32 {
        long.push((i % 251) as u8);
        long.push((i / 7 % 13) as u8);
    }
    vec![
        vec![],
        vec![0],
        b"hello hello hello hello".to_vec(),
        (0..=255u8).collect(),
        vec![0xaa; 100_000],
        long,
    ]
}

#[test]
fn compress_then_decompress_gives_the_bytes_back() {
    for codec in [NONE, ZLIB, BROTLI, BOTH] {
        for bytes in samples() {
            let packed = compress(codec, &bytes).unwrap();
            assert_eq!(decompress(codec, &packed).unwrap(), bytes);
        }
    }
}

#[test]
fn empty_input_round_trips() {
    for codec in [NONE, ZLIB, BROTLI, BOTH] {
        let packed = compress(codec, &[]).unwrap();
        assert_eq!(decompress(codec, &packed).unwrap(), Vec::<u8>::new());
    }
}

#[test]
fn no_codec_stores_the_bytes_as_they_are() {
    let bytes = b"plain".to_vec();
    assert_eq!(compress(NONE, &bytes).unwrap(), bytes);
    assert_eq!(decompress(NONE, &bytes).unwrap(), bytes);
}

#[test]
fn codecs_change_the_bytes() {
    let bytes = vec![b'a'; 1000];
    for codec in [ZLIB, BROTLI, BOTH] {
        let packed = compress(codec, &bytes).unwrap();
        assert_ne!(packed, bytes);
        assert!(packed.len() < bytes.len());
    }
}

#[test]
fn zlib_output_starts_with_a_zlib_header() {
    let packed = compress(ZLIB, &b"some bytes"[..]).unwrap();
    assert_eq!(packed[0], 0x78);
    assert_eq!((packed[0] as u16 * 256 + packed[1] as u16) % 31, 0);
}

#[test]
fn compression_is_deterministic() {
    for codec in [ZLIB, BROTLI, BOTH] {
        for bytes in samples() {
            assert_eq!(compress(codec, &bytes).unwrap(), compress(codec, &bytes).unwrap());
        }
    }
}

#[test]
fn both_codecs_apply_zlib_first_and_brotli_second() {
    let bytes = b"order of the codecs".to_vec();
    let inner = compress(ZLIB, &bytes).unwrap();
    let outer = compress(BROTLI, &inner).unwrap();
    assert_eq!(compress(BOTH, &bytes).unwrap(), outer);
    assert_eq!(decompress(BROTLI, &outer).unwrap(), inner);
}

#[test]
fn garbage_is_a_decompression_failure() {
    let garbage = vec![0xde, 0xad, 0xbe, 0xef, 1, 2, 3, 4, 5, 6, 7, 8, 9];
    for codec in [ZLIB, BROTLI, BOTH] {
        assert!(matches!(decompress(codec, &garbage), Err(Error::DecompressionFailure)));
    }
}

#[test]
fn mixing_codecs_is_a_decompression_failure() {
    let bytes = b"written with one codec, read with another".to_vec();
    let z = compress(ZLIB, &bytes).unwrap();
    let b = compress(BROTLI, &bytes).unwrap();
    assert!(matches!(decompress(BROTLI, &z), Err(Error::DecompressionFailure)));
    assert!(matches!(decompress(ZLIB, &b), Err(Error::DecompressionFailure)));
    assert!(matches!(decompress(BOTH, &z), Err(Error::DecompressionFailure)));
    assert!(matches!(decompress(BOTH, &b), Err(Error::DecompressionFailure)));
}

#[test]
fn truncated_stream_is_a_decompression_failure() {
    let bytes = vec![7u8; 5000];
    let z = compress(ZLIB, &bytes).unwrap();
    assert!(matches!(decompress(ZLIB, &z[..z.len() / 2]), Err(Error::DecompressionFailure)));
    let b = compress(BROTLI, &bytes).unwrap();
    assert!(matches!(
        decompress(BROTLI, &b[..b.len() / 2]),
        Err(Error::DecompressionFailure)
    ));
}

#[test]
fn empty_stream_is_a_decompression_failure() {
    assert!(matches!(decompress(ZLIB, &[]), Err(Error::DecompressionFailure)));
    assert!(matches!(decompress(BROTLI, &[]), Err(Error::DecompressionFailure)));
}
