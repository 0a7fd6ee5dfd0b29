//! Format-level tests: empty and short blobs, exact header bytes,
//! malformed input, the baseline codecs and the dimension ranking.

use compression_experiment::ans::{delta_ans_compress, delta_ans_decompress, SymbolSeq};
use compression_experiment::ans_simple::{
    delta_ans_compress as simple_compress, delta_ans_decompress as simple_decompress,
    ScaledSymbolSeq,
};
use compression_experiment::attractor::{
    attractor_compress, attractor_decompress, select_top_variance_dims, AttractorSeq,
};
use compression_experiment::baseline::{
    gzip_compress, gzip_decompress, int8_compress, int8_decompress, zstd_compress,
    zstd_decompress,
};
use compression_experiment::delta::{delta_compress, delta_decompress, DeltaSeq};
use compression_experiment::delta_lossless::{delta_lossless_compress, delta_lossless_decompress};
use compression_experiment::polar::{polar_delta_compress, polar_delta_decompress, PolarDeltaSeq};

#[test]
fn test_empty_sequences_all_variants() {
    let d = DeltaSeq::new(0, 0, Vec::new(), Vec::new()).unwrap();
    assert!(delta_compress(&d).unwrap().is_empty());
    assert!(delta_lossless_compress(&d).unwrap().is_empty());

    let s = SymbolSeq::new(0, 0, Vec::new(), Vec::new()).unwrap();
    assert!(delta_ans_compress(&s).unwrap().is_empty());

    let sc = ScaledSymbolSeq::new(0, 0, 0, Vec::new(), Vec::new()).unwrap();
    assert!(simple_compress(&sc).unwrap().is_empty());

    let p = PolarDeltaSeq::new(0, 0, Vec::new(), Vec::new(), Vec::new()).unwrap();
    assert!(polar_delta_compress(&p).unwrap().is_empty());

    let a = AttractorSeq::new(0, 0, 0, Vec::new(), Vec::new(), Vec::new(), Vec::new()).unwrap();
    assert!(attractor_compress(&a).unwrap().is_empty());
}

#[test]
fn test_short_blob_decodes_empty() {
    let short = vec![1u8, 2, 3];
    assert_eq!(delta_decompress(&short).unwrap().n_vectors, 0);
    assert_eq!(delta_lossless_decompress(&short).unwrap().n_vectors, 0);
    assert_eq!(delta_ans_decompress(&short).unwrap().n_vectors, 0);
    assert_eq!(simple_decompress(&short).unwrap().n_vectors, 0);
    assert_eq!(polar_delta_decompress(&short).unwrap().n_vectors, 0);
    assert_eq!(attractor_decompress(&short).unwrap().n_vectors, 0);
    assert_eq!(delta_decompress(&[]).unwrap().n_vectors, 0);
}

#[test]
fn test_header_bytes_exact() {
    // Two vectors of dimension one: anchor 1.0f32, delta word 0.5f32.
    let seq = DeltaSeq::new(2, 1, vec![1.0f32.to_bits()], vec![0.5f32.to_bits()]).unwrap();
    let blob = delta_compress(&seq).unwrap();
    assert_eq!(&blob[0..4], &[2u8, 0, 0, 0]);
    assert_eq!(&blob[4..8], &[1u8, 0, 0, 0]);
    assert_eq!(&blob[8..12], &1.0f32.to_bits().to_le_bytes());
    let plen = u32::from_le_bytes([blob[12], blob[13], blob[14], blob[15]]) as usize;
    assert_eq!(blob.len(), 16 + plen);
}

#[test]
fn test_malformed_blobs_error() {
    // A header promising more bytes than the blob holds.
    let mut blob = Vec::new();
    blob.extend_from_slice(&5u32.to_le_bytes());
    blob.extend_from_slice(&1000u32.to_le_bytes());
    assert!(delta_decompress(&blob).is_err());
    assert!(delta_lossless_decompress(&blob).is_err());
    assert!(delta_ans_decompress(&blob).is_err());
    assert!(polar_delta_decompress(&blob).is_err());

    // A payload that is not a gzip stream.
    let mut bad = Vec::new();
    bad.extend_from_slice(&2u32.to_le_bytes());
    bad.extend_from_slice(&1u32.to_le_bytes());
    bad.extend_from_slice(&1.0f32.to_bits().to_le_bytes());
    bad.extend_from_slice(&4u32.to_le_bytes());
    bad.extend_from_slice(&[9u8, 9, 9, 9]);
    assert!(delta_decompress(&bad).is_err());
}

#[test]
fn test_gzip_baseline_roundtrip() {
    let rows: Vec<Vec<u32>> = vec![
        vec![1.0f32.to_bits(), 2.0f32.to_bits()],
        vec![3.5f32.to_bits(), (-0.25f32).to_bits()],
    ];
    let blob = gzip_compress(&rows);
    assert!(!blob.is_empty());
    let flat = gzip_decompress(&blob).unwrap();
    assert_eq!(flat, vec![
        1.0f32.to_bits(),
        2.0f32.to_bits(),
        3.5f32.to_bits(),
        (-0.25f32).to_bits(),
    ]);
}

#[test]
fn test_zstd_baseline_roundtrip() {
    let rows: Vec<Vec<u32>> = vec![vec![7u32; 100], vec![9u32; 100]];
    let blob = zstd_compress(&rows);
    let flat = zstd_decompress(&blob).unwrap();
    let mut expect = vec![7u32; 100];
    expect.extend(vec![9u32; 100]);
    assert_eq!(flat, expect);
}

#[test]
fn test_int8_baseline_roundtrip() {
    let symbols: Vec<i8> = vec![0, 1, -1, 127, -128, 64, -63];
    let blob = int8_compress(&symbols);
    let back = int8_decompress(&blob).unwrap();
    assert_eq!(back, symbols);
}

#[test]
fn test_baseline_decompress_rejects_garbage() {
    let garbage = vec![0u8, 1, 2, 3, 4, 5];
    assert!(gzip_decompress(&garbage).is_err());
    assert!(zstd_decompress(&garbage).is_err());
    assert!(int8_decompress(&garbage).is_err());
}

#[test]
fn test_select_top_variance_dims_ranking() {
    // Variances as bit patterns of nonnegative doubles order like the
    // doubles themselves.
    let variances: Vec<u64> = vec![
        5.0f64.to_bits(),
        9.0f64.to_bits(),
        9.0f64.to_bits(),
        1.0f64.to_bits(),
    ];
    let top2 = select_top_variance_dims(&variances, 2);
    assert_eq!(top2, vec![1u32, 2]);
    let all = select_top_variance_dims(&variances, 10);
    assert_eq!(all, vec![1u32, 2, 0, 3]);
    let none = select_top_variance_dims(&variances, 0);
    assert!(none.is_empty());
}

#[test]
fn test_select_caps_at_fifty() {
    let variances: Vec<u64> = (0..80u64).map(|i| (i as f64).to_bits()).collect();
    let picked = select_top_variance_dims(&variances, 60);
    assert_eq!(picked.len(), 50);
    assert_eq!(picked[0], 79);
    assert_eq!(picked[49], 30);
}

#[test]
fn test_builders_reject_bad_shapes() {
    // Anchor length must match the dimension.
    assert!(DeltaSeq::new(2, 3, vec![0u32; 2], vec![0u32; 3]).is_none());
    // Delta count must be (n - 1) * dim.
    assert!(DeltaSeq::new(3, 2, vec![0u32; 2], vec![0u32; 3]).is_none());
    // The empty sequence carries nothing.
    assert!(DeltaSeq::new(0, 1, Vec::new(), Vec::new()).is_none());
    // Polar needs at least two coordinates.
    assert!(PolarDeltaSeq::new(2, 1, vec![0u32], vec![0u32], Vec::new()).is_none());
    // Retained dimensions must be distinct and in range.
    assert!(
        AttractorSeq::new(2, 4, 2, vec![0u32; 4], vec![1u32, 1], vec![0u32; 2], vec![0i16; 2])
            .is_none()
    );
    assert!(
        AttractorSeq::new(2, 4, 2, vec![0u32; 4], vec![1u32, 9], vec![0u32; 2], vec![0i16; 2])
            .is_none()
    );
    assert!(
        AttractorSeq::new(2, 4, 2, vec![0u32; 4], vec![1u32, 3], vec![0u32; 2], vec![0i16; 2])
            .is_some()
    );
}

#[test]
fn test_attractor_words_roundtrip() {
    let seq = AttractorSeq::new(
        3,
        4,
        2,
        vec![0u32; 4],
        vec![2u32, 0],
        vec![1.0f32.to_bits(), 2.0f32.to_bits()],
        vec![10i16, -20, 30, -40],
    )
    .unwrap();
    let blob = attractor_compress(&seq).unwrap();
    let back = attractor_decompress(&blob).unwrap();
    assert_eq!(back.n_vectors, 3);
    assert_eq!(back.dim, 4);
    assert_eq!(back.k, 2);
    assert_eq!(back.dims, vec![2u32, 0]);
    assert_eq!(back.anchor, seq.anchor);
    assert_eq!(back.deltas, vec![10i16, -20, 30, -40]);
}
