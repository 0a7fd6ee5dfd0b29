//! End-to-end tests: the float pipelines around each codec variant,
//! driven through the library's word-level types.

use compression_experiment::ans::{delta_ans_compress, delta_ans_decompress, SymbolSeq};
use compression_experiment::ans_simple::{
    delta_ans_compress as simple_compress, delta_ans_decompress as simple_decompress,
    ScaledSymbolSeq,
};
use compression_experiment::attractor::{
    attractor_compress, attractor_decompress, select_top_variance_dims, AttractorSeq,
};
use compression_experiment::delta::{delta_compress, delta_decompress, DeltaSeq};
use compression_experiment::delta_lossless::{delta_lossless_compress, delta_lossless_decompress};
use compression_experiment::polar::{polar_delta_compress, polar_delta_decompress, PolarDeltaSeq};
use rand::Rng;

fn drifting_vectors(n: usize, dim: usize, start: f32, step: f32) -> Vec<Vec<f32>> {
    let mut vectors = Vec::new();
    let mut current = vec![start; dim];
    vectors.push(current.clone());
    for _ in 0..n - 1 {
        for val in current.iter_mut() {
            *val += step;
        }
        vectors.push(current.clone());
    }
    vectors
}

fn exact_delta_seq(vectors: &[Vec<f32>]) -> DeltaSeq {
    let n = vectors.len();
    let dim = if n == 0 { 0 } else { vectors[0].len() };
    let anchor: Vec<u32> = if n == 0 {
        Vec::new()
    } else {
        vectors[0].iter().map(|f| f.to_bits()).collect()
    };
    let mut deltas = Vec::new();
    for i in 1..n {
        for j in 0..dim {
            deltas.push((vectors[i][j] - vectors[i - 1][j]).to_bits());
        }
    }
    DeltaSeq::new(n, dim, anchor, deltas).expect("shape must be valid")
}

fn rebuild_from_delta_seq(seq: &DeltaSeq) -> Vec<Vec<f32>> {
    let mut vectors = Vec::new();
    if seq.n_vectors == 0 {
        return vectors;
    }
    let first: Vec<f32> = seq.anchor.iter().map(|w| f32::from_bits(*w)).collect();
    vectors.push(first);
    for i in 1..seq.n_vectors {
        let prev = vectors[i - 1].clone();
        let mut row = Vec::new();
        for j in 0..seq.dim {
            let d = f32::from_bits(seq.deltas[(i - 1) * seq.dim + j]);
            row.push(prev[j] + d);
        }
        vectors.push(row);
    }
    vectors
}

#[test]
fn test_delta_lossless_roundtrip() {
    let mut vectors = Vec::new();
    let mut current = vec![0.5f32; 10];
    vectors.push(current.clone());
    for _ in 0..99 {
        for val in current.iter_mut() {
            *val += 0.01;
        }
        vectors.push(current.clone());
    }

    let seq = exact_delta_seq(&vectors);
    let compressed = delta_lossless_compress(&seq).expect("payload fits");
    let back = delta_lossless_decompress(&compressed).expect("own blob decodes");
    let decompressed = rebuild_from_delta_seq(&back);

    assert_eq!(vectors.len(), decompressed.len());
    for (orig, decomp) in vectors.iter().zip(decompressed.iter()) {
        assert_eq!(orig.len(), decomp.len());
        for (o, d) in orig.iter().zip(decomp.iter()) {
            assert_eq!(o, d, "Valor original: {}, Decomprimido: {}", o, d);
        }
    }
}

#[test]
fn test_raw_delta_roundtrip_exact() {
    let vectors = drifting_vectors(40, 7, -0.25, 0.013);
    let seq = exact_delta_seq(&vectors);
    let compressed = delta_compress(&seq).expect("payload fits");
    let back = delta_decompress(&compressed).expect("own blob decodes");
    let decompressed = rebuild_from_delta_seq(&back);
    assert_eq!(vectors, decompressed);
}

/// Quantizes each delta against the reconstruction the decoder will
/// have, so the error never accumulates past one quantization step.
fn quantized_symbols(vectors: &[Vec<f32>], scale: f32) -> (Vec<u32>, Vec<i8>) {
    let n = vectors.len();
    let dim = vectors[0].len();
    let anchor: Vec<u32> = vectors[0].iter().map(|f| f.to_bits()).collect();
    let mut recon = vectors[0].clone();
    let mut symbols = Vec::new();
    for i in 1..n {
        for j in 0..dim {
            let delta = vectors[i][j] - recon[j];
            let q = (delta / scale * 127.0).round().clamp(-127.0, 127.0) as i8;
            symbols.push(q);
            recon[j] += q as f32 / 127.0 * scale;
        }
    }
    (anchor, symbols)
}

#[test]
fn ans_test_delta_ans_roundtrip() {
    let mut vectors = Vec::new();
    let mut current = vec![0.5f32; 10];
    vectors.push(current.clone());
    for _ in 0..99 {
        for val in current.iter_mut() {
            *val += 0.01;
        }
        vectors.push(current.clone());
    }

    let (anchor, symbols) = quantized_symbols(&vectors, 1.0);
    let seq = SymbolSeq::new(vectors.len(), 10, anchor, symbols).expect("shape must be valid");
    let compressed = delta_ans_compress(&seq).expect("payload fits");
    let back = delta_ans_decompress(&compressed).expect("own blob decodes");

    assert_eq!(vectors.len(), back.n_vectors);
    let mut recon: Vec<f32> = back.anchor.iter().map(|w| f32::from_bits(*w)).collect();
    for (i, orig) in vectors.iter().enumerate() {
        assert_eq!(orig.len(), back.dim);
        if i > 0 {
            for j in 0..back.dim {
                recon[j] += back.symbols[(i - 1) * back.dim + j] as f32 / 127.0;
            }
        }
        for (o, d) in orig.iter().zip(recon.iter()) {
            assert!((o - d).abs() < 0.01, "Valor original: {}, Decomprimido: {}", o, d);
        }
    }
}

#[test]
fn test_compression_ratio() {
    let mut vectors = Vec::new();
    let base = vec![0.5f32; 100];
    vectors.push(base.clone());
    let mut current = base;
    for _ in 0..999 {
        for val in current.iter_mut() {
            *val += 0.001;
        }
        vectors.push(current.clone());
    }

    let original_size = vectors.len() * vectors[0].len() * 4;
    let (anchor, symbols) = quantized_symbols(&vectors, 1.0);
    let seq = SymbolSeq::new(vectors.len(), 100, anchor, symbols).expect("shape must be valid");
    let compressed = delta_ans_compress(&seq).expect("payload fits");
    let ratio = original_size as f64 / compressed.len() as f64;

    println!("Original: {} bytes", original_size);
    println!("Compressed: {} bytes", compressed.len());
    println!("Ratio: {:.2}x", ratio);
    assert!(ratio > 10.0, "Ratio: {:.2}x, esperaba >10x", ratio);
}

#[test]
fn test_entropy_histogram_concentrated() {
    // Constant small drift hits very few quantization buckets.
    let vectors = drifting_vectors(1000, 100, 0.5, 0.001);
    let (_, symbols) = quantized_symbols(&vectors, 1.0);
    let counts = compression_experiment::histogram::build_counts(&symbols);
    let distinct = counts.iter().filter(|c| **c > 0).count();
    assert!(distinct <= 4, "distinct symbols: {}", distinct);
}

#[test]
fn ans_simple_test_delta_ans_roundtrip() {
    let mut vectors = Vec::new();
    let mut current = vec![0.5f32; 10];
    vectors.push(current.clone());
    for _ in 0..99 {
        for val in current.iter_mut() {
            *val += 0.01;
        }
        vectors.push(current.clone());
    }

    // Scale from the largest true delta; 1.0 when all deltas vanish.
    let mut max_abs = 0.0f32;
    for i in 1..vectors.len() {
        for j in 0..vectors[i].len() {
            max_abs = max_abs.max((vectors[i][j] - vectors[i - 1][j]).abs());
        }
    }
    let scale = if max_abs > 1e-10 { max_abs } else { 1.0 };

    let (anchor, symbols) = quantized_symbols(&vectors, scale);
    let seq = ScaledSymbolSeq::new(vectors.len(), 10, scale.to_bits(), anchor, symbols)
        .expect("shape must be valid");
    let compressed = simple_compress(&seq).expect("payload fits");
    let back = simple_decompress(&compressed).expect("own blob decodes");

    assert_eq!(vectors.len(), back.n_vectors);
    let got_scale = f32::from_bits(back.scale_bits);
    let mut recon: Vec<f32> = back.anchor.iter().map(|w| f32::from_bits(*w)).collect();
    for (i, orig) in vectors.iter().enumerate() {
        assert_eq!(orig.len(), back.dim);
        if i > 0 {
            for j in 0..back.dim {
                recon[j] += back.symbols[(i - 1) * back.dim + j] as f32 / 127.0 * got_scale;
            }
        }
        for (o, d) in orig.iter().zip(recon.iter()) {
            assert!((o - d).abs() < 0.02, "Valor original: {}, Decomprimido: {}", o, d);
        }
    }
}

#[test]
fn test_attractor_compression() {
    let n = 1000;
    let dim = 768;
    let mut vectors: Vec<Vec<f32>> = Vec::new();

    let mut rng = rand::thread_rng();

    // A trajectory that really lives on two directions embedded in 768.
    let projection: Vec<Vec<f32>> = (0..768)
        .map(|_| vec![rng.gen::<f32>(), rng.gen::<f32>()])
        .collect();

    for t in 0..n {
        let theta = (t as f32) * 0.01;
        let x = theta.cos();
        let y = theta.sin();
        let mut vec = vec![0.0f32; dim];
        for i in 0..dim {
            vec[i] = x * projection[i][0] + y * projection[i][1];
        }
        vectors.push(vec);
    }

    // Per-dimension mean and variance, ranked through the library.
    let mut mean = vec![0.0f64; dim];
    for v in &vectors {
        for j in 0..dim {
            mean[j] += v[j] as f64;
        }
    }
    for m in mean.iter_mut() {
        *m /= n as f64;
    }
    let mut variances = vec![0.0f64; dim];
    for v in &vectors {
        for j in 0..dim {
            let c = v[j] as f64 - mean[j];
            variances[j] += c * c;
        }
    }
    for v in variances.iter_mut() {
        *v /= n as f64;
    }
    let var_bits: Vec<u64> = variances.iter().map(|v| v.to_bits()).collect();
    let dims = select_top_variance_dims(&var_bits, 10);
    let k = dims.len();

    // Project, then quantize deltas against the decoder's reconstruction.
    let project = |v: &Vec<f32>| -> Vec<f64> {
        dims.iter().map(|d| v[*d as usize] as f64 - mean[*d as usize]).collect()
    };
    let first = project(&vectors[0]);
    let anchor: Vec<u32> = first.iter().map(|x| (*x as f32).to_bits()).collect();
    let mut recon: Vec<f64> = anchor.iter().map(|w| f32::from_bits(*w) as f64).collect();
    let mut deltas: Vec<i16> = Vec::new();
    for i in 1..n {
        let p = project(&vectors[i]);
        for j in 0..k {
            let q = ((p[j] - recon[j]) * 1000.0).round().clamp(-32768.0, 32767.0) as i16;
            deltas.push(q);
            recon[j] += q as f64 / 1000.0;
        }
    }
    let mean_bits: Vec<u32> = mean.iter().map(|m| (*m as f32).to_bits()).collect();
    let seq = AttractorSeq::new(n, dim, k, mean_bits, dims, anchor, deltas)
        .expect("shape must be valid");
    let compressed = attractor_compress(&seq).expect("payload fits");
    let original_size = n * dim * 4;
    let ratio = original_size as f64 / compressed.len() as f64;

    println!("Original: {} bytes", original_size);
    println!("Compressed: {} bytes", compressed.len());
    println!("Ratio: {:.2}x", ratio);
    assert!(ratio > 5.0, "Ratio: {:.2}x, esperaba >5x", ratio);

    let back = attractor_decompress(&compressed).expect("own blob decodes");
    assert_eq!(back.n_vectors, vectors.len());
}

fn to_polar_2d(v: &[f32]) -> (f32, f32) {
    let r = (v[0] * v[0] + v[1] * v[1]).sqrt();
    let phi = v[1].atan2(v[0]);
    (r, phi)
}

fn from_polar_2d(r: f32, phi: f32) -> Vec<f32> {
    vec![r * phi.cos(), r * phi.sin()]
}

#[test]
fn test_polar_roundtrip_small() {
    let pi = std::f32::consts::PI;
    let vectors: Vec<Vec<f32>> = (0..20)
        .map(|t| {
            let theta = 0.3f32 + t as f32 * 0.01;
            vec![1.5f32 * theta.cos(), 1.5f32 * theta.sin()]
        })
        .collect();

    let polar: Vec<(f32, f32)> = vectors.iter().map(|v| to_polar_2d(v)).collect();
    let anchor = vec![polar[0].0.to_bits(), polar[0].1.to_bits()];
    let mut mag_deltas = Vec::new();
    let mut angle_deltas = Vec::new();
    let mut recon_phi = polar[0].1;
    for i in 1..polar.len() {
        mag_deltas.push((polar[i].0 - polar[i - 1].0).to_bits());
        let d = polar[i].1 - recon_phi;
        let q = (d * (32767.0 / pi)).round().clamp(-32768.0, 32767.0) as i16;
        angle_deltas.push(q);
        recon_phi += q as f32 * (pi / 32767.0);
    }

    let seq = PolarDeltaSeq::new(vectors.len(), 2, anchor, mag_deltas, angle_deltas)
        .expect("shape must be valid");
    let compressed = polar_delta_compress(&seq).expect("payload fits");
    let back = polar_delta_decompress(&compressed).expect("own blob decodes");

    assert_eq!(back.n_vectors, vectors.len());
    assert_eq!(back.dim, 2);
    let mut mag = f32::from_bits(back.anchor[0]);
    let mut phi = f32::from_bits(back.anchor[1]);
    let first = from_polar_2d(mag, phi);
    assert!((first[0] - vectors[0][0]).abs() < 1e-4);
    assert!((first[1] - vectors[0][1]).abs() < 1e-4);
    for i in 1..vectors.len() {
        mag += f32::from_bits(back.mag_deltas[i - 1]);
        phi += back.angle_deltas[i - 1] as f32 * (pi / 32767.0);
        let row = from_polar_2d(mag, phi);
        // angle error stays below one quantization step
        let (_, true_phi) = to_polar_2d(&vectors[i]);
        assert!((phi - true_phi).abs() <= pi / 32767.0 + 1e-5);
        assert!((row[0] - vectors[i][0]).abs() < 1e-3);
        assert!((row[1] - vectors[i][1]).abs() < 1e-3);
    }
}

#[test]
fn test_rle_vs_raw_delta_ratio() {
    // Constant offsets make consecutive deltas bit-identical, which the
    // run-length stage collapses before the backend sees them.
    let vectors = drifting_vectors(100, 10, 0.5, 0.01);
    let seq = exact_delta_seq(&vectors);
    let raw = delta_compress(&seq).expect("payload fits");
    let rle = delta_lossless_compress(&seq).expect("payload fits");
    assert!(
        rle.len() < raw.len(),
        "rle blob {} bytes, raw blob {} bytes",
        rle.len(),
        raw.len()
    );
}
