use fountainhead::compression::FountainEncoder;
use fountainhead::decoder::test_decoder::TestFountainDecoder;
use rand::rngs::ThreadRng;
use rand::RngExt;

const C: f64 = 0.06; // Constant factor (typically 0.03 to 0.1)
const DELTA: f64 = 0.01; // Failure probability (typically 0.01 to 0.5)

/// Robust soliton degree distribution, as the application draws degrees.
struct RobustSoliton {
    k: usize,
    cdf: Vec<f64>,
    beta: f64,
}

impl RobustSoliton {
    fn new(k: usize, c: f64, delta: f64) -> Self {
        let mut r = c * (k as f64 / delta).ln() * (k as f64).sqrt();
        if r < 1.0 {
            r = 1.0
        };
        let mut ideal = vec![0.0; k + 1];
        ideal[1] = 1.0 / k as f64;
        for d in 2..=k {
            ideal[d] = 1.0 / (d as f64 * (d - 1) as f64);
        }
        let mut pmf = vec![0.0; k + 1];
        for d in 1..(k / r as usize) {
            pmf[d] += 1.0 / (d as f64 * r);
        }
        pmf[k / r as usize] = (r / k as f64) * (r / delta).ln();
        for i in 1..=k {
            pmf[i] += ideal[i];
        }
        let sum: f64 = pmf.iter().sum();
        for p in &mut pmf {
            *p /= sum;
        }
        let mut cdf = Vec::with_capacity(pmf.len());
        let mut cumsum = 0.0;
        for p in pmf {
            cumsum += p;
            cdf.push(cumsum);
        }
        RobustSoliton { k, cdf, beta: sum }
    }

    fn min_encoded_symbols(&self) -> usize {
        (self.beta * self.k as f64).ceil() as usize
    }

    fn sample(&self, rng: &mut ThreadRng) -> usize {
        let u = rng.random::<f64>();
        match self
            .cdf
            .binary_search_by(|v| v.partial_cmp(&u).unwrap_or(std::cmp::Ordering::Less))
        {
            Ok(idx) => idx,
            Err(idx) => idx,
        }
    }
}

#[test]
fn test_encoder_generation() {
    let source = vec![vec![1, 2, 3, 4], vec![5, 6, 7, 8], vec![9, 10, 11, 12]];

    let c = 0.02; // Constant factor (typically 0.03 to 0.1)
    let delta = 0.05; // Failure probability (typically 0.01 to 0.5)

    let degree_distribution = RobustSoliton::new(source.len(), c, delta);
    let encoder = FountainEncoder::new(source);
    let mut rng = rand::rng();

    for _ in 0..4 {
        let degree = degree_distribution.sample(&mut rng);
        let (indices, symbol) = encoder.generate_symbol(degree, &mut rng);
        assert!(!indices.is_empty());
        assert_eq!(symbol.len(), 4);
    }
}

#[test]
fn test_simple_single_symbol_recovery() {
    let mut decoder = TestFountainDecoder::new(1, 32);

    // Add an encoded symbol that depends only on source symbol 0
    let source_data = vec![42u8; 32];
    decoder.add_symbol(vec![0], source_data.clone());

    let result = decoder.decode();
    assert!(result.is_ok());

    let recovered = decoder.get_symbol(0).unwrap();
    assert_eq!(recovered, &source_data);
}

#[test]
fn test_decoder_with_fountain_encoder() {
    // Create source symbols
    let source_symbols = vec![
        vec![1u8, 2, 3, 4, 5, 6, 7, 8],
        vec![10u8, 20, 30, 40, 50, 60, 70, 80],
        vec![12u8, 24, 36, 48, 52, 64, 76, 82],
        vec![100u8, 110, 120, 130, 140, 150, 160, 170],
        vec![200u8, 210, 220, 230, 240, 250, 251, 252],
    ];

    let k = source_symbols.len();
    let symbol_size = source_symbols[0].len();

    let c = 0.01;
    let delta = 0.01;

    let degree_distribution = RobustSoliton::new(k, c, delta);

    // Generate enough encoded symbols to recover all source symbols
    let num_encoded = degree_distribution.min_encoded_symbols() + 1;

    let encoder = FountainEncoder::new(source_symbols.clone());
    let mut rng = rand::rng();

    let mut encoded_data = Vec::new();

    for _ in 0..num_encoded {
        let degree = degree_distribution.sample(&mut rng);
        let (indices, symbol) = encoder.generate_symbol(degree, &mut rng);
        encoded_data.push((indices, symbol));
    }

    // Decode
    let mut decoder = TestFountainDecoder::new(k, symbol_size);

    for (neighbors, data) in encoded_data {
        decoder.add_symbol(neighbors, data);
    }

    let result = decoder.decode();
    assert!(result.is_ok(), "Decoding failed: {}", result.unwrap_err());

    // Verify recovered symbols match originals
    for (idx, original) in source_symbols.iter().enumerate() {
        let recovered = decoder.get_symbol(idx).expect("Symbol not recovered");
        assert_eq!(
            recovered, original,
            "Mismatch at symbol {}: expected {:?}, got {:?}",
            idx, original, recovered
        );
    }
}

#[test]
fn test_decoder_with_larger_dataset() {
    // Create larger source symbols
    let source_symbols: Vec<Vec<u8>> = (0..10000).map(|i| vec![i as u8; 64]).collect();

    let k = source_symbols.len();
    let symbol_size = source_symbols[0].len();

    let degree_distribution = RobustSoliton::new(k, C, DELTA);

    // Generate enough encoded symbols to recover all source symbols (typically need k + small overhead)
    let num_encoded = degree_distribution.min_encoded_symbols();

    let encoder = FountainEncoder::new(source_symbols.clone());
    let mut rng = rand::rng();

    let mut encoded_data = Vec::new();

    for _ in 0..num_encoded {
        let degree = degree_distribution.sample(&mut rng);
        let (indices, symbol) = encoder.generate_symbol(degree, &mut rng);
        encoded_data.push((indices, symbol));
    }

    // Decode
    let mut decoder = TestFountainDecoder::new(k, symbol_size);

    for (neighbors, data) in encoded_data {
        decoder.add_symbol(neighbors, data);
    }

    let result = decoder.decode();
    assert!(result.is_ok(), "Decoding failed: {}", result.unwrap_err());

    // Verify all symbols recovered
    let (recovered, total) = decoder.recovery_stats();
    assert_eq!(recovered, total, "Not all symbols recovered");

    // Verify correctness
    for (idx, original) in source_symbols.iter().enumerate() {
        let recovered = decoder.get_symbol(idx).expect("Symbol not recovered");
        assert_eq!(recovered, original, "Mismatch at symbol {}", idx);
    }
}

#[test]
fn test_decoder_insufficient_symbols() {
    // Create source symbols
    let source_symbols = vec![
        vec![1u8, 2, 3, 4],
        vec![5u8, 6, 7, 8],
        vec![9u8, 10, 11, 12],
    ];

    let k = source_symbols.len();
    let symbol_size = source_symbols[0].len();

    let degree_distribution = RobustSoliton::new(k, C, DELTA);
    let encoder = FountainEncoder::new(source_symbols);
    let mut rng = rand::rng();

    // Generate only k-1 encoded symbols (insufficient)
    let mut encoded_data = Vec::new();
    for _ in 0..(k - 1) {
        let degree = degree_distribution.sample(&mut rng);
        let (indices, symbol) = encoder.generate_symbol(degree, &mut rng);
        encoded_data.push((indices, symbol));
    }

    // Try to decode
    let mut decoder = TestFountainDecoder::new(k, symbol_size);

    for (neighbors, data) in encoded_data {
        decoder.add_symbol(neighbors, data);
    }

    let result = decoder.decode();
    assert!(
        result.is_err(),
        "Should fail with insufficient symbols: {:?}",
        result.unwrap()
    );
}

#[test]
fn decode_without_symbols_fails() {
    let mut decoder = TestFountainDecoder::new(0, 4);
    let result = decoder.decode();
    assert!(result.is_err());
    assert_eq!(decoder.recovery_stats(), (0, 0));
}

#[test]
fn peeling_recovers_xor_of_two_symbols() {
    let a = vec![0x0fu8, 0xf0, 0x55];
    let b = vec![0xffu8, 0x01, 0xaa];
    let ab: Vec<u8> = a.iter().zip(b.iter()).map(|(x, y)| x ^ y).collect();
    let mut decoder = TestFountainDecoder::new(2, 3);
    decoder.add_symbol(vec![0, 1], ab);
    decoder.add_symbol(vec![0], a.clone());
    let result = decoder.decode().unwrap();
    assert_eq!(result.len(), 2);
    assert_eq!(decoder.get_symbol(0), Some(&a));
    assert_eq!(decoder.get_symbol(1), Some(&b));
}

#[test]
fn stalled_decoding_reports_error() {
    let mut decoder = TestFountainDecoder::new(2, 1);
    decoder.add_symbol(vec![0, 1], vec![7]);
    let result = decoder.decode();
    assert!(result.unwrap_err().contains("stalled"));
    assert_eq!(decoder.recovery_stats(), (0, 2));
}

#[test]
fn generated_symbol_is_xor_of_distinct_sources() {
    let source = vec![vec![1u8, 2, 4], vec![8u8, 16, 32], vec![64u8, 128, 3]];
    let encoder = FountainEncoder::new(source.clone());
    let mut rng = rand::rng();
    for degree in 0..=3 {
        let (indices, symbol) = encoder.generate_symbol(degree, &mut rng);
        assert_eq!(indices.len(), degree);
        let mut sorted = indices.clone();
        sorted.sort();
        sorted.dedup();
        assert_eq!(sorted.len(), degree);
        let mut expected = vec![0u8; 3];
        for &i in &indices {
            assert!(i < 3);
            for j in 0..3 {
                expected[j] ^= source[i][j];
            }
        }
        assert_eq!(symbol, expected);
    }
}

#[test]
fn complete_decoder_decodes_again_unchanged() {
    let a = vec![3u8, 5];
    let mut decoder = TestFountainDecoder::new(1, 2);
    decoder.add_symbol(vec![0], a.clone());
    let first = decoder.decode().unwrap();
    let second = decoder.decode().unwrap();
    assert_eq!(first, second);
    assert_eq!(decoder.get_recovered_symbols(), &first);
    assert_eq!(decoder.recovery_stats(), (1, 1));
}

#[test]
fn fewer_symbols_than_sources_never_complete() {
    let mut decoder = TestFountainDecoder::new(3, 1);
    decoder.add_symbol(vec![0], vec![1]);
    decoder.add_symbol(vec![1], vec![2]);
    assert!(decoder.decode().is_err());
    let (recovered, k) = decoder.recovery_stats();
    assert_eq!(k, 3);
    assert!(recovered <= 2);
    assert!(decoder.get_symbol(2).is_none());
}
