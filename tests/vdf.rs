use base64::engine::general_purpose;
use base64::Engine;
use vdf_wasm::bignat::BigNat;
use vdf_wasm::error::VdfError;
use vdf_wasm::primes::{generate_prime, is_probable_prime, passes_base_for};
use vdf_wasm::vdf::{
    calculate_power_safely, clamp_iterations, decode_field, Forwarder, ProgressLog, ProgressOutput,
    VDFComputer, VDFProof,
};

fn num(v: u64) -> BigNat {
    let mut bytes = v.to_be_bytes().to_vec();
    while bytes.len() > 1 && bytes[0] == 0 {
        bytes.remove(0);
    }
    BigNat::from_be_bytes(bytes)
}

fn decoded(text: &str) -> Vec<u8> {
    general_purpose::STANDARD.decode(text).unwrap()
}

fn flip_first_byte(text: &str) -> String {
    let mut bytes = decoded(text);
    bytes[0] ^= 0x01;
    general_purpose::STANDARD.encode(bytes)
}

#[test]
fn known_primes_pass() {
    for p in [2u64, 3, 7, 104729] {
        assert!(is_probable_prime(&num(p), 5), "{} should pass", p);
    }
}

#[test]
fn known_non_primes_fail() {
    for c in [0u64, 1, 4, 9, 100] {
        assert!(!is_probable_prime(&num(c), 5), "{} should fail", c);
    }
}

#[test]
fn composite_with_many_rounds_fails() {
    assert!(!is_probable_prime(&num(104729 * 7), 20));
    assert!(!is_probable_prime(&num(561), 20));
}

#[test]
fn strong_liar_and_witness() {
    // 221 = 13 * 17: base 174 is a strong liar, base 137 a witness.
    assert!(passes_base_for(&num(221), &num(174)));
    assert!(!passes_base_for(&num(221), &num(137)));
    assert!(passes_base_for(&num(104729), &num(2)));
    assert!(!passes_base_for(&num(100), &num(2)));
    assert!(!passes_base_for(&num(3), &num(2)));
}

#[test]
fn generated_prime_has_exact_width() {
    let p = generate_prime(128).unwrap();
    let bytes = p.to_be_bytes();
    assert_eq!(bytes.len(), 16);
    assert!(bytes[0] >= 0x80);
    assert_eq!(bytes[15] % 2, 1);
    assert!(is_probable_prime(&p, 20));
}

#[test]
fn small_generated_prime() {
    let p = generate_prime(2).unwrap();
    assert_eq!(p.to_be_bytes(), vec![3]);
}

#[test]
fn calculate_power_safely_exact() {
    assert_eq!(calculate_power_safely(0).to_be_bytes(), vec![1]);
    assert_eq!(calculate_power_safely(10).to_be_bytes(), vec![4, 0]);
    let big = calculate_power_safely(1000).to_be_bytes();
    assert_eq!(big.len(), 126);
    assert_eq!(big[0], 1);
    assert!(big[1..].iter().all(|b| *b == 0));
}

#[test]
fn delay_evaluation_squares() {
    let c = VDFComputer::new();
    let mut log = ProgressLog::new();
    let y = c.evaluate_delay(&num(2), 3, &mut log);
    assert_eq!(y.to_be_bytes(), vec![1, 0]);
    assert_eq!(log.values, vec![100]);
}

#[test]
fn progress_is_ordered_and_ends_at_hundred() {
    let c = VDFComputer::new();
    let mut log = ProgressLog::new();
    let proof = c.compute_proof("progress", 2500, &mut log).unwrap();
    assert_eq!(proof.iterations(), 2500);
    assert_eq!(log.values, vec![50, 100, 100]);

    let mut log = ProgressLog::new();
    c.compute_proof("progress", 3000, &mut log).unwrap();
    assert_eq!(log.values, vec![33, 66, 100, 100]);
    assert!(log.values.windows(2).all(|w| w[0] <= w[1]));
    assert_eq!(*log.values.last().unwrap(), 100);
}

#[test]
fn scenario_test_input_thousand_iterations() {
    let c = VDFComputer::new();
    let mut log = ProgressLog::new();
    let proof = c.compute_proof("test", 1000, &mut log).unwrap();
    assert_eq!(proof.iterations(), 1000);
    let l = decoded(&proof.l());
    let bit_len = l.len() * 8 - l[0].leading_zeros() as usize;
    assert!(bit_len >= 120);
    assert_eq!(c.verify_proof("test", &proof), Ok(true));

    let tampered = VDFProof::new(proof.y(), proof.pi(), proof.l(), proof.r(), 999);
    assert_eq!(c.verify_proof("test", &tampered), Err(VdfError::InvalidIterationCount));
}

#[test]
fn proof_remainder_matches_challenge() {
    let c = VDFComputer::new();
    let mut log = ProgressLog::new();
    let proof = c.compute_proof("remainder", 1000, &mut log).unwrap();
    let l = u128::from_be_bytes(decoded(&proof.l()).try_into().unwrap());
    let r_bytes = decoded(&proof.r());
    let mut r: u128 = 0;
    for b in r_bytes {
        r = (r << 8) | b as u128;
    }
    assert!(r < l);
    let mut expected: u128 = 1;
    for _ in 0..1000 {
        expected = if expected >= l - expected { expected - (l - expected) } else { expected * 2 };
    }
    assert_eq!(r, expected);
}

#[test]
fn iterations_out_of_range_rejected() {
    let c = VDFComputer::new();
    let mut log = ProgressLog::new();
    assert_eq!(c.compute_proof("x", 999, &mut log).err(), Some(VdfError::InvalidIterationCount));
    assert_eq!(c.compute_proof("x", 10_000_001, &mut log).err(), Some(VdfError::InvalidIterationCount));
    assert_eq!(c.compute_proof("x", 0, &mut log).err(), Some(VdfError::InvalidIterationCount));
    assert!(log.values.is_empty());
    let p = VDFProof::new("AQ==".to_string(), "AQ==".to_string(), "AQ==".to_string(), "AQ==".to_string(), 10_000_001);
    assert_eq!(c.verify_proof("x", &p), Err(VdfError::InvalidIterationCount));
}

#[test]
fn same_input_same_output_different_challenge() {
    let c = VDFComputer::new();
    let mut log = ProgressLog::new();
    let a = c.compute_proof("again", 1000, &mut log).unwrap();
    let b = c.compute_proof("again", 1000, &mut log).unwrap();
    assert_eq!(a.y(), b.y());
    assert_ne!(a.l(), b.l());
}

#[test]
fn tampered_fields_are_rejected() {
    let c = VDFComputer::new();
    let mut log = ProgressLog::new();
    let p = c.compute_proof("tamper", 1000, &mut log).unwrap();
    let y = VDFProof::new(flip_first_byte(&p.y()), p.pi(), p.l(), p.r(), 1000);
    assert_eq!(c.verify_proof("tamper", &y), Ok(false));
    let pi = VDFProof::new(p.y(), flip_first_byte(&p.pi()), p.l(), p.r(), 1000);
    assert_eq!(c.verify_proof("tamper", &pi), Ok(false));
    let r = VDFProof::new(p.y(), p.pi(), p.l(), flip_first_byte(&p.r()), 1000);
    assert_eq!(c.verify_proof("tamper", &r), Ok(false));
    let l = VDFProof::new(p.y(), p.pi(), flip_first_byte(&p.l()), p.r(), 1000);
    assert_ne!(c.verify_proof("tamper", &l), Ok(true));
    assert_eq!(c.verify_proof("other input", &p), Ok(false));
}

#[test]
fn empty_or_malformed_fields_fail_to_decode() {
    assert_eq!(decode_field("").err(), Some(VdfError::DecodeError));
    assert_eq!(decode_field("not base64!").err(), Some(VdfError::DecodeError));
    assert_eq!(decode_field("AA==").unwrap().to_be_bytes(), vec![0]);
    assert_eq!(decode_field("AQI=").unwrap().to_be_bytes(), vec![1, 2]);

    let c = VDFComputer::new();
    let mut log = ProgressLog::new();
    let p = c.compute_proof("decode", 1000, &mut log).unwrap();
    let empty = VDFProof::new(p.y(), String::new(), p.l(), p.r(), 1000);
    assert_eq!(c.verify_proof("decode", &empty), Err(VdfError::DecodeError));
    let bad = VDFProof::new(p.y(), p.pi(), p.l(), "@@@".to_string(), 1000);
    assert_eq!(c.verify_proof("decode", &bad), Err(VdfError::DecodeError));
}

#[test]
fn short_or_composite_prime_rejected() {
    let c = VDFComputer::new();
    let one = "AQ==".to_string();
    // l = 7: prime but far too short.
    let p = VDFProof::new(one.clone(), one.clone(), "Bw==".to_string(), one.clone(), 1000);
    assert_eq!(c.verify_proof("x", &p), Err(VdfError::InvalidProofPrime));
    // l = 2^127 + 1 is long enough but divisible by 3.
    let mut l = vec![0u8; 16];
    l[0] = 0x80;
    l[15] = 0x01;
    let p = VDFProof::new(one.clone(), one.clone(), general_purpose::STANDARD.encode(&l), one, 1000);
    assert_eq!(c.verify_proof("x", &p), Err(VdfError::InvalidProofPrime));
}

#[test]
fn check_values_exact() {
    let c = VDFComputer::new();
    // pi^l * x^r = 3^2 * 2^3 = 72, far below the modulus.
    assert!(c.check_equation(&num(2), &num(72), &num(3), &num(2), &num(3)));
    assert!(!c.check_equation(&num(2), &num(71), &num(3), &num(2), &num(3)));
    assert_eq!(c.check_values(&num(2), &num(72), &num(3), &num(2), &num(3), true), Err(VdfError::InvalidProofPrime));
    let l = calculate_power_safely(127);
    assert_eq!(c.check_values(&num(2), &num(72), &num(3), &l, &num(3), false), Err(VdfError::InvalidProofPrime));
    assert_eq!(c.check_values(&num(1), &num(1), &num(1), &l, &num(3), true), Ok(true));
    assert_eq!(c.check_values(&num(1), &num(2), &num(1), &l, &num(3), true), Ok(false));
}

#[test]
fn proof_accessors_and_messages() {
    let p = VDFProof::new("a".to_string(), "b".to_string(), "c".to_string(), "d".to_string(), 5);
    assert_eq!((p.y(), p.pi(), p.l(), p.r(), p.iterations()), ("a".to_string(), "b".to_string(), "c".to_string(), "d".to_string(), 5));
    assert_eq!(VdfError::DecodeError.message(), "malformed proof encoding");
    assert_eq!(VdfError::InvalidIterationCount.message(), "invalid iteration count");
}

#[test]
fn iteration_estimates_are_clamped() {
    assert_eq!(clamp_iterations(0), 1000);
    assert_eq!(clamp_iterations(999), 1000);
    assert_eq!(clamp_iterations(5000), 5000);
    assert_eq!(clamp_iterations(10_000_000), 10_000_000);
    assert_eq!(clamp_iterations(u64::MAX), 10_000_000);
}

#[test]
fn modulus_is_the_fixed_group() {
    let c = VDFComputer::new();
    let bytes = c.modulus.to_be_bytes();
    assert_eq!(bytes.len(), 256);
    assert_eq!(bytes[0], 0xc7);
    assert_eq!(bytes[255], 0xe5);
}

#[test]
fn even_long_prime_candidate_rejected() {
    let c = VDFComputer::new();
    let one = "AQ==".to_string();
    let mut l = vec![0u8; 16];
    l[0] = 0x80;
    let p = VDFProof::new(one.clone(), one.clone(), general_purpose::STANDARD.encode(&l), one, 1000);
    assert_eq!(c.verify_proof("x", &p), Err(VdfError::InvalidProofPrime));
}

struct Collect {
    seen: Vec<u64>,
}

impl ProgressOutput for Collect {
    fn emit(&mut self, percent: u64) {
        self.seen.push(percent);
    }
}

#[test]
fn forwarder_hands_on_every_report() {
    let c = VDFComputer::new();
    let mut sink = Forwarder::new(Collect { seen: Vec::new() });
    c.compute_proof("forward", 4000, &mut sink).unwrap();
    assert_eq!(sink.out.seen, vec![25, 50, 75, 100, 100]);
    let mut sink = Forwarder::new(Collect { seen: Vec::new() });
    assert!(c.compute_proof("forward", 10, &mut sink).is_err());
    assert!(sink.out.seen.is_empty());
}
