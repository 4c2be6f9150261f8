use hamming::{decode, encode, Code, Error};
use rand::rngs::StdRng;
use rand::{Rng, SeedableRng};

fn bit(bytes: &[u8], i: usize) -> bool {
    (bytes[i / 8] >> (i % 8)) & 1 == 1
}

fn flip(bytes: &mut [u8], i: usize) {
    bytes[i / 8] ^= 1 << (i % 8);
}

fn all_codes() -> Vec<Code> {
    vec![
        Code::Hamming(2),
        Code::Hamming(3),
        Code::Hamming(4),
        Code::EHamming(3),
        Code::EHamming(4),
        Code::EHamming(5),
    ]
}

fn assert_zero_extension(out: &[u8], input: &[u8]) {
    assert!(out.len() >= input.len());
    assert_eq!(&out[..input.len()], input);
    assert!(out[input.len()..].iter().all(|b| *b == 0));
}

#[test]
fn zero_byte_encodes_to_zeros() {
    let out = encode(&[0x00], &Code::Hamming(3)).unwrap();
    assert_eq!(out, vec![0x00, 0x00]);
}

#[test]
fn known_encodings() {
    assert_eq!(encode(&[0xFF], &Code::Hamming(3)).unwrap(), vec![0xFF, 0x3F]);
    assert_eq!(encode(&[0xA5], &Code::EHamming(4)).unwrap(), vec![0x5A, 0xA5]);
    assert_eq!(
        encode(&[0xA5, 0x05], &Code::Hamming(4)).unwrap(),
        vec![0x25, 0x5A, 0x00, 0x00]
    );
    assert_eq!(
        encode(&[0xDE, 0xAD], &Code::Hamming(2)).unwrap(),
        vec![0xF8, 0x7F, 0xFC, 0xC7, 0x8F, 0xE3]
    );
    assert_eq!(
        encode(&[0xDE, 0xAD], &Code::EHamming(3)).unwrap(),
        vec![0xF0, 0xFF, 0x0F, 0xFF, 0x0F, 0xFF, 0xF0, 0xF0]
    );
    assert_eq!(
        encode(&[0x12, 0x34, 0x56], &Code::EHamming(5)).unwrap(),
        vec![0x27, 0x82, 0x65, 0x59, 0x0F, 0x00]
    );
    assert_eq!(
        encode(&[0x12, 0x34, 0x56], &Code::Hamming(4)).unwrap(),
        vec![0x13, 0x41, 0x59, 0xD6, 0x01, 0x00]
    );
}

#[test]
fn known_decodings() {
    assert_eq!(decode(&[0xFF, 0x3F], &Code::Hamming(3)).unwrap(), vec![0xFF]);
    assert_eq!(decode(&[0x5A, 0xA5], &Code::EHamming(4)).unwrap(), vec![0xA5]);
    assert_eq!(
        decode(&[0x27, 0x82, 0x65, 0x59, 0x0F, 0x00], &Code::EHamming(5)).unwrap(),
        vec![0x12, 0x34, 0x56, 0x00, 0x00]
    );
}

#[test]
fn empty_input() {
    for code in all_codes() {
        assert_eq!(encode(&[], &code).unwrap(), Vec::<u8>::new());
        assert_eq!(decode(&[], &code).unwrap(), Vec::<u8>::new());
    }
}

#[test]
fn single_flip_of_ff_is_corrected() {
    let code = Code::Hamming(3);
    let encoded = encode(&[0xFF], &code).unwrap();
    for i in 0..14 {
        let mut noisy = encoded.clone();
        flip(&mut noisy, i);
        let out = decode(&noisy, &code).unwrap();
        assert_eq!(out[0], 0xFF);
    }
}

#[test]
fn extended_blocks_have_even_parity() {
    let code = Code::EHamming(4);
    let encoded = encode(&[0xA5], &code).unwrap();
    assert_eq!(encoded.len(), 2);
    for b in &encoded {
        assert_eq!(b.count_ones() % 2, 0);
    }
    assert_eq!(decode(&encoded, &code).unwrap(), vec![0xA5]);
}

#[test]
fn double_flip_in_extended_block_is_an_error() {
    let code = Code::EHamming(5);
    let input = [0xA5, 0x05];
    let encoded = encode(&input, &code).unwrap();
    for i in 0..16 {
        for j in (i + 1)..16 {
            let mut noisy = encoded.clone();
            flip(&mut noisy, i);
            flip(&mut noisy, j);
            assert_eq!(decode(&noisy, &code), Err(Error::Decode));
        }
    }
}

#[test]
fn every_single_flip_in_a_hamming_15_11_block_is_corrected() {
    let code = Code::Hamming(4);
    // the first block carries the 11-bit payload 0b10110100101
    let input = [0xA5, 0x05];
    let encoded = encode(&input, &code).unwrap();
    let clean = decode(&encoded, &code).unwrap();
    for j in 0..15 {
        let mut noisy = encoded.clone();
        flip(&mut noisy, j);
        let out = decode(&noisy, &code).unwrap();
        assert_eq!(out, clean);
        for i in 0..11 {
            assert_eq!(bit(&out, i), (0b10110100101u32 >> i) & 1 == 1);
        }
    }
}

#[test]
fn single_flip_anywhere_is_corrected_for_every_code() {
    let input = [0x3C, 0x99, 0x01, 0xEE];
    for code in all_codes() {
        let encoded = encode(&input, &code).unwrap();
        let clean = decode(&encoded, &code).unwrap();
        let n = code.block_bits() as usize;
        let full_blocks = encoded.len() * 8 / n;
        for i in 0..full_blocks * n {
            let mut noisy = encoded.clone();
            flip(&mut noisy, i);
            assert_eq!(decode(&noisy, &code).unwrap(), clean);
        }
    }
}

#[test]
fn encoded_blocks_have_zero_syndrome() {
    let input = [0x3C, 0x99, 0x01, 0xEE, 0x77];
    for code in all_codes() {
        let encoded = encode(&input, &code).unwrap();
        let n = code.block_bits() as usize;
        let base = match code {
            Code::Hamming(_) => 1,
            Code::EHamming(_) => 0,
        };
        for b in 0..encoded.len() * 8 / n {
            let mut syndrome = 0usize;
            let mut ones = 0usize;
            for i in 0..n {
                if bit(&encoded, b * n + i) {
                    syndrome ^= i + base;
                    ones += 1;
                }
            }
            assert_eq!(syndrome, 0);
            if base == 0 {
                assert_eq!(ones % 2, 0);
            }
        }
    }
}

#[test]
fn syndrome_past_a_short_block_is_an_error() {
    // the 2-bit tail after two 7-bit blocks points at slot 3, past its end
    assert_eq!(decode(&[0xFF, 0xFF], &Code::Hamming(3)), Err(Error::Decode));
}

#[test]
fn double_error_in_extended_block_is_an_error() {
    assert_eq!(decode(&[0x03], &Code::EHamming(4)), Err(Error::Decode));
}

#[test]
fn flipped_overall_parity_bit_is_ignored() {
    assert_eq!(decode(&[0x01], &Code::EHamming(4)).unwrap(), vec![0x00]);
}

#[test]
fn output_length_follows_block_count() {
    for code in all_codes() {
        let k = code.data_bits() as usize;
        let n = code.block_bits() as usize;
        for len in 0..20usize {
            let input = vec![0x5Au8; len];
            let blocks = (8 * len + k - 1) / k;
            assert_eq!(encode(&input, &code).unwrap().len(), (blocks * n + 7) / 8);
        }
    }
}

fn random_round_trips(code: Code, seed: u64) {
    let mut rng = StdRng::seed_from_u64(seed);
    for _ in 0..1000 {
        let len = rng.gen_range(0..=4096usize);
        let input: Vec<u8> = (0..len).map(|_| rng.gen::<u8>()).collect();
        let out = decode(&encode(&input, &code).unwrap(), &code).unwrap();
        assert_zero_extension(&out, &input);
    }
}

#[test]
fn random_round_trip_h3_1() {
    random_round_trips(Code::Hamming(2), 1);
}

#[test]
fn random_round_trip_h7_4() {
    random_round_trips(Code::Hamming(3), 2);
}

#[test]
fn random_round_trip_h15_11() {
    random_round_trips(Code::Hamming(4), 3);
}

#[test]
fn random_round_trip_eh4_1() {
    random_round_trips(Code::EHamming(3), 4);
}

#[test]
fn random_round_trip_eh8_4() {
    random_round_trips(Code::EHamming(4), 5);
}

#[test]
fn random_round_trip_eh16_11() {
    random_round_trips(Code::EHamming(5), 6);
}
