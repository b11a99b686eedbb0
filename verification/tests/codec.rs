use stegwalk::codec::{decode, encode, DecodeError, EncodeError};
use stegwalk::grid::ImageBytes;
use stegwalk::occupancy::check_diff_validity;

const START: (usize, usize) = (4, 4);
const TRIES: u32 = 1000;

fn flat_carrier(w: usize, h: usize, v: u8) -> Vec<u8> {
    vec![v; w * h * 3]
}

fn checkerboard(w: usize, h: usize) -> Vec<u8> {
    let mut buf = Vec::with_capacity(w * h * 3);
    for y in 0..h {
        for x in 0..w {
            let v = if (x + y) % 2 == 0 { 0u8 } else { 255u8 };
            buf.extend_from_slice(&[v, v, v]);
        }
    }
    buf
}

#[test]
fn hello_round_trip_b3() {
    // 64x64 carrier, 3 bits per cell, 5 ASCII bytes.
    let mut img = flat_carrier(64, 64, 128);
    let payload = b"HELLO".to_vec();
    encode(&mut img, (64, 64), START, 3, TRIES, &payload, 42).unwrap();
    let out = decode(&img, (64, 64), START, 3).unwrap();
    assert_eq!(out, payload);
}

#[test]
fn round_trip_every_bits_per_cell() {
    let payload = b"steganographic walk".to_vec();
    let seeds = [0u64, 0, 3, 1, 1, 1, 1, 1];
    for b in 2u8..=7 {
        let mut img = flat_carrier(64, 64, 100);
        encode(&mut img, (64, 64), START, b, TRIES, &payload, seeds[b as usize]).unwrap();
        let out = decode(&img, (64, 64), START, b).unwrap();
        assert_eq!(out, payload, "round trip failed for {} bits per cell", b);
    }
}

#[test]
fn round_trip_one_bit_per_cell() {
    // At 1 bit per cell every drawn offset is 1, so the walk is purely
    // diagonal and traps itself quickly: only short payloads fit.
    let payload = b"HI!".to_vec();
    let mut img = flat_carrier(64, 64, 100);
    encode(&mut img, (64, 64), START, 1, TRIES, &payload, 1).unwrap();
    let out = decode(&img, (64, 64), START, 1).unwrap();
    assert_eq!(out, payload);
}

#[test]
fn round_trip_binary_payload() {
    let payload: Vec<u8> = (0u8..=255).collect();
    let mut img = flat_carrier(96, 96, 200);
    encode(&mut img, (96, 96), START, 5, TRIES, &payload, 1).unwrap();
    let out = decode(&img, (96, 96), START, 5).unwrap();
    assert_eq!(out, payload);
}

#[test]
fn round_trip_empty_payload() {
    let mut img = flat_carrier(16, 16, 60);
    encode(&mut img, (16, 16), (2, 2), 5, TRIES, &vec![], 5).unwrap();
    let out = decode(&img, (16, 16), (2, 2), 5).unwrap();
    assert_eq!(out, Vec::<u8>::new());
}

#[test]
fn encode_changes_the_carrier() {
    let original = flat_carrier(64, 64, 128);
    let mut img = original.clone();
    encode(&mut img, (64, 64), START, 3, TRIES, &b"HELLO".to_vec(), 42).unwrap();
    assert_ne!(img, original);
}

#[test]
fn oversized_payload_is_a_capacity_error() {
    // 4x4 = 16 cells can never hold 100 bytes at 1 bit per cell.
    let mut img = flat_carrier(4, 4, 128);
    let payload = vec![0xAB; 100];
    let r = encode(&mut img, (4, 4), (1, 1), 1, 200, &payload, 3);
    assert_eq!(r, Err(EncodeError::CapacityExceeded));
}

#[test]
fn undersized_image_is_rejected() {
    let mut img = flat_carrier(1, 5, 0);
    let r = encode(&mut img, (1, 5), (0, 0), 5, TRIES, &b"x".to_vec(), 1);
    assert_eq!(r, Err(EncodeError::ImageTooSmall));
    let d = decode(&flat_carrier(1, 5, 0), (1, 5), (0, 0), 5);
    assert_eq!(d, Err(DecodeError::ImageTooSmall));
}

#[test]
fn wrong_buffer_length_is_rejected() {
    let mut img = vec![0u8; 100]; // not 3 * 8 * 8
    let r = encode(&mut img, (8, 8), (1, 1), 5, TRIES, &b"x".to_vec(), 1);
    assert_eq!(r, Err(EncodeError::ImageTooSmall));
    assert_eq!(decode(&img, (8, 8), (1, 1), 5), Err(DecodeError::ImageTooSmall));
}

#[test]
fn start_outside_grid_is_rejected() {
    let mut img = flat_carrier(8, 8, 10);
    let r = encode(&mut img, (8, 8), (8, 0), 5, TRIES, &b"x".to_vec(), 1);
    assert_eq!(r, Err(EncodeError::ImageTooSmall));
}

#[test]
fn untouched_noisy_carrier_reports_framing_error() {
    // Every cell of a checkerboard deviates from its baseline on all
    // channels, so no sentinel exists and decoding must stop with a
    // framing error instead of walking forever.
    let img = checkerboard(8, 8);
    assert_eq!(decode(&img, (8, 8), (0, 0), 5), Err(DecodeError::NoTerminator));
}

#[test]
fn untouched_flat_carrier_decodes_to_nothing() {
    // A flat carrier reads as an immediate sentinel: empty payload.
    let img = flat_carrier(8, 8, 77);
    assert_eq!(decode(&img, (8, 8), (0, 0), 5), Ok(vec![]));
}

#[test]
fn claimed_footprint_is_never_reaccepted() {
    let mut blocked = vec![false; 64];
    // Step from (4,4) by (+1,+1) targets (6,6); first probe claims it.
    assert!(check_diff_validity((4, 4), (8, 8), (1, 1), 8, &mut blocked));
    // The same target, reached from elsewhere, is now refused.
    assert!(!check_diff_validity((4, 4), (8, 8), (1, 1), 8, &mut blocked));
    assert!(!check_diff_validity((2, 2), (8, 8), (2, 2), 8, &mut blocked));
    // A far-away target is still free.
    assert!(check_diff_validity((0, 0), (8, 8), (-3, -3), 8, &mut blocked));
}

#[test]
fn decode_hand_written_walk() {
    // Two cells written by hand on a flat carrier of 100, 4 bits per cell.
    // Cell (4,4): data diff +10 (bits 1010), step diffs (+1,+1) -> (6,6).
    // Cell (6,6): data diff -5 (magnitude 5, bits 0101), step diffs
    // (+2,+3) -> (2,4), which is left flat and reads as the sentinel.
    let mut img = flat_carrier(8, 8, 100);
    img.set_pixel([110, 101, 101], (4, 4), 8);
    img.set_pixel([95, 102, 103], (6, 6), 8);
    assert_eq!(decode(&img, (8, 8), (4, 4), 4), Ok(vec![0b1010_0101]));
}

#[test]
fn padding_byte_is_dropped() {
    // 3 bytes at 7 bits per cell: 24 bits -> 4 cells carry 28 bits; the
    // 4 extra padding bits must not yield a fourth byte.
    let payload = b"abc".to_vec();
    let mut img = flat_carrier(32, 32, 128);
    encode(&mut img, (32, 32), START, 7, TRIES, &payload, 11).unwrap();
    let out = decode(&img, (32, 32), START, 7).unwrap();
    assert_eq!(out.len(), 3);
    assert_eq!(out, payload);
}
