use stegwalk::bits::{bitstream_to_bytes, bytes_to_bitstream, push_value_bits};

#[test]
fn bits_of_one_byte_msb_first() {
    let bytes = vec![0b1010_0101u8];
    let bits = bytes_to_bitstream(&bytes);
    assert_eq!(bits, vec![true, false, true, false, false, true, false, true]);
}

#[test]
fn bits_of_several_bytes() {
    let bytes = vec![0x00u8, 0xFF, 0x80];
    let bits = bytes_to_bitstream(&bytes);
    let mut expected = vec![false; 8];
    expected.extend(vec![true; 8]);
    expected.push(true);
    expected.extend(vec![false; 7]);
    assert_eq!(bits, expected);
}

#[test]
fn empty_payload_gives_no_bits() {
    let bits = bytes_to_bitstream(&vec![]);
    assert!(bits.is_empty());
    let bytes = bitstream_to_bytes(vec![]);
    assert!(bytes.is_empty());
}

#[test]
fn bytes_of_full_chunks() {
    let bits = vec![true, false, true, false, false, true, false, true];
    assert_eq!(bitstream_to_bytes(bits), vec![0b1010_0101u8]);
}

#[test]
fn final_incomplete_chunk_is_zero_padded() {
    // 3 bits 101 become the byte 1010_0000.
    let bits = vec![true, false, true];
    assert_eq!(bitstream_to_bytes(bits), vec![0b1010_0000u8]);
    // 9 bits: one full byte and one padded byte.
    let mut bits9 = vec![false; 8];
    bits9.push(true);
    assert_eq!(bitstream_to_bytes(bits9), vec![0x00u8, 0x80]);
}

#[test]
fn packer_inverse_law_on_text() {
    let payload: Vec<u8> = b"The quick brown fox jumps over the lazy dog".to_vec();
    let bits = bytes_to_bitstream(&payload);
    assert_eq!(bits.len(), 8 * payload.len());
    assert_eq!(bitstream_to_bytes(bits), payload);
}

#[test]
fn packer_inverse_law_on_all_byte_values() {
    let payload: Vec<u8> = (0u8..=255).collect();
    let bits = bytes_to_bitstream(&payload);
    assert_eq!(bitstream_to_bytes(bits), payload);
}

#[test]
fn push_value_bits_msb_first() {
    let mut bits: Vec<bool> = vec![true];
    push_value_bits(&mut bits, 0b101, 3);
    assert_eq!(bits, vec![true, true, false, true]);
    let mut high: Vec<bool> = vec![];
    // Only the low 4 bits of 0b11_0110 are taken.
    push_value_bits(&mut high, 0b11_0110, 4);
    assert_eq!(high, vec![false, true, true, false]);
}
