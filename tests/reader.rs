use bufr_decoder::bits::{BitReader, DecodeError};
use bufr_decoder::decoder::bits_to_bytes;

#[test]
fn reads_msb_first_across_bytes() {
    let mut r = BitReader::new(vec![0b1010_1100, 0b0101_0011]);
    assert_eq!(r.read_bits(1).unwrap(), 1);
    assert_eq!(r.read_bits(3).unwrap(), 0b010);
    assert_eq!(r.read_bits(8).unwrap(), 0b1100_0101);
    assert_eq!(r.read_bits(4).unwrap(), 0b0011);
    assert!(r.at_end());
}

#[test]
fn zero_width_read_consumes_nothing() {
    let mut r = BitReader::new(vec![0xFF]);
    assert_eq!(r.read_bits(0).unwrap(), 0);
    assert_eq!(r.remaining_bits(), 8);
    let mut empty = BitReader::new(vec![]);
    assert_eq!(empty.read_bits(0).unwrap(), 0);
}

#[test]
fn read_past_end_fails() {
    let mut r = BitReader::new(vec![0xFF]);
    assert_eq!(r.read_bits(4).unwrap(), 0xF);
    assert_eq!(r.read_bits(5), Err(DecodeError::UnexpectedEof));
    assert!(r.at_end());
}

#[test]
fn wide_fields() {
    let mut r = BitReader::new(vec![0xAB, 0x12, 0x34, 0x56, 0x78]);
    assert_eq!(r.read_field(40).unwrap(), 0xAB_1234_5678);
    let mut r = BitReader::new(vec![0xFF; 9]);
    assert_eq!(r.read_field(72).unwrap(), u64::MAX);
    let mut r = BitReader::new(vec![0xFF, 0xFF, 0xFF, 0xFF]);
    assert_eq!(r.read_bits(32).unwrap(), 0xFFFF_FFFF);
}

#[test]
fn round_trip_of_a_partition() {
    let bytes = vec![0x42, 0x55, 0x46, 0x52, 0x9C];
    let widths = [3u32, 13, 1, 7, 16];
    let mut r = BitReader::new(bytes.clone());
    let mut bits: Vec<bool> = Vec::new();
    for &w in &widths {
        let v = r.read_bits(w).unwrap();
        for k in (0..w).rev() {
            bits.push((v >> k) & 1 == 1);
        }
    }
    assert!(r.at_end());
    let packed: Vec<u8> = bits
        .chunks(8)
        .map(|c| c.iter().fold(0u8, |acc, &b| (acc << 1) | b as u8))
        .collect();
    assert_eq!(packed, bytes);
}

#[test]
fn skip_and_advance() {
    let mut r = BitReader::new(vec![1, 2, 3, 4]);
    r.skip_bytes(2).unwrap();
    assert_eq!(r.read_bits(8).unwrap(), 3);
    r.advance_to(8).unwrap();
    assert_eq!(r.position_now(), 24);
    assert_eq!(r.skip_bytes(2), Err(DecodeError::UnexpectedEof));
    assert!(r.at_end());
}

#[test]
fn text_from_payload() {
    assert_eq!(bits_to_bytes(&vec![0, 0x41, 0x42, 0x43]), Some("ABC".to_string()));
    assert_eq!(bits_to_bytes(&b"STATION".to_vec()), Some("STATION".to_string()));
    assert_eq!(bits_to_bytes(&vec![0, 0]), Some(String::new()));
    assert_eq!(bits_to_bytes(&vec![0, 0xFF, 0xFE, 0x41]), None);
}

#[test]
fn field_bytes_split_top_bits_first() {
    // 12-bit field 0xABC then 4 more bits: bytes 0x0A, 0xBC
    let mut r = BitReader::new(vec![0xAB, 0xCD]);
    assert_eq!(r.read_field_bytes(12), vec![0x0A, 0xBC]);
    assert_eq!(r.read_bits(4).unwrap(), 0xD);
    let mut r = BitReader::new(vec![1, 2, 3]);
    assert_eq!(r.read_field_bytes(0), Vec::<u8>::new());
    assert_eq!(r.read_field_bytes(24), vec![1, 2, 3]);
}

#[test]
fn partition_reads_in_order() {
    let mut r = BitReader::new(vec![0x42, 0x55, 0x46, 0x52, 0x9C]);
    let vals = r.read_partition(&vec![3, 13, 1, 7, 16]).unwrap();
    assert_eq!(vals, vec![0b010, 0b0_0010_0101_0101, 0, 0b100_0110, 0x529C]);
    assert!(r.at_end());
    let mut r = BitReader::new(vec![0xFF]);
    assert_eq!(r.read_partition(&vec![4, 5]), Err(DecodeError::UnexpectedEof));
}
