use bufr_decoder::bits::{BitReader, DecodeError};
use bufr_decoder::descriptor::{bytes_desc, DescKey};
use bufr_decoder::message::{parse_header, section0, section1, section2, section3};

#[test]
fn not_bufr_at_start() {
    let mut reader = BitReader::new(b"GRIB\x00\x00\x10\x02".to_vec());
    assert_eq!(parse_header(&mut reader).err(), Some(DecodeError::NotBufr));
}

#[test]
fn empty_input_is_end_of_file() {
    let mut reader = BitReader::new(vec![]);
    assert!(reader.at_end());
    assert_eq!(section0(&mut reader).err(), Some(DecodeError::UnexpectedEof));
}

#[test]
fn section0_fields() {
    let mut reader = BitReader::new(b"BUFR\x00\x01\x02\x04".to_vec());
    let s = section0(&mut reader).unwrap();
    assert_eq!(s.total_length, 0x102);
    assert_eq!(s.edition, 4);
    assert!(reader.at_end());
}

#[test]
fn unsupported_edition_skips_message() {
    let mut bytes = b"BUFR\x00\x00\x0c\x03".to_vec();
    bytes.extend_from_slice(&[1, 2, 3, 4]);
    bytes.extend_from_slice(b"BUFR");
    let mut reader = BitReader::new(bytes);
    assert_eq!(parse_header(&mut reader).err(), Some(DecodeError::UnsupportedEdition));
    assert_eq!(reader.remaining_bits(), 32);
}

#[test]
fn section1_edition4_fields() {
    let bytes = vec![
        0, 0, 23, // length, one byte beyond the 22 fixed ones
        0, // master table
        0, 85, // centre
        0, 7, // sub-centre
        1, // update
        0x80, // flags
        2, 3, 4, // category, international and local sub-category
        30, 5, // master and local version
        0x07, 0xE8, 12, 28, 12, 30, 15, // 2024-12-28 12:30:15
        0xFF,
    ];
    let mut reader = BitReader::new(bytes);
    let s = section1(&mut reader, 4).unwrap();
    assert_eq!(s.length, 23);
    assert_eq!(s.centre, 85);
    assert_eq!(s.sub_centre, 7);
    assert_eq!(s.flags, 0x80);
    assert_eq!(s.data_subcategory, 3);
    assert_eq!(s.local_subcategory, 4);
    assert_eq!(s.master_version, 30);
    assert_eq!(s.local_version, 5);
    assert_eq!((s.year, s.month, s.day, s.hour, s.minute, s.second), (2024, 12, 28, 12, 30, 15));
    assert!(reader.at_end());
}

#[test]
fn section1_edition2_fields() {
    let bytes = vec![0, 0, 17, 0, 7, 85, 0, 0, 1, 2, 13, 0, 24, 12, 28, 6, 0];
    let mut reader = BitReader::new(bytes);
    let s = section1(&mut reader, 2).unwrap();
    assert_eq!(s.sub_centre, 7);
    assert_eq!(s.centre, 85);
    assert_eq!(s.master_version, 13);
    assert_eq!(s.year, 24);
    assert_eq!(s.second, 0);
    assert!(reader.at_end());
}

#[test]
fn section2_is_skipped() {
    let mut reader = BitReader::new(vec![0, 0, 6, 0, 9, 9, 0xAB]);
    section2(&mut reader).unwrap();
    assert_eq!(reader.remaining_bits(), 8);
    let mut short = BitReader::new(vec![0, 0, 3, 0]);
    assert_eq!(section2(&mut short).err(), Some(DecodeError::BadSectionLength));
}

#[test]
fn section3_descriptors() {
    let mut reader = BitReader::new(vec![0, 0, 12, 0, 0, 1, 0x80, 0x01, 0x01, 0xC1, 0x02, 0x55]);
    let s = section3(&mut reader).unwrap();
    assert_eq!(s.subsets, 1);
    assert_eq!(s.flags, 0x80);
    assert_eq!(s.descriptors, vec![DescKey { f: 0, x: 1, y: 1 }, DescKey { f: 3, x: 1, y: 2 }]);
    assert!(reader.at_end());
    let mut short = BitReader::new(vec![0, 0, 6, 0, 0, 1, 0]);
    assert_eq!(section3(&mut short).err(), Some(DecodeError::BadSectionLength));
}

#[test]
fn descriptor_bytes() {
    assert_eq!(bytes_desc(0x01, 0x01), DescKey { f: 0, x: 1, y: 1 });
    assert_eq!(bytes_desc(0x81, 129), DescKey { f: 2, x: 1, y: 129 });
    assert_eq!(bytes_desc(0xFF, 255), DescKey { f: 3, x: 63, y: 255 });
    assert_eq!(bytes_desc(0x40, 0), DescKey { f: 1, x: 0, y: 0 });
}
