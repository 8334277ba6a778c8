use bufr_decoder::bits::{BitReader, DecodeError};
use bufr_decoder::decoder::{decode_descriptors, ObservedValue, Observation};
use bufr_decoder::descriptor::{DescKey, ElementDescriptor, SequenceDescriptor, Tables};
use bufr_decoder::message::{decode_data, parse_header};

fn key(f: u8, x: u8, y: u8) -> DescKey {
    DescKey { f, x, y }
}

fn element(k: DescKey, description: &str, unit: &str, scale: i64, reference: i64, width: u32) -> ElementDescriptor {
    ElementDescriptor {
        key: k,
        description: description.to_string(),
        unit: unit.to_string(),
        scale,
        reference,
        width,
    }
}

fn len3(n: usize) -> [u8; 3] {
    [(n >> 16) as u8, (n >> 8) as u8, n as u8]
}

/// An edition-2 message with an 18-byte section 1, the given descriptors
/// (two bytes each) and the given section-4 payload.
fn message(descriptors: &[DescKey], payload: &[u8]) -> Vec<u8> {
    let mut sec3 = Vec::new();
    let l3 = 7 + 2 * descriptors.len();
    sec3.extend_from_slice(&len3(l3));
    sec3.extend_from_slice(&[0, 0, 1, 0]);
    for d in descriptors {
        sec3.push((d.f << 6) | d.x);
        sec3.push(d.y);
    }
    let mut sec4 = Vec::new();
    sec4.extend_from_slice(&len3(4 + payload.len()));
    sec4.push(0);
    sec4.extend_from_slice(payload);
    let mut sec1 = vec![0u8; 18];
    sec1[2] = 18;
    let total = 8 + sec1.len() + sec3.len() + sec4.len() + 4;
    let mut m = b"BUFR".to_vec();
    m.extend_from_slice(&len3(total));
    m.push(2);
    m.extend(sec1);
    m.extend(sec3);
    m.extend(sec4);
    m.extend_from_slice(b"7777");
    m
}

fn decode(bytes: Vec<u8>, tables: &Tables) -> (Result<Vec<Observation>, DecodeError>, BitReader) {
    let mut reader = BitReader::new(bytes);
    let header = parse_header(&mut reader).unwrap();
    let r = decode_data(&mut reader, tables, header.section3.descriptors);
    (r, reader)
}

fn number(o: &Observation) -> (i128, i128) {
    match &o.value {
        ObservedValue::Number { numerator, scale } => (*numerator, *scale),
        ObservedValue::Text(_) => panic!("expected a number"),
    }
}

#[test]
fn minimal_message_with_text_element() {
    let mut tables = Tables::empty();
    tables.master_b.push(element(key(0, 0, 1), "Table A: entry", "CCITT IA5", 0, 0, 24));
    let (r, reader) = decode(message(&[key(0, 0, 1)], &[0x41, 0x42, 0x43]), &tables);
    let obs = r.unwrap();
    assert_eq!(obs.len(), 1);
    assert_eq!(obs[0].description, "Table A: entry");
    match &obs[0].value {
        ObservedValue::Text(Some(t)) => assert_eq!(t, "ABC"),
        _ => panic!("expected text"),
    }
    assert!(reader.at_end());
}

#[test]
fn width_operator_adds_one_bit() {
    let mut tables = Tables::empty();
    tables.master_b.push(element(key(0, 1, 1), "height", "m", 0, 0, 8));
    let descs = [key(2, 1, 129), key(0, 1, 1), key(2, 1, 0)];
    // 0 0000 0001 then seven padding bits
    let (r, reader) = decode(message(&descs, &[0x00, 0x80]), &tables);
    let obs = r.unwrap();
    assert_eq!(obs.len(), 1);
    assert_eq!(number(&obs[0]), (1, 0));
    assert_eq!(obs[0].unit, "m");
    assert!(reader.at_end());
}

#[test]
fn reference_override_run() {
    let mut tables = Tables::empty();
    tables.master_b.push(element(key(0, 1, 1), "value", "K", 0, 0, 8));
    let descs = [key(2, 3, 8), key(0, 1, 1), key(2, 3, 255), key(0, 1, 1)];
    let (r, reader) = decode(message(&descs, &[0x80, 0xFF]), &tables);
    let obs = r.unwrap();
    assert_eq!(obs.len(), 1);
    assert_eq!(number(&obs[0]), (255, 0));
    assert!(reader.at_end());
}

#[test]
fn negative_reference_override_applies() {
    let mut tables = Tables::empty();
    tables.master_b.push(element(key(0, 1, 1), "value", "K", 1, 10, 8));
    // 1000 0011 is -(131 - 128) = -3
    let descs = [key(2, 3, 8), key(0, 1, 1), key(2, 3, 255), key(0, 1, 1)];
    let (r, _) = decode(message(&descs, &[0x83, 0x05]), &tables);
    let obs = r.unwrap();
    assert_eq!(number(&obs[0]), (5 + 10 - 3, 1));
}

#[test]
fn sequence_expansion_keeps_order() {
    let mut tables = Tables::empty();
    tables.master_b.push(element(key(0, 1, 1), "first", "m", 0, 0, 8));
    tables.master_b.push(element(key(0, 1, 2), "second", "s", 0, 0, 8));
    tables.master_d.push(SequenceDescriptor { key: key(3, 1, 1), children: vec![key(0, 1, 1), key(0, 1, 2)] });
    let (r, reader) = decode(message(&[key(3, 1, 1)], &[0x05, 0x07]), &tables);
    let obs = r.unwrap();
    assert_eq!(obs.len(), 2);
    assert_eq!(obs[0].description, "first");
    assert_eq!(number(&obs[0]), (5, 0));
    assert_eq!(obs[1].description, "second");
    assert_eq!(number(&obs[1]), (7, 0));
    assert!(reader.at_end());
}

#[test]
fn local_tables_take_precedence() {
    let mut tables = Tables::empty();
    tables.master_b.push(element(key(0, 1, 1), "master", "m", 0, 0, 8));
    tables.local_b.push(element(key(0, 1, 1), "local", "m", 0, 0, 16));
    let (r, _) = decode(message(&[key(0, 1, 1)], &[0x01, 0x02]), &tables);
    let obs = r.unwrap();
    assert_eq!(obs[0].description, "local");
    assert_eq!(number(&obs[0]), (0x0102, 0));
}

#[test]
fn unknown_descriptor_reads_nothing() {
    let tables = Tables::empty();
    let mut reader = BitReader::new(vec![0xAA]);
    let obs = decode_descriptors(&mut reader, &tables, vec![key(0, 99, 99)]).unwrap();
    assert!(obs.is_empty());
    assert_eq!(reader.remaining_bits(), 8);
    let (r, reader) = decode(message(&[key(0, 63, 99)], &[]), &tables);
    assert!(r.unwrap().is_empty());
    assert!(reader.at_end());
}

#[test]
fn truncated_data_section() {
    let mut tables = Tables::empty();
    tables.master_b.push(element(key(0, 1, 1), "value", "m", 0, 0, 8));
    let mut m = message(&[key(0, 1, 1)], &[1]);
    // section 4 claims 10 bytes but only 5 of it remain, and no section 5
    let n = m.len();
    m.truncate(n - 4);
    let at = m.len() - 5;
    m[at + 2] = 10;
    let (r, _) = decode(m, &tables);
    assert_eq!(r.err(), Some(DecodeError::UnexpectedEof));
}

#[test]
fn scale_operator_changes_scale() {
    let mut tables = Tables::empty();
    tables.master_b.push(element(key(0, 12, 1), "temperature", "K", 1, -100, 8));
    let descs = [key(2, 2, 130), key(0, 12, 1), key(2, 2, 0), key(0, 12, 1)];
    let (r, _) = decode(message(&descs, &[200, 201]), &tables);
    let obs = r.unwrap();
    assert_eq!(number(&obs[0]), (100, 3));
    assert_eq!(number(&obs[1]), (101, 1));
}

#[test]
fn character_width_operator() {
    let mut tables = Tables::empty();
    tables.master_b.push(element(key(0, 1, 15), "name", "CCITT IA5", 0, 0, 160));
    let descs = [key(2, 8, 2), key(0, 1, 15), key(2, 8, 0)];
    let (r, reader) = decode(message(&descs, b"OK"), &tables);
    let obs = r.unwrap();
    match &obs[0].value {
        ObservedValue::Text(Some(t)) => assert_eq!(t, "OK"),
        _ => panic!("expected text"),
    }
    assert!(reader.at_end());
}

#[test]
fn negative_width_is_rejected() {
    let mut tables = Tables::empty();
    tables.master_b.push(element(key(0, 1, 1), "value", "m", 0, 0, 4));
    let descs = [key(2, 1, 1), key(0, 1, 1)];
    let (r, _) = decode(message(&descs, &[0]), &tables);
    assert_eq!(r.err(), Some(DecodeError::NegativeWidth));
}

#[test]
fn wide_reference_field_is_rejected() {
    let tables = Tables::empty();
    let descs = [key(2, 3, 40), key(0, 1, 1), key(2, 3, 255)];
    let (r, _) = decode(message(&descs, &[0]), &tables);
    assert_eq!(r.err(), Some(DecodeError::ReferenceFieldTooWide));
}

#[test]
fn self_referencing_sequence_stops() {
    let mut tables = Tables::empty();
    tables.master_d.push(SequenceDescriptor { key: key(3, 1, 1), children: vec![key(3, 1, 1), key(3, 1, 1)] });
    let mut reader = BitReader::new(vec![]);
    let r = decode_descriptors(&mut reader, &tables, vec![key(3, 1, 1)]);
    assert_eq!(r.err(), Some(DecodeError::StreamTooLong));
}

#[test]
fn long_text_field_keeps_every_character() {
    let mut tables = Tables::empty();
    tables.master_b.push(element(key(0, 1, 15), "station", "CCITT IA5", 0, 0, 160));
    let mut payload = vec![0u8; 12];
    payload.extend_from_slice(b"TOULOUSE");
    payload.truncate(20);
    let (r, reader) = decode(message(&[key(0, 1, 15)], &payload), &tables);
    let obs = r.unwrap();
    match &obs[0].value {
        ObservedValue::Text(Some(t)) => assert_eq!(t, "TOULOUSE"),
        _ => panic!("expected text"),
    }
    assert!(reader.at_end());
}

#[test]
fn forty_bit_text_field() {
    let mut tables = Tables::empty();
    tables.master_b.push(element(key(0, 1, 15), "id", "CCITT IA5", 0, 0, 40));
    let (r, _) = decode(message(&[key(0, 1, 15)], b"HELLO"), &tables);
    match &r.unwrap()[0].value {
        ObservedValue::Text(Some(t)) => assert_eq!(t, "HELLO"),
        _ => panic!("expected text"),
    }
}

#[test]
fn wide_numeric_field_is_exact() {
    let mut tables = Tables::empty();
    tables.master_b.push(element(key(0, 1, 1), "count", "1", 0, 0, 40));
    let (r, _) = decode(message(&[key(0, 1, 1)], &[0x01, 0x00, 0x00, 0x00, 0x02]), &tables);
    assert_eq!(number(&r.unwrap()[0]), (0x01_0000_0002, 0));
}
