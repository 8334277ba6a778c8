use bufr_decoder::descriptor::{DescKey, SequenceDescriptor, Tables};
use bufr_decoder::operators::{reference_run, OperatorState};
use bufr_decoder::bits::BitReader;
use bufr_decoder::stream::DescriptorStream;
use bufr_decoder::table_text::{parse_decimal, parse_key, tables_b, tables_d};

#[test]
fn decimal_fields() {
    assert_eq!(parse_decimal(&"42".to_string()), Some(42));
    assert_eq!(parse_decimal(&"-1024".to_string()), Some(-1024));
    assert_eq!(parse_decimal(&"+7".to_string()), Some(7));
    assert_eq!(parse_decimal(&"007".to_string()), Some(7));
    assert_eq!(parse_decimal(&"".to_string()), None);
    assert_eq!(parse_decimal(&"-".to_string()), None);
    assert_eq!(parse_decimal(&"1.5".to_string()), None);
    assert_eq!(parse_decimal(&" 3".to_string()), None);
    assert_eq!(parse_decimal(&"100000000000000000".to_string()), Some(100_000_000_000_000_000));
    assert_eq!(parse_decimal(&"100000000000000001".to_string()), None);
}

#[test]
fn key_fields() {
    let k = parse_key(&"0".to_string(), &"01".to_string(), &"001".to_string());
    assert_eq!(k, Some(DescKey { f: 0, x: 1, y: 1 }));
    assert_eq!(parse_key(&"4".to_string(), &"1".to_string(), &"1".to_string()), None);
    assert_eq!(parse_key(&"0".to_string(), &"64".to_string(), &"1".to_string()), None);
    assert_eq!(parse_key(&"0".to_string(), &"1".to_string(), &"256".to_string()), None);
}

#[test]
fn table_b_text() {
    let text = b"0;01;001;WMO BLOCK NUMBER;NUMERIC;0;0;7\n0;12;101;TEMPERATURE;K;2;0;16\n0;xx;1;BAD;K;0;0;8\n";
    let t = tables_b(text).unwrap();
    assert_eq!(t.len(), 2);
    assert_eq!(t[0].key, DescKey { f: 0, x: 1, y: 1 });
    assert_eq!(t[0].description, "WMO BLOCK NUMBER");
    assert_eq!(t[0].width, 7);
    assert_eq!(t[1].unit, "K");
    assert_eq!(t[1].scale, 2);
    assert_eq!(t[1].width, 16);
}

#[test]
fn table_b_short_row_is_skipped() {
    let text = b"0;1;1;A;m;0;0;8\n0;1;2\n0;1;3;B;K;1;-5;12\n";
    let t = tables_b(text).unwrap();
    assert_eq!(t.len(), 2);
    assert_eq!(t[0].description, "A");
    assert_eq!(t[1].key, DescKey { f: 0, x: 1, y: 3 });
    assert_eq!(t[1].reference, -5);
}

#[test]
fn table_b_invalid_utf8_is_unreadable() {
    let text = b"0;1;1;\xff\xfe;m;0;0;8\n";
    assert!(tables_b(text).is_none());
}

#[test]
fn local_d_hides_master_element() {
    let k = DescKey { f: 0, x: 1, y: 1 };
    let mut tables = Tables::empty();
    tables.master_b.push(bufr_decoder::descriptor::ElementDescriptor {
        key: k,
        description: "master".to_string(),
        unit: "m".to_string(),
        scale: 0,
        reference: 0,
        width: 8,
    });
    assert!(tables.lookup_element(k).is_some());
    tables.local_d.push(SequenceDescriptor { key: k, children: vec![] });
    assert!(tables.lookup_element(k).is_none());
}

#[test]
fn table_d_text() {
    let text = b"3;01;001;0;01;001\n;;;0;01;002\n3;01;002;3;01;001\n;;;0;12;101\n";
    let t = tables_d(text).unwrap();
    assert_eq!(t.len(), 2);
    assert_eq!(t[0].key, DescKey { f: 3, x: 1, y: 1 });
    assert_eq!(t[0].children, vec![DescKey { f: 0, x: 1, y: 1 }, DescKey { f: 0, x: 1, y: 2 }]);
    assert_eq!(t[1].key, DescKey { f: 3, x: 1, y: 2 });
    assert_eq!(t[1].children, vec![DescKey { f: 3, x: 1, y: 1 }, DescKey { f: 0, x: 12, y: 101 }]);
}

#[test]
fn later_sequence_overrides_earlier() {
    let mut tables = Tables::empty();
    let k = DescKey { f: 3, x: 1, y: 1 };
    tables.master_d.push(SequenceDescriptor { key: k, children: vec![DescKey { f: 0, x: 1, y: 1 }] });
    tables.master_d.push(SequenceDescriptor { key: k, children: vec![DescKey { f: 0, x: 1, y: 2 }] });
    assert_eq!(tables.lookup_sequence(k).unwrap(), &vec![DescKey { f: 0, x: 1, y: 2 }]);
    tables.local_d.push(SequenceDescriptor { key: k, children: vec![] });
    assert!(tables.lookup_sequence(k).unwrap().is_empty());
}

#[test]
fn expansion_inserts_children_in_order() {
    let a = DescKey { f: 0, x: 1, y: 1 };
    let s = DescKey { f: 3, x: 1, y: 1 };
    let z = DescKey { f: 0, x: 9, y: 9 };
    let c1 = DescKey { f: 0, x: 2, y: 1 };
    let c2 = DescKey { f: 0, x: 2, y: 2 };
    let mut stream = DescriptorStream::new(vec![a, s, z]);
    stream.advance();
    stream.expand(&vec![c1, c2]);
    assert_eq!(stream.keys, vec![a, s, c1, c2, z]);
    assert_eq!(stream.current(), s);
    stream.advance();
    assert_eq!(stream.current(), c1);
    assert!(stream.remaining());
}

#[test]
fn operator_state_starts_reset() {
    let ops = OperatorState::new();
    assert_eq!(ops.width_plus, 0);
    assert_eq!(ops.scale_plus, 0);
    assert!(!ops.ref_changed);
    assert!(ops.new_ref.is_empty());
    assert_eq!(ops.new_width, 0);
}

#[test]
fn operators_change_state() {
    let mut ops = OperatorState::new();
    ops.apply(DescKey { f: 2, x: 1, y: 125 });
    assert_eq!(ops.width_plus, -3);
    ops.apply(DescKey { f: 2, x: 2, y: 129 });
    assert_eq!(ops.scale_plus, 1);
    ops.apply(DescKey { f: 2, x: 8, y: 3 });
    assert_eq!(ops.new_width, 24);
    ops.apply(DescKey { f: 2, x: 7, y: 1 });
    assert_eq!((ops.width_plus, ops.scale_plus, ops.new_width), (-3, 1, 24));
    ops.apply(DescKey { f: 2, x: 1, y: 0 });
    ops.apply(DescKey { f: 2, x: 8, y: 0 });
    assert_eq!((ops.width_plus, ops.new_width), (0, 0));
}

#[test]
fn reference_run_records_one_entry_per_element() {
    let e1 = DescKey { f: 0, x: 1, y: 1 };
    let e2 = DescKey { f: 0, x: 1, y: 2 };
    let op = DescKey { f: 2, x: 1, y: 130 };
    let keys = vec![DescKey { f: 2, x: 3, y: 4 }, e1, op, e2, DescKey { f: 2, x: 3, y: 255 }, e1];
    let mut ops = OperatorState::new();
    // 0011 then 1010: 3 and -(10 - 8) = -2
    let mut reader = BitReader::new(vec![0x3A]);
    let next = reference_run(&mut reader, &keys, 0, 4, &mut ops).unwrap();
    assert_eq!(next, 5);
    assert_eq!(ops.new_ref, vec![(e1, 3), (e2, -2)]);
    assert!(ops.ref_changed);
    assert_eq!(ops.correction(e2), -2);
    assert!(reader.at_end());
    ops.apply(DescKey { f: 2, x: 3, y: 0 });
    assert!(!ops.ref_changed);
    assert_eq!(ops.correction(e2), 0);
}
