use fwumious_wabbit::feature_buffer::{translate, ArenaLayout, FfmEntry, LinearEntry};
use fwumious_wabbit::frame::{read_frame, write_frame, Feature};
use fwumious_wabbit::hashing::{content_fingerprint, feature_hash};
use fwumious_wabbit::line::{parse_tokens, ParseError};
use fwumious_wabbit::namespaces::{parse_decimal_u32, NamespaceError, NamespaceMap};
use fwumious_wabbit::tokens::{split_feature, split_tokens};

fn map_ab() -> NamespaceMap {
    let mut m = NamespaceMap::new();
    m.add_csv_line(b"a,0").unwrap();
    m.add_csv_line(b"b,1\r").unwrap();
    m
}

#[test]
fn namespace_map_lookups_and_errors() {
    let mut m = map_ab();
    assert_eq!(m.lookup(b"a"), Some(0));
    assert_eq!(m.lookup(b"b"), Some(1));
    assert_eq!(m.lookup(b"c"), None);
    assert_eq!(m.name_of(1), Some(b"b".to_vec()));
    assert_eq!(m.id_bound(), 2);
    assert_eq!(m.add_csv_line(b"c,1"), Err(NamespaceError::DuplicateId));
    assert_eq!(m.add_csv_line(b"a,5"), Err(NamespaceError::DuplicateName));
    assert_eq!(m.add_csv_line(b"name,id"), Err(NamespaceError::Malformed));
    assert_eq!(m.add_csv_line(b",3"), Err(NamespaceError::Malformed));
    assert_eq!(m.add_csv_line(b"c"), Err(NamespaceError::Malformed));
    assert_eq!(m.len(), 2);
    assert_eq!(m.add_csv_line(b"c,7"), Ok(()));
    assert_eq!(m.id_bound(), 8);
}

#[test]
fn decimal_parsing() {
    assert_eq!(parse_decimal_u32(b"0"), Some(0));
    assert_eq!(parse_decimal_u32(b"4294967295"), Some(u32::MAX));
    assert_eq!(parse_decimal_u32(b"4294967296"), None);
    assert_eq!(parse_decimal_u32(b""), None);
    assert_eq!(parse_decimal_u32(b"1x"), None);
}

#[test]
fn tokens_and_features() {
    assert_eq!(split_tokens(b"  1 |a x:2  y "), vec![b"1".to_vec(), b"|a".to_vec(), b"x:2".to_vec(), b"y".to_vec()]);
    assert!(split_tokens(b"").is_empty());
    assert_eq!(split_feature(b"x:2.5"), (b"x".to_vec(), Some(b"2.5".to_vec())));
    assert_eq!(split_feature(b"x"), (b"x".to_vec(), None));
    assert_eq!(split_feature(b"x:"), (b"x".to_vec(), Some(Vec::new())));
}

#[test]
fn line_grammar() {
    let m = map_ab();
    let p = parse_tokens(&split_tokens(b"1 0.5 |a x y:2 |b z |a w"), &m).unwrap();
    assert_eq!(p.label, Some(b"1".to_vec()));
    assert_eq!(p.weight, Some(b"0.5".to_vec()));
    assert_eq!(p.features, vec![
        vec![b"x".to_vec(), b"y:2".to_vec(), b"w".to_vec()],
        vec![b"z".to_vec()],
    ]);
    assert!(matches!(parse_tokens(&split_tokens(b"1 |c x"), &m), Err(ParseError::UnknownNamespace)));
    assert!(matches!(parse_tokens(&split_tokens(b"1 2 3 |a x"), &m), Err(ParseError::Malformed)));
    assert!(matches!(parse_tokens(&split_tokens(b"1 | x"), &m), Err(ParseError::Malformed)));
}

#[test]
fn boundary_lines_are_valid() {
    let m = map_ab();
    for line in [&b""[..], b"|a |b", b"1", b"-1 |a"] {
        let p = parse_tokens(&split_tokens(line), &m).unwrap();
        assert_eq!(p.features, vec![Vec::<Vec<u8>>::new(), Vec::new()]);
    }
    let p = parse_tokens(&split_tokens(b"1"), &m).unwrap();
    assert_eq!(p.label, Some(b"1".to_vec()));
    assert_eq!(p.weight, None);
}

#[test]
fn feature_hash_is_seeded() {
    assert_eq!(feature_hash(0, b""), 0x811C_9DC5);
    assert_eq!(feature_hash(0, b"a"), 0xE40C_292C);
    assert_ne!(feature_hash(0, b"x"), feature_hash(1, b"x"));
    let fp = content_fingerprint(b"a,0\n");
    assert_eq!(&fp[0..4], &feature_hash(0, b"a,0\n").to_be_bytes());
    assert_eq!(&fp[12..16], &feature_hash(3, b"a,0\n").to_be_bytes());
}

#[test]
fn frame_read_back() {
    let segs = vec![vec![Feature { hash: 1, value: 2 }], vec![], vec![Feature { hash: 3, value: 4 }]];
    let mut frame = Vec::new();
    write_frame(&mut frame, 9, 8, &segs);
    assert_eq!(read_frame(&frame), Some((9, 8, segs)));
    assert_eq!(read_frame(&[1]), None);
    assert_eq!(read_frame(&[1, 1, 1, 0]), None);
    assert_eq!(read_frame(&[1, 1, 0, 5, 7]), None);
}

#[test]
fn translated_indices_stay_in_the_arena() {
    let l = ArenaLayout::new(2, 1, 2, 2).unwrap();
    assert_eq!(l.checked_arena_len(), Some(4 + 2 * 2 * 2));
    assert!(ArenaLayout::new(32, 1, 1, 1).is_none());
    assert!(ArenaLayout::new(31, 31, u32::MAX, u32::MAX).is_none());
    let segs = vec![vec![Feature { hash: 7, value: 10 }], vec![Feature { hash: 6, value: 11 }]];
    let fb = translate(l, &segs);
    assert_eq!(fb.linear, vec![LinearEntry { index: 3, value: 10 }, LinearEntry { index: 2, value: 11 }]);
    assert_eq!(fb.ffm, vec![
        FfmEntry { base: 4 + 4, field: 0, value: 10 },
        FfmEntry { base: 4, field: 1, value: 11 },
    ]);
    for e in &fb.ffm {
        assert!(e.base + 4 <= 12);
    }
}

#[test]
fn namespace_file_with_header_and_blank_lines() {
    let m = NamespaceMap::from_csv(b"name,id\na,0\n\nb,3\r\n").unwrap();
    assert_eq!(m.len(), 2);
    assert_eq!(m.lookup(b"b"), Some(3));
    assert_eq!(m.id_bound(), 4);
    let m = NamespaceMap::from_csv(b"a,0\nb,1").unwrap();
    assert_eq!(m.len(), 2);
    assert!(NamespaceMap::from_csv(b"").unwrap().len() == 0);
    assert!(matches!(NamespaceMap::from_csv(b"a,0\nbad\n"), Err(NamespaceError::Malformed)));
    assert!(matches!(NamespaceMap::from_csv(b"a,0\nb,0\n"), Err(NamespaceError::DuplicateId)));
    assert!(matches!(NamespaceMap::from_csv(b"a,0\na,1\n"), Err(NamespaceError::DuplicateName)));
}
