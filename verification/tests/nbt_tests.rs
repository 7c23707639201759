use drax::error::{ErrorType, TransportErrorContext};
use drax::nbt::{
    load_tag, read_nbt, size_nbt, size_optional_nbt, size_tag, write_nbt, write_optional_nbt,
    write_tag, CompoundTag, EnsuredCompoundTag, NbtAccounter, Tag,
};
use drax::reader::ByteReader;

fn round_trip(value: Tag) {
    let mut out = Vec::new();
    write_tag(&value, &mut out).unwrap();
    assert_eq!(size_tag(&value).unwrap(), out.len());
    let bit = value.get_bit();
    let mut cursor = ByteReader::new(out);
    let mut accounter = NbtAccounter::new(0);
    let back = load_tag(&mut cursor, bit, 0, &mut accounter).unwrap();
    assert_eq!(back, value);
    assert_eq!(cursor.remaining_len(), 0);
}

#[test]
fn test_tag_end() {
    round_trip(Tag::EndTag);
}

#[test]
fn test_tag_byte() {
    round_trip(Tag::ByteTag(10));
}

#[test]
fn test_tag_short() {
    round_trip(Tag::ShortTag(20));
}

#[test]
fn test_tag_int() {
    round_trip(Tag::IntTag(30));
}

#[test]
fn test_tag_long() {
    round_trip(Tag::LongTag(40));
}

#[test]
fn test_tag_float() {
    round_trip(Tag::FloatTag(12.30f32.to_bits()));
}

#[test]
fn test_tag_double() {
    round_trip(Tag::DoubleTag(20.30f64.to_bits()));
}

#[test]
fn test_tag_byte_array() {
    round_trip(Tag::ByteArrayTag(vec![10, 20, 0, 5]));
}

#[test]
fn test_tag_string() {
    round_trip(Tag::StringTag("test string".to_string()));
}

#[test]
fn test_tag_list() {
    round_trip(Tag::ListTag(2, vec![
        Tag::ShortTag(10),
        Tag::ShortTag(20),
        Tag::ShortTag(9),
        Tag::ShortTag(15),
    ]));
}

#[test]
fn test_tag_compound() {
    let mut map = CompoundTag::new();
    map.put_tag("abc".to_string(), Tag::ShortTag(15));
    map.put_tag("def".to_string(), Tag::FloatTag(12.30f32.to_bits()));
    round_trip(Tag::CompoundTag(map));
}

#[test]
fn test_tag_int_array() {
    round_trip(Tag::IntArrayTag(vec![30, 23, 123, 955]));
}

#[test]
fn test_tag_long_array() {
    round_trip(Tag::LongArrayTag(vec![321423, 24312, 123123, 12312]));
}

#[test]
fn test_string_read_write_persistence() {
    let value = Tag::StringTag("Example String".to_string());
    let mut out = Vec::new();
    write_tag(&value, &mut out).unwrap();
    let mut cursor = ByteReader::new(out);
    let mut accounter = NbtAccounter::new(0);
    let back = load_tag(&mut cursor, 8, 0, &mut accounter).unwrap();
    match back {
        Tag::StringTag(s) => assert_eq!(s, "Example String"),
        _ => panic!("expected a string tag"),
    }
}

#[test]
fn non_ascii_string_round_trips() {
    let value = Tag::StringTag("caf\u{e9} \u{1F600}".to_string());
    round_trip(value);
}

#[test]
fn read_nbt_absent_consumes_one_byte() {
    let mut cursor = ByteReader::new(vec![0, 99, 98]);
    let got = read_nbt(&mut cursor, 0).unwrap();
    assert!(got.is_none());
    assert_eq!(cursor.remaining_len(), 2);
}

#[test]
fn read_nbt_rejects_non_compound_root() {
    let mut cursor = ByteReader::new(vec![3, 0, 0, 0, 0, 0, 7]);
    let e = read_nbt(&mut cursor, 0).unwrap_err();
    assert!(matches!(e.error_type, ErrorType::NonCompoundRoot));
}

#[test]
fn nbt_root_round_trip() {
    let mut map = CompoundTag::new();
    map.put_tag("answer".to_string(), Tag::IntTag(42));
    map.put_tag("name".to_string(), Tag::StringTag("drax".to_string()));
    let mut out = Vec::new();
    write_nbt(&map, &mut out).unwrap();
    assert_eq!(out[0], 10);
    let mut cursor = ByteReader::new(out);
    let back = read_nbt(&mut cursor, 0).unwrap().unwrap();
    match back.get_tag(&"answer".to_string()) {
        Some(Tag::IntTag(v)) => assert_eq!(*v, 42),
        _ => panic!("missing answer entry"),
    }
    match back.get_tag(&"name".to_string()) {
        Some(Tag::StringTag(s)) => assert_eq!(s, "drax"),
        _ => panic!("missing name entry"),
    }
    assert!(back.get_tag(&"other".to_string()).is_none());
    assert_eq!(back.tags(), vec!["answer".to_string(), "name".to_string()]);
}

#[test]
fn optional_nbt_round_trip() {
    let mut out = Vec::new();
    write_optional_nbt(&None, &mut out).unwrap();
    assert_eq!(out, vec![0]);
    assert_eq!(size_optional_nbt(&None).unwrap(), 1);

    let mut map = CompoundTag::new();
    map.put_tag("k".to_string(), Tag::ByteTag(7));
    let body_size = size_nbt(&map).unwrap();
    let opt = Some(map);
    let mut out2 = Vec::new();
    write_optional_nbt(&opt, &mut out2).unwrap();
    assert_eq!(out2[0], 10);
    assert_eq!(body_size + 3, out2.len());
    assert_eq!(size_optional_nbt(&opt).unwrap(), body_size);
}

#[test]
fn size_tag_matches_write_for_nested_trees() {
    let mut inner = CompoundTag::new();
    inner.put_tag("xs".to_string(), Tag::IntArrayTag(vec![1, 2, 3]));
    let mut outer = CompoundTag::new();
    outer.put_tag("inner".to_string(), Tag::CompoundTag(inner));
    outer.put_tag(
        "list".to_string(),
        Tag::ListTag(8, vec![
            Tag::StringTag("a".to_string()),
            Tag::StringTag("bb".to_string()),
        ]),
    );
    let t = Tag::CompoundTag(outer);
    let mut out = Vec::new();
    write_tag(&t, &mut out).unwrap();
    assert_eq!(size_tag(&t).unwrap(), out.len());
}

#[test]
fn accounting_ceiling_rejects_oversized_tree() {
    let mut map = CompoundTag::new();
    map.put_tag("payload".to_string(), Tag::ByteArrayTag(vec![0; 64]));
    let t = Tag::CompoundTag(map);
    let mut out = Vec::new();
    write_tag(&t, &mut out).unwrap();

    // decoding under a tiny ceiling fails with the oversized-tag error
    let mut cursor = ByteReader::new(out.clone());
    let mut accounter = NbtAccounter::new(100);
    let e = load_tag(&mut cursor, 10, 0, &mut accounter).unwrap_err();
    assert!(matches!(e.error_type, ErrorType::OversizedTag));
    // the offending tally and the ceiling ride along as diagnostics
    match e.context {
        TransportErrorContext::Measured { value, bound } => {
            assert!(value > 100);
            assert_eq!(bound, 100);
        },
        _ => panic!("expected the measurement context"),
    }

    // the same tree with a zero ceiling (disabled accounting) decodes
    let mut cursor2 = ByteReader::new(out);
    let mut accounter2 = NbtAccounter::new(0);
    assert!(load_tag(&mut cursor2, 10, 0, &mut accounter2).is_ok());
}

fn nested_lists(depth: usize) -> Tag {
    let mut t = Tag::ByteTag(0);
    let mut k = 0;
    while k < depth {
        let id = t.get_bit();
        t = Tag::ListTag(id, vec![t]);
        k += 1;
    }
    t
}

#[test]
fn depth_cap_is_exact() {
    let ok_tree = nested_lists(512);
    let mut out = Vec::new();
    write_tag(&ok_tree, &mut out).unwrap();
    let mut cursor = ByteReader::new(out);
    let mut accounter = NbtAccounter::new(0);
    assert!(load_tag(&mut cursor, 9, 0, &mut accounter).is_ok());

    let deep_tree = nested_lists(513);
    let mut out2 = Vec::new();
    write_tag(&deep_tree, &mut out2).unwrap();
    let mut cursor2 = ByteReader::new(out2);
    let mut accounter2 = NbtAccounter::new(0);
    let e = load_tag(&mut cursor2, 9, 0, &mut accounter2).unwrap_err();
    assert!(matches!(e.error_type, ErrorType::DepthExceeded));
}

#[test]
fn unknown_tag_id_rejected() {
    let mut cursor = ByteReader::new(vec![1, 2, 3]);
    let mut accounter = NbtAccounter::new(0);
    let e = load_tag(&mut cursor, 13, 0, &mut accounter).unwrap_err();
    assert!(matches!(e.error_type, ErrorType::UnknownTagId));
    assert!(matches!(e.context, TransportErrorContext::Measured { value: 13, bound: 12 }));
}

#[test]
fn missing_list_type_rejected() {
    // element type 0 with a positive length
    let body = vec![0u8, 0, 0, 0, 2];
    let mut cursor = ByteReader::new(body);
    let mut accounter = NbtAccounter::new(0);
    let e = load_tag(&mut cursor, 9, 0, &mut accounter).unwrap_err();
    assert!(matches!(e.error_type, ErrorType::MissingListType));
}

#[test]
fn duplicate_keys_overwrite_and_charge() {
    // a compound with the same key twice: (1, "k", 7) (1, "k", 9) 0
    let body = vec![1u8, 0, 1, b'k', 7, 1, 0, 1, b'k', 9, 0];
    let mut cursor = ByteReader::new(body.clone());
    let mut accounter = NbtAccounter::new(0);
    let tag = load_tag(&mut cursor, 10, 0, &mut accounter).unwrap();
    match tag {
        Tag::CompoundTag(c) => {
            assert_eq!(c.len(), 1);
            match c.get_tag(&"k".to_string()) {
                Some(Tag::ByteTag(v)) => assert_eq!(*v, 9),
                _ => panic!("missing overwritten entry"),
            }
        },
        _ => panic!("expected a compound"),
    }
    // the duplicate-entry charge pushes the tally over a ceiling that a
    // single entry would fit under is covered by the oversized test; here the
    // zero ceiling must still succeed despite the duplicate
    let mut cursor2 = ByteReader::new(body);
    let mut accounter2 = NbtAccounter::new(0);
    assert!(load_tag(&mut cursor2, 10, 0, &mut accounter2).is_ok());
}

#[test]
fn ensured_compound_tag_component_round_trips() {
    let mut map = CompoundTag::new();
    map.put_tag("hp".to_string(), Tag::ShortTag(20));
    let value = Some(Tag::CompoundTag(map));
    let mut out = Vec::new();
    EnsuredCompoundTag::<0>::encode(&value, &mut out).unwrap();
    assert_eq!(out[0], 10);
    match EnsuredCompoundTag::<0>::size(&value).unwrap() {
        drax::packet::Size::Dynamic(n) => assert_eq!(n, out.len()),
        _ => panic!("expected a dynamic size"),
    }
    let mut cursor = ByteReader::new(out);
    let back = EnsuredCompoundTag::<0>::decode(&mut cursor).unwrap().unwrap();
    match back {
        Tag::CompoundTag(c) => match c.get_tag(&"hp".to_string()) {
            Some(Tag::ShortTag(v)) => assert_eq!(*v, 20),
            _ => panic!("missing entry"),
        },
        _ => panic!("expected a compound"),
    }

    let mut absent_out = Vec::new();
    EnsuredCompoundTag::<0>::encode(&None, &mut absent_out).unwrap();
    assert_eq!(absent_out, vec![0]);
    let mut cursor2 = ByteReader::new(absent_out);
    assert!(EnsuredCompoundTag::<0>::decode(&mut cursor2).unwrap().is_none());
}

#[test]
fn ensured_compound_tag_honours_its_ceiling() {
    let mut map = CompoundTag::new();
    map.put_tag("payload".to_string(), Tag::ByteArrayTag(vec![0; 64]));
    let value = Some(Tag::CompoundTag(map));
    let mut out = Vec::new();
    EnsuredCompoundTag::<0>::encode(&value, &mut out).unwrap();
    let mut cursor = ByteReader::new(out);
    let e = EnsuredCompoundTag::<100>::decode(&mut cursor).unwrap_err();
    assert!(matches!(e.error_type, ErrorType::OversizedTag));
}
