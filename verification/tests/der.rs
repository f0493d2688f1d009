use asn1_codec::der::{encode, encode_int, encode_length, encode_restricted_str, Data};
use asn1_codec::octets::{signed_octets, unsigned_octets};
use asn1_codec::tlv_parser::integer::BigInteger;
use asn1_codec::tlv_parser::tlv::{Content, DataType, IdentifierClass, PrimitiveContent};
use asn1_codec::tlv_parser::TLVParser;

#[test]
fn der_encode_length() {
    assert_eq!(encode_length(1), vec![1]);
    assert_eq!(encode_length(435), vec![130, 1, 179]);
}

#[test]
fn encode_length_uses_the_fewest_octets() {
    assert_eq!(encode_length(0), vec![0]);
    assert_eq!(encode_length(127), vec![127]);
    assert_eq!(encode_length(128), vec![0x81, 128]);
    assert_eq!(encode_length(255), vec![0x81, 255]);
    assert_eq!(encode_length(256), vec![0x82, 1, 0]);
    assert_eq!(encode_length(65535), vec![0x82, 255, 255]);
    assert_eq!(encode_length(65536), vec![0x83, 1, 0, 0]);
    assert_eq!(encode_length(u64::MAX), vec![0x88, 255, 255, 255, 255, 255, 255, 255, 255]);
}

#[test]
fn bool_sequence() {
    assert_eq!(
        encode(&Data::Sequence(vec![Data::False, Data::True])),
        vec![0x30, 6, 1, 1, 0x0, 1, 1, 0xFF]
    );
}

#[test]
fn test_encode_int() {
    assert_eq!(encode(&Data::Integer(2)), vec![2, 1, 0x2]);

    assert_eq!(encode(&Data::Integer(-2)), vec![2, 1, 0b11111110]);
}

#[test]
fn encode_int_at_the_edges_of_an_octet() {
    assert_eq!(encode_int(0), vec![2, 1, 0]);
    assert_eq!(encode_int(127), vec![2, 1, 0x7F]);
    assert_eq!(encode_int(128), vec![2, 2, 0, 0x80]);
    assert_eq!(encode_int(-128), vec![2, 1, 0x80]);
    assert_eq!(encode_int(-129), vec![2, 2, 0xFF, 0x7F]);
    assert_eq!(encode_int(255), vec![2, 2, 0, 0xFF]);
    assert_eq!(encode_int(256), vec![2, 2, 1, 0]);
    assert_eq!(encode_int(-256), vec![2, 2, 0xFF, 0]);
    assert_eq!(encode_int(i64::MAX), vec![2, 8, 0x7F, 255, 255, 255, 255, 255, 255, 255]);
    assert_eq!(encode_int(i64::MIN), vec![2, 8, 0x80, 0, 0, 0, 0, 0, 0, 0]);
}

#[test]
fn octets_of_numbers() {
    assert_eq!(unsigned_octets(0), Vec::<u8>::new());
    assert_eq!(unsigned_octets(435), vec![1, 179]);
    assert_eq!(signed_octets(0), vec![0]);
    assert_eq!(signed_octets(-1), vec![0xFF]);
    assert_eq!(signed_octets(16909060), vec![1, 2, 3, 4]);
}

#[test]
fn encode_null_and_booleans() {
    assert_eq!(encode(&Data::Null), vec![5, 0]);
    assert_eq!(encode(&Data::True), vec![1, 1, 0xFF]);
    assert_eq!(encode(&Data::False), vec![1, 1, 0]);
}

#[test]
fn str_sequence() {
    let encoded = encode(&Data::Sequence(vec![
        Data::VisibleString("Jones".into()),
        Data::VisibleString("1230".into()),
    ]));
    assert_eq!(
        encoded,
        vec![0x30, 13, 0x1A, 5, b'J', b'o', b'n', b'e', b's', 0x1A, 4, b'1', b'2', b'3', b'0']
    );
}

#[test]
fn long_string_takes_the_long_form() {
    let text = "a".repeat(300);
    let encoded = encode_restricted_str(&text);
    assert_eq!(encoded.len(), 4 + 300);
    assert_eq!(&encoded[..4], &[0x1A, 0x82, 0x01, 0x2C]);
    assert!(encoded[4..].iter().all(|b| *b == b'a'));
}

#[test]
fn nested_sequences() {
    let inner = Data::Sequence(vec![Data::Integer(1), Data::Null]);
    let encoded = encode(&Data::Sequence(vec![inner, Data::True]));
    assert_eq!(encoded, vec![0x30, 10, 0x30, 5, 2, 1, 1, 5, 0, 1, 1, 0xFF]);
    assert_eq!(encode(&Data::Sequence(vec![])), vec![0x30, 0]);
}

fn decode_one(bytes: Vec<u8>) -> asn1_codec::tlv_parser::tlv::EncodingData {
    let (rest, mut forest, warnings) = TLVParser::new(bytes).unwrap().parse().unwrap();
    assert!(rest.into_remaining().is_empty());
    assert!(warnings.is_empty());
    assert_eq!(forest.len(), 1);
    forest.pop().unwrap()
}

#[test]
fn test_roundtrip() {
    for (value, expected) in [(Data::False, false), (Data::True, true)] {
        let node = decode_one(encode(&value));
        assert_eq!(node.identifier.class, IdentifierClass::Universal);
        assert_eq!(node.identifier.data_type, DataType::Primitive);
        assert_eq!(node.identifier.tag_number, 1);
        assert_eq!(node.content, Some(Content::Primitive(PrimitiveContent::Boolean(expected))));
    }
    for z in [255i64, 0, -1, 2, -2, 127, 128, -128, -129, 16909060, i64::MAX, i64::MIN] {
        let node = decode_one(encode(&Data::Integer(z)));
        assert_eq!(node.identifier.tag_number, 2);
        assert_eq!(
            node.content,
            Some(Content::Primitive(PrimitiveContent::Integer(BigInteger::from_i64(z))))
        );
    }
    let node = decode_one(encode(&Data::Null));
    assert_eq!(node.identifier.tag_number, 5);
    assert_eq!(node.length.unwrap().length, 0);
    assert_eq!(node.content, None);
    let node = decode_one(encode(&Data::VisibleString("Jones".into())));
    assert_eq!(node.identifier.tag_number, 26);
    assert_eq!(node.content, Some(Content::Raw(b"Jones".to_vec())));
}

#[test]
fn sequence_decodes_to_its_items() {
    let node = decode_one(encode(&Data::Sequence(vec![Data::False, Data::True])));
    assert_eq!(node.identifier.data_type, DataType::Constructed);
    assert_eq!(node.identifier.tag_number, 16);
    assert_eq!(node.length.unwrap().length, 6);
    match node.content.as_ref().unwrap() {
        Content::Constructed(children) => {
            assert_eq!(children.len(), 2);
            assert_eq!(
                children[0].content,
                Some(Content::Primitive(PrimitiveContent::Boolean(false)))
            );
            assert_eq!(
                children[1].content,
                Some(Content::Primitive(PrimitiveContent::Boolean(true)))
            );
        }
        v => panic!("{:#?}", v),
    }
    assert_eq!(node.bytes_length(), 8);
}
