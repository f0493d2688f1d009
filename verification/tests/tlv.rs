use asn1_codec::tlv_parser::integer::BigInteger;
use asn1_codec::tlv_parser::tlv::{
    Content, DataType, EncodingData, Identifier, IdentifierClass, Length, PrimitiveContent,
};
use num::BigInt;

fn identifier(tag_number: u32) -> Identifier {
    Identifier { class: IdentifierClass::Universal, data_type: DataType::Primitive, tag_number }
}

#[test]
fn identifier_octets_follow_the_tag_number() {
    assert_eq!(identifier(0).bytes_length(), 1);
    assert_eq!(identifier(30).bytes_length(), 1);
    assert_eq!(identifier(31).bytes_length(), 2);
    assert_eq!(identifier(127).bytes_length(), 2);
    assert_eq!(identifier(128).bytes_length(), 3);
    assert_eq!(identifier(0x3FFF).bytes_length(), 3);
    assert_eq!(identifier(0x4000).bytes_length(), 4);
    assert_eq!(identifier(0x1F_FFFF).bytes_length(), 4);
    assert_eq!(identifier(0x20_0000).bytes_length(), 5);
    assert_eq!(identifier(0x0FFF_FFFF).bytes_length(), 5);
    assert_eq!(identifier(0x1000_0000).bytes_length(), 6);
    assert_eq!(identifier(u32::MAX).bytes_length(), 6);
}

#[test]
fn length_octets_follow_the_length() {
    assert_eq!(Length::new(0).bytes_length(), 1);
    assert_eq!(Length::new(127).bytes_length(), 1);
    assert_eq!(Length::new(128).bytes_length(), 2);
    assert_eq!(Length::new(255).bytes_length(), 2);
    assert_eq!(Length::new(256).bytes_length(), 3);
    assert_eq!(Length::new(0xFFFF).bytes_length(), 3);
    assert_eq!(Length::new(0x1_0000).bytes_length(), 4);
    assert_eq!(Length::new(0xFF_FFFF).bytes_length(), 4);
    assert_eq!(Length::new(0x100_0000).bytes_length(), 5);
    assert_eq!(Length::new(u32::MAX).bytes_length(), 5);
}

#[test]
fn length_as_usize() {
    assert_eq!(Length::new(0).get_length_as_usize(), Some(0));
    assert_eq!(Length::new(435).get_length_as_usize(), Some(435));
    assert_eq!(Length::new(u32::MAX).get_length_as_usize(), Some(u32::MAX as usize));
}

#[test]
fn primitive_octets_by_variant() {
    assert_eq!(PrimitiveContent::Boolean(true).bytes_length(), 1);
    assert_eq!(PrimitiveContent::Null.bytes_length(), 0);
    assert_eq!(PrimitiveContent::OctetString(vec![1, 2, 3]).bytes_length(), 3);
    assert_eq!(PrimitiveContent::UTF8String("h\u{e9}".to_string()).bytes_length(), 3);
    assert_eq!(PrimitiveContent::BitString((vec![1, 2], 3)).bytes_length(), 2);
}

#[test]
fn integer_octets_count_the_binary_digits() {
    let octets = |z: i64| PrimitiveContent::Integer(BigInteger::from_i64(z)).bytes_length();
    assert_eq!(octets(0), 0);
    assert_eq!(octets(1), 1);
    assert_eq!(octets(25), 1);
    assert_eq!(octets(255), 1);
    assert_eq!(octets(256), 2);
    assert_eq!(octets(-1), 1);
    assert_eq!(octets(-256), 2);
    assert_eq!(octets(16909060), 4);
    assert_eq!(octets(i64::MAX), 8);
    assert_eq!(octets(i64::MIN), 8);
}

#[test]
fn big_integer_agrees_with_bigint() {
    for z in [0i64, 1, -1, 2, -2, 127, 128, -128, -129, 255, 256, -255, -256, 32767, 32768,
        -32768, -32769, 16909060, i64::MAX, i64::MIN, i64::MAX - 1, i64::MIN + 1]
    {
        let ours = BigInteger::from_i64(z);
        let theirs = BigInt::from(z);
        assert_eq!(ours.to_signed_bytes_be(), theirs.to_signed_bytes_be());
        assert_eq!(ours.bits(), theirs.bits());
        assert_eq!(BigInteger::from_signed_bytes_be(&theirs.to_signed_bytes_be()), ours);
    }
}

#[test]
fn big_integer_drops_the_octets_to_spare() {
    let padded = BigInteger::from_signed_bytes_be(&[0xff, 0xff, 0xff, 0xfe]);
    assert_eq!(padded.to_signed_bytes_be(), vec![0xfe]);
    assert_eq!(padded, BigInteger::from_i64(-2));
    let padded = BigInteger::from_signed_bytes_be(&[0, 0, 0, 0x80]);
    assert_eq!(padded.to_signed_bytes_be(), vec![0, 0x80]);
    assert_eq!(padded, BigInteger::from_i64(128));
    assert_eq!(BigInteger::from_signed_bytes_be(&[]), BigInteger::from_i64(0));
    assert_eq!(padded.clone(), padded);
}

#[test]
fn big_integer_beyond_the_machine_word() {
    let octets = [0x01u8, 0, 0, 0, 0, 0, 0, 0, 0, 0];
    let big = BigInteger::from_signed_bytes_be(&octets);
    assert_eq!(big.bits(), 73);
    assert_eq!(big.to_signed_bytes_be(), octets.to_vec());
    assert_eq!(PrimitiveContent::Integer(big).bytes_length(), 10);
}

#[test]
fn node_octets_add_up() {
    let mut node = EncodingData::new(identifier(4));
    assert_eq!(node.bytes_length(), 1);
    assert!(!node.is_length_limit_reached());
    node.length = Some(Length::new(2));
    assert_eq!(node.bytes_length(), 2);
    assert!(!node.is_length_limit_reached());
    node.content = Some(Content::Raw(vec![1]));
    assert_eq!(node.bytes_length(), 3);
    assert!(!node.is_length_limit_reached());
    node.content = Some(Content::Raw(vec![1, 2]));
    assert_eq!(node.bytes_length(), 4);
    assert!(node.is_length_limit_reached());
}

#[test]
fn constructed_octets_sum_the_children() {
    let mut first = EncodingData::new(identifier(4));
    first.length = Some(Length::new(2));
    first.content = Some(Content::Primitive(PrimitiveContent::UTF8String("he".to_string())));
    let mut second = EncodingData::new(identifier(1));
    second.length = Some(Length::new(1));
    second.content = Some(Content::Primitive(PrimitiveContent::Boolean(true)));
    let content = Content::Constructed(vec![first, second]);
    assert_eq!(content.bytes_length(), 7);
    let mut parent = EncodingData::new(Identifier {
        class: IdentifierClass::Universal,
        data_type: DataType::Constructed,
        tag_number: 16,
    });
    parent.length = Some(Length::new(8));
    parent.content = Some(content);
    assert_eq!(parent.bytes_length(), 9);
    assert!(!parent.is_length_limit_reached());
    parent.length = Some(Length::new(7));
    assert!(parent.is_length_limit_reached());
}

#[test]
fn length_zero_is_reached_without_content() {
    let mut node = EncodingData::new(identifier(5));
    node.length = Some(Length::new(0));
    assert!(node.is_length_limit_reached());
}
