use asn1_codec::hex::{_decode_human, decode_hex_pairs, HexError};
use asn1_codec::tlv_parser::tlv::Content;
use asn1_codec::tlv_parser::TLVParser;

#[test]
fn test_1() {
    match _decode_human("0C 04 4A6F686E") {
        Err(_) => assert!(false),
        Ok(octets) => {
            assert_eq!(octets, vec![0x0C, 0x04, 0x4A, 0x6F, 0x68, 0x6E]);
            let (_, forest, _) = TLVParser::new(octets).unwrap().parse().unwrap();
            assert_eq!(forest.len(), 1);
            assert_eq!(forest[0].identifier.tag_number, 12);
            assert_eq!(forest[0].content, Some(Content::Raw(b"John".to_vec())));
        }
    }
}

#[test]
fn hex_text_for_an_integer() {
    assert_eq!(_decode_human("02 01 19"), Ok(vec![0x02, 0x01, 0x19]));
}

#[test]
fn hex_text_takes_both_cases_and_any_white_space() {
    assert_eq!(_decode_human(""), Ok(vec![]));
    assert_eq!(_decode_human(" \t\n"), Ok(vec![]));
    assert_eq!(_decode_human("fF\u{a0}0a\n1 B"), Ok(vec![0xFF, 0x0A, 0x1B]));
    assert_eq!(_decode_human("00ff7F80"), Ok(vec![0x00, 0xFF, 0x7F, 0x80]));
}

#[test]
fn hex_text_with_what_is_no_digit() {
    assert_eq!(_decode_human("0G"), Err(HexError::InvalidDigit));
    assert_eq!(_decode_human("+f"), Err(HexError::InvalidDigit));
    assert_eq!(_decode_human("12 3x 4"), Err(HexError::InvalidDigit));
    assert_eq!(_decode_human("\u{e9}0"), Err(HexError::InvalidDigit));
}

#[test]
fn hex_text_with_a_digit_left_over() {
    assert_eq!(_decode_human("123"), Err(HexError::OddLength));
    assert_eq!(_decode_human("1"), Err(HexError::OddLength));
    assert_eq!(_decode_human("12 x"), Err(HexError::OddLength));
}

#[test]
fn hex_pairs_of_digits_alone() {
    assert_eq!(decode_hex_pairs(&vec!['a', '1']), Ok(vec![0xA1]));
    assert_eq!(decode_hex_pairs(&vec![' ', '1']), Err(HexError::InvalidDigit));
}
