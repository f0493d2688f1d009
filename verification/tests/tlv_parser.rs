use asn1_codec::tlv_parser::error_collector::{ErrorCollector, IErrorCollector};
use asn1_codec::tlv_parser::input::ByteInput;
use asn1_codec::tlv_parser::integer::BigInteger;
use asn1_codec::tlv_parser::output_builder::EncodingDataOutputBuilder;
use asn1_codec::tlv_parser::tlv::{
    Content, DataType, Identifier, IdentifierClass, Length, PrimitiveContent,
};
use asn1_codec::tlv_parser::{ParseErrorKind, ParserState, TLVParseError, TLVParser};
use num::{BigInt, FromPrimitive, ToPrimitive, Zero};

fn create_test_output_builder_w_id() -> EncodingDataOutputBuilder {
    let mut builder = EncodingDataOutputBuilder::new();
    builder.add_identifier(Identifier {
        class: IdentifierClass::Universal,
        data_type: DataType::Primitive,
        tag_number: 0,
    });
    builder
}

fn create_test_output_builder_w_universal_prim_id(tag_num: u32) -> EncodingDataOutputBuilder {
    let mut builder = EncodingDataOutputBuilder::new();
    builder.add_identifier(Identifier {
        class: IdentifierClass::Universal,
        data_type: DataType::Primitive,
        tag_number: tag_num,
    });
    builder
}

fn create_test_parseident(input: Vec<u8>, output_builder: EncodingDataOutputBuilder) -> TLVParser {
    TLVParser::resume(
        ParserState::ParseIdentifier,
        ByteInput::new(input),
        output_builder,
        ErrorCollector::new(),
    )
}

fn create_test_parselength(input: Vec<u8>, output_builder: EncodingDataOutputBuilder) -> TLVParser {
    TLVParser::resume(
        ParserState::ParseLength,
        ByteInput::new(input),
        output_builder,
        ErrorCollector::new(),
    )
}

fn create_test_parsecontent(
    input: Vec<u8>,
    output_builder: EncodingDataOutputBuilder,
) -> TLVParser {
    TLVParser::resume(
        ParserState::ParseContent,
        ByteInput::new(input),
        output_builder,
        ErrorCollector::new(),
    )
}

fn kind_of_failure(result: Result<TLVParser, TLVParseError>) -> ParseErrorKind {
    match result {
        Ok(_) => panic!("the move succeeded"),
        Err(e) => e.kind.unwrap(),
    }
}

#[test]
fn test_parse_identifier_universal_primitive() {
    let output_builder = EncodingDataOutputBuilder::new();
    let state = create_test_parseident(vec![0], output_builder);
    let _next_state = state.transition().unwrap();

    let data = _next_state.take_results().unwrap().1.pop().unwrap();
    assert_eq!(data.identifier.class, IdentifierClass::Universal);
    assert_eq!(data.identifier.data_type, DataType::Primitive);
    assert!(data.identifier.tag_number.is_zero());
}

#[test]
fn test_parse_identifier_app_constructed() {
    let output_builder = EncodingDataOutputBuilder::new();
    let state = create_test_parseident(vec![97], output_builder);

    let _next_state = state.transition().unwrap();

    let data = _next_state.take_results().unwrap().1.pop().unwrap();
    assert_eq!(data.identifier.class, IdentifierClass::Application);
    assert_eq!(data.identifier.data_type, DataType::Constructed);
    assert_eq!(data.identifier.tag_number.to_usize().unwrap(), 1);
}

#[test]
fn test_parse_identifier_context_specific_tagnumber_single_max() {
    let output_builder = EncodingDataOutputBuilder::new();
    let state = create_test_parseident(vec![158], output_builder);
    let _next_state = state.transition().unwrap();

    let data = _next_state.take_results().unwrap().1.pop().unwrap();
    assert_eq!(data.identifier.class, IdentifierClass::ContextSpecific);
    assert_eq!(data.identifier.tag_number.to_usize().unwrap(), 30);
}

#[test]
fn test_parse_identifier_tagnumber_multiple() {
    let output_builder = EncodingDataOutputBuilder::new();
    let state = create_test_parseident(vec![31, 248, 188, 158, 15], output_builder);

    let _next_state = state.transition().unwrap();

    let data = _next_state.take_results().unwrap().1.pop().unwrap();
    // Four base-128 digits, most significant first: 0x78, 0x3C, 0x1E, 0x0F.
    assert_eq!(data.identifier.tag_number, 0x0F0F_0F0F);
    assert_eq!(data.identifier.tag_number, ((0x78 * 128 + 0x3C) * 128 + 0x1E) * 128 + 0x0F);
    // The digits are seven bits each: they are not laid octet by octet.
    assert_ne!(data.identifier.tag_number, 4042322160);
}

#[test]
fn test_parse_identifier_tagnumber_morethan4bytes() {
    let output_builder = EncodingDataOutputBuilder::new();
    let state = create_test_parseident(vec![31, 248, 188, 158, 143, 15], output_builder);

    assert!(state.transition().is_err());
}

#[test]
fn test_parse_length_1byte() {
    let output_builder = create_test_output_builder_w_id();
    let state = create_test_parselength(vec![42], output_builder);

    let _next_state = state.transition().unwrap();

    let data = _next_state.take_results().unwrap().1.pop().unwrap();
    assert_eq!(data.length.as_ref().unwrap().length.to_usize().unwrap(), 42);
}

#[test]
fn test_parse_length_3bytes() {
    let output_builder = create_test_output_builder_w_id();
    let state = create_test_parselength(vec![0x83, 0x11, 0x11, 0x11], output_builder);

    let _next_state = state.transition().unwrap();

    let data = _next_state.take_results().unwrap().1.pop().unwrap();
    assert_eq!(data.length.as_ref().unwrap().length, 1_118_481);
}

#[test]
fn test_parse_length_morethan4bytes() {
    let output_builder = create_test_output_builder_w_id();
    let state =
        create_test_parselength(vec![0x85, 0x11, 0x11, 0x11, 0x11, 0x11], output_builder);

    assert!(state.transition().is_err());
}

#[test]
fn test_parse_content_raw() {
    let mut output_builder = create_test_output_builder_w_id();
    output_builder.add_length(Length::new(4));
    let state = create_test_parsecontent(vec![1, 2, 3, 4], output_builder);

    let _next_state = state.transition().unwrap();

    let data = _next_state.take_results().unwrap().1.pop().unwrap();
    assert!(matches!(data.content.as_ref().unwrap(), Content::Raw(_)));
    if let Content::Raw(len) = data.content.as_ref().unwrap() {
        assert_eq!(len.len(), 4);
    };
}

#[test]
fn test_parse_content_boolean_true() {
    let mut output_builder = create_test_output_builder_w_universal_prim_id(1);
    output_builder.add_length(Length::new(1));
    let state = create_test_parsecontent(vec![0xff], output_builder);

    let _next_state = state.transition().unwrap();

    let data = _next_state.take_results().unwrap().1.pop().unwrap();
    match data.content.as_ref().unwrap() {
        Content::Primitive(PrimitiveContent::Boolean(val)) => {
            assert!(val);
        }
        v => panic!("{:#?}", v),
    };
}

#[test]
fn test_parse_content_boolean_false() {
    let mut output_builder = create_test_output_builder_w_universal_prim_id(1);
    output_builder.add_length(Length::new(1));
    let state = create_test_parsecontent(vec![0xfe], output_builder);

    let _next_state = state.transition().unwrap();

    let data = _next_state.take_results().unwrap().1.pop().unwrap();
    match data.content.as_ref().unwrap() {
        Content::Primitive(PrimitiveContent::Boolean(val)) => {
            // Only the octet zero reads as false.
            assert!(val);
        }
        v => panic!("{:#?}", v),
    };

    let mut output_builder = create_test_output_builder_w_universal_prim_id(1);
    output_builder.add_length(Length::new(1));
    let state = create_test_parsecontent(vec![0x00], output_builder);
    let data = state.transition().unwrap().take_results().unwrap().1.pop().unwrap();
    match data.content.as_ref().unwrap() {
        Content::Primitive(PrimitiveContent::Boolean(val)) => {
            assert!(!val);
        }
        v => panic!("{:#?}", v),
    };
}

#[test]
fn boolean_is_true_for_any_octet_but_zero() {
    for octet in [0xfeu8, 0x01, 0x80, 0x7f] {
        let mut output_builder = create_test_output_builder_w_universal_prim_id(1);
        output_builder.add_length(Length::new(1));
        let state = create_test_parsecontent(vec![octet], output_builder);
        let data = state.transition().unwrap().take_results().unwrap().1.pop().unwrap();
        assert_eq!(data.content, Some(Content::Primitive(PrimitiveContent::Boolean(true))));
    }
}

#[test]
fn test_parse_content_boolean_wronglength() {
    let mut output_builder = create_test_output_builder_w_universal_prim_id(1);
    output_builder.add_length(Length::new(2));
    let state = create_test_parsecontent(vec![0xfe], output_builder);

    assert!(state.transition().is_err());
}

#[test]
fn test_parse_content_int() {
    let mut output_builder = create_test_output_builder_w_universal_prim_id(2);
    output_builder.add_length(Length::new(4));
    let state = create_test_parsecontent(vec![0xff, 0xff, 0xff, 0xff], output_builder);

    let _next_state = state.transition().unwrap();

    let data = _next_state.take_results().unwrap().1.pop().unwrap();
    match data.content.as_ref().unwrap() {
        Content::Primitive(PrimitiveContent::Integer(val)) => {
            assert_eq!(val, &BigInteger::from_i64(-1));
            assert_eq!(BigInt::from_signed_bytes_be(&val.to_signed_bytes_be()), BigInt::from(-1));
        }
        v => panic!("{:#?}", v),
    };
}

#[test]
fn test_parse_content_int_wronglength() {
    let mut output_builder = create_test_output_builder_w_universal_prim_id(2);
    output_builder.add_length(Length::new(0));
    let state = create_test_parsecontent(vec![0xfe], output_builder);

    assert!(state.transition().is_err());
}

#[test]
fn test_parse_content_bitstring_empty() {
    let mut output_builder = create_test_output_builder_w_universal_prim_id(3);
    output_builder.add_length(Length::new(1));
    let state = create_test_parsecontent(vec![0x00], output_builder);

    let _next_state = state.transition().unwrap();

    let data = _next_state.take_results().unwrap().1.pop().unwrap();
    match data.content.as_ref().unwrap() {
        Content::Primitive(PrimitiveContent::BitString((val, num_unused))) => {
            assert_eq!(val.len(), 0);
            assert_eq!(num_unused, &0);
        }
        v => panic!("{:#?}", v),
    };
}

#[test]
fn test_parse_content_bitstring_5b() {
    let mut output_builder = create_test_output_builder_w_universal_prim_id(3);
    output_builder.add_length(Length::new(6));
    let state =
        create_test_parsecontent(vec![0x07, 0x00, 0x01, 0x02, 0x03, 0x04], output_builder);

    let _next_state = state.transition().unwrap();

    let data = _next_state.take_results().unwrap().1.pop().unwrap();
    match data.content.as_ref().unwrap() {
        Content::Primitive(PrimitiveContent::BitString((val, num_unused))) => {
            assert_eq!(val.len(), 5);
            assert_eq!(*num_unused, 7);
            assert_eq!(val, &vec![0x00, 0x01, 0x02, 0x03, 0x04]);
        }
        v => panic!("{:#?}", v),
    };
}

#[test]
fn test_parse_content_utf8string() {
    let mut output_builder = create_test_output_builder_w_universal_prim_id(4);
    output_builder.add_length(Length::new(5));
    let state = create_test_parsecontent("hello".to_string().into_bytes(), output_builder);

    let _next_state = state.transition().unwrap();

    let data = _next_state.take_results().unwrap().1.pop().unwrap();
    match data.content.as_ref().unwrap() {
        Content::Primitive(PrimitiveContent::UTF8String(val)) => {
            assert_eq!(val.len(), 5);
            assert_eq!(val, "hello");
        }
        v => panic!("{:#?}", v),
    };
}

#[test]
fn utf8string_replaces_what_is_not_utf8() {
    let mut output_builder = create_test_output_builder_w_universal_prim_id(4);
    output_builder.add_length(Length::new(3));
    let state = create_test_parsecontent(vec![b'a', 0xff, b'b'], output_builder);
    let (_, mut forest, warnings) = state.transition().unwrap().take_results().unwrap();
    assert!(warnings.is_empty());
    let data = forest.pop().unwrap();
    assert_eq!(
        data.content,
        Some(Content::Primitive(PrimitiveContent::UTF8String("a\u{fffd}b".to_string())))
    );
}

#[test]
fn test_parse_content_null() {
    let mut output_builder = create_test_output_builder_w_universal_prim_id(5);
    output_builder.add_length(Length::new(0));
    let state = create_test_parsecontent(vec![], output_builder);

    let _next_state = state.transition().unwrap();

    let data = _next_state.take_results().unwrap().1.pop().unwrap();
    match data.content.as_ref().unwrap() {
        Content::Primitive(PrimitiveContent::Null) => {}
        v => panic!("{:#?}", v),
    };
}

#[test]
fn test_parse_content_null_nzlength() {
    let mut output_builder = create_test_output_builder_w_universal_prim_id(5);
    output_builder.add_length(Length::new(1));
    let state = create_test_parsecontent(vec![], output_builder);

    let _next_state = state.transition().unwrap();

    let mut result = _next_state.take_results().unwrap();
    let data = result.1.pop().unwrap();
    match data.content.as_ref().unwrap() {
        Content::Primitive(PrimitiveContent::Null) => {
            assert_eq!(result.2.len(), 1);
            assert_eq!(result.2[0].kind, Some(ParseErrorKind::NullNonZeroLength));
        }
        v => panic!("{:#?}", v),
    };
}

#[test]
fn test_parse_tlv_integer() {
    let input = vec![0x02, 0x04, 0x01, 0x02, 0x03, 0x04];
    let parser = TLVParser::new(input).unwrap();

    let mut result = parser.parse().unwrap();
    let data = result.1.pop().unwrap();

    assert_eq!(data.identifier.class, IdentifierClass::Universal);
    assert_eq!(data.identifier.data_type, DataType::Primitive);
    assert_eq!(data.identifier.tag_number, 2);
    assert_eq!(data.length.as_ref().unwrap().length, 4);
    match data.content.as_ref().unwrap() {
        Content::Primitive(PrimitiveContent::Integer(val)) => {
            assert_eq!(val, &BigInteger::from_i64(16909060));
            assert_eq!(
                BigInt::from_signed_bytes_be(&val.to_signed_bytes_be()),
                BigInt::from_i32(16909060).unwrap()
            );
        }
        v => panic!("{:#?}", v),
    };
}

#[test]
fn test_parse_tlv_constructed() {
    let input = vec![
        0x24, 0x08, 0x04, 0x02, 'h' as u8, 'e' as u8, 0x04, 0x02, 'h' as u8, 'e' as u8,
    ];
    let parser = TLVParser::new(input).unwrap();

    let mut result = parser.parse().unwrap();
    let data = result.1.pop().unwrap();

    assert_eq!(data.identifier.class, IdentifierClass::Universal);
    assert_eq!(data.identifier.data_type, DataType::Constructed);
    assert_eq!(data.identifier.tag_number, 4);
    assert_eq!(data.length.as_ref().unwrap().length, 8);
    match data.content.as_ref().unwrap() {
        Content::Constructed(children) => {
            assert_eq!(children.len(), 2);
            for child in children {
                assert_eq!(child.identifier.class, IdentifierClass::Universal);
                assert_eq!(child.identifier.data_type, DataType::Primitive);
                assert_eq!(child.identifier.tag_number, 4);
                assert_eq!(child.length.as_ref().unwrap().length, 2);
                match child.content.as_ref().unwrap() {
                    Content::Primitive(PrimitiveContent::UTF8String(val)) => {
                        assert_eq!(val.as_str(), "he")
                    }
                    v => panic!("{:#?}", v),
                }
            }
        }
        v => panic!("{:#?}", v),
    };
}

#[test]
fn parse_small_integer() {
    let (rest, forest, warnings) = TLVParser::new(vec![0x02, 0x01, 0x19]).unwrap().parse().unwrap();
    assert!(rest.into_remaining().is_empty());
    assert!(warnings.is_empty());
    assert_eq!(forest.len(), 1);
    assert_eq!(forest[0].identifier.class, IdentifierClass::Universal);
    assert_eq!(forest[0].identifier.data_type, DataType::Primitive);
    assert_eq!(forest[0].identifier.tag_number, 2);
    assert_eq!(forest[0].length, Some(Length::new(1)));
    assert_eq!(
        forest[0].content,
        Some(Content::Primitive(PrimitiveContent::Integer(BigInteger::from_i64(25))))
    );
    assert_eq!(forest[0].bytes_length(), 3);
}

#[test]
fn parse_minus_one_in_four_octets() {
    let input = vec![0x02, 0x04, 0xFF, 0xFF, 0xFF, 0xFF];
    let (_, forest, _) = TLVParser::new(input).unwrap().parse().unwrap();
    assert_eq!(
        forest[0].content,
        Some(Content::Primitive(PrimitiveContent::Integer(BigInteger::from_i64(-1))))
    );
}

#[test]
fn parse_boolean_true() {
    let (_, forest, _) = TLVParser::new(vec![0x01, 0x01, 0xFF]).unwrap().parse().unwrap();
    assert_eq!(forest[0].content, Some(Content::Primitive(PrimitiveContent::Boolean(true))));
}

#[test]
fn parse_nothing() {
    let (rest, forest, warnings) = TLVParser::new(vec![]).unwrap().parse().unwrap();
    assert!(rest.into_remaining().is_empty());
    assert!(forest.is_empty());
    assert!(warnings.is_empty());
}

#[test]
fn parse_siblings_in_stream_order() {
    let input = vec![0x01, 0x01, 0xFF, 0x05, 0x00, 0x02, 0x01, 0x07, 0x81, 0x02, 0xAA, 0xBB];
    let (_, forest, warnings) = TLVParser::new(input).unwrap().parse().unwrap();
    assert!(warnings.is_empty());
    let tags: Vec<u32> = forest.iter().map(|n| n.identifier.tag_number).collect();
    assert_eq!(tags, vec![1, 5, 2, 1]);
    assert_eq!(forest[1].content, None);
    assert_eq!(forest[3].identifier.class, IdentifierClass::ContextSpecific);
    assert_eq!(forest[3].content, Some(Content::Raw(vec![0xAA, 0xBB])));
}

#[test]
fn parse_after_a_full_container() {
    let input = vec![0x30, 0x03, 0x01, 0x01, 0x00, 0x05, 0x00];
    let (_, forest, _) = TLVParser::new(input).unwrap().parse().unwrap();
    assert_eq!(forest.len(), 2);
    assert_eq!(forest[0].bytes_length(), 5);
    assert_eq!(forest[1].identifier.tag_number, 5);
}

#[test]
fn parse_long_form_length() {
    let mut input = vec![0x04, 0x81, 0x80];
    input.extend(std::iter::repeat(b'x').take(128));
    let (_, forest, _) = TLVParser::new(input).unwrap().parse().unwrap();
    assert_eq!(forest[0].length, Some(Length::new(128)));
    assert_eq!(forest[0].bytes_length(), 1 + 2 + 128);
}

#[test]
fn warnings_come_once_for_each_null_with_a_length() {
    // Two nulls that announce a length, one that does not.
    let input = vec![0x05, 0x01, 0x05, 0x00, 0x05, 0x02];
    let (_, forest, warnings) = TLVParser::new(input.clone()).unwrap().parse().unwrap();
    assert_eq!(forest.len(), 3);
    assert_eq!(warnings.len(), 2);
    assert!(warnings.iter().all(|w| w.kind == Some(ParseErrorKind::NullNonZeroLength)));
    let (_, _, again) = TLVParser::new(input).unwrap().parse().unwrap();
    assert_eq!(again.len(), 2);
}

#[test]
fn every_failure_has_its_kind() {
    let parse = |input: Vec<u8>| {
        TLVParser::new(input).unwrap().parse().map(|_| ()).map_err(|e| e.kind.unwrap())
    };
    assert_eq!(parse(vec![0x1F]), Err(ParseErrorKind::UnexpectedEOF));
    assert_eq!(parse(vec![0x1F, 0x81]), Err(ParseErrorKind::UnexpectedEOF));
    assert_eq!(parse(vec![0x02]), Err(ParseErrorKind::UnexpectedEOF));
    assert_eq!(parse(vec![0x02, 0x82, 0x01]), Err(ParseErrorKind::UnexpectedEOF));
    assert_eq!(parse(vec![0x02, 0x02, 0x01]), Err(ParseErrorKind::UnexpectedEOF));
    assert_eq!(parse(vec![0x1F, 0x81, 0x81, 0x81, 0x81]), Err(ParseErrorKind::UnexpectedEOF));
    assert_eq!(parse(vec![0x1F, 0x81, 0x81, 0x81, 0x81, 0x01]), Err(ParseErrorKind::TagOverflow));
    assert_eq!(parse(vec![0x02, 0x85, 1, 1, 1, 1, 1]), Err(ParseErrorKind::LengthOverflow));
    assert_eq!(parse(vec![0x01, 0x02, 0xFF, 0xFF]), Err(ParseErrorKind::BooleanLengthMismatch));
    assert_eq!(parse(vec![0x03, 0x02, 0x00]), Err(ParseErrorKind::UnexpectedEOF));

    let content_of = |tag: u32| {
        let mut builder = create_test_output_builder_w_universal_prim_id(tag);
        builder.add_length(Length::new(0));
        create_test_parsecontent(vec![1], builder)
    };
    assert_eq!(kind_of_failure(content_of(2).transition()), ParseErrorKind::IntegerLengthZero);
    assert_eq!(kind_of_failure(content_of(3).transition()), ParseErrorKind::BitStringLengthZero);
    assert_eq!(kind_of_failure(content_of(1).transition()), ParseErrorKind::BooleanLengthMismatch);
    let no_owner = create_test_parsecontent(vec![1], EncodingDataOutputBuilder::new());
    assert_eq!(kind_of_failure(no_owner.transition()), ParseErrorKind::MissingOwner);
    let no_length = create_test_parsecontent(vec![1], create_test_output_builder_w_id());
    assert_eq!(kind_of_failure(no_length.transition()), ParseErrorKind::MissingLength);
}

#[test]
fn raw_of_length_zero_sets_no_content() {
    let mut builder = create_test_output_builder_w_id();
    builder.add_length(Length::new(0));
    let state = create_test_parsecontent(vec![9], builder);
    let (rest, mut forest, _) = state.transition().unwrap().take_results().unwrap();
    assert_eq!(rest.into_remaining(), vec![9]);
    assert_eq!(forest.pop().unwrap().content, None);
}

#[test]
fn the_states_follow_one_another() {
    let parser = TLVParser::new(vec![0x01, 0x01, 0xFF]).unwrap();
    assert!(!parser.is_finished());
    let parser = parser.transition().unwrap().transition().unwrap();
    let parser = parser.transition().unwrap().transition().unwrap();
    assert!(!parser.is_finished());
    let parser = parser.transition().unwrap();
    assert!(parser.is_finished());
    let parser = parser.transition().unwrap();
    assert!(parser.is_finished());
}

#[test]
fn input_yields_octets_with_their_places() {
    let mut input = ByteInput::new(vec![7, 8]);
    assert_eq!(input.peek(), Some((0, 7)));
    assert_eq!(input.next(), Some((0, 7)));
    assert_eq!(input.peek(), Some((1, 8)));
    assert_eq!(input.next(), Some((1, 8)));
    assert_eq!(input.peek(), None);
    assert_eq!(input.next(), None);
    assert!(input.into_remaining().is_empty());
}

#[test]
fn collector_keeps_the_order() {
    let mut collector = ErrorCollector::new();
    collector.add(TLVParseError::new("first"));
    collector.add(TLVParseError::of_kind(ParseErrorKind::UnexpectedEOF, "second"));
    let errors = collector.take_errors();
    assert_eq!(errors.len(), 2);
    assert_eq!(errors[0].msg, "first");
    assert_eq!(errors[0].kind, None);
    assert_eq!(errors[1].msg, "second");
    assert_eq!(errors[1].kind, Some(ParseErrorKind::UnexpectedEOF));
    assert_eq!(errors[1].describe(), "TLV parse error");
}

#[test]
fn the_forest_is_as_large_as_the_input() {
    let inputs: Vec<Vec<u8>> = vec![
        vec![0x02, 0x01, 0x19],
        vec![0x01, 0x01, 0xFF, 0x05, 0x00],
        vec![0x30, 0x06, 0x01, 0x01, 0x00, 0x01, 0x01, 0xFF],
        vec![0x24, 0x08, 0x04, 0x02, b'h', b'e', 0x04, 0x02, b'h', b'e'],
        vec![0x30, 0x07, 0x30, 0x05, 0x02, 0x03, 0x01, 0x00, 0x00, 0x9F, 0x21, 0x01, 0x7F],
        vec![0x5F, 0x81, 0x00, 0x02, 0xAB, 0xCD],
    ];
    for input in inputs {
        let size = input.len() as u32;
        let (rest, forest, _) = TLVParser::new(input).unwrap().parse().unwrap();
        assert!(rest.into_remaining().is_empty());
        let total: u32 = forest.iter().map(|node| node.bytes_length()).sum();
        assert_eq!(total, size);
    }
}

#[test]
fn a_longer_spelling_is_read_and_not_counted() {
    // A length of one in the long form: three octets read, two counted.
    let (_, forest, _) = TLVParser::new(vec![0x04, 0x81, 0x01, b'x']).unwrap().parse().unwrap();
    assert_eq!(forest[0].bytes_length(), 3);
    // A bit string: the octet of the unused bits is read and not counted.
    let (_, forest, _) = TLVParser::new(vec![0x03, 0x02, 0x00, 0xFF]).unwrap().parse().unwrap();
    assert_eq!(forest[0].bytes_length(), 3);
    // The integer zero has no binary digit to count.
    let (_, forest, _) = TLVParser::new(vec![0x02, 0x01, 0x00]).unwrap().parse().unwrap();
    assert_eq!(forest[0].bytes_length(), 2);
}

#[test]
fn every_triple_is_as_large_as_its_span() {
    //            0     2     4           9           13
    let input = vec![
        0x30, 0x0B, 0x30, 0x05, 0x02, 0x03, 0x01, 0x00, 0x00, 0x04, 0x02, b'o', b'k', 0x05, 0x00,
    ];
    let (_, forest, _) = TLVParser::new(input).unwrap().parse().unwrap();
    assert_eq!(forest.len(), 2);
    assert_eq!(forest[0].bytes_length(), 13);
    assert_eq!(forest[1].bytes_length(), 2);
    match forest[0].content.as_ref().unwrap() {
        Content::Constructed(children) => {
            assert_eq!(children.len(), 2);
            assert_eq!(children[0].bytes_length(), 7);
            assert_eq!(children[1].bytes_length(), 4);
            match children[0].content.as_ref().unwrap() {
                Content::Constructed(inner) => {
                    assert_eq!(inner.len(), 1);
                    assert_eq!(inner[0].bytes_length(), 5);
                }
                v => panic!("{:#?}", v),
            }
        }
        v => panic!("{:#?}", v),
    };
}

#[test]
fn content_agrees_with_form_in_every_triple() {
    fn agrees(node: &asn1_codec::tlv_parser::tlv::EncodingData) -> bool {
        match (&node.identifier.data_type, node.content.as_ref()) {
            (_, None) => true,
            (DataType::Constructed, Some(Content::Constructed(children))) => {
                children.iter().all(agrees)
            }
            (DataType::Primitive, Some(Content::Constructed(_))) => false,
            (DataType::Primitive, Some(_)) => true,
            (DataType::Constructed, Some(_)) => false,
        }
    }
    let input = vec![
        0x30, 0x0B, 0x30, 0x05, 0x02, 0x03, 0x01, 0x00, 0x00, 0x04, 0x02, b'o', b'k', 0x05, 0x00,
        0x30, 0x00, 0xA1, 0x03, 0x81, 0x01, 0x07,
    ];
    let (_, forest, _) = TLVParser::new(input).unwrap().parse().unwrap();
    assert_eq!(forest.len(), 4);
    assert!(forest.iter().all(agrees));
    let copy = forest[0].clone();
    assert_eq!(copy, forest[0]);
}
