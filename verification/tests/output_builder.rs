use asn1_codec::tlv_parser::output_builder::EncodingDataOutputBuilder;
use asn1_codec::tlv_parser::tlv::{
    Content, DataType, Identifier, IdentifierClass, Length, PrimitiveContent,
};

fn create_test_identifier() -> Identifier {
    Identifier { class: IdentifierClass::Universal, data_type: DataType::Primitive, tag_number: 1 }
}

fn constructed(tag_number: u32) -> Identifier {
    Identifier { class: IdentifierClass::Universal, data_type: DataType::Constructed, tag_number }
}

fn primitive(tag_number: u32) -> Identifier {
    Identifier { class: IdentifierClass::Universal, data_type: DataType::Primitive, tag_number }
}

fn create_test_length() -> Length {
    Length { length: 0 }
}

fn create_test_content() -> Content {
    Content::Primitive(PrimitiveContent::Boolean(false))
}

#[test]
fn test_add_id() {
    let mut builder = EncodingDataOutputBuilder::new();
    builder.add_identifier(create_test_identifier());
    let result = builder.take_result();

    assert_eq!(result.len(), 1);
}

#[test]
fn test_add_id_twice() {
    let mut builder = EncodingDataOutputBuilder::new();
    builder.add_identifier(create_test_identifier());
    builder.add_identifier(create_test_identifier());
    let result = builder.take_result();

    assert_eq!(result.len(), 2);
}

#[test]
fn test_add_length() {
    let mut builder = EncodingDataOutputBuilder::new();
    builder.add_identifier(create_test_identifier());
    builder.add_length(create_test_length());
    let result = builder.take_result();

    assert_eq!(result.len(), 1);
    assert!(result.first().as_ref().unwrap().length.is_some());
}

#[test]
fn test_add_content() {
    let mut builder = EncodingDataOutputBuilder::new();
    builder.add_identifier(create_test_identifier());
    builder.add_content(create_test_content());
    let result = builder.take_result();

    assert_eq!(result.len(), 1);
    assert!(result.first().as_ref().unwrap().content.is_some());
}

#[test]
fn test_add_after_second_id() {
    let mut builder = EncodingDataOutputBuilder::new();
    builder.add_identifier(create_test_identifier());
    builder.add_identifier(create_test_identifier());
    builder.add_length(create_test_length());
    builder.add_content(create_test_content());
    let result = builder.take_result();

    assert_eq!(result.len(), 2);
    assert!(result.last().as_ref().unwrap().length.is_some());
    assert!(result.last().as_ref().unwrap().content.is_some());
}

#[test]
fn current_is_the_innermost_open_triple() {
    let mut builder = EncodingDataOutputBuilder::new();
    assert!(builder.get_cur_data().is_none());
    builder.add_identifier(constructed(16));
    builder.add_length(Length::new(6));
    builder.add_identifier(primitive(1));
    let current = builder.get_cur_data().unwrap();
    assert_eq!(current.identifier, primitive(1));
    assert!(current.length.is_none());
    assert!(current.content.is_none());
}

#[test]
fn children_keep_the_order_of_arrival() {
    let mut builder = EncodingDataOutputBuilder::new();
    builder.add_identifier(constructed(16));
    builder.add_length(Length::new(100));
    for tag_number in [7u32, 3, 9, 1] {
        builder.add_identifier(primitive(tag_number));
        builder.add_length(Length::new(1));
        builder.add_content(Content::Raw(vec![0]));
    }
    let result = builder.take_result();
    assert_eq!(result.len(), 1);
    match result[0].content.as_ref().unwrap() {
        Content::Constructed(children) => {
            let tags: Vec<u32> = children.iter().map(|c| c.identifier.tag_number).collect();
            assert_eq!(tags, vec![7, 3, 9, 1]);
        }
        v => panic!("{:#?}", v),
    }
}

#[test]
fn a_full_container_takes_no_more_children() {
    let mut builder = EncodingDataOutputBuilder::new();
    builder.add_identifier(constructed(16));
    builder.add_length(Length::new(3));
    builder.add_identifier(primitive(1));
    builder.add_length(Length::new(1));
    builder.add_content(Content::Primitive(PrimitiveContent::Boolean(true)));
    // The child fills the three octets: the next triple is a sibling of the container.
    builder.add_identifier(primitive(5));
    builder.add_length(Length::new(0));
    let result = builder.take_result();
    assert_eq!(result.len(), 2);
    match result[0].content.as_ref().unwrap() {
        Content::Constructed(children) => assert_eq!(children.len(), 1),
        v => panic!("{:#?}", v),
    }
    assert_eq!(result[1].identifier.tag_number, 5);
}

#[test]
fn a_container_without_length_stays_open() {
    let mut builder = EncodingDataOutputBuilder::new();
    builder.add_identifier(constructed(16));
    builder.add_identifier(primitive(5));
    builder.add_identifier(primitive(5));
    let result = builder.take_result();
    assert_eq!(result.len(), 1);
    match result[0].content.as_ref().unwrap() {
        Content::Constructed(children) => assert_eq!(children.len(), 2),
        v => panic!("{:#?}", v),
    }
}

#[test]
fn a_container_of_length_zero_closes_at_once() {
    let mut builder = EncodingDataOutputBuilder::new();
    builder.add_identifier(constructed(16));
    builder.add_length(Length::new(0));
    builder.add_identifier(primitive(5));
    let result = builder.take_result();
    assert_eq!(result.len(), 2);
    assert!(result[0].content.is_none());
}

#[test]
fn nested_containers_close_from_the_inside() {
    let mut builder = EncodingDataOutputBuilder::new();
    builder.add_identifier(constructed(16));
    builder.add_length(Length::new(5));
    builder.add_identifier(constructed(17));
    builder.add_length(Length::new(3));
    builder.add_identifier(primitive(1));
    builder.add_length(Length::new(1));
    builder.add_content(Content::Primitive(PrimitiveContent::Boolean(true)));
    // Inner: 3 of 3 octets. Outer: 2 + 3 = 5 of 5 octets. Both are full.
    builder.add_identifier(primitive(2));
    let result = builder.take_result();
    assert_eq!(result.len(), 2);
    assert_eq!(result[0].bytes_length(), 7);
    match result[0].content.as_ref().unwrap() {
        Content::Constructed(children) => {
            assert_eq!(children.len(), 1);
            assert_eq!(children[0].identifier.tag_number, 17);
            assert_eq!(children[0].bytes_length(), 5);
        }
        v => panic!("{:#?}", v),
    }
}
