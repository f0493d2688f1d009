//! What the decoder makes of what the encoder wrote.

use crate::der::{encoding, framed, length_encoding, DataView};
use crate::octets::{
    lemma_be_unsigned_bound, lemma_minimal_be, lemma_pow256_monotonic, lemma_pow256_values, lemma_signed_octets_of,
    minimal_be, signed_octets_of,
};
use crate::tlv_parser::output_builder::{
    after_content, after_identifier, after_length, close_innermost, forest_of, settled,
    BuilderView,
};
use crate::tlv_parser::reading::{
    class_of, form_of, read_identifier, read_length, read_primitive, ContentRead,
};
use crate::tlv_parser::tlv::{
    ContentView, DataType, Identifier, IdentifierClass, Length, NodeView, PrimitiveView,
};
use crate::tlv_parser::{
    at_start, parse_of, run, step, with_read, MachineView, ParseErrorKind, ParseOutcome,
    ParserState,
};
use vstd::prelude::*;
use vstd::utf8::encode_utf8;

verus! {

/// A length below 2 to the 32 is read back from its length octets,
/// whatever follows them.
pub proof fn lemma_length_round_trip(n: nat, rest: Seq<u8>)
    requires
        n < 0x1_0000_0000,
    ensures
        read_length(length_encoding(n) + rest) == Ok::<(Length, nat), ParseErrorKind>(
            (Length { length: n as u32 }, length_encoding(n).len()),
        ),
{
    let input = length_encoding(n) + rest;
    if n >= 128 {
        let digits = minimal_be(n);
        let k = digits.len();
        lemma_minimal_be(n);
        lemma_pow256_values();
        if k > 4 {
            lemma_pow256_monotonic(4, (k - 1) as nat);
        }
        assert(input[0] == (128 + k) as u8);
        assert(input.subrange(1, 1 + k as int) =~= digits);
    } else {
        assert(input[0] == n as u8);
    }
}

/// No octets that the decoder reads as a length are fewer than the length
/// octets that the encoder writes for it.
pub proof fn lemma_length_encoding_is_shortest(other: Seq<u8>, n: u32)
    requires
        read_length(other) == Ok::<(Length, nat), ParseErrorKind>(
            (Length { length: n }, other.len()),
        ),
    ensures
        length_encoding(n as nat).len() <= other.len(),
{
    if n >= 128 {
        let digits = minimal_be(n as nat);
        let k = (other[0] - 128) as nat;
        let spelled = other.subrange(1, 1 + k as int);
        lemma_minimal_be(n as nat);
        lemma_be_unsigned_bound(spelled);
        lemma_pow256_values();
        if digits.len() > k {
            lemma_pow256_monotonic(k, (digits.len() - 1) as nat);
        }
    }
}

/// The triple that a single primitive triple on the wire decodes to.
pub open spec fn framed_node(id: Identifier, length: nat, content: Option<ContentView>)
    -> NodeView {
    NodeView {
        identifier: id,
        length: Some(Length { length: length as u32 }),
        content: if length == 0 {
            None
        } else {
            content
        },
    }
}

/// A primitive triple with a universal tag below 31, alone on the wire, is
/// parsed to one triple with that tag, the length of the content, and the
/// content as the decoder reads it; no content where there is none to
/// read.
pub proof fn lemma_parse_framed(tag: u8, content: Seq<u8>, c: ContentRead)
    requires
        tag < 31,
        content.len() < 0x1_0000_0000,
        read_primitive(
            Identifier {
                class: IdentifierClass::Universal,
                data_type: DataType::Primitive,
                tag_number: tag as u32,
            },
            content.len() as u32,
            content,
        ) == Ok::<ContentRead, ParseErrorKind>(c),
        c.read == content.len(),
        c.warning is None,
    ensures
        parse_of(framed(tag, content)) == Ok::<ParseOutcome, ParseErrorKind>(
            ParseOutcome {
                rest: Seq::empty(),
                forest: seq![
                    framed_node(
                        Identifier {
                            class: IdentifierClass::Universal,
                            data_type: DataType::Primitive,
                            tag_number: tag as u32,
                        },
                        content.len(),
                        c.content,
                    ),
                ],
                warnings: Seq::empty(),
            },
        ),
{
    let input = framed(tag, content);
    let n = content.len();
    let id = Identifier {
        class: IdentifierClass::Universal,
        data_type: DataType::Primitive,
        tag_number: tag as u32,
    };
    let length = Length { length: n as u32 };
    let none = Seq::<Option<ParseErrorKind>>::empty();
    let b0 = BuilderView { closed: Seq::empty(), open: Seq::empty() };
    let leaf = NodeView { identifier: id, length: None, content: None };
    let sized = NodeView { identifier: id, length: Some(length), content: None };
    let b1 = BuilderView { closed: Seq::empty(), open: seq![leaf] };
    let b2 = BuilderView { closed: Seq::empty(), open: seq![sized] };
    let after_tag = length_encoding(n) + content;

    // Initial: there is input.
    let m0 = at_start(input);
    let m1 = MachineView { state: ParserState::ParseIdentifier, ..m0 };
    assert(input.len() > 0);
    assert(step(m0) == Ok::<MachineView, ParseErrorKind>(m1));
    assert(run(m0) == run(m1));

    // The identifier is the first octet.
    assert(input[0] == tag);
    assert(class_of(tag) == IdentifierClass::Universal);
    assert(form_of(tag) == DataType::Primitive);
    assert(read_identifier(input) == Ok::<(Identifier, nat), ParseErrorKind>((id, 1)));
    assert(settled(b0) == b0);
    assert(after_identifier(b0, id).open =~= seq![leaf]);
    assert(after_identifier(b0, id) == b1);
    assert(input.skip(1) =~= after_tag);
    let m2 = MachineView {
        state: ParserState::ParseLength,
        input: after_tag,
        output: b1,
        warnings: none,
    };
    assert(step(m1) == Ok::<MachineView, ParseErrorKind>(m2));
    assert(run(m1) == run(m2));

    // The length is read back.
    lemma_length_round_trip(n, content);
    let k = length_encoding(n).len();
    assert(after_tag.skip(k as int) =~= content);
    assert(b1.open.drop_last().push(sized) =~= seq![sized]);
    assert(after_length(b1, length) == b2);
    let m3 = MachineView {
        state: if n == 0 {
            ParserState::Initial
        } else {
            ParserState::ParseContent
        },
        input: content,
        output: b2,
        warnings: none,
    };
    assert(step(m2) == Ok::<MachineView, ParseErrorKind>(m3));
    assert(run(m2) == run(m3));

    if n == 0 {
        let m4 = MachineView { state: ParserState::Finished, ..m3 };
        assert(step(m3) == Ok::<MachineView, ParseErrorKind>(m4));
        assert(run(m3) == run(m4));
        let closed = close_innermost(b2);
        assert(closed.closed =~= seq![sized]);
        assert(forest_of(b2) == forest_of(closed));
        assert(forest_of(closed) == closed.closed);
        assert(content =~= Seq::<u8>::empty());
    } else {
        // The content is read, and the input is used up.
        let b3 = match c.content {
            Some(value) => after_content(b2, value),
            None => b2,
        };
        let done = framed_node(id, n, c.content);
        assert(content.skip(n as int) =~= Seq::<u8>::empty());
        let m4 = MachineView {
            state: ParserState::Initial,
            input: Seq::empty(),
            output: b3,
            warnings: none,
        };
        assert(with_read(m3, c).output == b3);
        assert(step(m3) == Ok::<MachineView, ParseErrorKind>(m4));
        assert(run(m3) == run(m4));
        let m5 = MachineView { state: ParserState::Finished, ..m4 };
        assert(step(m4) == Ok::<MachineView, ParseErrorKind>(m5));
        assert(run(m4) == run(m5));
        assert(c.content is Some);
        assert(b2.open.drop_last().push(done) =~= seq![done]);
        assert(b3.open =~= seq![done]);
        let closed = close_innermost(b3);
        assert(closed.closed =~= seq![done]);
        assert(forest_of(b3) == forest_of(closed));
        assert(forest_of(closed) == closed.closed);
    }
}

/// What the decoder makes of the encoding of a value that is not a
/// sequence: a universal primitive triple with the tag of the value's
/// type, the length of its content octets, and its content. A boolean
/// and an integer come back as themselves; a string comes back as its
/// octets; a null, and a string without characters, have no content.
pub open spec fn decoded(v: DataView) -> NodeView {
    match v {
        DataView::True => framed_node(
            universal_primitive(1),
            1,
            Some(ContentView::Primitive(PrimitiveView::Boolean(true))),
        ),
        DataView::False => framed_node(
            universal_primitive(1),
            1,
            Some(ContentView::Primitive(PrimitiveView::Boolean(false))),
        ),
        DataView::Integer(z) => framed_node(
            universal_primitive(2),
            signed_octets_of(z).len(),
            Some(ContentView::Primitive(PrimitiveView::Integer(z))),
        ),
        DataView::Null => framed_node(universal_primitive(5), 0, None),
        DataView::VisibleString(s) => framed_node(
            universal_primitive(26),
            encode_utf8(s).len(),
            Some(ContentView::Raw(encode_utf8(s))),
        ),
        DataView::Sequence(_) => arbitrary(),
    }
}

/// The identifier of a universal primitive type.
pub open spec fn universal_primitive(tag_number: u32) -> Identifier {
    Identifier {
        class: IdentifierClass::Universal,
        data_type: DataType::Primitive,
        tag_number,
    }
}

/// The number of content octets in the encoding of a value that is not a
/// sequence.
pub open spec fn content_length(v: DataView) -> nat {
    match v {
        DataView::True => 1,
        DataView::False => 1,
        DataView::Integer(z) => signed_octets_of(z).len(),
        DataView::Null => 0,
        DataView::VisibleString(s) => encode_utf8(s).len(),
        DataView::Sequence(_) => 0,
    }
}

/// Round trip: the encoding of a boolean, an integer, a null or a string
/// is parsed, without a warning and to the last octet, to the one triple
/// that stands for the value. The decoder reads lengths below 2 to the 32
/// only, so the content must be shorter than that.
pub proof fn lemma_round_trip(v: DataView)
    requires
        !(v is Sequence),
        content_length(v) < 0x1_0000_0000,
    ensures
        parse_of(encoding(v)) == Ok::<ParseOutcome, ParseErrorKind>(
            ParseOutcome { rest: Seq::empty(), forest: seq![decoded(v)], warnings: Seq::empty() },
        ),
{
    match v {
        DataView::True => {
            let content = seq![0xFFu8];
            assert(encoding(v) =~= framed(1, content));
            assert(content.take(1) =~= content);
            lemma_parse_framed(
                1,
                content,
                ContentRead {
                    content: Some(ContentView::Primitive(PrimitiveView::Boolean(true))),
                    read: 1,
                    warning: None,
                },
            );
        },
        DataView::False => {
            let content = seq![0u8];
            assert(encoding(v) =~= framed(1, content));
            lemma_parse_framed(
                1,
                content,
                ContentRead {
                    content: Some(ContentView::Primitive(PrimitiveView::Boolean(false))),
                    read: 1,
                    warning: None,
                },
            );
        },
        DataView::Integer(z) => {
            let content = signed_octets_of(z);
            lemma_signed_octets_of(z);
            assert(content.take(content.len() as int) =~= content);
            lemma_parse_framed(
                2,
                content,
                ContentRead {
                    content: Some(ContentView::Primitive(PrimitiveView::Integer(z))),
                    read: content.len(),
                    warning: None,
                },
            );
        },
        DataView::Null => {
            let content = Seq::<u8>::empty();
            assert(encoding(v) =~= framed(5, content));
            lemma_parse_framed(
                5,
                content,
                ContentRead {
                    content: Some(ContentView::Primitive(PrimitiveView::Null)),
                    read: 0,
                    warning: None,
                },
            );
        },
        DataView::VisibleString(s) => {
            let content = encode_utf8(s);
            assert(content.take(content.len() as int) =~= content);
            lemma_parse_framed(
                26,
                content,
                ContentRead {
                    content: if content.len() == 0 {
                        None
                    } else {
                        Some(ContentView::Raw(content))
                    },
                    read: content.len(),
                    warning: None,
                },
            );
        },
        DataView::Sequence(_) => {},
    }
}

} // verus!
