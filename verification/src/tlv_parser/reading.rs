//! What the octets of a stream mean: how an identifier, a length and a
//! primitive content are read off the front of the unread input.

use super::input::ByteInput;
use super::tlv::{
    ContentView, DataType, Identifier, IdentifierClass, Length, PrimitiveView,
};
use super::{ParseErrorKind, TLVParseError};
use crate::octets::{be_signed, be_unsigned, lemma_pow256_values, pow256};
use vstd::prelude::*;
use vstd::utf8::{decode_utf8, valid_utf8};

verus! {

/// The text that `String::from_utf8_lossy` makes of `bytes`.
pub uninterp spec fn utf8_lossy(bytes: Seq<u8>) -> Seq<char>;

/// The text that octets are read as: what they encode where they are valid
/// UTF-8; else what `String::from_utf8_lossy` makes of them, which puts a
/// replacement character for what it cannot read.
pub open spec fn text_of(bytes: Seq<u8>) -> Seq<char> {
    if valid_utf8(bytes) {
        decode_utf8(bytes)
    } else {
        utf8_lossy(bytes)
    }
}

/// Calls `String::from_utf8_lossy` and takes the text as a `String` of its
/// own. Claimed: octets that are valid UTF-8 give exactly the text that
/// they encode, and for any others the text is a function of the octets
/// alone.
#[verifier::external_body]
pub(crate) fn decode_utf8_lossy(bytes: &[u8]) -> (r: String)
    ensures
        valid_utf8(bytes@) ==> r@ == decode_utf8(bytes@),
        !valid_utf8(bytes@) ==> r@ == utf8_lossy(bytes@),
{
    String::from_utf8_lossy(bytes).into_owned()
}

/// What reading the content of a primitive triple gives: the content, if
/// any is set; the number of octets read; and the warning, if one is due.
pub struct ContentRead {
    pub content: Option<ContentView>,
    pub read: nat,
    pub warning: Option<ParseErrorKind>,
}

/// A boolean: its length must be one; its octet is false when zero and true
/// otherwise.
pub open spec fn read_boolean(length: u32, input: Seq<u8>) -> Result<ContentRead, ParseErrorKind> {
    if length != 1 {
        Err(ParseErrorKind::BooleanLengthMismatch)
    } else if input.len() < 1 {
        Err(ParseErrorKind::UnexpectedEOF)
    } else {
        Ok(
            ContentRead {
                content: Some(ContentView::Primitive(PrimitiveView::Boolean(input[0] != 0))),
                read: 1,
                warning: None,
            },
        )
    }
}

/// An integer: its length must not be zero; its octets spell the number in
/// two's complement, most significant first.
pub open spec fn read_integer(length: u32, input: Seq<u8>) -> Result<ContentRead, ParseErrorKind> {
    if length == 0 {
        Err(ParseErrorKind::IntegerLengthZero)
    } else if input.len() < length {
        Err(ParseErrorKind::UnexpectedEOF)
    } else {
        Ok(
            ContentRead {
                content: Some(
                    ContentView::Primitive(
                        PrimitiveView::Integer(be_signed(input.take(length as int))),
                    ),
                ),
                read: length as nat,
                warning: None,
            },
        )
    }
}

/// A bit string: its length must not be zero; its first octet counts the
/// unused bits of the last, and the others hold the bits.
pub open spec fn read_bitstring(length: u32, input: Seq<u8>) -> Result<
    ContentRead,
    ParseErrorKind,
> {
    if length == 0 {
        Err(ParseErrorKind::BitStringLengthZero)
    } else if input.len() < length {
        Err(ParseErrorKind::UnexpectedEOF)
    } else {
        Ok(
            ContentRead {
                content: Some(
                    ContentView::Primitive(
                        PrimitiveView::BitString(input.subrange(1, length as int), input[0]),
                    ),
                ),
                read: length as nat,
                warning: None,
            },
        )
    }
}

/// A string: its octets are read as UTF-8, and what is not UTF-8 is
/// replaced rather than refused.
pub open spec fn read_utf8string(length: u32, input: Seq<u8>) -> Result<
    ContentRead,
    ParseErrorKind,
> {
    if input.len() < length {
        Err(ParseErrorKind::UnexpectedEOF)
    } else {
        Ok(
            ContentRead {
                content: Some(
                    ContentView::Primitive(
                        PrimitiveView::UTF8String(text_of(input.take(length as int))),
                    ),
                ),
                read: length as nat,
                warning: None,
            },
        )
    }
}

/// A null: nothing is read; a length other than zero is worth a warning.
pub open spec fn read_null(length: u32, input: Seq<u8>) -> Result<ContentRead, ParseErrorKind> {
    Ok(
        ContentRead {
            content: Some(ContentView::Primitive(PrimitiveView::Null)),
            read: 0,
            warning: if length != 0 {
                Some(ParseErrorKind::NullNonZeroLength)
            } else {
                None
            },
        },
    )
}

/// Octets kept as they come. With a length of zero no content is set.
pub open spec fn read_raw(length: u32, input: Seq<u8>) -> Result<ContentRead, ParseErrorKind> {
    if length == 0 {
        Ok(ContentRead { content: None, read: 0, warning: None })
    } else if input.len() < length {
        Err(ParseErrorKind::UnexpectedEOF)
    } else {
        Ok(
            ContentRead {
                content: Some(ContentView::Raw(input.take(length as int))),
                read: length as nat,
                warning: None,
            },
        )
    }
}

/// The content of a primitive triple with identifier `id` and the length
/// `length`, read off the front of `input`. The universal tags 1 to 5 are
/// read as boolean, integer, bit string, string and null; every other tag
/// keeps its octets as they come.
pub open spec fn read_primitive(id: Identifier, length: u32, input: Seq<u8>) -> Result<
    ContentRead,
    ParseErrorKind,
> {
    if id.class == IdentifierClass::Universal {
        if id.tag_number == 1 {
            read_boolean(length, input)
        } else if id.tag_number == 2 {
            read_integer(length, input)
        } else if id.tag_number == 3 {
            read_bitstring(length, input)
        } else if id.tag_number == 4 {
            read_utf8string(length, input)
        } else if id.tag_number == 5 {
            read_null(length, input)
        } else {
            read_raw(length, input)
        }
    } else {
        read_raw(length, input)
    }
}

/// The class that the two high bits of the first identifier octet select.
pub open spec fn class_of(first: u8) -> IdentifierClass {
    if first / 64 == 0 {
        IdentifierClass::Universal
    } else if first / 64 == 1 {
        IdentifierClass::Application
    } else if first / 64 == 2 {
        IdentifierClass::ContextSpecific
    } else {
        IdentifierClass::Private
    }
}

/// The form that bit 6 of the first identifier octet selects.
pub open spec fn form_of(first: u8) -> DataType {
    if (first / 32) % 2 == 0 {
        DataType::Primitive
    } else {
        DataType::Constructed
    }
}

/// A tag number in long form, read off the front of `input`: base-128
/// digits, most significant first, the high bit of each octet telling
/// whether another follows. `count` digits were read before and gave
/// `acc`. The result is the tag number and the number of octets read from
/// `input`. Reading past the end of the input fails, and so does a fifth
/// digit.
pub open spec fn read_tag_number(input: Seq<u8>, count: nat, acc: nat) -> Result<
    (nat, nat),
    ParseErrorKind,
>
    decreases input.len(),
{
    if input.len() == 0 {
        Err(ParseErrorKind::UnexpectedEOF)
    } else if count >= 4 {
        Err(ParseErrorKind::TagOverflow)
    } else {
        let value = acc * 128 + (input[0] % 128) as nat;
        if input[0] < 128 {
            Ok((value, 1))
        } else {
            match read_tag_number(input.drop_first(), count + 1, value) {
                Ok((tag, read)) => Ok((tag, read + 1)),
                Err(kind) => Err(kind),
            }
        }
    }
}

/// The identifier at the front of `input`, and the number of octets that
/// spell it. The low five bits of the first octet are the tag number,
/// unless they are all set: then the tag number follows in long form.
pub open spec fn read_identifier(input: Seq<u8>) -> Result<(Identifier, nat), ParseErrorKind> {
    if input.len() == 0 {
        Err(ParseErrorKind::UnexpectedEOF)
    } else {
        let first = input[0];
        if first % 32 < 31 {
            Ok(
                (
                    Identifier {
                        class: class_of(first),
                        data_type: form_of(first),
                        tag_number: (first % 32) as u32,
                    },
                    1,
                ),
            )
        } else {
            match read_tag_number(input.drop_first(), 0, 0) {
                Ok((tag, read)) => Ok(
                    (
                        Identifier {
                            class: class_of(first),
                            data_type: form_of(first),
                            tag_number: tag as u32,
                        },
                        read + 1,
                    ),
                ),
                Err(kind) => Err(kind),
            }
        }
    }
}

/// The length at the front of `input`, and the number of octets that spell
/// it. An octet below 128 is the length itself. Otherwise its low seven
/// bits say how many octets follow, at most four, and those spell the
/// length, most significant first.
pub open spec fn read_length(input: Seq<u8>) -> Result<(Length, nat), ParseErrorKind> {
    if input.len() == 0 {
        Err(ParseErrorKind::UnexpectedEOF)
    } else if input[0] < 128 {
        Ok((Length { length: input[0] as u32 }, 1))
    } else {
        let following = (input[0] - 128) as nat;
        if following > 4 {
            Err(ParseErrorKind::LengthOverflow)
        } else if input.len() < 1 + following {
            Err(ParseErrorKind::UnexpectedEOF)
        } else {
            Ok(
                (
                    Length { length: be_unsigned(input.subrange(1, 1 + following as int)) as u32 },
                    1 + following,
                ),
            )
        }
    }
}

/// The upper bound on what `count` base-128 digits spell.
pub open spec fn pow128(count: nat) -> nat
    decreases count,
{
    if count == 0 {
        1
    } else {
        128 * pow128((count - 1) as nat)
    }
}

/// The first powers of 128, written out.
pub proof fn lemma_pow128_values()
    ensures
        pow128(0) == 1,
        pow128(1) == 0x80,
        pow128(2) == 0x4000,
        pow128(3) == 0x20_0000,
        pow128(4) == 0x1000_0000,
{
    reveal_with_fuel(pow128, 5);
}

/// A tag number read in long form stays below 2 to the 28, and what was
/// read lies within the input.
pub proof fn lemma_read_tag_number_bounds(input: Seq<u8>, count: nat, acc: nat)
    requires
        count <= 4,
        acc < pow128(count),
    ensures
        match read_tag_number(input, count, acc) {
            Ok((tag, read)) => tag < 0x1000_0000 && 1 <= read <= input.len(),
            Err(_) => true,
        },
    decreases input.len(),
{
    lemma_pow128_values();
    if input.len() > 0 && count < 4 {
        let value = acc * 128 + (input[0] % 128) as nat;
        assert(pow128(count + 1) == 128 * pow128(count));
        assert(value < pow128(count + 1));
        if count + 1 < 4 {
            assert(pow128(count + 1) <= pow128(4));
        }
        if input[0] >= 128 {
            lemma_read_tag_number_bounds(input.drop_first(), count + 1, value);
        }
    }
}

/// An identifier that was read took at least one octet, and no more than
/// the input holds.
pub proof fn lemma_read_identifier_bounds(input: Seq<u8>)
    ensures
        match read_identifier(input) {
            Ok((id, read)) => 1 <= read <= input.len() && id.tag_number < 0x1000_0000,
            Err(_) => true,
        },
{
    if input.len() > 0 && input[0] % 32 == 31 {
        assert(pow128(0) == 1);
        lemma_read_tag_number_bounds(input.drop_first(), 0, 0);
    }
}

fn eof(message: &str) -> (r: TLVParseError)
    ensures
        r.kind == Some(ParseErrorKind::UnexpectedEOF),
{
    TLVParseError::of_kind(ParseErrorKind::UnexpectedEOF, message)
}

/// Reads the identifier at the front of the input.
pub fn take_identifier(input: &mut ByteInput) -> (r: Result<Identifier, TLVParseError>)
    ensures
        match read_identifier(old(input)@) {
            Ok((id, read)) => r == Ok::<Identifier, TLVParseError>(id) && final(input)@ == old(
                input,
            )@.skip(read as int),
            Err(kind) => r is Err && r->Err_0.kind == Some(kind),
        },
{
    let ghost start = input@;
    let first: u8 = match input.next() {
        Some((_pos, octet)) => octet,
        None => {
            return Err(eof("Error parsing Identifier. Unexpected EOF"));
        },
    };
    assert(first & 0b1100_0000 == (first / 64) * 64) by (bit_vector);
    assert((first & 0b0010_0000 == 0) <==> ((first / 32) % 2 == 0)) by (bit_vector);
    assert(first & 0b0001_1111 == first % 32) by (bit_vector);
    // The class is in bits 8 and 7.
    let class = match first & 0b1100_0000 {
        0b0000_0000 => IdentifierClass::Universal,
        0b0100_0000 => IdentifierClass::Application,
        0b1000_0000 => IdentifierClass::ContextSpecific,
        _ => IdentifierClass::Private,
    };
    // The form is in bit 6.
    let data_type = match first & 0b0010_0000 {
        0b0000_0000 => DataType::Primitive,
        _ => DataType::Constructed,
    };
    // The tag number is in bits 5 to 1, and in the octets that follow where
    // these are all set.
    let low: u8 = first & 0b0001_1111;
    assert(start.drop_first() =~= start.skip(1));
    if low != 0b0001_1111 {
        return Ok(Identifier { class, data_type, tag_number: low as u32 });
    }
    let ghost digits = start.drop_first();
    let mut tag_number: u32 = 0;
    let mut count: usize = 0;
    assert(pow128(0) == 1);
    loop
        invariant
            start == old(input)@,
            start.len() >= 1,
            start[0] == first,
            first % 32 == 31,
            digits == start.drop_first(),
            class == class_of(first),
            data_type == form_of(first),
            count <= 4,
            tag_number < pow128(count as nat),
            count <= digits.len(),
            input@ == digits.skip(count as int),
            read_tag_number(digits, 0, 0) == match read_tag_number(
                input@,
                count as nat,
                tag_number as nat,
            ) {
                Ok((tag, read)) => Ok::<(nat, nat), ParseErrorKind>((tag, read + count as nat)),
                Err(kind) => Err(kind),
            },
        decreases input@.len(),
    {
        let ghost unread = input@;
        let octet: u8 = match input.next() {
            Some((_pos, octet)) => octet,
            None => {
                return Err(eof("Error parsing Identifier. Unexpected EOF"));
            },
        };
        if count > 3 {
            return Err(
                TLVParseError::of_kind(
                    ParseErrorKind::TagOverflow,
                    "Identifier bytes longer than 4 bytes are not supported yet",
                ),
            );
        }
        assert(octet & 0b0111_1111 == octet % 128) by (bit_vector);
        assert((octet & 0b1000_0000 == 0) <==> octet < 128) by (bit_vector);
        proof {
            assert(pow128(count as nat + 1) == 128 * pow128(count as nat));
            lemma_pow128_values();
            assert(pow128(count as nat + 1) <= pow128(4));
            assert(unread.drop_first() =~= digits.skip(count as int + 1));
        }
        tag_number = tag_number * 128 + (octet & 0b0111_1111) as u32;
        count = count + 1;
        // The last digit has bit 8 clear.
        if octet & 0b1000_0000 == 0 {
            assert(digits.skip(count as int) =~= start.skip(count as int + 1));
            return Ok(Identifier { class, data_type, tag_number });
        }
    }
}

/// Reads the length at the front of the input.
pub fn take_length(input: &mut ByteInput) -> (r: Result<Length, TLVParseError>)
    ensures
        match read_length(old(input)@) {
            Ok((length, read)) => r == Ok::<Length, TLVParseError>(length) && final(input)@
                == old(input)@.skip(read as int),
            Err(kind) => r is Err && r->Err_0.kind == Some(kind),
        },
{
    let ghost start = input@;
    let first: u8 = match input.next() {
        Some((_pos, octet)) => octet,
        None => {
            return Err(eof("Error parsing Length. Unexpected EOF"));
        },
    };
    assert(first & 0b0111_1111 == first % 128) by (bit_vector);
    assert((first & 0b1000_0000 == 0) <==> first < 128) by (bit_vector);
    assert(start.drop_first() =~= start.skip(1));
    if first & 0b1000_0000 == 0 {
        // The length is the octet itself.
        return Ok(Length { length: (first & 0b0111_1111) as u32 });
    }
    // The length is in the octets that follow.
    let following: u8 = first & 0b0111_1111;
    if following > 4 {
        return Err(
            TLVParseError::of_kind(
                ParseErrorKind::LengthOverflow,
                "Length bytes on more than 4 bytes are not supported yet",
            ),
        );
    }
    let mut length: u32 = 0;
    let mut i: u8 = 0;
    proof {
        assert(start.subrange(1, 1) =~= Seq::<u8>::empty());
        assert(pow256(0) == 1);
    }
    while i < following
        invariant
            start == old(input)@,
            i <= following <= 4,
            1 + i <= start.len(),
            input@ == start.skip(1 + i),
            length == be_unsigned(start.subrange(1, 1 + i)),
            length < pow256(i as nat),
            start.len() >= 1,
            start[0] == first,
            following == first - 128,
        decreases following - i,
    {
        let octet: u8 = match input.next() {
            Some((_pos, octet)) => octet,
            None => {
                return Err(eof("Error parsing Length. Unexpected EOF"));
            },
        };
        proof {
            let longer = start.subrange(1, 2 + i);
            assert(longer.drop_last() =~= start.subrange(1, 1 + i));
            assert(longer.last() == octet);
            assert(start.skip(1 + i).drop_first() =~= start.skip(2 + i));
            assert(pow256(i as nat + 1) == 256 * pow256(i as nat));
            lemma_pow256_values();
            assert(pow256(i as nat) <= pow256(3));
        }
        length = length * 256 + octet as u32;
        i = i + 1;
    }
    Ok(Length { length })
}

/// Reads the next `length` octets of the input.
pub fn take_bytes(input: &mut ByteInput, length: u32) -> (r: Result<Vec<u8>, TLVParseError>)
    ensures
        old(input)@.len() >= length ==> r is Ok && r->Ok_0@ == old(input)@.take(length as int)
            && final(input)@ == old(input)@.skip(length as int),
        old(input)@.len() < length ==> r is Err && r->Err_0.kind == Some(
            ParseErrorKind::UnexpectedEOF,
        ),
{
    let ghost start = input@;
    let mut content: Vec<u8> = Vec::new();
    let mut count: u32 = 0;
    assert(start.skip(0) =~= start);
    while count < length
        invariant
            start == old(input)@,
            count <= length,
            count <= start.len(),
            input@ == start.skip(count as int),
            content@ == start.take(count as int),
        decreases length - count,
    {
        let octet: u8 = match input.next() {
            Some((_pos, octet)) => octet,
            None => {
                return Err(eof("Error parsing Content. Unexpected EOF"));
            },
        };
        content.push(octet);
        count += 1;
        proof {
            assert(start.skip(count as int - 1).drop_first() =~= start.skip(count as int));
            assert(content@ =~= start.take(count as int));
        }
    }
    Ok(content)
}

} // verus!
