//! The encoder: from a value to its one encoding under the Distinguished
//! Encoding Rules.

use crate::octets::{
    be_signed, is_minimal_signed, lemma_minimal_be, lemma_pow256_monotonic, lemma_pow256_values,
    minimal_be, pow256, signed_octets, signed_octets_of, unsigned_octets,
};
use vstd::prelude::*;
use vstd::utf8::encode_utf8;

verus! {

pub const TAG_BOOLEAN: u8 = 0x01;

pub const TAG_INTEGER: u8 = 0x02;

pub const TAG_NULL: u8 = 0x05;

pub const TAG_VISIBLE_STRING: u8 = 0x1A;

/// Universal, constructed, tag number 16.
pub const TAG_SEQUENCE: u8 = 0x30;

/// A value to encode.
#[derive(Debug, PartialEq)]
pub enum Data {
    Integer(i64),
    VisibleString(String),
    Sequence(Vec<Data>),
    True,
    False,
    Null,
}

/// What a `Data` stands for.
pub enum DataView {
    Integer(int),
    VisibleString(Seq<char>),
    Sequence(Seq<DataView>),
    True,
    False,
    Null,
}

/// What a sequence of values stands for, one by one.
pub open spec fn data_views(items: Seq<Data>) -> Seq<DataView>
    decreases items,
{
    Seq::new(
        items.len(),
        |i: int|
            if 0 <= i < items.len() {
                items[i]@
            } else {
                arbitrary()
            },
    )
}

impl View for Data {
    type V = DataView;

    open spec fn view(&self) -> DataView
        decreases self,
    {
        match self {
            Data::Integer(z) => DataView::Integer(*z as int),
            Data::VisibleString(s) => DataView::VisibleString(s@),
            Data::Sequence(items) => DataView::Sequence(data_views(items@)),
            Data::True => DataView::True,
            Data::False => DataView::False,
            Data::Null => DataView::Null,
        }
    }
}

/// The length octets for a content of `n` octets: `n` itself below 128;
/// else the number of base-256 digits of `n` with the high bit set, and
/// then those digits, most significant first.
pub open spec fn length_encoding(n: nat) -> Seq<u8> {
    if n < 128 {
        seq![n as u8]
    } else {
        seq![(128 + minimal_be(n).len()) as u8] + minimal_be(n)
    }
}

/// A tag, the length of a content, and the content.
pub open spec fn framed(tag: u8, content: Seq<u8>) -> Seq<u8> {
    seq![tag] + length_encoding(content.len()) + content
}

/// The encoding of a value.
pub open spec fn encoding(d: DataView) -> Seq<u8>
    decreases d,
{
    match d {
        DataView::True => seq![TAG_BOOLEAN, 1u8, 0xFFu8],
        DataView::False => seq![TAG_BOOLEAN, 1u8, 0u8],
        DataView::Integer(z) => framed(TAG_INTEGER, signed_octets_of(z)),
        DataView::VisibleString(s) => framed(TAG_VISIBLE_STRING, encode_utf8(s)),
        DataView::Null => seq![TAG_NULL, 0u8],
        DataView::Sequence(items) => framed(TAG_SEQUENCE, encodings_upto(items, items.len())),
    }
}

/// The encodings of the first `upto` of `items`, one after the other.
pub open spec fn encodings_upto(items: Seq<DataView>, upto: nat) -> Seq<u8>
    decreases items, upto,
{
    if upto == 0 || upto > items.len() {
        Seq::empty()
    } else {
        encodings_upto(items, (upto - 1) as nat) + encoding(items[upto - 1])
    }
}

/// The length octets are as few as can be: one exactly for a length below
/// 128; for any other, one and as many as the length has base-256 digits.
pub proof fn lemma_length_encoding_shortest(n: nat)
    ensures
        length_encoding(n).len() == 1 <==> n < 128,
        n >= 128 ==> {
            let digits = (length_encoding(n).len() - 1) as nat;
            &&& digits >= 1
            &&& pow256((digits - 1) as nat) <= n < pow256(digits)
        },
{
    lemma_minimal_be(n);
}

/// A length that fits in 64 bits has at most eight base-256 digits.
pub proof fn lemma_minimal_be_u64(n: u64)
    ensures
        minimal_be(n as nat).len() <= 8,
{
    lemma_minimal_be(n as nat);
    let k = minimal_be(n as nat).len();
    lemma_pow256_values();
    if k > 8 {
        lemma_pow256_monotonic(8, (k - 1) as nat);
    }
}

/// The length octets for a content of `data` octets.
pub fn encode_length(data: u64) -> (r: Vec<u8>)
    ensures
        r@ == length_encoding(data as nat),
        r@.len() == 1 <==> data < 128,
        data >= 128 ==> 2 <= r@.len() <= 9 && pow256((r@.len() - 2) as nat) <= data < pow256(
            (r@.len() - 1) as nat,
        ),
{
    proof {
        lemma_length_encoding_shortest(data as nat);
        lemma_minimal_be_u64(data);
    }
    if data < 128 {
        vec![data as u8]
    } else {
        let digits = unsigned_octets(data);
        let mut out: Vec<u8> = vec![128 + digits.len() as u8];
        out.extend_from_slice(digits.as_slice());
        assert(out@ =~= length_encoding(data as nat));
        out
    }
}

/// A tag, the length of `content`, and `content`.
fn frame(tag: u8, content: &Vec<u8>) -> (r: Vec<u8>)
    ensures
        r@ == framed(tag, content@),
{
    let mut out: Vec<u8> = vec![tag];
    let length = encode_length(content.len() as u64);
    out.extend_from_slice(length.as_slice());
    out.extend_from_slice(content.as_slice());
    out
}

/// The encoding of an integer: its two's-complement spelling with no octet
/// to spare, behind the tag and the length.
pub fn encode_int(data: i64) -> (r: Vec<u8>)
    ensures
        r@ == encoding(DataView::Integer(data as int)),
        r@ == framed(TAG_INTEGER, signed_octets_of(data as int)),
        be_signed(signed_octets_of(data as int)) == data,
        is_minimal_signed(signed_octets_of(data as int)),
{
    let content = signed_octets(data);
    frame(TAG_INTEGER, &content)
}

/// The encoding of a string of the restricted kind. The characters are
/// written as they are: keeping to the repertoire is left to the caller.
pub fn encode_restricted_str(data: &str) -> (r: Vec<u8>)
    ensures
        r@ == encoding(DataView::VisibleString(data@)),
{
    let mut content: Vec<u8> = Vec::new();
    content.extend_from_slice(data.as_bytes());
    frame(TAG_VISIBLE_STRING, &content)
}

/// The encodings of `items`, one after the other.
fn encode_each(items: &Vec<Data>) -> (r: Vec<u8>)
    ensures
        r@ == encodings_upto(data_views(items@), items@.len()),
    decreases items,
{
    let ghost views = data_views(items@);
    let mut contents: Vec<u8> = Vec::new();
    let mut i: usize = 0;
    while i < items.len()
        invariant
            i <= items.len(),
            views == data_views(items@),
            views.len() == items.len(),
            contents@ == encodings_upto(views, i as nat),
        decreases items.len() - i,
    {
        let one = encode(&items[i]);
        assert(views[i as int] == items[i as int]@);
        contents.extend_from_slice(one.as_slice());
        i += 1;
    }
    contents
}

/// The encoding of a value. A sequence is the encodings of its items, one
/// after the other, behind the tag and their length together.
pub fn encode(data: &Data) -> (r: Vec<u8>)
    ensures
        r@ == encoding(data@),
    decreases data,
{
    match data {
        Data::True => vec![TAG_BOOLEAN, 1, 0xFF],
        Data::False => vec![TAG_BOOLEAN, 1, 0],
        Data::Integer(z) => encode_int(*z),
        Data::VisibleString(s) => encode_restricted_str(s.as_str()),
        Data::Null => vec![TAG_NULL, 0],
        Data::Sequence(ds) => {
            let contents = encode_each(ds);
            frame(TAG_SEQUENCE, &contents)
        },
    }
}

} // verus!
