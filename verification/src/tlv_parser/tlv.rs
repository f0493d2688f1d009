//! The data model of one tag-length-value triple and of the forest that
//! nested triples form.

use crate::octets::bit_length;
use crate::tlv_parser::integer::BigInteger;
use vstd::math::abs;
use vstd::prelude::*;
use vstd::utf8::encode_utf8;

verus! {

/// The namespace of a tag: the two high bits of the first identifier octet.
#[derive(Debug, Clone, Copy, PartialEq, Eq, Structural)]
pub enum IdentifierClass {
    Universal,
    Application,
    ContextSpecific,
    Private,
}

/// The form of an encoding: leaf bytes, or nested triples.
#[derive(Debug, Clone, Copy, PartialEq, Eq, Structural)]
pub enum DataType {
    Primitive,
    Constructed,
}

/// The tag of a triple.
#[derive(Debug, Clone, Copy, PartialEq, Eq, Structural)]
pub struct Identifier {
    pub class: IdentifierClass,
    pub data_type: DataType,
    pub tag_number: u32,
}

/// The number of base-128 digits that `n` needs, at least one.
pub open spec fn base128_digits(n: nat) -> nat {
    if n < 0x80 {
        1
    } else if n < 0x4000 {
        2
    } else if n < 0x20_0000 {
        3
    } else if n < 0x1000_0000 {
        4
    } else {
        5
    }
}

/// The number of base-256 digits that `n` needs, at least one.
pub open spec fn base256_digits(n: nat) -> nat {
    if n < 0x100 {
        1
    } else if n < 0x1_0000 {
        2
    } else if n < 0x100_0000 {
        3
    } else {
        4
    }
}

/// The octets that the shortest encoding of an identifier takes: one for a
/// tag number below 31, else one and the tag number's base-128 digits.
pub open spec fn identifier_octets(id: Identifier) -> nat {
    if id.tag_number < 31 {
        1
    } else {
        1 + base128_digits(id.tag_number as nat)
    }
}

/// The octets that the shortest encoding of a length takes: one below 128,
/// else one and the length's base-256 digits.
pub open spec fn length_octets(len: Length) -> nat {
    if len.length < 128 {
        1
    } else {
        1 + base256_digits(len.length as nat)
    }
}

impl Identifier {
    /// The number of octets of this identifier's shortest encoding.
    pub fn bytes_length(&self) -> (r: u32)
        ensures
            r == identifier_octets(*self),
            1 <= r <= 6,
    {
        if self.tag_number < 31 {
            1
        } else if self.tag_number < 0x80 {
            2
        } else if self.tag_number < 0x4000 {
            3
        } else if self.tag_number < 0x20_0000 {
            4
        } else if self.tag_number < 0x1000_0000 {
            5
        } else {
            6
        }
    }
}

/// The length field of a triple: the number of content octets announced.
#[derive(Debug, Clone, Copy, PartialEq, Eq, Structural)]
pub struct Length {
    pub length: u32,
}

impl Length {
    pub fn new(val: u32) -> (r: Length)
        ensures
            r.length == val,
    {
        Length { length: val }
    }

    /// The announced length as a `usize`; every `u32` fits.
    pub fn get_length_as_usize(&self) -> (r: Option<usize>)
        ensures
            r == Some(self.length as usize),
            r.unwrap() as int == self.length as int,
    {
        Some(self.length as usize)
    }

    /// The number of octets of this length's shortest encoding.
    pub fn bytes_length(&self) -> (r: u32)
        ensures
            r == length_octets(*self),
            1 <= r <= 5,
    {
        if self.length < 128 {
            1
        } else if self.length < 0x100 {
            2
        } else if self.length < 0x1_0000 {
            3
        } else if self.length < 0x100_0000 {
            4
        } else {
            5
        }
    }
}

/// A decoded value of one of the universal primitive types.
#[derive(Debug, PartialEq, Eq)]
pub enum PrimitiveContent {
    Boolean(bool),
    Integer(BigInteger),
    OctetString(Vec<u8>),
    UTF8String(String),
    /// The bits, and the number of bits of the last octet that are unused.
    BitString((Vec<u8>, u8)),
    Null,
}

/// What a `PrimitiveContent` stands for.
pub enum PrimitiveView {
    Boolean(bool),
    Integer(int),
    OctetString(Seq<u8>),
    UTF8String(Seq<char>),
    BitString(Seq<u8>, u8),
    Null,
}

/// The content of a triple.
#[derive(Debug, PartialEq, Eq)]
pub enum Content {
    Primitive(PrimitiveContent),
    /// The nested triples, in the order of the stream.
    Constructed(Vec<EncodingData>),
    /// Octets kept as they came, for tags that the decoder does not read.
    Raw(Vec<u8>),
}

/// What a `Content` stands for.
pub enum ContentView {
    Primitive(PrimitiveView),
    Constructed(Seq<NodeView>),
    Raw(Seq<u8>),
}

/// One triple: an identifier, and once known a length and a content.
#[derive(Debug, PartialEq, Eq)]
pub struct EncodingData {
    pub identifier: Identifier,
    pub length: Option<Length>,
    pub content: Option<Content>,
}

/// What an `EncodingData` stands for.
pub struct NodeView {
    pub identifier: Identifier,
    pub length: Option<Length>,
    pub content: Option<ContentView>,
}

impl View for PrimitiveContent {
    type V = PrimitiveView;

    open spec fn view(&self) -> PrimitiveView {
        match self {
            PrimitiveContent::Boolean(b) => PrimitiveView::Boolean(*b),
            PrimitiveContent::Integer(z) => PrimitiveView::Integer(z@),
            PrimitiveContent::OctetString(bytes) => PrimitiveView::OctetString(bytes@),
            PrimitiveContent::UTF8String(text) => PrimitiveView::UTF8String(text@),
            PrimitiveContent::BitString(bits) => PrimitiveView::BitString(bits.0@, bits.1),
            PrimitiveContent::Null => PrimitiveView::Null,
        }
    }
}

/// What a sequence of triples stands for, one by one.
pub open spec fn forest_view(nodes: Seq<EncodingData>) -> Seq<NodeView>
    decreases nodes,
{
    Seq::new(
        nodes.len(),
        |i: int|
            if 0 <= i < nodes.len() {
                nodes[i]@
            } else {
                arbitrary()
            },
    )
}

impl View for Content {
    type V = ContentView;

    open spec fn view(&self) -> ContentView
        decreases self,
    {
        match self {
            Content::Primitive(p) => ContentView::Primitive(p@),
            Content::Constructed(children) => ContentView::Constructed(forest_view(children@)),
            Content::Raw(bytes) => ContentView::Raw(bytes@),
        }
    }
}

impl View for EncodingData {
    type V = NodeView;

    open spec fn view(&self) -> NodeView
        decreases self,
    {
        NodeView {
            identifier: self.identifier,
            length: self.length,
            content: match self.content {
                Some(c) => Some(c@),
                None => None,
            },
        }
    }
}

/// The octets that a primitive value is counted for: one for a boolean, the
/// binary digits of its absolute value in whole octets for an integer, the
/// octets held for the three strings, none for null.
pub open spec fn primitive_octets(p: PrimitiveView) -> nat {
    match p {
        PrimitiveView::Boolean(_) => 1,
        PrimitiveView::Integer(z) => (bit_length(abs(z) as nat) + 7) / 8,
        PrimitiveView::OctetString(bytes) => bytes.len(),
        PrimitiveView::UTF8String(text) => encode_utf8(text).len(),
        PrimitiveView::BitString(bits, _) => bits.len(),
        PrimitiveView::Null => 0,
    }
}

/// The octets that a content is counted for: those of its primitive value,
/// of all its nested triples together, or of its raw octets.
pub open spec fn content_octets(c: ContentView) -> nat
    decreases c,
{
    match c {
        ContentView::Primitive(p) => primitive_octets(p),
        ContentView::Constructed(children) => forest_octets_upto(children, children.len()),
        ContentView::Raw(bytes) => bytes.len(),
    }
}

/// The octets that the first `upto` triples of `nodes` are counted for.
pub open spec fn forest_octets_upto(nodes: Seq<NodeView>, upto: nat) -> nat
    decreases nodes, upto,
{
    if upto == 0 || upto > nodes.len() {
        0
    } else {
        forest_octets_upto(nodes, (upto - 1) as nat) + node_octets(nodes[upto - 1])
    }
}

/// The octets that all of `nodes` are counted for.
pub open spec fn forest_octets(nodes: Seq<NodeView>) -> nat {
    forest_octets_upto(nodes, nodes.len())
}

/// The octets that the content of a triple is counted for; none while it
/// has no content.
pub open spec fn node_content_octets(n: NodeView) -> nat
    decreases n, 0nat,
{
    match n.content {
        Some(c) => content_octets(c),
        None => 0,
    }
}

/// The serialized size of a triple: the octets of its identifier, of its
/// length where it has one, and of its content where it has one.
pub open spec fn node_octets(n: NodeView) -> nat
    decreases n, 1nat,
{
    identifier_octets(n.identifier) + (match n.length {
        Some(l) => length_octets(l),
        None => 0,
    }) + node_content_octets(n)
}

/// Whether a triple has all the content that its length announces: it has
/// a length, and that length is zero or no more than the octets that its
/// content is counted for. A triple without a length is still open.
pub open spec fn length_limit_reached(n: NodeView) -> bool {
    match n.length {
        Some(l) => l.length == 0 || node_content_octets(n) >= l.length,
        None => false,
    }
}

/// The content of a triple agrees with its form, and so does that of all
/// the triples nested in it: a primitive triple has no list of triples for
/// its content, and a constructed triple has no other content.
pub open spec fn node_well_formed(n: NodeView) -> bool
    decreases n, 1nat,
{
    match n.content {
        None => true,
        Some(ContentView::Constructed(children)) => n.identifier.data_type
            == DataType::Constructed && forest_well_formed_upto(children, children.len()),
        Some(_) => n.identifier.data_type == DataType::Primitive,
    }
}

/// The first `upto` triples of `nodes` are well formed.
pub open spec fn forest_well_formed_upto(nodes: Seq<NodeView>, upto: nat) -> bool
    decreases nodes, upto,
{
    if upto == 0 || upto > nodes.len() {
        true
    } else {
        forest_well_formed_upto(nodes, (upto - 1) as nat) && node_well_formed(nodes[upto - 1])
    }
}

/// Every triple of a forest is well formed, at every level.
pub open spec fn forest_well_formed(nodes: Seq<NodeView>) -> bool {
    forest_well_formed_upto(nodes, nodes.len())
}

/// The identifiers of a triple and of all the triples nested in it, in
/// the order of the stream: a triple before its children, a child before
/// the children that follow it.
pub open spec fn node_identifiers(n: NodeView) -> Seq<Identifier>
    decreases n, 1nat,
{
    seq![n.identifier] + (match n.content {
        Some(ContentView::Constructed(children)) => forest_identifiers_upto(
            children,
            children.len(),
        ),
        _ => Seq::empty(),
    })
}

/// The identifiers of the first `upto` triples of `nodes` and of all the
/// triples nested in them, in the order of the stream.
pub open spec fn forest_identifiers_upto(nodes: Seq<NodeView>, upto: nat) -> Seq<Identifier>
    decreases nodes, upto,
{
    if upto == 0 || upto > nodes.len() {
        Seq::empty()
    } else {
        forest_identifiers_upto(nodes, (upto - 1) as nat) + node_identifiers(nodes[upto - 1])
    }
}

/// The identifiers of all the triples of a forest, in the order of the
/// stream.
pub open spec fn forest_identifiers(nodes: Seq<NodeView>) -> Seq<Identifier> {
    forest_identifiers_upto(nodes, nodes.len())
}

/// A copy of each of `children`, in their order.
fn clone_forest(children: &Vec<EncodingData>) -> (r: Vec<EncodingData>)
    ensures
        forest_view(r@) == forest_view(children@),
    decreases children,
{
    let mut copies: Vec<EncodingData> = Vec::new();
    let mut i: usize = 0;
    while i < children.len()
        invariant
            i <= children.len(),
            copies@.len() == i,
            forall|j: int| 0 <= j < i ==> copies@[j]@ == children@[j]@,
        decreases children.len() - i,
    {
        let copy = children[i].clone();
        copies.push(copy);
        i += 1;
    }
    assert(forest_view(copies@) =~= forest_view(children@));
    copies
}

impl Clone for PrimitiveContent {
    fn clone(&self) -> (r: Self)
        ensures
            r@ == self@,
    {
        match self {
            PrimitiveContent::Boolean(b) => PrimitiveContent::Boolean(*b),
            PrimitiveContent::Integer(z) => PrimitiveContent::Integer(z.clone()),
            PrimitiveContent::OctetString(bytes) => PrimitiveContent::OctetString(bytes.clone()),
            PrimitiveContent::UTF8String(text) => PrimitiveContent::UTF8String(text.clone()),
            PrimitiveContent::BitString(bits) => PrimitiveContent::BitString(
                (bits.0.clone(), bits.1),
            ),
            PrimitiveContent::Null => PrimitiveContent::Null,
        }
    }
}

impl Clone for Content {
    fn clone(&self) -> (r: Self)
        ensures
            r@ == self@,
        decreases self,
    {
        match self {
            Content::Primitive(p) => Content::Primitive(p.clone()),
            Content::Constructed(children) => Content::Constructed(clone_forest(children)),
            Content::Raw(bytes) => Content::Raw(bytes.clone()),
        }
    }
}

impl Clone for EncodingData {
    fn clone(&self) -> (r: Self)
        ensures
            r@ == self@,
        decreases self,
    {
        EncodingData {
            identifier: self.identifier,
            length: self.length,
            content: match &self.content {
                Some(c) => Some(c.clone()),
                None => None,
            },
        }
    }
}

/// The larger number is cut down to `cap`.
pub open spec fn capped(n: nat, cap: u64) -> nat {
    if n <= cap {
        n
    } else {
        cap as nat
    }
}

impl PrimitiveContent {
    /// The octets that this value is counted for.
    fn octets(&self) -> (r: u64)
        ensures
            r == primitive_octets(self@),
    {
        match self {
            PrimitiveContent::Boolean(_) => 1,
            PrimitiveContent::Integer(z) => {
                let bits: u64 = z.bits();
                if bits % 8 == 0 {
                    bits / 8
                } else {
                    bits / 8 + 1
                }
            },
            PrimitiveContent::OctetString(bytes) => bytes.len() as u64,
            PrimitiveContent::UTF8String(text) => text.as_str().as_bytes().len() as u64,
            PrimitiveContent::BitString(bits) => bits.0.len() as u64,
            PrimitiveContent::Null => 0,
        }
    }

    /// The octets that this value is counted for.
    pub fn bytes_length(&self) -> (r: u32)
        requires
            primitive_octets(self@) <= u32::MAX,
        ensures
            r == primitive_octets(self@),
    {
        self.octets() as u32
    }
}

/// The octets that `children` are counted for together, cut down to `cap`.
fn forest_octets_capped(children: &Vec<EncodingData>, cap: u64) -> (r: u64)
    requires
        cap <= u32::MAX,
    ensures
        r == capped(forest_octets(forest_view(children@)), cap),
    decreases children,
{
    let ghost nodes = forest_view(children@);
    let mut total: u64 = 0;
    let mut i: usize = 0;
    while i < children.len()
        invariant
            i <= children.len(),
            cap <= u32::MAX,
            nodes == forest_view(children@),
            nodes.len() == children.len(),
            total == capped(forest_octets_upto(nodes, i as nat), cap),
        decreases children.len() - i,
    {
        let one: u64 = children[i].octets_capped(cap);
        assert(nodes[i as int] == children[i as int]@);
        total = if total + one > cap {
            cap
        } else {
            total + one
        };
        i += 1;
    }
    total
}

impl Content {
    /// The octets that this content is counted for, cut down to `cap`.
    fn octets_capped(&self, cap: u64) -> (r: u64)
        requires
            cap <= u32::MAX,
        ensures
            r == capped(content_octets(self@), cap),
        decreases self,
    {
        match self {
            Content::Primitive(p) => {
                let n: u64 = p.octets();
                if n > cap {
                    cap
                } else {
                    n
                }
            },
            Content::Constructed(children) => forest_octets_capped(children, cap),
            Content::Raw(bytes) => {
                let n: u64 = bytes.len() as u64;
                if n > cap {
                    cap
                } else {
                    n
                }
            },
        }
    }

    /// The octets that this content is counted for.
    pub fn bytes_length(&self) -> (r: u32)
        requires
            content_octets(self@) <= u32::MAX,
        ensures
            r == content_octets(self@),
    {
        self.octets_capped(0xFFFF_FFFF) as u32
    }
}

impl EncodingData {
    /// A triple with the given identifier, and neither length nor content.
    pub fn new(identifier: Identifier) -> (r: EncodingData)
        ensures
            r@ == (NodeView { identifier, length: None, content: None }),
    {
        EncodingData { identifier, length: None, content: None }
    }

    /// The octets that the content is counted for, cut down to `cap`.
    fn content_octets_capped(&self, cap: u64) -> (r: u64)
        requires
            cap <= u32::MAX,
        ensures
            r == capped(node_content_octets(self@), cap),
        decreases self, 0nat,
    {
        match &self.content {
            Some(c) => c.octets_capped(cap),
            None => 0,
        }
    }

    /// The serialized size of the triple, cut down to `cap`.
    fn octets_capped(&self, cap: u64) -> (r: u64)
        requires
            cap <= u32::MAX,
        ensures
            r == capped(node_octets(self@), cap),
        decreases self, 1nat,
    {
        let head: u64 = self.identifier.bytes_length() as u64 + match &self.length {
            Some(l) => l.bytes_length() as u64,
            None => 0,
        };
        let body: u64 = self.content_octets_capped(cap);
        if head + body > cap {
            cap
        } else {
            head + body
        }
    }

    /// Whether the triple has all the content that its length announces.
    pub fn is_length_limit_reached(&self) -> (r: bool)
        ensures
            r == length_limit_reached(self@),
    {
        match &self.length {
            Some(l) => l.length == 0 || self.content_octets_capped(l.length as u64)
                >= l.length as u64,
            None => false,
        }
    }

    /// The serialized size of the triple.
    pub fn bytes_length(&self) -> (r: u32)
        requires
            node_octets(self@) <= u32::MAX,
        ensures
            r == node_octets(self@),
    {
        self.octets_capped(0xFFFF_FFFF) as u32
    }
}

} // verus!
