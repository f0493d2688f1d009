//! The streaming decoder and the types it produces.

pub mod coherence;
pub mod containment;
pub mod error_collector;
pub mod input;
pub mod integer;
pub mod output_builder;
pub mod reading;
pub mod spans;
pub mod tlv;
pub mod warnings;

use self::error_collector::{ErrorCollector, IErrorCollector};
use self::input::ByteInput;
use self::integer::BigInteger;
use self::output_builder::{
    after_content, after_identifier, after_length, forest_of, BuilderView,
    EncodingDataOutputBuilder,
};
use self::reading::{
    decode_utf8_lossy, lemma_read_identifier_bounds, read_bitstring, read_boolean,
    read_identifier, read_integer, read_length, read_null, read_primitive, read_raw,
    read_utf8string, take_bytes, take_identifier, take_length, ContentRead,
};
use self::tlv::{
    forest_view, Content, DataType, EncodingData, IdentifierClass, Length, NodeView,
    PrimitiveContent,
};
use vstd::prelude::*;

verus! {

/// The ways in which a parse fails or has to recover.
#[derive(Debug, Clone, Copy, PartialEq, Eq, Structural)]
pub enum ParseErrorKind {
    /// The input ended inside a triple.
    UnexpectedEOF,
    /// A tag number spread over more than four octets.
    TagOverflow,
    /// A length spread over more than four octets.
    LengthOverflow,
    /// A content was to be read while no triple was open.
    MissingOwner,
    /// A content was to be read for a triple without a length.
    MissingLength,
    /// A boolean whose length is not one.
    BooleanLengthMismatch,
    /// An integer without content.
    IntegerLengthZero,
    /// A bit string without content.
    BitStringLengthZero,
    /// A null with a length other than zero: a warning, the parse goes on.
    NullNonZeroLength,
}

/// A failure of the decoder, or a warning that it recovered from.
#[derive(Debug)]
pub struct TLVParseError {
    /// The kind, where the decoder gave the error; none where a caller made
    /// it from a message alone.
    pub kind: Option<ParseErrorKind>,
    pub msg: String,
}

impl TLVParseError {
    /// An error with a message for the reader, and of no kind.
    pub fn new(msg: &str) -> (r: TLVParseError)
        ensures
            r.kind is None,
            r.msg@ == msg@,
    {
        TLVParseError { kind: None, msg: msg.to_owned() }
    }

    /// An error of the given kind with a message for the reader.
    pub fn of_kind(kind: ParseErrorKind, msg: &str) -> (r: TLVParseError)
        ensures
            r.kind == Some(kind),
            r.msg@ == msg@,
    {
        TLVParseError { kind: Some(kind), msg: msg.to_owned() }
    }

    /// The text under which every such error is shown.
    pub fn describe(&self) -> (r: String)
        ensures
            r@ == "TLV parse error"@,
    {
        "TLV parse error".to_owned()
    }
}

/// The kinds of `errors`, one by one.
pub open spec fn kinds_of(errors: Seq<TLVParseError>) -> Seq<Option<ParseErrorKind>> {
    Seq::new(errors.len(), |i: int| errors[i].kind)
}

/// `std::io::Error`, the error in the signature of `TLVParser::new`. The
/// library makes no value of it and looks into none.
#[verifier::external_type_specification]
#[verifier::external_body]
pub struct ExIoError(std::io::Error);

/// The states of the decoder.
#[derive(Debug, Clone, Copy, PartialEq, Eq, Structural)]
pub enum ParserState {
    /// Between two triples: looks whether any input is left.
    Initial,
    ParseIdentifier,
    ParseLength,
    ParseContent,
    /// The input is used up.
    Finished,
}

/// What a decoder stands for: its state, the input not yet read, the
/// forest under construction and the kinds of the warnings given so far.
pub struct MachineView {
    pub state: ParserState,
    pub input: Seq<u8>,
    pub output: BuilderView,
    pub warnings: Seq<Option<ParseErrorKind>>,
}

/// What a finished parse hands out.
pub struct ParseOutcome {
    pub rest: Seq<u8>,
    pub forest: Seq<NodeView>,
    pub warnings: Seq<Option<ParseErrorKind>>,
}

/// The decoder after a primitive content was read: the input moved on, the
/// content set on the innermost open triple, the warning kept.
pub open spec fn with_read(m: MachineView, c: ContentRead) -> MachineView {
    MachineView {
        state: m.state,
        input: m.input.skip(c.read as int),
        output: match c.content {
            Some(content) => after_content(m.output, content),
            None => m.output,
        },
        warnings: match c.warning {
            Some(kind) => m.warnings.push(Some(kind)),
            None => m.warnings,
        },
    }
}

/// One move of the decoder: the state that follows `m`, or the error that
/// ends the parse.
pub open spec fn step(m: MachineView) -> Result<MachineView, ParseErrorKind> {
    match m.state {
        ParserState::Initial => Ok(
            MachineView {
                state: if m.input.len() == 0 {
                    ParserState::Finished
                } else {
                    ParserState::ParseIdentifier
                },
                ..m
            },
        ),
        ParserState::ParseIdentifier => match read_identifier(m.input) {
            Ok((id, read)) => Ok(
                MachineView {
                    state: ParserState::ParseLength,
                    input: m.input.skip(read as int),
                    output: after_identifier(m.output, id),
                    warnings: m.warnings,
                },
            ),
            Err(kind) => Err(kind),
        },
        ParserState::ParseLength => match read_length(m.input) {
            Ok((length, read)) => Ok(
                MachineView {
                    state: if length.length == 0 {
                        ParserState::Initial
                    } else {
                        ParserState::ParseContent
                    },
                    input: m.input.skip(read as int),
                    output: after_length(m.output, length),
                    warnings: m.warnings,
                },
            ),
            Err(kind) => Err(kind),
        },
        ParserState::ParseContent => if m.output.open.len() == 0 {
            Err(ParseErrorKind::MissingOwner)
        } else {
            let current = m.output.open.last();
            match current.length {
                None => Err(ParseErrorKind::MissingLength),
                Some(length) => if current.identifier.data_type == DataType::Constructed {
                    Ok(MachineView { state: ParserState::ParseIdentifier, ..m })
                } else {
                    match read_primitive(current.identifier, length.length, m.input) {
                        Ok(c) => Ok(MachineView { state: ParserState::Initial, ..with_read(m, c) }),
                        Err(kind) => Err(kind),
                    }
                },
            }
        },
        ParserState::Finished => Ok(m),
    }
}

/// How many moves a state can make at most without reading input.
pub open spec fn rank(state: ParserState) -> nat {
    match state {
        ParserState::ParseContent => 3,
        ParserState::Initial => 2,
        ParserState::ParseIdentifier => 1,
        ParserState::ParseLength => 1,
        ParserState::Finished => 0,
    }
}

/// A move reads input, or leads to a state of lower rank.
pub proof fn lemma_step_progress(m: MachineView)
    requires
        m.state != ParserState::Finished,
    ensures
        match step(m) {
            Ok(next) => next.input.len() < m.input.len() || (next.input.len() == m.input.len()
                && rank(next.state) < rank(m.state)),
            Err(_) => true,
        },
{
    lemma_read_identifier_bounds(m.input);
}

/// The parse from `m` on: the moves of the decoder up to the state
/// `Finished`, and what it then holds, or the error that ended it.
pub open spec fn run(m: MachineView) -> Result<ParseOutcome, ParseErrorKind>
    decreases m.input.len(), rank(m.state),
{
    if m.state == ParserState::Finished {
        Ok(ParseOutcome { rest: m.input, forest: forest_of(m.output), warnings: m.warnings })
    } else {
        match step(m) {
            Ok(next) => {
                proof {
                    lemma_step_progress(m);
                }
                run(next)
            },
            Err(kind) => Err(kind),
        }
    }
}

/// A length can only be read for an open triple.
pub open spec fn ready(m: MachineView) -> bool {
    m.state == ParserState::ParseLength ==> m.output.open.len() > 0
}

/// A move leaves the decoder able to make the next.
pub proof fn lemma_step_ready(m: MachineView)
    ensures
        match step(m) {
            Ok(next) => ready(m) ==> ready(next),
            Err(_) => true,
        },
{
}

/// The decoder at the start of `input`.
pub open spec fn at_start(input: Seq<u8>) -> MachineView {
    MachineView {
        state: ParserState::Initial,
        input,
        output: BuilderView { closed: Seq::empty(), open: Seq::empty() },
        warnings: Seq::empty(),
    }
}

/// The parse of `input`: the forest of its triples and the warnings, or
/// the error that ended it.
pub open spec fn parse_of(input: Seq<u8>) -> Result<ParseOutcome, ParseErrorKind> {
    run(at_start(input))
}

/// A streaming decoder: a state, the input, the forest under construction
/// and the warnings given so far.
pub struct TLVParser {
    _state: ParserState,
    input: ByteInput,
    output: EncodingDataOutputBuilder,
    errors: ErrorCollector,
}

/// What a parse returns: the input left over, the forest and the warnings,
/// or the error that ended it.
pub type ParserResult = Result<(ByteInput, Vec<EncodingData>, Vec<TLVParseError>), TLVParseError>;

impl View for TLVParser {
    type V = MachineView;

    closed spec fn view(&self) -> MachineView {
        MachineView {
            state: self._state,
            input: self.input@,
            output: self.output@,
            warnings: kinds_of(self.errors.errors()),
        }
    }
}

impl TLVParser {
    /// A decoder at the start of `input`.
    pub fn new(input: Vec<u8>) -> (r: Result<TLVParser, std::io::Error>)
        ensures
            r is Ok,
            r->Ok_0@ == at_start(input@),
    {
        let parser = TLVParser {
            _state: ParserState::Initial,
            input: ByteInput::new(input),
            output: EncodingDataOutputBuilder::new(),
            errors: ErrorCollector::new(),
        };
        assert(parser@.warnings =~= Seq::<Option<ParseErrorKind>>::empty());
        assert(parser@.output.closed =~= Seq::<NodeView>::empty());
        assert(parser@.output.open =~= Seq::<NodeView>::empty());
        Ok(parser)
    }

    /// A decoder in the given state, with input, forest and warnings as
    /// given.
    pub fn resume(
        state: ParserState,
        input: ByteInput,
        output: EncodingDataOutputBuilder,
        errors: ErrorCollector,
    ) -> (r: TLVParser)
        ensures
            r@ == (MachineView {
                state,
                input: input@,
                output: output@,
                warnings: kinds_of(errors.errors()),
            }),
    {
        TLVParser { _state: state, input, output, errors }
    }

    /// Whether the decoder has used up its input.
    pub fn is_finished(&self) -> (r: bool)
        ensures
            r == (self@.state == ParserState::Finished),
    {
        match self._state {
            ParserState::Finished => true,
            _ => false,
        }
    }

    /// Hands out what the decoder holds: the input left over, the forest
    /// with every open triple closed, and the warnings.
    pub fn take_results(self) -> (r: ParserResult)
        ensures
            r is Ok,
            r->Ok_0.0@ == self@.input,
            forest_view(r->Ok_0.1@) == forest_of(self@.output),
            kinds_of(r->Ok_0.2@) == self@.warnings,
    {
        Ok((self.input, self.output.take_result(), self.errors.take_errors()))
    }

    fn parse_raw(&mut self, length: &Length) -> (r: Result<(), TLVParseError>)
        requires
            old(self)@.output.open.len() > 0,
        ensures
            match read_raw(length.length, old(self)@.input) {
                Ok(c) => r is Ok && final(self)@ == with_read(old(self)@, c),
                Err(kind) => r is Err && r->Err_0.kind == Some(kind),
            },
    {
        if length.length == 0 {
            assert(self@.input.skip(0) =~= self@.input);
            return Ok(());
        }
        let content = match take_bytes(&mut self.input, length.length) {
            Ok(content) => content,
            Err(e) => {
                return Err(e);
            },
        };
        self.output.add_content(Content::Raw(content));
        Ok(())
    }

    fn parse_boolean(&mut self, length: &Length) -> (r: Result<(), TLVParseError>)
        requires
            old(self)@.output.open.len() > 0,
        ensures
            match read_boolean(length.length, old(self)@.input) {
                Ok(c) => r is Ok && final(self)@ == with_read(old(self)@, c),
                Err(kind) => r is Err && r->Err_0.kind == Some(kind),
            },
    {
        if length.length != 1 {
            return Err(
                TLVParseError::of_kind(
                    ParseErrorKind::BooleanLengthMismatch,
                    "Boolean values should have only 1 byte",
                ),
            );
        }
        let ghost unread = self.input@;
        let octet: u8 = match self.input.next() {
            Some((_pos, octet)) => octet,
            None => {
                return Err(
                    TLVParseError::of_kind(
                        ParseErrorKind::UnexpectedEOF,
                        "Error parsing Content. Unexpected EOF",
                    ),
                );
            },
        };
        assert(unread.drop_first() =~= unread.skip(1));
        self.output.add_content(Content::Primitive(PrimitiveContent::Boolean(octet != 0)));
        Ok(())
    }

    fn parse_integer(&mut self, length: &Length) -> (r: Result<(), TLVParseError>)
        requires
            old(self)@.output.open.len() > 0,
        ensures
            match read_integer(length.length, old(self)@.input) {
                Ok(c) => r is Ok && final(self)@ == with_read(old(self)@, c),
                Err(kind) => r is Err && r->Err_0.kind == Some(kind),
            },
    {
        if length.length == 0 {
            return Err(
                TLVParseError::of_kind(
                    ParseErrorKind::IntegerLengthZero,
                    "Integer should have at least 1 byte",
                ),
            );
        }
        let content = match take_bytes(&mut self.input, length.length) {
            Ok(content) => content,
            Err(e) => {
                return Err(e);
            },
        };
        let number = BigInteger::from_signed_bytes_be(content.as_slice());
        self.output.add_content(Content::Primitive(PrimitiveContent::Integer(number)));
        Ok(())
    }

    fn parse_bitstring_primitive(&mut self, length: &Length) -> (r: Result<(), TLVParseError>)
        requires
            old(self)@.output.open.len() > 0,
        ensures
            match read_bitstring(length.length, old(self)@.input) {
                Ok(c) => r is Ok && final(self)@ == with_read(old(self)@, c),
                Err(kind) => r is Err && r->Err_0.kind == Some(kind),
            },
    {
        if length.length == 0 {
            return Err(
                TLVParseError::of_kind(
                    ParseErrorKind::BitStringLengthZero,
                    "Bitstring should have at least 1 byte",
                ),
            );
        }
        let ghost unread = self.input@;
        let num_unused_bits: u8 = match self.input.next() {
            Some((_pos, octet)) => octet,
            None => {
                return Err(
                    TLVParseError::of_kind(
                        ParseErrorKind::UnexpectedEOF,
                        "Error parsing Content. Unexpected EOF",
                    ),
                );
            },
        };
        let content = match take_bytes(&mut self.input, length.length - 1) {
            Ok(content) => content,
            Err(e) => {
                return Err(e);
            },
        };
        proof {
            assert(unread.drop_first().take(length.length - 1) =~= unread.subrange(
                1,
                length.length as int,
            ));
            assert(unread.drop_first().skip(length.length - 1) =~= unread.skip(
                length.length as int,
            ));
        }
        self.output.add_content(
            Content::Primitive(PrimitiveContent::BitString((content, num_unused_bits))),
        );
        Ok(())
    }

    fn parse_utf8string(&mut self, length: &Length) -> (r: Result<(), TLVParseError>)
        requires
            old(self)@.output.open.len() > 0,
        ensures
            match read_utf8string(length.length, old(self)@.input) {
                Ok(c) => r is Ok && final(self)@ == with_read(old(self)@, c),
                Err(kind) => r is Err && r->Err_0.kind == Some(kind),
            },
    {
        let content = match take_bytes(&mut self.input, length.length) {
            Ok(content) => content,
            Err(e) => {
                return Err(e);
            },
        };
        let utf8string = decode_utf8_lossy(content.as_slice());
        self.output.add_content(Content::Primitive(PrimitiveContent::UTF8String(utf8string)));
        Ok(())
    }

    fn parse_null(&mut self, length: &Length) -> (r: Result<(), TLVParseError>)
        requires
            old(self)@.output.open.len() > 0,
        ensures
            match read_null(length.length, old(self)@.input) {
                Ok(c) => r is Ok && final(self)@ == with_read(old(self)@, c),
                Err(kind) => r is Err && r->Err_0.kind == Some(kind),
            },
    {
        assert(self@.input.skip(0) =~= self@.input);
        if length.length != 0 {
            // The parse goes on: a null has no content to misread.
            let ghost before = self.errors.errors();
            let warning = TLVParseError::of_kind(
                ParseErrorKind::NullNonZeroLength,
                "Null value should have no content",
            );
            self.errors.add(warning);
            assert(kinds_of(self.errors.errors()) =~= kinds_of(before).push(
                Some(ParseErrorKind::NullNonZeroLength),
            ));
        }
        self.output.add_content(Content::Primitive(PrimitiveContent::Null));
        Ok(())
    }

    /// Makes one move: the decoder in the state that follows, or the error
    /// that ends the parse.
    pub fn transition(self) -> (r: Result<TLVParser, TLVParseError>)
        requires
            ready(self@),
        ensures
            match step(self@) {
                Ok(next) => r is Ok && r->Ok_0@ == next,
                Err(kind) => r is Err && r->Err_0.kind == Some(kind),
            },
    {
        let mut parser = self;
        match parser._state {
            ParserState::Initial => {
                // Nothing is read here: one look ahead decides.
                match parser.input.peek() {
                    Some(_) => {
                        parser._state = ParserState::ParseIdentifier;
                    },
                    None => {
                        parser._state = ParserState::Finished;
                    },
                }
                Ok(parser)
            },
            ParserState::ParseIdentifier => {
                let identifier = match take_identifier(&mut parser.input) {
                    Ok(identifier) => identifier,
                    Err(e) => {
                        return Err(e);
                    },
                };
                parser.output.add_identifier(identifier);
                parser._state = ParserState::ParseLength;
                Ok(parser)
            },
            ParserState::ParseLength => {
                let length = match take_length(&mut parser.input) {
                    Ok(length) => length,
                    Err(e) => {
                        return Err(e);
                    },
                };
                let is_length_zero = length.length == 0;
                parser.output.add_length(length);
                if is_length_zero {
                    parser._state = ParserState::Initial;
                } else {
                    parser._state = ParserState::ParseContent;
                }
                Ok(parser)
            },
            ParserState::ParseContent => {
                // The triple that the content belongs to decides how it is read.
                let (identifier, owner_length) = match parser.output.get_cur_data() {
                    Some(cur_data) => (cur_data.identifier, cur_data.length),
                    None => {
                        return Err(
                            TLVParseError::of_kind(
                                ParseErrorKind::MissingOwner,
                                "Parsing content without ownner",
                            ),
                        );
                    },
                };
                let length = match owner_length {
                    Some(length) => length,
                    None => {
                        return Err(
                            TLVParseError::of_kind(
                                ParseErrorKind::MissingLength,
                                "Owner does not have length defined",
                            ),
                        );
                    },
                };
                match identifier.data_type {
                    DataType::Constructed => {
                        // The nested triples follow.
                        parser._state = ParserState::ParseIdentifier;
                        return Ok(parser);
                    },
                    DataType::Primitive => {},
                }
                let read = match identifier.class {
                    IdentifierClass::Universal => match identifier.tag_number {
                        1 => parser.parse_boolean(&length),
                        2 => parser.parse_integer(&length),
                        3 => parser.parse_bitstring_primitive(&length),
                        4 => parser.parse_utf8string(&length),
                        5 => parser.parse_null(&length),
                        _ => parser.parse_raw(&length),
                    },
                    // What the octets mean depends on a schema: they are kept.
                    _ => parser.parse_raw(&length),
                };
                match read {
                    Ok(()) => {
                        parser._state = ParserState::Initial;
                        Ok(parser)
                    },
                    Err(e) => Err(e),
                }
            },
            ParserState::Finished => Ok(parser),
        }
    }

    /// Runs the decoder to the end of its input and hands out what it then
    /// holds. The first error ends the parse, and nothing else is returned.
    pub fn parse(self) -> (r: ParserResult)
        requires
            ready(self@),
        ensures
            match run(self@) {
                Ok(outcome) => {
                    &&& r is Ok
                    &&& r->Ok_0.0@ == outcome.rest
                    &&& forest_view(r->Ok_0.1@) == outcome.forest
                    &&& kinds_of(r->Ok_0.2@) == outcome.warnings
                },
                Err(kind) => r is Err && r->Err_0.kind == Some(kind),
            },
    {
        let mut parser = self;
        loop
            invariant
                ready(parser@),
                run(parser@) == run(self@),
            decreases parser@.input.len(), rank(parser@.state),
        {
            if parser.is_finished() {
                return parser.take_results();
            }
            proof {
                lemma_step_progress(parser@);
                lemma_step_ready(parser@);
            }
            parser = match parser.transition() {
                Ok(next) => next,
                Err(e) => {
                    return Err(e);
                },
            };
        }
    }
}

} // verus!
