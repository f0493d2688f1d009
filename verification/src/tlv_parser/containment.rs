//! The serialized size of what a parse yields, held against the input
//! that it read.
//!
//! The size of a triple counts its identifier and its length in their
//! shortest encodings, and its content as the data model counts it. A
//! stream may spell the same triple at greater length, and a bit string,
//! an integer or a string may be counted for fewer or more octets than
//! were read for it. Where every part is spelled as it is counted, the
//! forest is exactly as large as the input.

use super::coherence::{
    can_parent, coherent, lemma_after_identifier_well_chained,
    lemma_close_innermost_well_chained, lemma_replace_innermost_well_chained,
    lemma_settled_well_chained, lemma_start_coherent, lemma_step_coherent, well_chained,
};
use super::output_builder::{
    close_innermost, forest_of, lemma_settled_forest, settled, with_child, BuilderView,
};
use super::reading::{
    lemma_pow128_values, lemma_read_identifier_bounds, pow128, read_identifier, read_length,
    read_primitive, read_tag_number,
};
use super::tlv::{
    content_octets, forest_octets, forest_octets_upto, identifier_octets, length_octets,
    node_content_octets, node_octets, ContentView, DataType, Identifier, IdentifierClass,
    NodeView,
};
use crate::octets::{
    lemma_be_unsigned_bound, lemma_be_unsigned_first, lemma_pow256_values,
    lemma_signed_bit_length_octets, pow256,
};
use vstd::utf8::{decode_utf8_encode_utf8, valid_utf8};
use super::{
    at_start, lemma_step_progress, parse_of, rank, run, step, MachineView, ParserState,
};
use vstd::prelude::*;

verus! {

/// The octets that a chain of open triples is counted for, with all that
/// is nested in them.
pub open spec fn chain_octets(chain: Seq<NodeView>) -> nat
    decreases chain.len(),
{
    if chain.len() == 0 {
        0
    } else {
        chain_octets(chain.drop_last()) + node_octets(chain.last())
    }
}

proof fn lemma_forest_octets_prefix(nodes: Seq<NodeView>, more: NodeView, upto: nat)
    requires
        upto <= nodes.len(),
    ensures
        forest_octets_upto(nodes.push(more), upto) == forest_octets_upto(nodes, upto),
    decreases upto,
{
    if upto > 0 {
        lemma_forest_octets_prefix(nodes, more, (upto - 1) as nat);
        assert(nodes.push(more)[upto - 1] == nodes[upto - 1]);
    }
}

/// A triple put behind a forest adds its own size to that of the forest.
pub proof fn lemma_forest_octets_push(nodes: Seq<NodeView>, more: NodeView)
    ensures
        forest_octets(nodes.push(more)) == forest_octets(nodes) + node_octets(more),
{
    lemma_forest_octets_prefix(nodes, more, nodes.len());
    assert(nodes.push(more)[nodes.len() as int] == more);
}

/// A child adds its own size to that of its parent.
pub proof fn lemma_with_child_octets(parent: NodeView, child: NodeView)
    requires
        can_parent(parent),
    ensures
        node_octets(with_child(parent, child)) == node_octets(parent) + node_octets(child),
{
    match parent.content {
        Some(ContentView::Constructed(children)) => {
            lemma_forest_octets_push(children, child);
        },
        _ => {
            lemma_forest_octets_push(Seq::<NodeView>::empty(), child);
            assert(Seq::<NodeView>::empty().push(child) =~= seq![child]);
        },
    }
}

/// The size of the forest that a builder holds is that of its closed
/// triples and that of its open triples together.
pub proof fn lemma_octets_by_parts(b: BuilderView)
    requires
        well_chained(b),
    ensures
        forest_octets(forest_of(b)) == forest_octets(b.closed) + chain_octets(b.open),
    decreases b.open.len(),
{
    let n = b.open.len();
    if n > 0 {
        let next = close_innermost(b);
        lemma_close_innermost_well_chained(b);
        lemma_octets_by_parts(next);
        assert(forest_of(b) == forest_of(next));
        if n == 1 {
            lemma_forest_octets_push(b.closed, b.open[0]);
            assert(b.open.drop_last() =~= Seq::<NodeView>::empty());
            assert(chain_octets(b.open.drop_last()) == 0);
            assert(b.open.last() == b.open[0]);
            assert(next.open.len() == 0);
        } else {
            let parent = b.open[n - 2];
            let child = b.open[n - 1];
            let below = b.open.take(n - 2);
            let joined = with_child(parent, child);
            lemma_with_child_octets(parent, child);
            assert(next.open == below.push(joined));
            assert(next.open.drop_last() =~= below);
            assert(next.open.last() == joined);
            assert(chain_octets(next.open) == chain_octets(below) + node_octets(joined));
            let shorter = b.open.drop_last();
            assert(shorter.drop_last() =~= below);
            assert(shorter.last() == parent);
            assert(chain_octets(shorter) == chain_octets(below) + node_octets(parent));
            assert(b.open.last() == child);
        }
    }
}

proof fn lemma_octets_replace_innermost(b: BuilderView, top: NodeView)
    requires
        well_chained(b),
        b.open.len() > 0,
        top.identifier.data_type == DataType::Constructed ==> can_parent(top),
    ensures
        forest_octets(
            forest_of(BuilderView { closed: b.closed, open: b.open.drop_last().push(top) }),
        ) + node_octets(b.open.last()) == forest_octets(forest_of(b)) + node_octets(top),
{
    let after = BuilderView { closed: b.closed, open: b.open.drop_last().push(top) };
    lemma_replace_innermost_well_chained(b, top);
    lemma_octets_by_parts(b);
    lemma_octets_by_parts(after);
    assert(after.open.drop_last() =~= b.open.drop_last());
    assert(after.open.last() == top);
}

/// The digits of a tag number in long form spell a number between the
/// first digit and its successor, scaled by the weight of its place.
proof fn lemma_read_tag_number_range(input: Seq<u8>, count: nat, acc: nat)
    ensures
        match read_tag_number(input, count, acc) {
            Ok((tag, read)) => {
                let first = acc * 128 + (input[0] % 128) as nat;
                &&& 1 <= read <= 4 - count
                &&& first * pow128((read - 1) as nat) <= tag
                &&& tag < (first + 1) * pow128((read - 1) as nat)
            },
            Err(_) => true,
        },
    decreases input.len(),
{
    assert(pow128(0) == 1);
    if input.len() > 0 && count < 4 {
        let first = acc * 128 + (input[0] % 128) as nat;
        if input[0] >= 128 {
            let rest = input.drop_first();
            lemma_read_tag_number_range(rest, count + 1, first);
            match read_tag_number(rest, count + 1, first) {
                Ok((tag, read)) => {
                    let second = first * 128 + (rest[0] % 128) as nat;
                    let p = pow128((read - 1) as nat);
                    assert(pow128(read) == 128 * p);
                    assert(second * p >= first * (128 * p)) by (nonlinear_arith)
                        requires
                            second >= first * 128,
                    ;
                    assert((second + 1) * p <= (first + 1) * (128 * p)) by (nonlinear_arith)
                        requires
                            second + 1 <= (first + 1) * 128,
                    ;
                    assert(read_tag_number(input, count, acc) == Ok::<
                        (nat, nat),
                        super::ParseErrorKind,
                    >((tag, read + 1)));
                    assert(pow128(((read + 1) - 1) as nat) == 128 * p);
                },
                Err(_) => {},
            }
        } else {
            assert(first * pow128(0) == first) by (nonlinear_arith)
                requires
                    pow128(0) == 1,
            ;
            assert((first + 1) * pow128(0) == first + 1) by (nonlinear_arith)
                requires
                    pow128(0) == 1,
            ;
        }
    }
}

/// An identifier is spelled as it is counted where its tag number is in
/// the first octet, and also where a tag number of 31 or more follows in
/// base-128 digits of which the first is not zero.
pub proof fn lemma_identifier_as_counted(input: Seq<u8>)
    requires
        input.len() > 0,
        input[0] % 32 == 31 ==> input.len() >= 2 && input[1] % 128 != 0,
    ensures
        match read_identifier(input) {
            Ok((id, read)) => id.tag_number >= 31 || input[0] % 32 < 31 ==> read
                == identifier_octets(id),
            Err(_) => true,
        },
{
    if input[0] % 32 == 31 {
        let digits = input.drop_first();
        lemma_read_tag_number_range(digits, 0, 0);
        assert(digits[0] == input[1]);
        lemma_pow128_values();
        match read_tag_number(digits, 0, 0) {
            Ok((tag, read)) => {
                let first = (digits[0] % 128) as nat;
                let p = pow128((read - 1) as nat);
                assert(pow128(read) == 128 * p);
                assert(first * p >= p) by (nonlinear_arith)
                    requires
                        first >= 1,
                ;
                assert((first + 1) * p <= 128 * p) by (nonlinear_arith)
                    requires
                        first + 1 <= 128,
                ;
            },
            Err(_) => {},
        }
    }
}

/// A length is spelled as it is counted where it is in the first octet,
/// and also where a length of 128 or more follows in base-256 digits of
/// which the first is not zero.
pub proof fn lemma_length_as_counted(input: Seq<u8>)
    requires
        input.len() > 0,
        input[0] >= 128 ==> input.len() >= 2 && input[1] != 0 && input[0] > 128,
    ensures
        match read_length(input) {
            Ok((length, read)) => length.length >= 128 || input[0] < 128 ==> read
                == length_octets(length),
            Err(_) => true,
        },
{
    if input[0] >= 128 {
        match read_length(input) {
            Ok((length, read)) => {
                let k = (input[0] - 128) as nat;
                let digits = input.subrange(1, 1 + k as int);
                lemma_be_unsigned_first(digits);
                lemma_be_unsigned_bound(digits);
                assert(digits[0] == input[1]);
                lemma_pow256_values();
                let first = digits[0] as nat;
                let p = pow256((k - 1) as nat);
                assert(first * p >= p) by (nonlinear_arith)
                    requires
                        first >= 1,
                ;
            },
            Err(_) => {},
        }
    }
}

/// A primitive content is read for as many octets as it is counted for
/// where it is a boolean, a null or octets kept as they came; where it is
/// a string of valid UTF-8; and where it is an integer whose first octet is
/// neither all zeros nor all ones. A bit string never is: the octet that
/// counts its unused bits is read and not counted.
pub proof fn lemma_primitive_as_counted(id: Identifier, length: u32, input: Seq<u8>)
    requires
        id.class == IdentifierClass::Universal ==> {
            &&& id.tag_number != 3
            &&& id.tag_number == 2 && input.len() > 0 ==> input[0] != 0 && input[0] != 0xFF
            &&& id.tag_number == 4 && input.len() >= length ==> valid_utf8(
                input.take(length as int),
            )
        },
    ensures
        match read_primitive(id, length, input) {
            Ok(c) => c.read == (match c.content {
                Some(content) => content_octets(content),
                None => 0,
            }),
            Err(_) => true,
        },
{
    if id.class == IdentifierClass::Universal {
        if id.tag_number == 2 && input.len() >= length && length > 0 {
            let content = input.take(length as int);
            assert(content[0] == input[0]);
            lemma_signed_bit_length_octets(content);
        } else if id.tag_number == 4 && input.len() >= length {
            decode_utf8_encode_utf8(input.take(length as int));
        }
    }
}

/// The move that `m` is about to make reads exactly as many octets as the
/// part that it reads is counted for: an identifier or a length in its
/// shortest encoding, a primitive content of the size that the data model
/// gives it.
pub open spec fn reads_as_counted(m: MachineView) -> bool {
    match m.state {
        ParserState::ParseIdentifier => match read_identifier(m.input) {
            Ok((id, read)) => read == identifier_octets(id),
            Err(_) => true,
        },
        ParserState::ParseLength => match read_length(m.input) {
            Ok((length, read)) => read == length_octets(length),
            Err(_) => true,
        },
        ParserState::ParseContent => if m.output.open.len() > 0 && m.output.open.last().length
            is Some && m.output.open.last().identifier.data_type == DataType::Primitive {
            match read_primitive(
                m.output.open.last().identifier,
                m.output.open.last().length->Some_0.length,
                m.input,
            ) {
                Ok(c) => c.read == (match c.content {
                    Some(content) => content_octets(content),
                    None => 0,
                }),
                Err(_) => true,
            }
        } else {
            true
        },
        _ => true,
    }
}

/// Every move of the parse from `m` on reads as many octets as the part
/// that it reads is counted for.
pub open spec fn all_read_as_counted(m: MachineView) -> bool
    decreases m.input.len(), rank(m.state),
{
    if m.state == ParserState::Finished {
        true
    } else {
        reads_as_counted(m) && match step(m) {
            Ok(next) => {
                proof {
                    lemma_step_progress(m);
                }
                all_read_as_counted(next)
            },
            Err(_) => true,
        }
    }
}

/// The forest under construction and the input not yet read make up
/// `total` octets together.
pub open spec fn spans(m: MachineView, total: nat) -> bool {
    forest_octets(forest_of(m.output)) + m.input.len() == total
}

/// A move that reads as many octets as it counts takes from the input
/// what it adds to the forest.
pub proof fn lemma_step_contains(m: MachineView, total: nat)
    requires
        coherent(m),
        reads_as_counted(m),
        spans(m, total),
    ensures
        match step(m) {
            Ok(next) => spans(next, total),
            Err(_) => true,
        },
{
    match step(m) {
        Ok(next) => {
            match m.state {
                ParserState::ParseIdentifier => {
                    let s = settled(m.output);
                    let fresh = next.output.open.last();
                    lemma_read_identifier_bounds(m.input);
                    lemma_settled_forest(m.output);
                    lemma_settled_well_chained(m.output);
                    lemma_after_identifier_well_chained(m.output, fresh);
                    lemma_octets_by_parts(s);
                    lemma_octets_by_parts(next.output);
                    assert(next.output.open.drop_last() =~= s.open);
                    assert(node_octets(fresh) == identifier_octets(fresh.identifier));
                },
                ParserState::ParseLength => {
                    let before = m.output.open.last();
                    let top = next.output.open.last();
                    lemma_octets_replace_innermost(m.output, top);
                    assert(node_content_octets(top) == node_content_octets(before));
                    assert(node_octets(top) == node_octets(before) + length_octets(
                        top.length->Some_0,
                    ));
                },
                ParserState::ParseContent => {
                    let before = m.output.open.last();
                    if before.identifier.data_type == DataType::Primitive {
                        if next.output != m.output {
                            let top = next.output.open.last();
                            lemma_octets_replace_innermost(m.output, top);
                            assert(node_content_octets(before) == 0);
                            assert(node_content_octets(top) == content_octets(
                                top.content->Some_0,
                            ));
                        }
                    }
                },
                _ => {},
            }
        },
        Err(_) => {},
    }
}

/// From a coherent state on, a parse whose every move reads as many octets
/// as it counts ends with a forest and a rest of input that are together
/// as large as the forest and the input were at the start.
pub proof fn lemma_run_contains(m: MachineView, total: nat)
    requires
        coherent(m),
        all_read_as_counted(m),
        spans(m, total),
    ensures
        match run(m) {
            Ok(outcome) => forest_octets(outcome.forest) + outcome.rest.len() == total,
            Err(_) => true,
        },
    decreases m.input.len(), rank(m.state),
{
    if m.state != ParserState::Finished {
        match step(m) {
            Ok(next) => {
                lemma_step_progress(m);
                lemma_step_coherent(m);
                lemma_step_contains(m, total);
                lemma_run_contains(next, total);
            },
            Err(_) => {},
        }
    }
}

/// A parse that succeeds leaves no input unread.
pub proof fn lemma_run_reads_all(m: MachineView)
    requires
        m.state != ParserState::Finished,
    ensures
        match run(m) {
            Ok(outcome) => outcome.rest.len() == 0,
            Err(_) => true,
        },
    decreases m.input.len(), rank(m.state),
{
    match step(m) {
        Ok(next) => {
            lemma_step_progress(m);
            if next.state != ParserState::Finished {
                lemma_run_reads_all(next);
            }
        },
        Err(_) => {},
    }
}

/// Tree containment: where every part of the input is spelled as it is
/// counted, the parse that succeeds reads the input to its end, and the
/// forest that it yields has the serialized size of the input.
pub proof fn lemma_parse_contains(input: Seq<u8>)
    requires
        all_read_as_counted(at_start(input)),
    ensures
        match parse_of(input) {
            Ok(outcome) => outcome.rest.len() == 0 && forest_octets(outcome.forest)
                == input.len(),
            Err(_) => true,
        },
{
    let start = at_start(input);
    lemma_start_coherent(input);
    assert(forest_of(start.output) =~= Seq::<NodeView>::empty());
    lemma_run_contains(start, input.len());
    lemma_run_reads_all(start);
}

} // verus!
