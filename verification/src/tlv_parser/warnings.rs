//! The warnings of a parse, counted against the forest that it yields.

use super::coherence::{
    can_parent, coherent, lemma_after_identifier_well_chained,
    lemma_close_innermost_well_chained, lemma_replace_innermost_well_chained,
    lemma_settled_well_chained, lemma_start_coherent, lemma_step_coherent, well_chained,
};
use super::output_builder::{
    close_innermost, forest_of, lemma_settled_forest, settled, with_child, BuilderView,
};
use super::tlv::{ContentView, DataType, NodeView, PrimitiveView};
use super::{
    at_start, lemma_step_progress, parse_of, rank, run, step, MachineView, ParseErrorKind,
    ParserState,
};
use vstd::prelude::*;

verus! {

/// A null that was read for a triple whose length is not zero: the one
/// event that is worth a warning.
pub open spec fn is_null_with_length(n: NodeView) -> bool {
    &&& n.content == Some(ContentView::Primitive(PrimitiveView::Null))
    &&& n.length is Some
    &&& n.length->Some_0.length != 0
}

/// The number of nulls with a length among a triple and all the triples
/// nested in it.
pub open spec fn node_nulls_with_length(n: NodeView) -> nat
    decreases n, 1nat,
{
    (if is_null_with_length(n) {
        1nat
    } else {
        0nat
    }) + (match n.content {
        Some(ContentView::Constructed(children)) => forest_nulls_with_length_upto(
            children,
            children.len(),
        ),
        _ => 0,
    })
}

/// The number of nulls with a length among the first `upto` triples of
/// `nodes` and all the triples nested in them.
pub open spec fn forest_nulls_with_length_upto(nodes: Seq<NodeView>, upto: nat) -> nat
    decreases nodes, upto,
{
    if upto == 0 || upto > nodes.len() {
        0
    } else {
        forest_nulls_with_length_upto(nodes, (upto - 1) as nat) + node_nulls_with_length(
            nodes[upto - 1],
        )
    }
}

/// The number of nulls with a length in a forest, at every level.
pub open spec fn forest_nulls_with_length(nodes: Seq<NodeView>) -> nat {
    forest_nulls_with_length_upto(nodes, nodes.len())
}

/// The number of nulls with a length in a chain of open triples, with all
/// that is nested in them.
pub open spec fn chain_nulls_with_length(chain: Seq<NodeView>) -> nat
    decreases chain.len(),
{
    if chain.len() == 0 {
        0
    } else {
        chain_nulls_with_length(chain.drop_last()) + node_nulls_with_length(chain.last())
    }
}

proof fn lemma_forest_nulls_prefix(nodes: Seq<NodeView>, more: NodeView, upto: nat)
    requires
        upto <= nodes.len(),
    ensures
        forest_nulls_with_length_upto(nodes.push(more), upto) == forest_nulls_with_length_upto(
            nodes,
            upto,
        ),
    decreases upto,
{
    if upto > 0 {
        lemma_forest_nulls_prefix(nodes, more, (upto - 1) as nat);
        assert(nodes.push(more)[upto - 1] == nodes[upto - 1]);
    }
}

proof fn lemma_forest_nulls_push(nodes: Seq<NodeView>, more: NodeView)
    ensures
        forest_nulls_with_length(nodes.push(more)) == forest_nulls_with_length(nodes)
            + node_nulls_with_length(more),
{
    lemma_forest_nulls_prefix(nodes, more, nodes.len());
    assert(nodes.push(more)[nodes.len() as int] == more);
}

proof fn lemma_with_child_nulls(parent: NodeView, child: NodeView)
    requires
        can_parent(parent),
    ensures
        node_nulls_with_length(with_child(parent, child)) == node_nulls_with_length(parent)
            + node_nulls_with_length(child),
{
    match parent.content {
        Some(ContentView::Constructed(children)) => {
            lemma_forest_nulls_push(children, child);
        },
        _ => {
            lemma_forest_nulls_push(Seq::<NodeView>::empty(), child);
            assert(Seq::<NodeView>::empty().push(child) =~= seq![child]);
        },
    }
}

/// The nulls with a length that a builder holds are those among its
/// closed triples and those among its open triples.
proof fn lemma_nulls_by_parts(b: BuilderView)
    requires
        well_chained(b),
    ensures
        forest_nulls_with_length(forest_of(b)) == forest_nulls_with_length(b.closed)
            + chain_nulls_with_length(b.open),
    decreases b.open.len(),
{
    let n = b.open.len();
    if n > 0 {
        let next = close_innermost(b);
        lemma_close_innermost_well_chained(b);
        lemma_nulls_by_parts(next);
        assert(forest_of(b) == forest_of(next));
        if n == 1 {
            lemma_forest_nulls_push(b.closed, b.open[0]);
            assert(b.open.drop_last() =~= Seq::<NodeView>::empty());
            assert(chain_nulls_with_length(b.open.drop_last()) == 0);
            assert(b.open.last() == b.open[0]);
            assert(next.open.len() == 0);
        } else {
            let parent = b.open[n - 2];
            let child = b.open[n - 1];
            let below = b.open.take(n - 2);
            let joined = with_child(parent, child);
            lemma_with_child_nulls(parent, child);
            assert(next.open == below.push(joined));
            assert(next.open.drop_last() =~= below);
            assert(next.open.last() == joined);
            assert(chain_nulls_with_length(next.open) == chain_nulls_with_length(below)
                + node_nulls_with_length(joined));
            let shorter = b.open.drop_last();
            assert(shorter.drop_last() =~= below);
            assert(shorter.last() == parent);
            assert(chain_nulls_with_length(shorter) == chain_nulls_with_length(below)
                + node_nulls_with_length(parent));
            assert(b.open.last() == child);
        }
    }
}

/// Replacing the innermost open triple changes the count by the
/// difference between the two.
proof fn lemma_nulls_replace_innermost(b: BuilderView, top: NodeView)
    requires
        well_chained(b),
        b.open.len() > 0,
        top.identifier.data_type == DataType::Constructed ==> can_parent(top),
    ensures
        forest_nulls_with_length(
            forest_of(BuilderView { closed: b.closed, open: b.open.drop_last().push(top) }),
        ) + node_nulls_with_length(b.open.last()) == forest_nulls_with_length(forest_of(b))
            + node_nulls_with_length(top),
{
    let after = BuilderView { closed: b.closed, open: b.open.drop_last().push(top) };
    lemma_replace_innermost_well_chained(b, top);
    lemma_nulls_by_parts(b);
    lemma_nulls_by_parts(after);
    assert(after.open.drop_last() =~= b.open.drop_last());
    assert(after.open.last() == top);
}

/// Every warning so far is for a null with a length, and there are as
/// many warnings as the forest under construction holds such nulls.
pub open spec fn warned_once_each(m: MachineView) -> bool {
    &&& m.warnings.len() == forest_nulls_with_length(forest_of(m.output))
    &&& forall|i: int|
        0 <= i < m.warnings.len() ==> m.warnings[i] == Some(ParseErrorKind::NullNonZeroLength)
}

/// A move gives one warning when it reads a null for a triple whose length
/// is not zero, and none otherwise.
pub proof fn lemma_step_warns_once(m: MachineView)
    requires
        coherent(m),
        warned_once_each(m),
    ensures
        match step(m) {
            Ok(next) => warned_once_each(next),
            Err(_) => true,
        },
{
    match step(m) {
        Ok(next) => {
            match m.state {
                ParserState::ParseIdentifier => {
                    let s = settled(m.output);
                    let fresh = next.output.open.last();
                    lemma_settled_forest(m.output);
                    lemma_settled_well_chained(m.output);
                    lemma_after_identifier_well_chained(m.output, fresh);
                    lemma_nulls_by_parts(s);
                    lemma_nulls_by_parts(next.output);
                    assert(next.output.open.drop_last() =~= s.open);
                    assert(node_nulls_with_length(fresh) == 0);
                },
                ParserState::ParseLength => {
                    let top = next.output.open.last();
                    lemma_nulls_replace_innermost(m.output, top);
                    assert(node_nulls_with_length(top) == 0);
                    assert(node_nulls_with_length(m.output.open.last()) == 0);
                },
                ParserState::ParseContent => {
                    let before = m.output.open.last();
                    if before.identifier.data_type == DataType::Primitive && next.output
                        != m.output {
                        let top = next.output.open.last();
                        lemma_nulls_replace_innermost(m.output, top);
                        assert(node_nulls_with_length(before) == 0);
                    }
                },
                _ => {},
            }
        },
        Err(_) => {},
    }
}

/// From a coherent state on, a parse that succeeds ends with as many
/// warnings as its forest holds nulls with a length.
pub proof fn lemma_run_warns_once(m: MachineView)
    requires
        coherent(m),
        warned_once_each(m),
    ensures
        match run(m) {
            Ok(outcome) => {
                &&& outcome.warnings.len() == forest_nulls_with_length(outcome.forest)
                &&& forall|i: int|
                    0 <= i < outcome.warnings.len() ==> outcome.warnings[i] == Some(
                        ParseErrorKind::NullNonZeroLength,
                    )
            },
            Err(_) => true,
        },
    decreases m.input.len(), rank(m.state),
{
    if m.state != ParserState::Finished {
        match step(m) {
            Ok(next) => {
                lemma_step_progress(m);
                lemma_step_coherent(m);
                lemma_step_warns_once(m);
                lemma_run_warns_once(next);
            },
            Err(_) => {},
        }
    }
}

/// Warnings come once for each offending event: a parse that succeeds
/// gives exactly one warning for each null with a length in its forest,
/// and no other warning. As the parse is a function of the input, parsing
/// the same input again gives the same warnings.
pub proof fn lemma_warnings_once_each(input: Seq<u8>)
    ensures
        match parse_of(input) {
            Ok(outcome) => {
                &&& outcome.warnings.len() == forest_nulls_with_length(outcome.forest)
                &&& forall|i: int|
                    0 <= i < outcome.warnings.len() ==> outcome.warnings[i] == Some(
                        ParseErrorKind::NullNonZeroLength,
                    )
            },
            Err(_) => true,
        },
{
    lemma_start_coherent(input);
    let start = at_start(input);
    assert(forest_of(start.output) =~= Seq::<NodeView>::empty());
    lemma_run_warns_once(start);
}

} // verus!
