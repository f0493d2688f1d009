//! What holds of the decoder in every state that a parse passes through.

use super::output_builder::{
    close_innermost, forest_of, lemma_settled_forest, settled, takes_no_more, with_child,
    BuilderView,
};
use super::tlv::{
    forest_well_formed, forest_well_formed_upto, node_well_formed, ContentView, DataType,
    NodeView,
};
use super::{
    at_start, lemma_step_progress, parse_of, rank, ready, run, step, MachineView, ParserState,
};
use vstd::prelude::*;

verus! {

/// A triple that can take children: it is constructed, and its content, if
/// it has any, is a list of triples.
pub open spec fn can_parent(n: NodeView) -> bool {
    n.identifier.data_type == DataType::Constructed && (n.content is None || n.content->Some_0
        is Constructed)
}

/// The chain of open triples is sound: every triple but the innermost can
/// take children, and so can the innermost if it is constructed.
pub open spec fn well_chained(b: BuilderView) -> bool {
    forall|i: int|
        0 <= i < b.open.len() ==> {
            &&& i + 1 < b.open.len() ==> (#[trigger] b.open[i]).identifier.data_type
                == DataType::Constructed
            &&& b.open[i].identifier.data_type == DataType::Constructed ==> can_parent(
                b.open[i],
            )
        }
}

/// The decoder is about to fill in what the innermost open triple still
/// lacks: before a length is read that triple has neither length nor
/// content, and before a content is read it has no content.
pub open spec fn coherent(m: MachineView) -> bool {
    &&& well_chained(m.output)
    &&& m.state == ParserState::ParseLength ==> {
        &&& m.output.open.len() > 0
        &&& m.output.open.last().length is None
        &&& m.output.open.last().content is None
    }
    &&& m.state == ParserState::ParseContent && m.output.open.len() > 0
        ==> m.output.open.last().content is None
}

/// Closing the innermost open triple keeps the chain sound.
pub proof fn lemma_close_innermost_well_chained(b: BuilderView)
    requires
        well_chained(b),
        b.open.len() > 0,
    ensures
        well_chained(close_innermost(b)),
{
    let next = close_innermost(b);
    let n = b.open.len();
    if n >= 2 {
        assert(b.open[n - 2].identifier.data_type == DataType::Constructed);
        assert forall|i: int| 0 <= i < next.open.len() implies {
            &&& i + 1 < next.open.len() ==> (#[trigger] next.open[i]).identifier.data_type
                == DataType::Constructed
            &&& next.open[i].identifier.data_type == DataType::Constructed ==> can_parent(
                next.open[i],
            )
        } by {
            if i < n - 2 {
                assert(next.open[i] == b.open[i]);
            }
        }
    }
}

/// Closing what takes no more keeps the chain sound, and leaves innermost
/// a triple that can take children, if it leaves any.
pub proof fn lemma_settled_well_chained(b: BuilderView)
    requires
        well_chained(b),
    ensures
        well_chained(settled(b)),
        settled(b).open.len() > 0 ==> can_parent(settled(b).open.last()),
    decreases b.open.len(),
{
    if b.open.len() > 0 && takes_no_more(b.open.last()) {
        lemma_close_innermost_well_chained(b);
        lemma_settled_well_chained(close_innermost(b));
    } else if b.open.len() > 0 {
        assert(b.open[b.open.len() - 1].identifier.data_type == DataType::Constructed);
    }
}

/// A new identifier keeps the chain sound.
pub proof fn lemma_after_identifier_well_chained(b: BuilderView, fresh: NodeView)
    requires
        well_chained(b),
        fresh.content is None,
    ensures
        well_chained(
            BuilderView { closed: settled(b).closed, open: settled(b).open.push(fresh) },
        ),
{
    let s = settled(b);
    let after = BuilderView { closed: s.closed, open: s.open.push(fresh) };
    lemma_settled_well_chained(b);
    assert forall|i: int| 0 <= i < after.open.len() implies {
        &&& i + 1 < after.open.len() ==> (#[trigger] after.open[i]).identifier.data_type
            == DataType::Constructed
        &&& after.open[i].identifier.data_type == DataType::Constructed ==> can_parent(
            after.open[i],
        )
    } by {
        if i < s.open.len() {
            assert(after.open[i] == s.open[i]);
            if i + 1 == s.open.len() {
                assert(s.open[i] == s.open.last());
            }
        }
    }
}

/// Whatever the decoder does to the innermost open triple, if the triple
/// that results can take children or is primitive, the chain stays sound.
pub proof fn lemma_replace_innermost_well_chained(b: BuilderView, top: NodeView)
    requires
        well_chained(b),
        b.open.len() > 0,
        top.identifier.data_type == DataType::Constructed ==> can_parent(top),
    ensures
        well_chained(BuilderView { closed: b.closed, open: b.open.drop_last().push(top) }),
{
    let after = BuilderView { closed: b.closed, open: b.open.drop_last().push(top) };
    assert forall|i: int| 0 <= i < after.open.len() implies {
        &&& i + 1 < after.open.len() ==> (#[trigger] after.open[i]).identifier.data_type
            == DataType::Constructed
        &&& after.open[i].identifier.data_type == DataType::Constructed ==> can_parent(
            after.open[i],
        )
    } by {
        if i + 1 < after.open.len() {
            assert(after.open[i] == b.open[i]);
        }
    }
}

/// The decoder starts coherent.
pub proof fn lemma_start_coherent(input: Seq<u8>)
    ensures
        coherent(at_start(input)),
        ready(at_start(input)),
{
}

/// A move keeps the decoder coherent.
pub proof fn lemma_step_coherent(m: MachineView)
    requires
        coherent(m),
    ensures
        match step(m) {
            Ok(next) => coherent(next) && ready(next),
            Err(_) => true,
        },
{
    match step(m) {
        Ok(next) => {
            match m.state {
                ParserState::ParseIdentifier => {
                    let fresh = next.output.open.last();
                    lemma_after_identifier_well_chained(m.output, fresh);
                },
                ParserState::ParseLength => {
                    lemma_replace_innermost_well_chained(m.output, next.output.open.last());
                },
                ParserState::ParseContent => {
                    if m.output.open.last().identifier.data_type == DataType::Primitive {
                        if next.output != m.output {
                            lemma_replace_innermost_well_chained(
                                m.output,
                                next.output.open.last(),
                            );
                        }
                    }
                },
                _ => {},
            }
        },
        Err(_) => {},
    }
}

/// Every triple of a chain of open triples is well formed, with all that
/// is nested in it.
pub open spec fn chain_well_formed(chain: Seq<NodeView>) -> bool
    decreases chain.len(),
{
    if chain.len() == 0 {
        true
    } else {
        chain_well_formed(chain.drop_last()) && node_well_formed(chain.last())
    }
}

proof fn lemma_forest_well_formed_prefix(nodes: Seq<NodeView>, more: NodeView, upto: nat)
    requires
        upto <= nodes.len(),
    ensures
        forest_well_formed_upto(nodes.push(more), upto) == forest_well_formed_upto(nodes, upto),
    decreases upto,
{
    if upto > 0 {
        lemma_forest_well_formed_prefix(nodes, more, (upto - 1) as nat);
        assert(nodes.push(more)[upto - 1] == nodes[upto - 1]);
    }
}

proof fn lemma_forest_well_formed_push(nodes: Seq<NodeView>, more: NodeView)
    ensures
        forest_well_formed(nodes.push(more)) == (forest_well_formed(nodes) && node_well_formed(
            more,
        )),
{
    lemma_forest_well_formed_prefix(nodes, more, nodes.len());
    assert(nodes.push(more)[nodes.len() as int] == more);
}

proof fn lemma_with_child_well_formed(parent: NodeView, child: NodeView)
    requires
        can_parent(parent),
    ensures
        node_well_formed(with_child(parent, child)) == (node_well_formed(parent)
            && node_well_formed(child)),
{
    match parent.content {
        Some(ContentView::Constructed(children)) => {
            lemma_forest_well_formed_push(children, child);
        },
        _ => {
            lemma_forest_well_formed_push(Seq::<NodeView>::empty(), child);
            assert(Seq::<NodeView>::empty().push(child) =~= seq![child]);
        },
    }
}

/// The forest that a builder holds is well formed exactly when its closed
/// triples and its open triples are.
pub proof fn lemma_well_formed_by_parts(b: BuilderView)
    requires
        well_chained(b),
    ensures
        forest_well_formed(forest_of(b)) == (forest_well_formed(b.closed) && chain_well_formed(
            b.open,
        )),
    decreases b.open.len(),
{
    let n = b.open.len();
    if n > 0 {
        let next = close_innermost(b);
        lemma_close_innermost_well_chained(b);
        lemma_well_formed_by_parts(next);
        assert(forest_of(b) == forest_of(next));
        if n == 1 {
            lemma_forest_well_formed_push(b.closed, b.open[0]);
            assert(b.open.drop_last() =~= Seq::<NodeView>::empty());
            assert(chain_well_formed(b.open.drop_last()));
            assert(b.open.last() == b.open[0]);
            assert(next.open.len() == 0);
        } else {
            let parent = b.open[n - 2];
            let child = b.open[n - 1];
            let below = b.open.take(n - 2);
            let joined = with_child(parent, child);
            lemma_with_child_well_formed(parent, child);
            assert(next.open == below.push(joined));
            assert(next.open.drop_last() =~= below);
            assert(next.open.last() == joined);
            assert(chain_well_formed(next.open) == (chain_well_formed(below)
                && node_well_formed(joined)));
            let shorter = b.open.drop_last();
            assert(shorter.drop_last() =~= below);
            assert(shorter.last() == parent);
            assert(chain_well_formed(shorter) == (chain_well_formed(below) && node_well_formed(
                parent,
            )));
            assert(b.open.last() == child);
        }
    }
}

/// A move of a coherent decoder keeps the forest under construction well
/// formed.
pub proof fn lemma_step_well_formed(m: MachineView)
    requires
        coherent(m),
        forest_well_formed(forest_of(m.output)),
    ensures
        match step(m) {
            Ok(next) => forest_well_formed(forest_of(next.output)),
            Err(_) => true,
        },
{
    match step(m) {
        Ok(next) => {
            lemma_step_coherent(m);
            lemma_well_formed_by_parts(m.output);
            lemma_well_formed_by_parts(next.output);
            match m.state {
                ParserState::ParseIdentifier => {
                    let s = settled(m.output);
                    lemma_settled_forest(m.output);
                    lemma_settled_well_chained(m.output);
                    lemma_well_formed_by_parts(s);
                    assert(next.output.open.drop_last() =~= s.open);
                },
                ParserState::ParseLength => {
                    assert(next.output.open.drop_last() =~= m.output.open.drop_last());
                },
                ParserState::ParseContent => {
                    if next.output != m.output {
                        assert(next.output.open.drop_last() =~= m.output.open.drop_last());
                    }
                },
                _ => {},
            }
        },
        Err(_) => {},
    }
}

/// From a coherent state with a well-formed forest on, a parse that
/// succeeds yields a well-formed forest.
pub proof fn lemma_run_well_formed(m: MachineView)
    requires
        coherent(m),
        forest_well_formed(forest_of(m.output)),
    ensures
        match run(m) {
            Ok(outcome) => forest_well_formed(outcome.forest),
            Err(_) => true,
        },
    decreases m.input.len(), rank(m.state),
{
    if m.state != ParserState::Finished {
        match step(m) {
            Ok(next) => {
                lemma_step_progress(m);
                lemma_step_coherent(m);
                lemma_step_well_formed(m);
                lemma_run_well_formed(next);
            },
            Err(_) => {},
        }
    }
}

/// In the forest that a parse yields, the content of every triple agrees
/// with its form.
pub proof fn lemma_parse_well_formed(input: Seq<u8>)
    ensures
        match parse_of(input) {
            Ok(outcome) => forest_well_formed(outcome.forest),
            Err(_) => true,
        },
{
    let start = at_start(input);
    lemma_start_coherent(input);
    assert(forest_of(start.output) =~= Seq::<NodeView>::empty());
    lemma_run_well_formed(start);
}

} // verus!
