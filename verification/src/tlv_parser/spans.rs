//! The span of input behind every triple of a parse, held against the
//! serialized size of the triple.
//!
//! The decoder keeps no record of where in the stream a triple began and
//! ended. This file gives one: beside the moves of the decoder it notes the
//! place at which each open triple began, and when a triple is closed, how
//! far the decoder has come since. What it notes has the shape of the
//! forest, with a number of octets in the place of each triple.

use super::coherence::{
    can_parent, coherent, lemma_close_innermost_well_chained, lemma_settled_well_chained,
    lemma_start_coherent, lemma_step_coherent, well_chained,
};
use super::containment::{
    all_read_as_counted, chain_octets, lemma_forest_octets_push, lemma_with_child_octets,
    reads_as_counted,
};
use super::output_builder::{
    close_innermost, forest_of, settled, takes_no_more, with_child, BuilderView,
};
use super::reading::lemma_read_identifier_bounds;
use super::tlv::{
    content_octets, forest_octets, identifier_octets, length_octets, node_content_octets,
    node_octets, ContentView, DataType, NodeView,
};
use super::{
    at_start, lemma_step_progress, parse_of, rank, run, step, MachineView, ParserState,
};
use vstd::prelude::*;

verus! {

/// A number of octets for a triple, and the like for each of the triples
/// nested in it, in their order.
pub struct SpanTree {
    pub octets: nat,
    pub children: Seq<SpanTree>,
}

/// The serialized sizes of the triples nested in a triple, in the shape
/// in which they are nested.
pub open spec fn children_sizes(n: NodeView) -> Seq<SpanTree>
    decreases n, 0nat,
{
    match n.content {
        Some(ContentView::Constructed(children)) => forest_sizes_upto(children, children.len()),
        _ => Seq::empty(),
    }
}

/// The serialized size of a triple and of each triple nested in it, in
/// the shape in which they are nested.
pub open spec fn sizes_of(n: NodeView) -> SpanTree
    decreases n, 1nat,
{
    SpanTree { octets: node_octets(n), children: children_sizes(n) }
}

/// The serialized sizes of the first `upto` triples of `nodes`.
pub open spec fn forest_sizes_upto(nodes: Seq<NodeView>, upto: nat) -> Seq<SpanTree>
    decreases nodes, upto,
{
    if upto == 0 || upto > nodes.len() {
        Seq::empty()
    } else {
        forest_sizes_upto(nodes, (upto - 1) as nat).push(sizes_of(nodes[upto - 1]))
    }
}

/// The serialized size of every triple of a forest, in the shape of the
/// forest.
pub open spec fn forest_sizes(nodes: Seq<NodeView>) -> Seq<SpanTree> {
    forest_sizes_upto(nodes, nodes.len())
}

/// What is noted of an open triple: the place in the stream at which its
/// identifier began, and the spans of its children closed so far.
pub struct OpenSpan {
    pub start: nat,
    pub children: Seq<SpanTree>,
}

/// What is noted beside the decoder: the place in the stream to which it
/// has come, the spans of the closed top-level triples, and what is noted
/// of each open triple, outermost first.
pub struct Spans {
    pub position: nat,
    pub closed: Seq<SpanTree>,
    pub open: Seq<OpenSpan>,
}

/// The notes after the innermost open triple was closed: its span reaches
/// from the place at which it began to the place to which the decoder has
/// come.
pub open spec fn close_innermost_span(s: Spans) -> Spans
    recommends
        s.open.len() > 0,
{
    let top = s.open.last();
    let done = SpanTree { octets: (s.position - top.start) as nat, children: top.children };
    if s.open.len() == 1 {
        Spans { position: s.position, closed: s.closed.push(done), open: Seq::empty() }
    } else {
        let parent = s.open[s.open.len() - 2];
        Spans {
            position: s.position,
            closed: s.closed,
            open: s.open.take(s.open.len() - 2).push(
                OpenSpan { start: parent.start, children: parent.children.push(done) },
            ),
        }
    }
}

/// The notes after every triple was closed that the builder closes before
/// it takes in the next identifier.
pub open spec fn settled_spans(b: BuilderView, s: Spans) -> Spans
    decreases b.open.len(),
{
    if b.open.len() > 0 && takes_no_more(b.open.last()) {
        settled_spans(close_innermost(b), close_innermost_span(s))
    } else {
        s
    }
}

/// The spans of the whole forest, once every open triple is closed at the
/// place to which the decoder has come.
pub open spec fn spans_of(s: Spans) -> Seq<SpanTree>
    decreases s.open.len(),
{
    if s.open.len() > 0 {
        spans_of(close_innermost_span(s))
    } else {
        s.closed
    }
}

/// The notes after the move that the decoder makes from `m`: the place
/// moves on by what the move reads, and a move that reads an identifier
/// closes what the builder closes and opens a triple at the place at which
/// the identifier began.
pub open spec fn step_spans(m: MachineView, s: Spans) -> Spans {
    match step(m) {
        Ok(next) => {
            let read = (m.input.len() - next.input.len()) as nat;
            if m.state == ParserState::ParseIdentifier {
                let t = settled_spans(m.output, s);
                Spans {
                    position: s.position + read,
                    closed: t.closed,
                    open: t.open.push(OpenSpan { start: s.position, children: Seq::empty() }),
                }
            } else {
                Spans { position: s.position + read, closed: s.closed, open: s.open }
            }
        },
        Err(_) => s,
    }
}

/// The spans of the forest that the parse from `m` on yields, where it
/// succeeds.
pub open spec fn run_spans(m: MachineView, s: Spans) -> Seq<SpanTree>
    decreases m.input.len(), rank(m.state),
{
    if m.state == ParserState::Finished {
        spans_of(s)
    } else {
        match step(m) {
            Ok(next) => {
                proof {
                    lemma_step_progress(m);
                }
                run_spans(next, step_spans(m, s))
            },
            Err(_) => Seq::empty(),
        }
    }
}

/// The span of input behind every triple of the forest that the parse of
/// `input` yields, in the shape of the forest.
pub open spec fn parse_spans(input: Seq<u8>) -> Seq<SpanTree> {
    run_spans(at_start(input), Spans { position: 0, closed: Seq::empty(), open: Seq::empty() })
}

/// The place at which the open triple `i` of a builder began, if every
/// triple so far was read for as many octets as it is counted for: behind
/// the closed triples and the open triples around it.
pub open spec fn began_at(b: BuilderView, i: int) -> nat {
    forest_octets(b.closed) + chain_octets(b.open.take(i))
}

/// The notes agree with the builder: every closed triple has the span of
/// its size, every open triple began where the sizes of all before it
/// end, and the decoder has come as far as the sizes of all triples reach.
pub open spec fn matched(b: BuilderView, s: Spans) -> bool {
    &&& s.closed == forest_sizes(b.closed)
    &&& s.open.len() == b.open.len()
    &&& s.position == forest_octets(b.closed) + chain_octets(b.open)
    &&& forall|i: int|
        0 <= i < b.open.len() ==> {
            &&& (#[trigger] s.open[i]).children == children_sizes(b.open[i])
            &&& s.open[i].start == began_at(b, i)
        }
}

proof fn lemma_forest_sizes_prefix(nodes: Seq<NodeView>, more: NodeView, upto: nat)
    requires
        upto <= nodes.len(),
    ensures
        forest_sizes_upto(nodes.push(more), upto) == forest_sizes_upto(nodes, upto),
    decreases upto,
{
    if upto > 0 {
        lemma_forest_sizes_prefix(nodes, more, (upto - 1) as nat);
        assert(nodes.push(more)[upto - 1] == nodes[upto - 1]);
    }
}

proof fn lemma_forest_sizes_push(nodes: Seq<NodeView>, more: NodeView)
    ensures
        forest_sizes(nodes.push(more)) == forest_sizes(nodes).push(sizes_of(more)),
{
    lemma_forest_sizes_prefix(nodes, more, nodes.len());
    assert(nodes.push(more)[nodes.len() as int] == more);
}

proof fn lemma_with_child_sizes(parent: NodeView, child: NodeView)
    requires
        can_parent(parent),
    ensures
        children_sizes(with_child(parent, child)) == children_sizes(parent).push(
            sizes_of(child),
        ),
{
    match parent.content {
        Some(ContentView::Constructed(children)) => {
            lemma_forest_sizes_push(children, child);
        },
        _ => {
            lemma_forest_sizes_push(Seq::<NodeView>::empty(), child);
            assert(Seq::<NodeView>::empty().push(child) =~= seq![child]);
        },
    }
}

/// The sizes of a chain are those of all but its innermost triple, and
/// that of the innermost.
proof fn lemma_chain_octets_last(chain: Seq<NodeView>)
    requires
        chain.len() > 0,
    ensures
        chain_octets(chain) == chain_octets(chain.take(chain.len() - 1)) + node_octets(
            chain.last(),
        ),
{
    assert(chain.drop_last() =~= chain.take(chain.len() - 1));
}

/// Closing the innermost open triple keeps the notes in agreement with the
/// builder: the span that is noted for the triple is its size.
proof fn lemma_close_matched(b: BuilderView, s: Spans)
    requires
        well_chained(b),
        matched(b, s),
        b.open.len() > 0,
    ensures
        matched(close_innermost(b), close_innermost_span(s)),
        close_innermost_span(s).position == s.position,
{
    let n = b.open.len() as int;
    let top = b.open[n - 1];
    let after = close_innermost(b);
    let noted = close_innermost_span(s);
    let done = SpanTree {
        octets: (s.position - s.open.last().start) as nat,
        children: s.open.last().children,
    };
    lemma_chain_octets_last(b.open);
    assert(s.open[n - 1].start == began_at(b, n - 1));
    assert(s.open[n - 1].children == children_sizes(top));
    assert(done == sizes_of(top));
    if n == 1 {
        lemma_forest_sizes_push(b.closed, top);
        lemma_forest_octets_push(b.closed, top);
        assert(b.open.take(0) =~= Seq::<NodeView>::empty());
        assert(chain_octets(b.open.take(0)) == 0);
        assert(chain_octets(after.open) == 0);
    } else {
        let parent = b.open[n - 2];
        let joined = with_child(parent, top);
        let below = b.open.take(n - 2);
        assert(can_parent(parent));
        lemma_with_child_sizes(parent, top);
        lemma_with_child_octets(parent, top);
        let shorter = b.open.take(n - 1);
        lemma_chain_octets_last(shorter);
        assert(shorter.take(n - 2) =~= below);
        assert(shorter.last() == parent);
        assert(after.open == below.push(joined));
        lemma_chain_octets_last(after.open);
        assert(after.open.take(n - 2) =~= below);
        assert(after.open.last() == joined);
        assert(chain_octets(after.open) == chain_octets(b.open));
        assert(s.open[n - 2].start == began_at(b, n - 2));
        assert(s.open[n - 2].children == children_sizes(parent));
        assert forall|i: int| 0 <= i < after.open.len() implies {
            &&& (#[trigger] noted.open[i]).children == children_sizes(after.open[i])
            &&& noted.open[i].start == began_at(after, i)
        } by {
            assert(after.open.take(i) =~= b.open.take(i));
            if i < n - 2 {
                assert(noted.open[i] == s.open[i]);
                assert(after.open[i] == b.open[i]);
                assert(s.open[i].start == began_at(b, i));
            }
        }
    }
}

/// Closing what takes no more keeps the notes in agreement with the
/// builder, and the place where it is.
proof fn lemma_settled_matched(b: BuilderView, s: Spans)
    requires
        well_chained(b),
        matched(b, s),
    ensures
        matched(settled(b), settled_spans(b, s)),
        settled_spans(b, s).position == s.position,
    decreases b.open.len(),
{
    if b.open.len() > 0 && takes_no_more(b.open.last()) {
        lemma_close_matched(b, s);
        lemma_close_innermost_well_chained(b);
        lemma_settled_matched(close_innermost(b), close_innermost_span(s));
    }
}

/// Notes that agree with the builder give, for the whole forest, the size
/// of every triple as its span.
proof fn lemma_spans_of_matched(b: BuilderView, s: Spans)
    requires
        well_chained(b),
        matched(b, s),
    ensures
        spans_of(s) == forest_sizes(forest_of(b)),
    decreases b.open.len(),
{
    if b.open.len() > 0 {
        lemma_close_matched(b, s);
        lemma_close_innermost_well_chained(b);
        lemma_spans_of_matched(close_innermost(b), close_innermost_span(s));
    }
}

/// Replacing the innermost open triple by one with the same children, and
/// moving on by what the new one is larger, keeps the notes in agreement.
proof fn lemma_replace_matched(b: BuilderView, s: Spans, top: NodeView, read: nat)
    requires
        matched(b, s),
        b.open.len() > 0,
        children_sizes(top) == children_sizes(b.open.last()),
        node_octets(top) == node_octets(b.open.last()) + read,
    ensures
        matched(
            BuilderView { closed: b.closed, open: b.open.drop_last().push(top) },
            Spans { position: s.position + read, closed: s.closed, open: s.open },
        ),
{
    let n = b.open.len() as int;
    let after = BuilderView { closed: b.closed, open: b.open.drop_last().push(top) };
    let noted = Spans { position: s.position + read, closed: s.closed, open: s.open };
    lemma_chain_octets_last(b.open);
    lemma_chain_octets_last(after.open);
    assert(after.open.take(n - 1) =~= b.open.take(n - 1));
    assert(after.open.last() == top);
    assert forall|i: int| 0 <= i < after.open.len() implies {
        &&& (#[trigger] noted.open[i]).children == children_sizes(after.open[i])
        &&& noted.open[i].start == began_at(after, i)
    } by {
        assert(after.open.take(i) =~= b.open.take(i));
        assert(s.open[i].start == began_at(b, i));
        if i < n - 1 {
            assert(after.open[i] == b.open[i]);
        }
    }
}

/// A move that reads as many octets as it counts keeps the notes in
/// agreement with the builder.
proof fn lemma_step_matched(m: MachineView, s: Spans)
    requires
        coherent(m),
        reads_as_counted(m),
        matched(m.output, s),
    ensures
        match step(m) {
            Ok(next) => matched(next.output, step_spans(m, s)),
            Err(_) => true,
        },
{
    match step(m) {
        Ok(next) => {
            let noted = step_spans(m, s);
            let read = (m.input.len() - next.input.len()) as nat;
            match m.state {
                ParserState::ParseIdentifier => {
                    let b = settled(m.output);
                    let t = settled_spans(m.output, s);
                    let fresh = next.output.open.last();
                    let n = b.open.len() as int;
                    lemma_read_identifier_bounds(m.input);
                    lemma_settled_well_chained(m.output);
                    lemma_settled_matched(m.output, s);
                    lemma_chain_octets_last(next.output.open);
                    assert(next.output.open.take(n) =~= b.open);
                    assert(node_octets(fresh) == identifier_octets(fresh.identifier));
                    assert(children_sizes(fresh) =~= Seq::<SpanTree>::empty());
                    assert forall|i: int| 0 <= i < next.output.open.len() implies {
                        &&& (#[trigger] noted.open[i]).children == children_sizes(
                            next.output.open[i],
                        )
                        &&& noted.open[i].start == began_at(next.output, i)
                    } by {
                        if i < n {
                            assert(next.output.open.take(i) =~= b.open.take(i));
                            assert(noted.open[i] == t.open[i]);
                            assert(next.output.open[i] == b.open[i]);
                            assert(t.open[i].start == began_at(b, i));
                        }
                    }
                },
                ParserState::ParseLength => {
                    let before = m.output.open.last();
                    let top = next.output.open.last();
                    assert(node_content_octets(top) == node_content_octets(before));
                    assert(node_octets(top) == node_octets(before) + length_octets(
                        top.length->Some_0,
                    ));
                    lemma_replace_matched(m.output, s, top, read);
                },
                ParserState::ParseContent => {
                    let before = m.output.open.last();
                    if before.identifier.data_type == DataType::Primitive {
                        if next.output != m.output {
                            let top = next.output.open.last();
                            assert(node_content_octets(before) == 0);
                            assert(node_content_octets(top) == content_octets(
                                top.content->Some_0,
                            ));
                            lemma_replace_matched(m.output, s, top, read);
                        } else {
                            assert(read == 0);
                        }
                    }
                },
                _ => {},
            }
        },
        Err(_) => {},
    }
}

/// From a coherent state on, with notes that agree with the builder, a
/// parse whose every move reads as many octets as it counts gives the
/// size of every triple as its span.
pub proof fn lemma_run_spans(m: MachineView, s: Spans)
    requires
        coherent(m),
        all_read_as_counted(m),
        matched(m.output, s),
    ensures
        match run(m) {
            Ok(outcome) => run_spans(m, s) == forest_sizes(outcome.forest),
            Err(_) => true,
        },
    decreases m.input.len(), rank(m.state),
{
    if m.state == ParserState::Finished {
        lemma_spans_of_matched(m.output, s);
    } else {
        match step(m) {
            Ok(next) => {
                lemma_step_progress(m);
                lemma_step_coherent(m);
                lemma_step_matched(m, s);
                lemma_run_spans(next, step_spans(m, s));
            },
            Err(_) => {},
        }
    }
}

/// Tree containment, triple by triple: where every part of the input is
/// spelled as it is counted, every triple of the forest that a parse
/// yields, at every level, has for its serialized size the span of input
/// from the place at which its identifier began to the place at which the
/// last of its content ended.
pub proof fn lemma_every_span_is_the_size(input: Seq<u8>)
    requires
        all_read_as_counted(at_start(input)),
    ensures
        match parse_of(input) {
            Ok(outcome) => parse_spans(input) == forest_sizes(outcome.forest),
            Err(_) => true,
        },
{
    let start = at_start(input);
    let notes = Spans { position: 0, closed: Seq::empty(), open: Seq::empty() };
    lemma_start_coherent(input);
    assert(forest_sizes(start.output.closed) =~= Seq::<SpanTree>::empty());
    lemma_run_spans(start, notes);
}

} // verus!
