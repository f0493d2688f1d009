//! The builder that stitches identifiers, lengths and contents, as they
//! arrive, into a forest of triples.
//!
//! While a triple can still take children it is open. The open triples form
//! a chain, each the youngest child of the one before; the builder keeps
//! every open triple apart from its parent and hangs it in when it closes.

use super::tlv::{
    forest_identifiers, forest_identifiers_upto, forest_view, length_limit_reached,
    node_identifiers, Content, ContentView, DataType, EncodingData, Identifier, Length, NodeView,
};
use vstd::prelude::*;

verus! {

/// What a builder stands for: the top-level triples that are closed, in
/// order, and the chain of open triples, outermost first. Each open triple
/// is the youngest child to be of the one before it, and the first is the
/// youngest top-level triple to be.
pub struct BuilderView {
    pub closed: Seq<NodeView>,
    pub open: Seq<NodeView>,
}

/// `parent` with `child` as its youngest child. A parent whose content is
/// not a list of triples gets a list that holds just the child.
pub open spec fn with_child(parent: NodeView, child: NodeView) -> NodeView {
    NodeView {
        identifier: parent.identifier,
        length: parent.length,
        content: Some(
            ContentView::Constructed(
                match parent.content {
                    Some(ContentView::Constructed(children)) => children.push(child),
                    _ => seq![child],
                },
            ),
        ),
    }
}

/// Whether a triple takes no further children: it is primitive, or it has
/// all the content that its length announces.
pub open spec fn takes_no_more(n: NodeView) -> bool {
    n.identifier.data_type == DataType::Primitive || length_limit_reached(n)
}

/// The builder after its innermost open triple was closed: hung into the
/// open triple before it, or put behind the closed top-level triples.
pub open spec fn close_innermost(b: BuilderView) -> BuilderView
    recommends
        b.open.len() > 0,
{
    if b.open.len() == 1 {
        BuilderView { closed: b.closed.push(b.open[0]), open: Seq::empty() }
    } else {
        let parent = b.open[b.open.len() - 2];
        let child = b.open[b.open.len() - 1];
        BuilderView {
            closed: b.closed,
            open: b.open.take(b.open.len() - 2).push(with_child(parent, child)),
        }
    }
}

/// The builder after every open triple that takes no further children was
/// closed, from the innermost outwards, up to the first that still does.
pub open spec fn settled(b: BuilderView) -> BuilderView
    decreases b.open.len(),
{
    if b.open.len() > 0 && takes_no_more(b.open.last()) {
        settled(close_innermost(b))
    } else {
        b
    }
}

/// The builder after a new identifier arrived: what takes no more is
/// closed, and a fresh triple with that identifier becomes the innermost
/// open one.
pub open spec fn after_identifier(b: BuilderView, identifier: Identifier) -> BuilderView {
    let s = settled(b);
    BuilderView {
        closed: s.closed,
        open: s.open.push(NodeView { identifier, length: None, content: None }),
    }
}

/// The builder after the innermost open triple got the length `length`.
pub open spec fn after_length(b: BuilderView, length: Length) -> BuilderView
    recommends
        b.open.len() > 0,
{
    let top = b.open.last();
    BuilderView {
        closed: b.closed,
        open: b.open.drop_last().push(
            NodeView { identifier: top.identifier, length: Some(length), content: top.content },
        ),
    }
}

/// The builder after the innermost open triple got the content `content`.
pub open spec fn after_content(b: BuilderView, content: ContentView) -> BuilderView
    recommends
        b.open.len() > 0,
{
    let top = b.open.last();
    BuilderView {
        closed: b.closed,
        open: b.open.drop_last().push(
            NodeView { identifier: top.identifier, length: top.length, content: Some(content) },
        ),
    }
}

/// The whole forest that a builder holds: its top-level triples once every
/// open triple is closed.
pub open spec fn forest_of(b: BuilderView) -> Seq<NodeView>
    decreases b.open.len(),
{
    if b.open.len() > 0 {
        forest_of(close_innermost(b))
    } else {
        b.closed
    }
}

/// The identifiers of all the triples that a builder holds, in the order
/// of the stream.
pub open spec fn arrivals(b: BuilderView) -> Seq<Identifier> {
    forest_identifiers(forest_of(b))
}

/// The identifiers of the triples of a chain and of all the triples
/// nested in them, one triple of the chain after the other.
pub open spec fn chain_identifiers(chain: Seq<NodeView>) -> Seq<Identifier>
    decreases chain.len(),
{
    if chain.len() == 0 {
        Seq::empty()
    } else {
        chain_identifiers(chain.drop_last()) + node_identifiers(chain.last())
    }
}

proof fn lemma_forest_identifiers_prefix(nodes: Seq<NodeView>, more: NodeView, upto: nat)
    requires
        upto <= nodes.len(),
    ensures
        forest_identifiers_upto(nodes.push(more), upto) == forest_identifiers_upto(nodes, upto),
    decreases upto,
{
    if upto > 0 {
        lemma_forest_identifiers_prefix(nodes, more, (upto - 1) as nat);
        assert(nodes.push(more)[upto - 1] == nodes[upto - 1]);
    }
}

/// A triple put behind a forest comes last, with all that is nested in
/// it.
pub proof fn lemma_forest_identifiers_push(nodes: Seq<NodeView>, more: NodeView)
    ensures
        forest_identifiers(nodes.push(more)) == forest_identifiers(nodes) + node_identifiers(
            more,
        ),
{
    lemma_forest_identifiers_prefix(nodes, more, nodes.len());
    assert(nodes.push(more)[nodes.len() as int] == more);
}

/// A youngest child comes behind its parent and all its elder siblings.
pub proof fn lemma_with_child_identifiers(parent: NodeView, child: NodeView)
    ensures
        node_identifiers(with_child(parent, child)) == node_identifiers(parent)
            + node_identifiers(child),
{
    let joined = with_child(parent, child);
    match parent.content {
        Some(ContentView::Constructed(children)) => {
            lemma_forest_identifiers_push(children, child);
            assert(seq![parent.identifier] + (forest_identifiers(children) + node_identifiers(
                child,
            )) =~= (seq![parent.identifier] + forest_identifiers(children)) + node_identifiers(
                child,
            ));
        },
        _ => {
            lemma_forest_identifiers_push(Seq::<NodeView>::empty(), child);
            assert(Seq::<NodeView>::empty().push(child) =~= seq![child]);
            assert(forest_identifiers(Seq::<NodeView>::empty()) =~= Seq::<Identifier>::empty());
            assert(node_identifiers(parent) =~= seq![parent.identifier]);
            assert(seq![parent.identifier] + (Seq::<Identifier>::empty() + node_identifiers(
                child,
            )) =~= seq![parent.identifier] + node_identifiers(child));
        },
    }
}

/// The identifiers that a builder holds are those of its closed triples,
/// then those of its open triples from the outermost inwards.
pub proof fn lemma_arrivals_by_parts(b: BuilderView)
    ensures
        arrivals(b) == forest_identifiers(b.closed) + chain_identifiers(b.open),
    decreases b.open.len(),
{
    let n = b.open.len();
    if n == 0 {
        assert(forest_identifiers(b.closed) + Seq::<Identifier>::empty() =~= forest_identifiers(
            b.closed,
        ));
    } else {
        let next = close_innermost(b);
        lemma_arrivals_by_parts(next);
        assert(forest_of(b) == forest_of(next));
        if n == 1 {
            lemma_forest_identifiers_push(b.closed, b.open[0]);
            assert(b.open.drop_last() =~= Seq::<NodeView>::empty());
            assert(chain_identifiers(b.open.drop_last()) =~= Seq::<Identifier>::empty());
            assert(b.open.last() == b.open[0]);
            assert(chain_identifiers(b.open) =~= node_identifiers(b.open[0]));
            assert(next.open.len() == 0);
            assert(chain_identifiers(next.open) =~= Seq::<Identifier>::empty());
            assert(forest_identifiers(next.closed) + Seq::<Identifier>::empty()
                =~= forest_identifiers(next.closed));
        } else {
            let parent = b.open[n - 2];
            let child = b.open[n - 1];
            let below = b.open.take(n - 2);
            let joined = with_child(parent, child);
            lemma_with_child_identifiers(parent, child);
            assert(next.open == below.push(joined));
            assert(next.open.len() == n - 1);
            assert(next.open.drop_last() =~= below);
            assert(next.open.last() == joined);
            assert(chain_identifiers(next.open) == chain_identifiers(below) + node_identifiers(
                joined,
            ));
            let shorter = b.open.drop_last();
            assert(shorter.len() == n - 1);
            assert(shorter.drop_last() =~= below);
            assert(shorter.last() == parent);
            assert(chain_identifiers(shorter) == chain_identifiers(below) + node_identifiers(
                parent,
            ));
            assert(b.open.last() == child);
            assert(chain_identifiers(b.open) == chain_identifiers(shorter) + node_identifiers(
                child,
            ));
            assert(chain_identifiers(below) + (node_identifiers(parent) + node_identifiers(child))
                =~= (chain_identifiers(below) + node_identifiers(parent)) + node_identifiers(
                child,
            ));
        }
    }
}

/// Closing what takes no more leaves the forest as it is.
pub proof fn lemma_settled_forest(b: BuilderView)
    ensures
        forest_of(settled(b)) == forest_of(b),
    decreases b.open.len(),
{
    if b.open.len() > 0 && takes_no_more(b.open.last()) {
        lemma_settled_forest(close_innermost(b));
    }
}

/// Builder ordering: an identifier that arrives comes behind all that
/// arrived before it, at every level of the forest.
pub proof fn lemma_identifier_arrives_last(b: BuilderView, identifier: Identifier)
    ensures
        arrivals(after_identifier(b, identifier)) == arrivals(b).push(identifier),
{
    let s = settled(b);
    let after = after_identifier(b, identifier);
    let fresh = NodeView { identifier, length: None, content: None };
    lemma_settled_forest(b);
    lemma_arrivals_by_parts(s);
    lemma_arrivals_by_parts(after);
    assert(after.open.drop_last() =~= s.open);
    assert(node_identifiers(fresh) =~= seq![identifier]);
    assert(forest_identifiers(s.closed) + (chain_identifiers(s.open) + seq![identifier]) =~= (
    forest_identifiers(s.closed) + chain_identifiers(s.open)).push(identifier));
}

/// A length changes no identifier and no order.
pub proof fn lemma_length_keeps_arrivals(b: BuilderView, length: Length)
    requires
        b.open.len() > 0,
    ensures
        arrivals(after_length(b, length)) == arrivals(b),
{
    let after = after_length(b, length);
    lemma_arrivals_by_parts(b);
    lemma_arrivals_by_parts(after);
    assert(after.open.drop_last() =~= b.open.drop_last());
}

/// A content without nested triples, set on a triple without children,
/// changes no identifier and no order.
pub proof fn lemma_content_keeps_arrivals(b: BuilderView, content: ContentView)
    requires
        b.open.len() > 0,
        !(content is Constructed),
        !(b.open.last().content is Some && b.open.last().content->Some_0 is Constructed),
    ensures
        arrivals(after_content(b, content)) == arrivals(b),
{
    let after = after_content(b, content);
    lemma_arrivals_by_parts(b);
    lemma_arrivals_by_parts(after);
    assert(after.open.drop_last() =~= b.open.drop_last());
}

/// Accumulates the triples of a stream into a forest.
pub struct EncodingDataOutputBuilder {
    _list_of_data: Vec<EncodingData>,
    _data_stack: Vec<EncodingData>,
}

impl View for EncodingDataOutputBuilder {
    type V = BuilderView;

    closed spec fn view(&self) -> BuilderView {
        BuilderView {
            closed: forest_view(self._list_of_data@),
            open: forest_view(self._data_stack@),
        }
    }
}

/// Hangs `child` into `parent` as its youngest child.
fn attach(parent: EncodingData, child: EncodingData) -> (r: EncodingData)
    ensures
        r@ == with_child(parent@, child@),
{
    let EncodingData { identifier, length, content } = parent;
    let ghost before = parent@.content;
    let children = match content {
        Some(Content::Constructed(mut list)) => {
            assert(before == Some(ContentView::Constructed(forest_view(list@))));
            let ghost earlier = list@;
            list.push(child);
            assert(forest_view(list@) =~= forest_view(earlier).push(child@));
            list
        },
        _ => {
            let mut list: Vec<EncodingData> = Vec::new();
            list.push(child);
            assert(forest_view(list@) =~= seq![child@]);
            list
        },
    };
    EncodingData { identifier, length, content: Some(Content::Constructed(children)) }
}

impl EncodingDataOutputBuilder {
    /// A builder that holds nothing.
    pub fn new() -> (r: EncodingDataOutputBuilder)
        ensures
            r@.closed.len() == 0,
            r@.open.len() == 0,
    {
        EncodingDataOutputBuilder { _list_of_data: Vec::new(), _data_stack: Vec::new() }
    }

    /// Closes the innermost open triple.
    fn close_innermost(&mut self)
        requires
            old(self)@.open.len() > 0,
        ensures
            final(self)@ == close_innermost(old(self)@),
    {
        let ghost closed = self._list_of_data@;
        let ghost open = self._data_stack@;
        let child = self._data_stack.pop().unwrap();
        match self._data_stack.pop() {
            None => {
                self._list_of_data.push(child);
                assert(forest_view(self._list_of_data@) =~= forest_view(closed).push(child@));
                assert(forest_view(self._data_stack@) =~= Seq::<NodeView>::empty());
            },
            Some(parent) => {
                let joined = attach(parent, child);
                self._data_stack.push(joined);
                assert(forest_view(self._data_stack@) =~= forest_view(open).take(
                    open.len() - 2,
                ).push(with_child(parent@, child@)));
            },
        }
    }

    /// Takes in the identifier of the next triple of the stream. Every open
    /// triple that takes no further children is closed first, from the
    /// innermost outwards; the new triple then becomes the youngest child
    /// of the innermost triple still open, or the youngest top-level
    /// triple, and is itself the innermost open triple.
    pub fn add_identifier(&mut self, identifier: Identifier)
        ensures
            final(self)@ == after_identifier(old(self)@, identifier),
            arrivals(final(self)@) == arrivals(old(self)@).push(identifier),
    {
        proof {
            lemma_identifier_arrives_last(self@, identifier);
        }
        loop
            invariant
                settled(self@) == settled(old(self)@),
            ensures
                self@ == settled(old(self)@),
            decreases self@.open.len(),
        {
            let full = match self.get_cur_data() {
                Some(top) => match top.identifier.data_type {
                    DataType::Primitive => true,
                    DataType::Constructed => top.is_length_limit_reached(),
                },
                None => false,
            };
            if !full {
                break ;
            }
            self.close_innermost();
        }
        let ghost open = self._data_stack@;
        let fresh = EncodingData::new(identifier);
        self._data_stack.push(fresh);
        assert(forest_view(self._data_stack@) =~= forest_view(open).push(fresh@));
    }

    /// Gives the innermost open triple its length.
    pub fn add_length(&mut self, length: Length)
        requires
            old(self)@.open.len() > 0,
        ensures
            final(self)@ == after_length(old(self)@, length),
            arrivals(final(self)@) == arrivals(old(self)@),
    {
        proof {
            lemma_length_keeps_arrivals(self@, length);
        }
        let ghost open = self._data_stack@;
        let EncodingData { identifier, length: _, content } = self._data_stack.pop().unwrap();
        let top = EncodingData { identifier, length: Some(length), content };
        self._data_stack.push(top);
        assert(forest_view(self._data_stack@) =~= forest_view(open).drop_last().push(top@));
    }

    /// Gives the innermost open triple its content.
    pub fn add_content(&mut self, content: Content)
        requires
            old(self)@.open.len() > 0,
        ensures
            final(self)@ == after_content(old(self)@, content@),
            !(content@ is Constructed) && !(old(self)@.open.last().content is Some && old(
                self,
            )@.open.last().content->Some_0 is Constructed) ==> arrivals(final(self)@) == arrivals(
                old(self)@,
            ),
    {
        proof {
            if !(content@ is Constructed) && !(self@.open.last().content is Some
                && self@.open.last().content->Some_0 is Constructed) {
                lemma_content_keeps_arrivals(self@, content@);
            }
        }
        let ghost open = self._data_stack@;
        let EncodingData { identifier, length, content: _ } = self._data_stack.pop().unwrap();
        let top = EncodingData { identifier, length, content: Some(content) };
        self._data_stack.push(top);
        assert(forest_view(self._data_stack@) =~= forest_view(open).drop_last().push(top@));
    }

    /// Closes every open triple and hands out the forest.
    pub fn take_result(self) -> (r: Vec<EncodingData>)
        ensures
            forest_view(r@) == forest_of(self@),
    {
        let mut builder = self;
        while builder._data_stack.len() > 0
            invariant
                forest_of(builder@) == forest_of(self@),
            decreases builder@.open.len(),
        {
            builder.close_innermost();
        }
        builder._list_of_data
    }

    /// The innermost open triple, if any triple is open.
    pub fn get_cur_data(&self) -> (r: Option<&EncodingData>)
        ensures
            r is Some <==> self@.open.len() > 0,
            r is Some ==> r.unwrap()@ == self@.open.last(),
    {
        let n = self._data_stack.len();
        if n == 0 {
            None
        } else {
            Some(&self._data_stack[n - 1])
        }
    }
}

} // verus!
