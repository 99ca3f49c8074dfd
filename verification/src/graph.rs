//! The capability interface a concrete graph representation must satisfy to
//! be canonicalized, together with the mathematical model of a graph that
//! every contract of this crate speaks about.
//!
//! A node is identified by an opaque `u64`; the identifier is only used to
//! navigate the source graph and never appears in the canonical form. Labels,
//! relationship types and property keys and values are strings; a property
//! value must already be rendered to its one deterministic textual form by
//! the representation.

use vstd::prelude::*;

verus! {

/// Mathematical model of one relationship: the identifier of the node at the
/// far end (the target when the relationship is read as outgoing, the source
/// when it is read as incoming), its optional type rendered as a string (an
/// absent type is the empty string), and its property entries.
pub ghost struct RelModel {
    pub other: u64,
    pub rel_type: Seq<char>,
    pub props: Seq<(Seq<char>, Seq<char>)>,
}

/// Mathematical model of a graph as the capability interface presents it:
/// the node enumeration, and per node identifier its labels, its property
/// entries, and its outgoing and incoming relationships. Only identifiers
/// that occur in `nodes` are meaningful arguments to the four maps.
pub ghost struct GraphModel {
    pub nodes: Seq<u64>,
    pub labels: spec_fn(u64) -> Seq<Seq<char>>,
    pub props: spec_fn(u64) -> Seq<(Seq<char>, Seq<char>)>,
    pub rels: spec_fn(u64) -> Seq<RelModel>,
    pub in_rels: spec_fn(u64) -> Seq<RelModel>,
}

/// One relationship as the capability interface hands it out.
#[derive(Clone)]
pub struct Relationship {
    /// The node at the far end: the target for an outgoing relationship, the
    /// source for an incoming one.
    pub other: u64,
    /// The relationship type; an absent type is the empty string.
    pub rel_type: String,
    /// The relationship's property entries, keys unique.
    pub properties: Vec<(String, String)>,
}

impl View for Relationship {
    type V = RelModel;

    open spec fn view(&self) -> RelModel {
        RelModel {
            other: self.other,
            rel_type: self.rel_type@,
            props: self.properties.deep_view(),
        }
    }
}

impl DeepView for Relationship {
    type V = RelModel;

    open spec fn deep_view(&self) -> RelModel {
        self.view()
    }
}

/// Property keys are unique within one mapping.
pub open spec fn keys_unique(props: Seq<(Seq<char>, Seq<char>)>) -> bool {
    forall|p: int, q: int|
        0 <= p < q < props.len() ==> (#[trigger] props[p]).0 != (#[trigger] props[q]).0
}

/// Every relationship of the list has unique property keys.
pub open spec fn rels_keys_unique(rels: Seq<RelModel>) -> bool {
    forall|j: int| 0 <= j < rels.len() ==> keys_unique((#[trigger] rels[j]).props)
}

/// The relationships of one outgoing list that point at `n`, read back as
/// incoming entries of `n`: the far end becomes the source `m`; type and
/// properties stay.
pub open spec fn incoming_from(rels: Seq<RelModel>, m: u64, n: u64) -> Seq<RelModel>
    decreases rels.len(),
{
    if rels.len() == 0 {
        Seq::empty()
    } else {
        let head = incoming_from(rels.drop_last(), m, n);
        let r = rels.last();
        if r.other == n {
            head + seq![RelModel { other: m, rel_type: r.rel_type, props: r.props }]
        } else {
            head
        }
    }
}

/// All incoming entries of `n`, collected from the outgoing lists of the
/// nodes of `srcs` in order.
pub open spec fn incoming_over(g: GraphModel, srcs: Seq<u64>, n: u64) -> Seq<RelModel>
    decreases srcs.len(),
{
    if srcs.len() == 0 {
        Seq::empty()
    } else {
        incoming_over(g, srcs.drop_last(), n) + incoming_from(
            (g.rels)(srcs.last()),
            srcs.last(),
            n,
        )
    }
}

/// The incoming lists are the transpose of the outgoing lists: for every
/// enumerated node, its incoming relationships are, as a bag, exactly the
/// outgoing relationships of all enumerated nodes whose far end is that
/// node, with the far end read back as the source. Multiplicity is
/// preserved, so parallel relationships stay distinct, a self-loop of a node
/// stands once in each of that node's two lists, and over the whole graph
/// both directions recover the same bag of relationships.
pub open spec fn in_rels_consistent(g: GraphModel) -> bool {
    forall|i: int|
        0 <= i < g.nodes.len() ==> ((g.in_rels)(#[trigger] g.nodes[i])).to_multiset()
            == incoming_over(g, g.nodes, g.nodes[i]).to_multiset()
}

/// Every relationship leaving a node that `g.nodes` enumerates points at a
/// node that `g.nodes` enumerates.
pub open spec fn node_rels_closed(g: GraphModel, n: u64) -> bool {
    forall|j: int| 0 <= j < (g.rels)(n).len() ==> g.nodes.contains(#[trigger] (g.rels)(n)[j].other)
}

/// A well-formed graph: no relationship references a node identifier absent
/// from the node enumeration.
pub open spec fn graph_wf(g: GraphModel) -> bool {
    forall|i: int| 0 <= i < g.nodes.len() ==> node_rels_closed(g, #[trigger] g.nodes[i])
}

/// The one failure the canonicalizer can report: a relationship referenced a
/// node identifier that the node enumeration does not contain, which signals
/// a malformed backing graph.
#[derive(Clone, Copy, Debug, PartialEq, Eq, Structural)]
pub enum GraphError {
    NodeNotFound,
}

/// The read-only capability contract a concrete graph representation must
/// expose to be comparable. Each method materializes one finite enumeration
/// of the abstract model `self.model()`; a fresh call returns the same
/// enumeration again.
///
/// The four lookups are specified only for identifiers that the node
/// enumeration contains, and the canonicalizer calls them on no others. The
/// one failure mode of this layer — a relationship endpoint absent from the
/// enumeration — is therefore deliberately surfaced not by the lookups but
/// by [`crate::canonicalize`], which detects every dangling endpoint itself
/// and is proved to return [`GraphError::NodeNotFound`] exactly then, rather
/// than crashing the process.
pub trait Graph {
    /// The abstract content of this graph. Every verified implementation
    /// overrides this with its own model; the default leaves it unspecified,
    /// so that representations outside the verified world can satisfy the
    /// interface without naming one.
    open spec fn model(&self) -> GraphModel {
        vstd::pervasive::arbitrary()
    }

    /// All node identifiers, each appearing exactly once.
    fn nodes(&self) -> (r: Vec<u64>)
        ensures
            r@ == self.model().nodes,
            r@.no_duplicates(),
    ;

    /// A node's labels, in no particular order.
    fn node_labels(&self, node_id: u64) -> (r: Vec<String>)
        requires
            self.model().nodes.contains(node_id),
        ensures
            r.deep_view() == (self.model().labels)(node_id),
    ;

    /// A node's property entries as key and rendered value, keys unique, in
    /// no particular order.
    fn node_properties(&self, node_id: u64) -> (r: Vec<(String, String)>)
        requires
            self.model().nodes.contains(node_id),
        ensures
            r.deep_view() == (self.model().props)(node_id),
            keys_unique(r.deep_view()),
    ;

    /// Every relationship whose source is `node_id`, `other` being the
    /// target; parallel relationships appear as distinct entries, and each
    /// relationship's property keys are unique.
    fn outgoing_relationships(&self, node_id: u64) -> (r: Vec<Relationship>)
        requires
            self.model().nodes.contains(node_id),
        ensures
            r.deep_view() == (self.model().rels)(node_id),
            rels_keys_unique(r.deep_view()),
    ;

    /// Every relationship whose target is `node_id`, `other` being the
    /// source: the symmetric counterpart of `outgoing_relationships`, as
    /// `in_rels_consistent` states it. Parallel relationships appear as
    /// distinct entries, and each relationship's property keys are unique.
    fn incoming_relationships(&self, node_id: u64) -> (r: Vec<Relationship>)
        requires
            self.model().nodes.contains(node_id),
        ensures
            r.deep_view() == (self.model().in_rels)(node_id),
            rels_keys_unique(r.deep_view()),
            in_rels_consistent(self.model()),
    ;
}

} // verus!
