//! The invariance laws of the canonical form, proved against the
//! specification in [`crate::canon`]: renaming node identifiers does not
//! change it, no enumeration order changes it, a self-loop appears in both
//! buckets of its node, and canonicalization is deterministic.

use crate::canon::{
    canonical_form, in_contrib, in_entries, in_entries_over, label_part, out_entries,
    out_entry_fn, prop_block, record, record_fn, records, render_in, render_out, render_prop_fn,
    signature,
};
use crate::graph::{
    graph_wf, in_rels_consistent, incoming_from, incoming_over, node_rels_closed, GraphModel,
    RelModel,
};
use crate::text::{dedup_strs, lemma_lex_leq_total_ordering, lex_leq_fn, sort_strs};
use vstd::prelude::*;

verus! {

/// Sorting depends only on the multiset of strings: any two enumerations of
/// the same strings sort to the same sequence.
pub proof fn lemma_sort_strs_congruent(a: Seq<Seq<char>>, b: Seq<Seq<char>>)
    requires
        a.to_multiset() == b.to_multiset(),
    ensures
        sort_strs(a) == sort_strs(b),
{
    lemma_lex_leq_total_ordering();
    a.lemma_sort_by_ensures(lex_leq_fn());
    b.lemma_sort_by_ensures(lex_leq_fn());
    vstd::seq_lib::lemma_sorted_unique(sort_strs(a), sort_strs(b), lex_leq_fn());
}

/// Mapping congruent functions over sequences with the same elements gives
/// the same multiset of images.
pub proof fn lemma_map_multiset_congruent<A, B>(
    a: Seq<A>,
    b: Seq<A>,
    f1: spec_fn(A) -> B,
    f2: spec_fn(A) -> B,
)
    requires
        a.to_multiset() == b.to_multiset(),
        forall|x: A| a.contains(x) ==> #[trigger] f1(x) == f2(x),
    ensures
        a.map_values(f1).to_multiset() == b.map_values(f2).to_multiset(),
    decreases a.len(),
{
    broadcast use vstd::seq_lib::group_to_multiset_ensures;
    broadcast use vstd::multiset::group_multiset_axioms;

    if a.len() == 0 {
        assert(a.to_multiset().len() == 0);
        assert(b.len() == 0);
        assert(a.map_values(f1) =~= Seq::<B>::empty());
        assert(b.map_values(f2) =~= Seq::<B>::empty());
    } else {
        let x = a.last();
        assert(a.contains(x));
        assert(b.to_multiset().count(x) > 0);
        assert(b.contains(x));
        let k = choose|k: int| 0 <= k < b.len() && b[k] == x;
        assert(a.remove(a.len() - 1) =~= a.drop_last());
        assert(a.drop_last().to_multiset() == a.to_multiset().remove(x));
        assert(b.remove(k).to_multiset() == b.to_multiset().remove(x));
        assert forall|y: A| a.drop_last().contains(y) implies #[trigger] f1(y) == f2(y) by {
            let q = choose|q: int| 0 <= q < a.drop_last().len() && a.drop_last()[q] == y;
            assert(a[q] == y);
            assert(a.contains(y));
        }
        lemma_map_multiset_congruent(a.drop_last(), b.remove(k), f1, f2);
        assert(a.map_values(f1) =~= a.drop_last().map_values(f1).push(f1(x)));
        assert(b.remove(k).map_values(f2) =~= b.map_values(f2).remove(k));
        let bm = b.map_values(f2);
        assert(bm[k] == f2(x));
        assert(bm.remove(k).to_multiset() == bm.to_multiset().remove(f2(x)));
        assert(bm.to_multiset().count(f2(x)) > 0) by {
            assert(bm.contains(f2(x)));
        }
        assert(a.map_values(f1).to_multiset() == a.drop_last().map_values(f1).to_multiset().insert(
            f1(x),
        ));
        assert(f1(x) == f2(x));
        assert(bm.to_multiset().remove(f2(x)).insert(f2(x)) =~= bm.to_multiset());
    }
}

/// Concatenation of the images of `h` over a sequence, from the front; the
/// shape both `in_contrib` and `in_entries_over` share.
pub open spec fn flat_of<A, B>(s: Seq<A>, h: spec_fn(A) -> Seq<B>) -> Seq<B>
    decreases s.len(),
{
    if s.len() == 0 {
        Seq::empty()
    } else {
        flat_of(s.drop_last(), h) + h(s.last())
    }
}

/// Removing one element of `s` removes exactly its image from the flattened
/// multiset.
pub proof fn lemma_flat_of_remove<A, B>(s: Seq<A>, k: int, h: spec_fn(A) -> Seq<B>)
    requires
        0 <= k < s.len(),
    ensures
        flat_of(s, h).to_multiset() == flat_of(s.remove(k), h).to_multiset().add(
            h(s[k]).to_multiset(),
        ),
    decreases s.len(),
{
    broadcast use vstd::multiset::group_multiset_axioms;

    vstd::seq_lib::lemma_multiset_commutative(flat_of(s.drop_last(), h), h(s.last()));
    if k == s.len() - 1 {
        assert(s.remove(k) =~= s.drop_last());
    } else {
        let t = s.drop_last();
        lemma_flat_of_remove(t, k, h);
        assert(s.remove(k).drop_last() =~= t.remove(k));
        assert(s.remove(k).last() == s.last());
        vstd::seq_lib::lemma_multiset_commutative(flat_of(t.remove(k), h), h(s.last()));
        assert(flat_of(s.remove(k), h).to_multiset() =~= flat_of(t.remove(k), h).to_multiset().add(
            h(s.last()).to_multiset(),
        ));
        assert(flat_of(s, h).to_multiset() =~= flat_of(s.remove(k), h).to_multiset().add(
            h(s[k]).to_multiset(),
        ));
    }
}

/// Flattening congruent functions over sequences with the same elements
/// gives the same multiset.
pub proof fn lemma_flat_of_multiset_congruent<A, B>(
    a: Seq<A>,
    b: Seq<A>,
    h1: spec_fn(A) -> Seq<B>,
    h2: spec_fn(A) -> Seq<B>,
)
    requires
        a.to_multiset() == b.to_multiset(),
        forall|x: A| a.contains(x) ==> (#[trigger] h1(x)).to_multiset() == h2(x).to_multiset(),
    ensures
        flat_of(a, h1).to_multiset() == flat_of(b, h2).to_multiset(),
    decreases a.len(),
{
    broadcast use vstd::seq_lib::group_to_multiset_ensures;
    broadcast use vstd::multiset::group_multiset_axioms;

    if a.len() == 0 {
        assert(a.to_multiset().len() == 0);
        assert(b.len() == 0);
    } else {
        let x = a.last();
        assert(a.contains(x));
        assert(b.to_multiset().count(x) > 0);
        assert(b.contains(x));
        let k = choose|k: int| 0 <= k < b.len() && b[k] == x;
        assert(a.remove(a.len() - 1) =~= a.drop_last());
        assert(a.drop_last().to_multiset() == a.to_multiset().remove(x));
        assert(b.remove(k).to_multiset() == b.to_multiset().remove(x));
        assert forall|y: A| a.drop_last().contains(y) implies (#[trigger] h1(y)).to_multiset()
            == h2(y).to_multiset() by {
            let q = choose|q: int| 0 <= q < a.drop_last().len() && a.drop_last()[q] == y;
            assert(a[q] == y);
            assert(a.contains(y));
        }
        lemma_flat_of_multiset_congruent(a.drop_last(), b.remove(k), h1, h2);
        vstd::seq_lib::lemma_multiset_commutative(flat_of(a.drop_last(), h1), h1(x));
        lemma_flat_of_remove(b, k, h2);
        assert(flat_of(a, h1).to_multiset() =~= flat_of(b, h2).to_multiset());
    }
}

/// The contribution of one relationship to the incoming bucket of `n`, as a
/// first-class function.
pub open spec fn contrib_fn(n: u64, source_sig: Seq<char>) -> spec_fn(RelModel) -> Seq<Seq<char>> {
    |r: RelModel|
        if r.other == n {
            seq![render_in(r.rel_type, r.props, source_sig)]
        } else {
            Seq::empty()
        }
}

/// `in_contrib` is the flattening of per-relationship contributions.
pub proof fn lemma_in_contrib_is_flat(rels: Seq<RelModel>, n: u64, sig: Seq<char>)
    ensures
        in_contrib(rels, n, sig) == flat_of(rels, contrib_fn(n, sig)),
    decreases rels.len(),
{
    if rels.len() == 0 {
        assert(in_contrib(rels, n, sig) =~= flat_of(rels, contrib_fn(n, sig)));
    } else {
        lemma_in_contrib_is_flat(rels.drop_last(), n, sig);
        assert(in_contrib(rels, n, sig) =~= flat_of(rels, contrib_fn(n, sig)));
    }
}

/// The contribution of one source node to the incoming bucket of `n`, as a
/// first-class function.
pub open spec fn node_contrib_fn(g: GraphModel, n: u64) -> spec_fn(u64) -> Seq<Seq<char>> {
    |m: u64| in_contrib((g.rels)(m), n, signature(g, m))
}

/// `in_entries_over` is the flattening of per-source contributions.
pub proof fn lemma_in_entries_over_is_flat(g: GraphModel, srcs: Seq<u64>, n: u64)
    ensures
        in_entries_over(g, srcs, n) == flat_of(srcs, node_contrib_fn(g, n)),
    decreases srcs.len(),
{
    if srcs.len() == 0 {
        assert(in_entries_over(g, srcs, n) =~= flat_of(srcs, node_contrib_fn(g, n)));
    } else {
        lemma_in_entries_over_is_flat(g, srcs.drop_last(), n);
        assert(in_entries_over(g, srcs, n) =~= flat_of(srcs, node_contrib_fn(g, n)));
    }
}

/// An identifier that the node enumeration contains has all its outgoing
/// relationships closed over the enumeration, in a well-formed graph.
pub proof fn lemma_wf_closed(g: GraphModel, id: u64)
    requires
        graph_wf(g),
        g.nodes.contains(id),
    ensures
        node_rels_closed(g, id),
{
    let i = choose|i: int| 0 <= i < g.nodes.len() && g.nodes[i] == id;
    assert(node_rels_closed(g, g.nodes[i]));
}

/// The canonical property block depends only on which property entries there
/// are, not on their enumeration order.
pub proof fn lemma_prop_block_congruent(
    a: Seq<(Seq<char>, Seq<char>)>,
    b: Seq<(Seq<char>, Seq<char>)>,
)
    requires
        a.to_multiset() == b.to_multiset(),
    ensures
        prop_block(a) == prop_block(b),
{
    lemma_map_multiset_congruent(a, b, render_prop_fn(), render_prop_fn());
    lemma_sort_strs_congruent(a.map_values(render_prop_fn()), b.map_values(render_prop_fn()));
}

/// The labels part depends only on the set of labels: reordering them, and
/// adding or removing duplicate occurrences, changes nothing, because they
/// are sorted and deduplicated before rendering.
pub proof fn lemma_label_part_set_congruent(a: Seq<Seq<char>>, b: Seq<Seq<char>>)
    requires
        forall|l: Seq<char>| a.contains(l) <==> #[trigger] b.contains(l),
    ensures
        label_part(a) == label_part(b),
{
    broadcast use vstd::seq_lib::group_to_multiset_ensures;

    lemma_lex_leq_total_ordering();
    a.lemma_sort_by_ensures(lex_leq_fn());
    b.lemma_sort_by_ensures(lex_leq_fn());
    crate::text::lemma_dedup_strs_sorted(sort_strs(a));
    crate::text::lemma_dedup_strs_sorted(sort_strs(b));
    assert forall|x: Seq<char>|
        dedup_strs(sort_strs(a)).contains(x) <==> #[trigger] dedup_strs(sort_strs(b)).contains(
            x,
        ) by {
        crate::text::lemma_dedup_strs_contains(sort_strs(a), x);
        crate::text::lemma_dedup_strs_contains(sort_strs(b), x);
        assert(sort_strs(a).contains(x) <==> a.contains(x)) by {
            a.to_multiset_ensures();
            sort_strs(a).to_multiset_ensures();
            assert(sort_strs(a).to_multiset() == a.to_multiset());
            assert(a.contains(x) <==> a.to_multiset().count(x) > 0);
            assert(sort_strs(a).contains(x) <==> sort_strs(a).to_multiset().count(x) > 0);
        }
        assert(sort_strs(b).contains(x) <==> b.contains(x)) by {
            b.to_multiset_ensures();
            sort_strs(b).to_multiset_ensures();
            assert(sort_strs(b).to_multiset() == b.to_multiset());
            assert(b.contains(x) <==> b.to_multiset().count(x) > 0);
            assert(sort_strs(b).contains(x) <==> sort_strs(b).to_multiset().count(x) > 0);
        }
    }
    crate::text::lemma_sorted_no_dup_set_unique(dedup_strs(sort_strs(a)), dedup_strs(sort_strs(b)));
}

/// A relationship's rendered entries do not depend on the enumeration order
/// of its property entries.
pub proof fn lemma_rel_prop_order_invariance(
    rel_type: Seq<char>,
    props1: Seq<(Seq<char>, Seq<char>)>,
    props2: Seq<(Seq<char>, Seq<char>)>,
    sig: Seq<char>,
)
    requires
        props1.to_multiset() == props2.to_multiset(),
    ensures
        render_out(rel_type, props1, sig) == render_out(rel_type, props2, sig),
        render_in(rel_type, props1, sig) == render_in(rel_type, props2, sig),
{
    lemma_prop_block_congruent(props1, props2);
}

/// Two models that assign a node the same set of labels and the same bag of
/// properties give it the same signature.
pub proof fn lemma_signature_congruent(g1: GraphModel, g2: GraphModel, id: u64)
    requires
        forall|l: Seq<char>|
            (g1.labels)(id).contains(l) <==> #[trigger] (g2.labels)(id).contains(l),
        ((g1.props)(id)).to_multiset() == ((g2.props)(id)).to_multiset(),
    ensures
        signature(g1, id) == signature(g2, id),
{
    lemma_label_part_set_congruent((g1.labels)(id), (g2.labels)(id));
    lemma_prop_block_congruent((g1.props)(id), (g2.props)(id));
}

/// Node records agree between two enumeration-order variants of one graph.
proof fn lemma_record_congruent(g1: GraphModel, g2: GraphModel, id: u64)
    requires
        graph_wf(g1),
        g1.nodes.contains(id),
        g1.nodes.to_multiset() == g2.nodes.to_multiset(),
        forall|m: u64, l: Seq<char>|
            g1.nodes.contains(m) ==> ((#[trigger] (g1.labels)(m).contains(l)) <==> (g2.labels)(
                m,
            ).contains(l)),
        forall|m: u64| #[trigger]
            g1.nodes.contains(m) ==> ((g1.props)(m)).to_multiset() == ((g2.props)(
                m,
            )).to_multiset(),
        forall|m: u64| #[trigger]
            g1.nodes.contains(m) ==> ((g1.rels)(m)).to_multiset() == ((g2.rels)(m)).to_multiset(),
    ensures
        record(g1, id) == record(g2, id),
{
    broadcast use vstd::seq_lib::group_to_multiset_ensures;

    lemma_signature_congruent(g1, g2, id);
    lemma_wf_closed(g1, id);
    // The outgoing buckets hold the same entries.
    assert forall|r: RelModel| (g1.rels)(id).contains(r) implies #[trigger] out_entry_fn(g1)(r)
        == out_entry_fn(g2)(r) by {
        let q = choose|q: int| 0 <= q < (g1.rels)(id).len() && #[trigger] (g1.rels)(id)[q] == r;
        assert(g1.nodes.contains((g1.rels)(id)[q].other));
        lemma_signature_congruent(g1, g2, r.other);
    }
    lemma_map_multiset_congruent((g1.rels)(id), (g2.rels)(id), out_entry_fn(g1), out_entry_fn(g2));
    lemma_sort_strs_congruent(out_entries(g1, id), out_entries(g2, id));
    // The incoming buckets hold the same entries.
    assert forall|m: u64| g1.nodes.contains(m) implies (#[trigger] node_contrib_fn(g1, id)(
        m,
    )).to_multiset() == node_contrib_fn(g2, id)(m).to_multiset() by {
        lemma_signature_congruent(g1, g2, m);
        lemma_in_contrib_is_flat((g1.rels)(m), id, signature(g1, m));
        lemma_in_contrib_is_flat((g2.rels)(m), id, signature(g2, m));
        lemma_flat_of_multiset_congruent(
            (g1.rels)(m),
            (g2.rels)(m),
            contrib_fn(id, signature(g1, m)),
            contrib_fn(id, signature(g2, m)),
        );
    }
    lemma_in_entries_over_is_flat(g1, g1.nodes, id);
    lemma_in_entries_over_is_flat(g2, g2.nodes, id);
    lemma_flat_of_multiset_congruent(
        g1.nodes,
        g2.nodes,
        node_contrib_fn(g1, id),
        node_contrib_fn(g2, id),
    );
    lemma_sort_strs_congruent(in_entries(g1, id), in_entries(g2, id));
}

/// One relationship under a relabeling of node identifiers: only the far
/// endpoint changes; type and properties stay.
pub open spec fn rename_rel_fn(f: spec_fn(u64) -> u64) -> spec_fn(RelModel) -> RelModel {
    |r: RelModel| (RelModel { other: f(r.other), rel_type: r.rel_type, props: r.props })
}

/// A graph `g2` is `g1` with every node identifier relabeled through the
/// injective function `f`, consistently in the node enumeration and in every
/// relationship endpoint; content is untouched.
pub open spec fn renames(g1: GraphModel, g2: GraphModel, f: spec_fn(u64) -> u64) -> bool {
    &&& vstd::relations::injective(f)
    &&& g2.nodes == g1.nodes.map_values(f)
    &&& forall|id: u64| #[trigger]
        g1.nodes.contains(id) ==> (g2.labels)(f(id)) == (g1.labels)(id)
    &&& forall|id: u64| #[trigger] g1.nodes.contains(id) ==> (g2.props)(f(id)) == (g1.props)(id)
    &&& forall|id: u64| #[trigger]
        g1.nodes.contains(id) ==> (g2.rels)(f(id)) == (g1.rels)(id).map_values(rename_rel_fn(f))
}

/// A relabeled node keeps its signature: the signature is computed from
/// labels and properties alone.
proof fn lemma_rename_signature(g1: GraphModel, g2: GraphModel, f: spec_fn(u64) -> u64, id: u64)
    requires
        renames(g1, g2, f),
        g1.nodes.contains(id),
    ensures
        signature(g2, f(id)) == signature(g1, id),
{
}

/// A relationship list relabeled through `f` contributes to `f(n)` exactly
/// what the unrenamed list contributes to `n`.
proof fn lemma_rename_in_contrib(
    rels: Seq<RelModel>,
    f: spec_fn(u64) -> u64,
    n: u64,
    sig: Seq<char>,
)
    requires
        vstd::relations::injective(f),
    ensures
        in_contrib(rels.map_values(rename_rel_fn(f)), f(n), sig) == in_contrib(rels, n, sig),
    decreases rels.len(),
{
    let mapped = rels.map_values(rename_rel_fn(f));
    if rels.len() == 0 {
        assert(in_contrib(mapped, f(n), sig) =~= in_contrib(rels, n, sig));
    } else {
        lemma_rename_in_contrib(rels.drop_last(), f, n, sig);
        assert(mapped.drop_last() =~= rels.drop_last().map_values(rename_rel_fn(f)));
        assert(mapped.last() == rename_rel_fn(f)(rels.last()));
        assert(mapped.last().other == f(n) <==> rels.last().other == n);
        assert(in_contrib(mapped, f(n), sig) =~= in_contrib(rels, n, sig));
    }
}

/// Walking relabeled sources collects the same incoming entries.
proof fn lemma_rename_in_entries(
    g1: GraphModel,
    g2: GraphModel,
    f: spec_fn(u64) -> u64,
    srcs: Seq<u64>,
    n: u64,
)
    requires
        renames(g1, g2, f),
        forall|q: int| 0 <= q < srcs.len() ==> g1.nodes.contains(#[trigger] srcs[q]),
        g1.nodes.contains(n),
    ensures
        in_entries_over(g2, srcs.map_values(f), f(n)) == in_entries_over(g1, srcs, n),
    decreases srcs.len(),
{
    let mapped = srcs.map_values(f);
    if srcs.len() == 0 {
        assert(in_entries_over(g2, mapped, f(n)) =~= in_entries_over(g1, srcs, n));
    } else {
        let m = srcs.last();
        assert(g1.nodes.contains(m));
        lemma_rename_in_entries(g1, g2, f, srcs.drop_last(), n);
        assert(mapped.drop_last() =~= srcs.drop_last().map_values(f));
        assert(mapped.last() == f(m));
        lemma_rename_signature(g1, g2, f, m);
        lemma_rename_in_contrib((g1.rels)(m), f, n, signature(g2, f(m)));
        assert((g2.rels)(f(m)) == (g1.rels)(m).map_values(rename_rel_fn(f)));
        assert(in_entries_over(g2, mapped, f(n)) =~= in_entries_over(g1, srcs, n));
    }
}

/// A relabeled node keeps its whole record.
proof fn lemma_rename_record(g1: GraphModel, g2: GraphModel, f: spec_fn(u64) -> u64, id: u64)
    requires
        renames(g1, g2, f),
        graph_wf(g1),
        g1.nodes.contains(id),
    ensures
        record(g2, f(id)) == record(g1, id),
{
    lemma_rename_signature(g1, g2, f, id);
    lemma_wf_closed(g1, id);
    let rels = (g1.rels)(id);
    let mapped = rels.map_values(rename_rel_fn(f));
    assert(out_entries(g2, f(id)) =~= out_entries(g1, id)) by {
        assert forall|q: int| 0 <= q < rels.len() implies #[trigger] out_entries(g2, f(id))[q]
            == out_entries(g1, id)[q] by {
            let r = rels[q];
            assert(g1.nodes.contains(r.other));
            lemma_rename_signature(g1, g2, f, r.other);
            assert(out_entry_fn(g2)(mapped[q]) == render_out(
                r.rel_type,
                r.props,
                signature(g2, f(r.other)),
            ));
        }
    }
    lemma_rename_in_entries(g1, g2, f, g1.nodes, id);
    assert(in_entries(g2, f(id)) == in_entries(g1, id));
}

/// Renaming invariance: applying an injective relabeling of node identifiers
/// consistently to the node enumeration and to every relationship endpoint
/// leaves the canonical form unchanged.
pub proof fn lemma_renaming_invariance(g1: GraphModel, g2: GraphModel, f: spec_fn(u64) -> u64)
    requires
        graph_wf(g1),
        renames(g1, g2, f),
    ensures
        canonical_form(g2) == canonical_form(g1),
{
    assert(records(g2) =~= records(g1)) by {
        assert forall|q: int| 0 <= q < g1.nodes.len() implies #[trigger] records(g2)[q] == records(
            g1,
        )[q] by {
            assert(g2.nodes[q] == f(g1.nodes[q]));
            assert(g1.nodes.contains(g1.nodes[q]));
            lemma_rename_record(g1, g2, f, g1.nodes[q]);
        }
    }
}

/// Order invariance: permuting the enumeration order of nodes, of a node's
/// labels, of a node's properties, or of the relationships leaving a node
/// (in particular of parallel relationships) does not change the canonical
/// form. Nodes, properties and relationships must enumerate the same bags,
/// element for element; labels need only enumerate the same set, so adding
/// or removing duplicate label occurrences changes nothing either.
pub proof fn lemma_order_invariance(g1: GraphModel, g2: GraphModel)
    requires
        graph_wf(g1),
        g1.nodes.to_multiset() == g2.nodes.to_multiset(),
        forall|m: u64, l: Seq<char>|
            g1.nodes.contains(m) ==> ((#[trigger] (g1.labels)(m).contains(l)) <==> (g2.labels)(
                m,
            ).contains(l)),
        forall|m: u64| #[trigger]
            g1.nodes.contains(m) ==> ((g1.props)(m)).to_multiset() == ((g2.props)(
                m,
            )).to_multiset(),
        forall|m: u64| #[trigger]
            g1.nodes.contains(m) ==> ((g1.rels)(m)).to_multiset() == ((g2.rels)(m)).to_multiset(),
    ensures
        canonical_form(g1) == canonical_form(g2),
{
    assert forall|m: u64| g1.nodes.contains(m) implies #[trigger] record_fn(g1)(m) == record_fn(
        g2,
    )(m) by {
        lemma_record_congruent(g1, g2, m);
    }
    lemma_map_multiset_congruent(g1.nodes, g2.nodes, record_fn(g1), record_fn(g2));
    lemma_sort_strs_congruent(records(g1), records(g2));
}

/// A relationship list with its `j`-th relationship pointing at `n`
/// contributes that relationship's incoming entry to `n`'s bucket.
proof fn lemma_in_contrib_contains(rels: Seq<RelModel>, n: u64, sig: Seq<char>, j: int)
    requires
        0 <= j < rels.len(),
        rels[j].other == n,
    ensures
        in_contrib(rels, n, sig).contains(render_in(rels[j].rel_type, rels[j].props, sig)),
    decreases rels.len(),
{
    let e = render_in(rels[j].rel_type, rels[j].props, sig);
    if j == rels.len() - 1 {
        let head = in_contrib(rels.drop_last(), n, sig);
        assert(in_contrib(rels, n, sig)[head.len() as int] == e);
    } else {
        lemma_in_contrib_contains(rels.drop_last(), n, sig, j);
        let head = in_contrib(rels.drop_last(), n, sig);
        let p = choose|p: int| 0 <= p < head.len() && head[p] == e;
        assert(in_contrib(rels, n, sig)[p] == e);
    }
}

/// An entry contributed by the `q`-th source node stands in the assembled
/// incoming bucket.
proof fn lemma_in_entries_over_contains(
    g: GraphModel,
    srcs: Seq<u64>,
    n: u64,
    q: int,
    e: Seq<char>,
)
    requires
        0 <= q < srcs.len(),
        in_contrib((g.rels)(srcs[q]), n, signature(g, srcs[q])).contains(e),
    ensures
        in_entries_over(g, srcs, n).contains(e),
    decreases srcs.len(),
{
    let head = in_entries_over(g, srcs.drop_last(), n);
    if q == srcs.len() - 1 {
        let tail = in_contrib((g.rels)(srcs[q]), n, signature(g, srcs[q]));
        let p = choose|p: int| 0 <= p < tail.len() && tail[p] == e;
        assert(in_entries_over(g, srcs, n)[head.len() + p] == e);
    } else {
        lemma_in_entries_over_contains(g, srcs.drop_last(), n, q, e);
        let p = choose|p: int| 0 <= p < head.len() && head[p] == e;
        assert(in_entries_over(g, srcs, n)[p] == e);
    }
}

/// Self-loop correctness: a relationship from a node to itself contributes
/// exactly one entry to that node's outgoing bucket — the entry standing at
/// the relationship's own position — and its incoming rendering stands in
/// the same node's incoming bucket.
pub proof fn lemma_self_loop(g: GraphModel, i: int, j: int)
    requires
        0 <= i < g.nodes.len(),
        0 <= j < (g.rels)(g.nodes[i]).len(),
        (g.rels)(g.nodes[i])[j].other == g.nodes[i],
    ensures
        out_entries(g, g.nodes[i])[j] == render_out(
            (g.rels)(g.nodes[i])[j].rel_type,
            (g.rels)(g.nodes[i])[j].props,
            signature(g, g.nodes[i]),
        ),
        in_entries(g, g.nodes[i]).contains(render_in(
            (g.rels)(g.nodes[i])[j].rel_type,
            (g.rels)(g.nodes[i])[j].props,
            signature(g, g.nodes[i]),
        )),
{
    let n = g.nodes[i];
    lemma_in_contrib_contains((g.rels)(n), n, signature(g, n), j);
    lemma_in_entries_over_contains(
        g,
        g.nodes,
        n,
        i,
        render_in((g.rels)(n)[j].rel_type, (g.rels)(n)[j].props, signature(g, n)),
    );
}

/// A relationship list with its `j`-th relationship pointing at `n` yields,
/// read back as incoming entries of `n`, that relationship with the far end
/// flipped to the source `m`.
proof fn lemma_incoming_from_contains(rels: Seq<RelModel>, m: u64, n: u64, j: int)
    requires
        0 <= j < rels.len(),
        rels[j].other == n,
    ensures
        incoming_from(rels, m, n).contains(
            RelModel { other: m, rel_type: rels[j].rel_type, props: rels[j].props },
        ),
    decreases rels.len(),
{
    let e = RelModel { other: m, rel_type: rels[j].rel_type, props: rels[j].props };
    if j == rels.len() - 1 {
        let head = incoming_from(rels.drop_last(), m, n);
        assert(incoming_from(rels, m, n)[head.len() as int] == e);
    } else {
        lemma_incoming_from_contains(rels.drop_last(), m, n, j);
        let head = incoming_from(rels.drop_last(), m, n);
        let p = choose|p: int| 0 <= p < head.len() && head[p] == e;
        assert(incoming_from(rels, m, n)[p] == e);
    }
}

/// An incoming entry contributed by the `q`-th source node stands in the
/// assembled transpose.
proof fn lemma_incoming_over_contains(g: GraphModel, srcs: Seq<u64>, n: u64, q: int, e: RelModel)
    requires
        0 <= q < srcs.len(),
        incoming_from((g.rels)(srcs[q]), srcs[q], n).contains(e),
    ensures
        incoming_over(g, srcs, n).contains(e),
    decreases srcs.len(),
{
    let head = incoming_over(g, srcs.drop_last(), n);
    if q == srcs.len() - 1 {
        let tail = incoming_from((g.rels)(srcs[q]), srcs[q], n);
        let p = choose|p: int| 0 <= p < tail.len() && tail[p] == e;
        assert(incoming_over(g, srcs, n)[head.len() + p] == e);
    } else {
        lemma_incoming_over_contains(g, srcs.drop_last(), n, q, e);
        let p = choose|p: int| 0 <= p < head.len() && head[p] == e;
        assert(incoming_over(g, srcs, n)[p] == e);
    }
}

/// Under the incoming/outgoing consistency the capability interface
/// promises, a self-loop also stands in its own node's incoming relationship
/// list, with the node itself as the source.
pub proof fn lemma_self_loop_incoming(g: GraphModel, i: int, j: int)
    requires
        in_rels_consistent(g),
        0 <= i < g.nodes.len(),
        0 <= j < (g.rels)(g.nodes[i]).len(),
        (g.rels)(g.nodes[i])[j].other == g.nodes[i],
    ensures
        ((g.in_rels)(g.nodes[i])).contains(
            RelModel {
                other: g.nodes[i],
                rel_type: (g.rels)(g.nodes[i])[j].rel_type,
                props: (g.rels)(g.nodes[i])[j].props,
            },
        ),
{
    let n = g.nodes[i];
    let e = RelModel { other: n, rel_type: (g.rels)(n)[j].rel_type, props: (g.rels)(n)[j].props };
    lemma_incoming_from_contains((g.rels)(n), n, n, j);
    lemma_incoming_over_contains(g, g.nodes, n, i, e);
    let t = incoming_over(g, g.nodes, n);
    t.to_multiset_ensures();
    ((g.in_rels)(n)).to_multiset_ensures();
    assert(t.contains(e) <==> t.to_multiset().count(e) > 0);
    assert(((g.in_rels)(n)).contains(e) <==> ((g.in_rels)(n)).to_multiset().count(e) > 0);
    assert(((g.in_rels)(n)).to_multiset() == t.to_multiset());
}

/// Determinism: the canonical form is a pure function of the graph model, so
/// canonicalizing the same content twice always gives the same string, and a
/// graph compares equal to itself.
pub proof fn lemma_canonical_form_deterministic(g1: GraphModel, g2: GraphModel)
    requires
        g1 == g2,
    ensures
        canonical_form(g1) == canonical_form(g2),
{
}

} // verus!
