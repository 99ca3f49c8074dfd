//! Structural-equality comparison for property graphs.
//!
//! A graph exposed through the [`graph::Graph`] capability interface is
//! rendered into a single deterministic string, its canonical form, that is
//! invariant under node-identifier renaming and under every enumeration
//! order, yet sensitive to the graph's actual content.

pub mod canon;
pub mod graph;
pub mod laws;
pub mod text;

pub use graph::Graph;
pub use graph::GraphError;
pub use graph::Relationship;

use vstd::prelude::*;

use crate::canon::{
    canonical_form, in_contrib, in_entries_over, label_part, out_entry_fn, prop_block, record,
    record_fn, records, render_in, render_out, render_prop, render_prop_fn, sig_fn, signature,
    tag_label_fn,
};
use crate::graph::{graph_wf, node_rels_closed};
use crate::text::{dedup_strings, join_strings, sort_strings};

verus! {

/// Renders a property mapping as its canonical property block: every entry
/// as `key: value`, sorted lexicographically, exact duplicates collapsed,
/// comma-joined and braced; an empty mapping renders as the empty string.
pub fn canonical_properties(properties: &Vec<(String, String)>) -> (r: String)
    ensures
        r@ == prop_block(properties.deep_view()),
{
    let ghost dv = properties.deep_view();
    let mut rendered: Vec<String> = Vec::new();
    let mut i: usize = 0;
    proof {
        assert(rendered.deep_view() =~= dv.take(0).map_values(render_prop_fn()));
    }
    while i < properties.len()
        invariant
            i <= properties@.len(),
            dv == properties.deep_view(),
            dv.len() == properties@.len(),
            rendered.deep_view() == dv.take(i as int).map_values(render_prop_fn()),
        decreases properties@.len() - i,
    {
        let mut entry = properties[i].0.clone();
        entry.append(": ");
        entry.append(properties[i].1.as_str());
        assert(entry@ == render_prop(dv[i as int]));
        let ghost old_rdv = rendered.deep_view();
        let ghost entry_v = entry@;
        rendered.push(entry);
        proof {
            assert(rendered.deep_view() =~= old_rdv.push(entry_v));
            crate::text::lemma_map_take_snoc(dv, i as int, old_rdv, entry_v, render_prop_fn());
        }
        i = i + 1;
    }
    proof {
        assert(dv.take(i as int) =~= dv);
    }
    let sorted = sort_strings(rendered);
    let deduped = dedup_strings(sorted);
    let joined = join_strings(&deduped, ", ");
    if joined.as_str().unicode_len() == 0 {
        joined
    } else {
        let mut r = String::new();
        r.append("{ ");
        r.append(joined.as_str());
        r.append(" }");
        proof {
            assert(Seq::<char>::empty() + "{ "@ =~= "{ "@);
        }
        r
    }
}

/// One outgoing canonical relationship entry for `rel`, referencing the
/// target by its signature.
fn out_entry_string(rel: &Relationship, target_sig: &String) -> (r: String)
    ensures
        r@ == render_out(rel.rel_type@, rel.properties.deep_view(), target_sig@),
{
    let mut r = String::new();
    r.append("()-[:");
    r.append(rel.rel_type.as_str());
    r.append(" ");
    let pb = canonical_properties(&rel.properties);
    r.append(pb.as_str());
    r.append("]->");
    r.append(target_sig.as_str());
    proof {
        assert(Seq::<char>::empty() + "()-[:"@ =~= "()-[:"@);
    }
    r
}

/// One incoming canonical relationship entry for `rel`, referencing the
/// source by its signature.
fn in_entry_string(rel: &Relationship, source_sig: &String) -> (r: String)
    ensures
        r@ == render_in(rel.rel_type@, rel.properties.deep_view(), source_sig@),
{
    let mut r = String::new();
    r.append("()<-[:");
    r.append(rel.rel_type.as_str());
    r.append(" ");
    let pb = canonical_properties(&rel.properties);
    r.append(pb.as_str());
    r.append("]-");
    r.append(source_sig.as_str());
    proof {
        assert(Seq::<char>::empty() + "()<-[:"@ =~= "()<-[:"@);
    }
    r
}

/// Position of `target` in the node enumeration, if it occurs there.
fn find_index(ids: &Vec<u64>, target: u64) -> (r: Option<usize>)
    ensures
        match r {
            Some(t) => t < ids@.len() && ids@[t as int] == target,
            None => !ids@.contains(target),
        },
{
    let mut i: usize = 0;
    while i < ids.len()
        invariant
            i <= ids@.len(),
            forall|k: int| 0 <= k < i ==> ids@[k] != target,
        decreases ids@.len() - i,
    {
        if ids[i] == target {
            return Some(i);
        }
        i = i + 1;
    }
    None
}

/// Computes every node's signature, in node enumeration order: its sorted,
/// deduplicated labels each rendered as `:Label`, then its canonical
/// property block, wrapped in parentheses.
pub fn canonical_nodes<G: Graph>(graph: &G) -> (r: Vec<String>)
    ensures
        r.deep_view() == graph.model().nodes.map_values(sig_fn(graph.model())),
{
    let ghost g = graph.model();
    let ids = graph.nodes();
    let mut sigs: Vec<String> = Vec::new();
    let mut i: usize = 0;
    proof {
        assert(sigs.deep_view() =~= g.nodes.take(0).map_values(sig_fn(g)));
    }
    while i < ids.len()
        invariant
            i <= ids@.len(),
            g == graph.model(),
            ids@ == g.nodes,
            sigs.deep_view() == g.nodes.take(i as int).map_values(sig_fn(g)),
        decreases ids@.len() - i,
    {
        let id = ids[i];
        proof {
            assert(g.nodes[i as int] == id);
        }
        let labels = graph.node_labels(id);
        let sorted = sort_strings(labels);
        let deduped = dedup_strings(sorted);
        let mut tagged: Vec<String> = Vec::new();
        let mut k: usize = 0;
        let ghost ddv = deduped.deep_view();
        proof {
            assert(tagged.deep_view() =~= ddv.take(0).map_values(tag_label_fn()));
        }
        while k < deduped.len()
            invariant
                k <= deduped@.len(),
                ddv == deduped.deep_view(),
                ddv.len() == deduped@.len(),
                tagged.deep_view() == ddv.take(k as int).map_values(tag_label_fn()),
            decreases deduped@.len() - k,
        {
            let mut t = String::new();
            t.append(":");
            t.append(deduped[k].as_str());
            proof {
                assert(Seq::<char>::empty() + ":"@ =~= ":"@);
            }
            let ghost old_tdv = tagged.deep_view();
            let ghost t_v = t@;
            tagged.push(t);
            proof {
                assert(tagged.deep_view() =~= old_tdv.push(t_v));
                crate::text::lemma_map_take_snoc(ddv, k as int, old_tdv, t_v, tag_label_fn());
            }
            k = k + 1;
        }
        proof {
            assert(ddv.take(k as int) =~= ddv);
        }
        let label_str = join_strings(&tagged, "");
        assert(label_str@ == label_part((g.labels)(id)));
        let props = graph.node_properties(id);
        let pb = canonical_properties(&props);
        let mut s = String::new();
        s.append("(");
        s.append(label_str.as_str());
        s.append(" ");
        s.append(pb.as_str());
        s.append(")");
        proof {
            assert(Seq::<char>::empty() + "("@ =~= "("@);
        }
        assert(s@ == signature(g, id));
        let ghost old_sdv = sigs.deep_view();
        let ghost s_v = s@;
        sigs.push(s);
        proof {
            assert(sigs.deep_view() =~= old_sdv.push(s_v));
            crate::text::lemma_map_take_snoc(g.nodes, i as int, old_sdv, s_v, sig_fn(g));
        }
        i = i + 1;
    }
    proof {
        assert(g.nodes.take(i as int) =~= g.nodes);
    }
    sigs
}

/// Turns a graph into its canonical form: a single string that is a pure
/// function of the graph's content, invariant under node-identifier renaming
/// and under every enumeration order. Fails with `NodeNotFound` exactly when
/// some relationship references a node identifier absent from the node
/// enumeration.
pub fn canonicalize<G: Graph>(graph: &G) -> (r: Result<String, GraphError>)
    ensures
        r is Ok <==> graph_wf(graph.model()),
        r matches Ok(s) ==> s@ == canonical_form(graph.model()),
        r matches Err(e) ==> e == GraphError::NodeNotFound,
{
    let ghost g = graph.model();
    let ids = graph.nodes();
    let sigs = canonical_nodes(graph);
    proof {
        assert(sigs.deep_view().len() == g.nodes.len());
        assert(sigs@.len() == sigs.deep_view().len());
    }
    let count = ids.len();
    let mut recs: Vec<String> = Vec::new();
    let mut i: usize = 0;
    proof {
        assert(recs.deep_view() =~= g.nodes.take(0).map_values(record_fn(g)));
    }
    while i < count
        invariant
            i <= count,
            count == ids@.len(),
            g == graph.model(),
            ids@ == g.nodes,
            sigs.deep_view() == g.nodes.map_values(sig_fn(g)),
            sigs@.len() == g.nodes.len(),
            recs.deep_view() == g.nodes.take(i as int).map_values(record_fn(g)),
            forall|p: int| 0 <= p < i ==> node_rels_closed(g, #[trigger] g.nodes[p]),
        decreases count - i,
    {
        let id = ids[i];
        proof {
            assert(g.nodes[i as int] == id);
        }
        let rels = graph.outgoing_relationships(id);
        let ghost rdv = rels.deep_view();
        let mut outs: Vec<String> = Vec::new();
        let mut k: usize = 0;
        proof {
            assert(outs.deep_view() =~= rdv.take(0).map_values(out_entry_fn(g)));
        }
        while k < rels.len()
            invariant
                k <= rels@.len(),
                g == graph.model(),
                ids@ == g.nodes,
                0 <= i < g.nodes.len(),
                id == g.nodes[i as int],
                rdv == rels.deep_view(),
                rdv == (g.rels)(id),
                rdv.len() == rels@.len(),
                sigs.deep_view() == g.nodes.map_values(sig_fn(g)),
                sigs@.len() == g.nodes.len(),
                outs.deep_view() == rdv.take(k as int).map_values(out_entry_fn(g)),
                forall|q: int| 0 <= q < k ==> g.nodes.contains(#[trigger] rdv[q].other),
            decreases rels@.len() - k,
        {
            let rel = &rels[k];
            proof {
                assert(rel@ == rdv[k as int]);
            }
            match find_index(&ids, rel.other) {
                None => {
                    proof {
                        assert(!node_rels_closed(g, id)) by {
                            assert((g.rels)(id)[k as int].other == rel.other);
                            assert(!g.nodes.contains(rel.other));
                        }
                        assert(!graph_wf(g)) by {
                            assert(0 <= i < g.nodes.len() && g.nodes[i as int] == id);
                        }
                    }
                    return Err(GraphError::NodeNotFound);
                },
                Some(t) => {
                    let entry = out_entry_string(rel, &sigs[t]);
                    proof {
                        assert(sigs.deep_view()[t as int] == signature(g, g.nodes[t as int]));
                        assert(g.nodes[t as int] == rel.other);
                        assert(entry@ == render_out(
                            rdv[k as int].rel_type,
                            rdv[k as int].props,
                            signature(g, rdv[k as int].other),
                        ));
                    }
                    let ghost old_odv = outs.deep_view();
                    let ghost entry_v = entry@;
                    outs.push(entry);
                    proof {
                        assert(outs.deep_view() =~= old_odv.push(entry_v));
                        crate::text::lemma_map_take_snoc(
                            rdv,
                            k as int,
                            old_odv,
                            entry_v,
                            out_entry_fn(g),
                        );
                    }
                },
            }
            k = k + 1;
        }
        proof {
            assert(rdv.take(k as int) =~= rdv);
            assert(outs.deep_view() == crate::canon::out_entries(g, id));
            assert(node_rels_closed(g, id));
        }
        let mut ins: Vec<String> = Vec::new();
        let mut j: usize = 0;
        proof {
            assert(ins.deep_view() =~= in_entries_over(g, g.nodes.take(0), id));
        }
        while j < count
            invariant
                j <= count,
                count == ids@.len(),
                g == graph.model(),
                ids@ == g.nodes,
                sigs.deep_view() == g.nodes.map_values(sig_fn(g)),
                sigs@.len() == g.nodes.len(),
                ins.deep_view() == in_entries_over(g, g.nodes.take(j as int), id),
            decreases count - j,
        {
            let src = ids[j];
            proof {
                assert(g.nodes[j as int] == src);
            }
            let src_rels = graph.outgoing_relationships(src);
            let ghost sdv = src_rels.deep_view();
            let ghost src_sig = signature(g, src);
            let mut k2: usize = 0;
            proof {
                assert(in_contrib(sdv.take(0), id, src_sig) =~= Seq::<Seq<char>>::empty());
                assert(ins.deep_view() =~= in_entries_over(g, g.nodes.take(j as int), id)
                    + in_contrib(sdv.take(0), id, src_sig));
            }
            while k2 < src_rels.len()
                invariant
                    k2 <= src_rels@.len(),
                    g == graph.model(),
                    ids@ == g.nodes,
                    0 <= j < g.nodes.len(),
                    src == g.nodes[j as int],
                    src_sig == signature(g, src),
                    sdv == src_rels.deep_view(),
                    sdv == (g.rels)(src),
                    sdv.len() == src_rels@.len(),
                    sigs.deep_view() == g.nodes.map_values(sig_fn(g)),
                    sigs@.len() == g.nodes.len(),
                    ins.deep_view() == in_entries_over(g, g.nodes.take(j as int), id)
                        + in_contrib(sdv.take(k2 as int), id, src_sig),
                decreases src_rels@.len() - k2,
            {
                let rel = &src_rels[k2];
                proof {
                    assert(rel@ == sdv[k2 as int]);
                }
                let ghost old_idv = ins.deep_view();
                if rel.other == id {
                    let entry = in_entry_string(rel, &sigs[j]);
                    proof {
                        assert(sigs.deep_view()[j as int] == signature(g, g.nodes[j as int]));
                        assert(entry@ == render_in(
                            sdv[k2 as int].rel_type,
                            sdv[k2 as int].props,
                            src_sig,
                        ));
                    }
                    ins.push(entry);
                    proof {
                        assert(ins.deep_view() =~= old_idv.push(entry@));
                    }
                }
                proof {
                    assert(sdv.take(k2 + 1).drop_last() =~= sdv.take(k2 as int));
                    assert(sdv.take(k2 + 1).last() == sdv[k2 as int]);
                    assert(ins.deep_view() =~= in_entries_over(g, g.nodes.take(j as int), id)
                        + in_contrib(sdv.take(k2 + 1), id, src_sig));
                }
                k2 = k2 + 1;
            }
            proof {
                assert(sdv.take(k2 as int) =~= sdv);
                assert(g.nodes.take(j + 1).drop_last() =~= g.nodes.take(j as int));
                assert(g.nodes.take(j + 1).last() == g.nodes[j as int]);
                assert(ins.deep_view() =~= in_entries_over(g, g.nodes.take(j + 1), id));
            }
            j = j + 1;
        }
        proof {
            assert(g.nodes.take(j as int) =~= g.nodes);
            assert(ins.deep_view() == crate::canon::in_entries(g, id));
        }
        let souts = sort_strings(outs);
        let sins = sort_strings(ins);
        let outs_joined = join_strings(&souts, ", ");
        let ins_joined = join_strings(&sins, ", ");
        let mut rec = String::new();
        let sig_i = &sigs[i];
        proof {
            assert(sigs.deep_view()[i as int] == signature(g, g.nodes[i as int]));
        }
        rec.append(sig_i.as_str());
        rec.append(" => out: ");
        rec.append(outs_joined.as_str());
        rec.append(" in: ");
        rec.append(ins_joined.as_str());
        proof {
            assert(Seq::<char>::empty() + signature(g, id) =~= signature(g, id));
            assert(rec@ == record(g, id));
        }
        let ghost old_recdv = recs.deep_view();
        let ghost rec_v = rec@;
        recs.push(rec);
        proof {
            assert(recs.deep_view() =~= old_recdv.push(rec_v));
            crate::text::lemma_map_take_snoc(g.nodes, i as int, old_recdv, rec_v, record_fn(g));
        }
        i = i + 1;
    }
    proof {
        assert(g.nodes.take(i as int) =~= g.nodes);
        assert(recs.deep_view() == records(g));
        assert(graph_wf(g));
    }
    let sorted = sort_strings(recs);
    let joined = join_strings(&sorted, "\n");
    assert(joined@ == canonical_form(g));
    Ok(joined)
}

/// Compares two graphs, possibly of different concrete representations, for
/// structural equality of content: equal exactly when their canonical forms
/// are the same string.
pub fn assert_graph_eq<L: Graph, R: Graph>(left: &L, right: &R) -> (r: bool)
    requires
        graph_wf(left.model()),
        graph_wf(right.model()),
    ensures
        r == (canonical_form(left.model()) == canonical_form(right.model())),
{
    let left_canonical = canonicalize(left);
    let right_canonical = canonicalize(right);
    match (left_canonical, right_canonical) {
        (Ok(a), Ok(b)) => a.eq(&b),
        _ => {
            proof {
                assert(false);
            }
            false
        },
    }
}

} // verus!
