//! The canonical form of a graph, defined as a pure function of the graph's
//! mathematical model. The executable canonicalizer in the crate root is
//! proved to return exactly this form, and the invariance laws of
//! [`crate::laws`] are proved about it.

use crate::graph::{GraphModel, RelModel};
use crate::text::{dedup_strs, join_strs, sort_strs};
use vstd::prelude::*;

verus! {

/// One property entry rendered as `key: value`.
pub open spec fn render_prop(p: (Seq<char>, Seq<char>)) -> Seq<char> {
    p.0 + ": "@ + p.1
}

/// `render_prop` as a first-class function, so that every contract mapping
/// over property entries names the same function value.
pub open spec fn render_prop_fn() -> spec_fn((Seq<char>, Seq<char>)) -> Seq<char> {
    |p: (Seq<char>, Seq<char>)| render_prop(p)
}

/// The canonical property block: entries rendered, sorted lexicographically,
/// exact duplicates collapsed, comma-joined and braced; an empty mapping
/// renders as the empty string, without braces.
pub open spec fn prop_block(props: Seq<(Seq<char>, Seq<char>)>) -> Seq<char> {
    let entries = dedup_strs(sort_strs(props.map_values(render_prop_fn())));
    let joined = join_strs(entries, ", "@);
    if joined.len() == 0 {
        joined
    } else {
        "{ "@ + joined + " }"@
    }
}

/// One label rendered as `:Label`, as a first-class function.
pub open spec fn tag_label_fn() -> spec_fn(Seq<char>) -> Seq<char> {
    |l: Seq<char>| ":"@ + l
}

/// The labels part of a signature: labels sorted, deduplicated, each
/// rendered as `:Label`, concatenated without separator.
pub open spec fn label_part(labels: Seq<Seq<char>>) -> Seq<char> {
    join_strs(dedup_strs(sort_strs(labels)).map_values(tag_label_fn()), ""@)
}

/// A node's signature, a function of its own labels and properties alone;
/// the node's identifier does not enter it.
pub open spec fn signature(g: GraphModel, n: u64) -> Seq<char> {
    "("@ + label_part((g.labels)(n)) + " "@ + prop_block((g.props)(n)) + ")"@
}

/// One outgoing canonical relationship entry, referencing the target by
/// signature.
pub open spec fn render_out(
    rel_type: Seq<char>,
    props: Seq<(Seq<char>, Seq<char>)>,
    target_sig: Seq<char>,
) -> Seq<char> {
    "()-[:"@ + rel_type + " "@ + prop_block(props) + "]->"@ + target_sig
}

/// One incoming canonical relationship entry, referencing the source by
/// signature.
pub open spec fn render_in(
    rel_type: Seq<char>,
    props: Seq<(Seq<char>, Seq<char>)>,
    source_sig: Seq<char>,
) -> Seq<char> {
    "()<-[:"@ + rel_type + " "@ + prop_block(props) + "]-"@ + source_sig
}

/// A node's signature as a first-class function of its identifier.
pub open spec fn sig_fn(g: GraphModel) -> spec_fn(u64) -> Seq<char> {
    |n: u64| signature(g, n)
}

/// The outgoing entry of one relationship, as a first-class function.
pub open spec fn out_entry_fn(g: GraphModel) -> spec_fn(RelModel) -> Seq<char> {
    |r: RelModel| render_out(r.rel_type, r.props, signature(g, r.other))
}

/// The outgoing bucket of node `n`: one entry per outgoing relationship, in
/// enumeration order.
pub open spec fn out_entries(g: GraphModel, n: u64) -> Seq<Seq<char>> {
    (g.rels)(n).map_values(out_entry_fn(g))
}

/// The incoming entries contributed to some node `n` by the outgoing
/// relationship list of one source node whose signature is `source_sig`.
pub open spec fn in_contrib(rels: Seq<RelModel>, n: u64, source_sig: Seq<char>) -> Seq<Seq<char>>
    decreases rels.len(),
{
    if rels.len() == 0 {
        Seq::empty()
    } else {
        let head = in_contrib(rels.drop_last(), n, source_sig);
        let r = rels.last();
        if r.other == n {
            head + seq![render_in(r.rel_type, r.props, source_sig)]
        } else {
            head
        }
    }
}

/// The incoming entries of node `n` collected by walking the outgoing
/// relationships of every node of `srcs` in order.
pub open spec fn in_entries_over(g: GraphModel, srcs: Seq<u64>, n: u64) -> Seq<Seq<char>>
    decreases srcs.len(),
{
    if srcs.len() == 0 {
        Seq::empty()
    } else {
        in_entries_over(g, srcs.drop_last(), n) + in_contrib(
            (g.rels)(srcs.last()),
            n,
            signature(g, srcs.last()),
        )
    }
}

/// The incoming bucket of node `n`: what every node's outgoing relationships
/// contribute to `n`. A self-loop of `n` appears both here and in
/// `out_entries(g, n)`.
pub open spec fn in_entries(g: GraphModel, n: u64) -> Seq<Seq<char>> {
    in_entries_over(g, g.nodes, n)
}

/// The canonical node record of `n`: its signature, then its outgoing and
/// incoming buckets, each sorted lexicographically and comma-joined.
pub open spec fn record(g: GraphModel, n: u64) -> Seq<char> {
    signature(g, n) + " => out: "@ + join_strs(sort_strs(out_entries(g, n)), ", "@) + " in: "@
        + join_strs(sort_strs(in_entries(g, n)), ", "@)
}

/// A node's canonical record as a first-class function of its identifier.
pub open spec fn record_fn(g: GraphModel) -> spec_fn(u64) -> Seq<char> {
    |n: u64| record(g, n)
}

/// All canonical node records, in node enumeration order.
pub open spec fn records(g: GraphModel) -> Seq<Seq<char>> {
    g.nodes.map_values(record_fn(g))
}

/// The canonical form: all node records, sorted lexicographically and
/// newline-joined. A pure function of graph content: node identifiers never
/// enter it, and every enumeration order is sorted away.
pub open spec fn canonical_form(g: GraphModel) -> Seq<char> {
    join_strs(sort_strs(records(g)), "\n"@)
}

} // verus!
