//! The properties the library promises, stated and proved once and for
//! all: stable filtering, orientation-symmetric edge retention, soundness
//! of the keep-sets, the no-op behaviour of keeping every path, and the
//! idempotence of the whole run.

use crate::aggregate::{
    keep_jumps, keep_links, keep_nodes, paths_all_ok, paths_jump_rows, paths_link_rows,
    paths_node_rows, walks_all_ok, walks_link_rows, walks_node_rows,
};
use crate::decode::{
    links_of_pairs, jumps_of_pairs, pair_seq, path_jumps, path_links, path_node_ids, path_pairs,
    path_toks, tok_id, tok_onode, walk_ids, walk_links, walk_onodes,
};
use crate::elements::{rows_to_set, EdgeV};
use crate::filter::{
    edge_kept, fields_ok, kept_edges, kept_segments, line_edge, name_selected, rev_edge,
    selected_names,
};
use crate::pipeline::{line_kind, lines_of_kind, path_names, trim_spec};
use crate::text::{line_field, line_has_field};
use vstd::prelude::*;

verus! {

// ===== order preservation =====

/// `xs` appears inside `ys` in order: the standard embedding of one
/// sequence into another.
pub open spec fn is_subseq<A>(xs: Seq<A>, ys: Seq<A>) -> bool
    decreases xs.len(), ys.len(),
{
    if xs.len() == 0 {
        true
    } else if ys.len() == 0 {
        false
    } else {
        (xs.last() == ys.last() && is_subseq(xs.drop_last(), ys.drop_last())) || is_subseq(
            xs,
            ys.drop_last(),
        )
    }
}

/// Every element of a subsequence stands somewhere in the larger sequence.
pub proof fn lemma_subseq_index<A>(xs: Seq<A>, ys: Seq<A>)
    requires
        is_subseq(xs, ys),
    ensures
        forall|i: int|
            0 <= i < xs.len() ==> exists|j: int| 0 <= j < ys.len() && ys[j] == #[trigger] xs[i],
    decreases xs.len(), ys.len(),
{
    if xs.len() == 0 {
    } else if xs.last() == ys.last() && is_subseq(xs.drop_last(), ys.drop_last()) {
        lemma_subseq_index(xs.drop_last(), ys.drop_last());
        assert forall|i: int| 0 <= i < xs.len() implies exists|j: int|
            0 <= j < ys.len() && ys[j] == #[trigger] xs[i] by {
            if i < xs.len() - 1 {
                assert(xs.drop_last()[i] == xs[i]);
                let j = choose|j: int|
                    0 <= j < ys.drop_last().len() && ys.drop_last()[j] == xs.drop_last()[i];
                assert(ys[j] == xs[i]);
            } else {
                assert(ys[ys.len() - 1] == xs[i]);
            }
        }
    } else {
        lemma_subseq_index(xs, ys.drop_last());
        assert forall|i: int| 0 <= i < xs.len() implies exists|j: int|
            0 <= j < ys.len() && ys[j] == #[trigger] xs[i] by {
            let j = choose|j: int|
                0 <= j < ys.drop_last().len() && ys.drop_last()[j] == xs[i];
            assert(ys[j] == xs[i]);
        }
    }
}

/// Order preservation: the lines that survive the path-name selection form
/// a subsequence of the input — their relative order is the input's.
pub proof fn lemma_selected_is_subseq(ls: Seq<Seq<char>>, names: Seq<Seq<char>>)
    ensures
        is_subseq(selected_names(ls, names), ls),
    decreases ls.len(),
{
    reveal_with_fuel(Seq::<_>::filter, 2);
    if ls.len() > 0 {
        let t = ls.drop_last();
        lemma_selected_is_subseq(t, names);
        let f = selected_names(ls, names);
        if name_selected(ls.last(), names) {
            assert(f == selected_names(t, names).push(ls.last()));
            assert(f.drop_last() =~= selected_names(t, names));
            assert(is_subseq(f, ls));
        } else {
            assert(f == selected_names(t, names));
            assert(is_subseq(f, ls));
        }
    }
}

/// Order preservation: the segment lines that survive filtering form a
/// subsequence of the input.
pub proof fn lemma_kept_segments_is_subseq(ls: Seq<Seq<char>>, ns: Set<Seq<char>>)
    ensures
        is_subseq(kept_segments(ls, ns), ls),
    decreases ls.len(),
{
    reveal_with_fuel(Seq::<_>::filter, 2);
    if ls.len() > 0 {
        let t = ls.drop_last();
        lemma_kept_segments_is_subseq(t, ns);
        let f = kept_segments(ls, ns);
        if ns.contains(line_field(ls.last(), 1)) {
            assert(f == kept_segments(t, ns).push(ls.last()));
            assert(f.drop_last() =~= kept_segments(t, ns));
            assert(is_subseq(f, ls));
        } else {
            assert(f == kept_segments(t, ns));
            assert(is_subseq(f, ls));
        }
    }
}

/// Order preservation: the link or jump lines that survive filtering form
/// a subsequence of the input.
pub proof fn lemma_kept_edges_is_subseq(ls: Seq<Seq<char>>, es: Set<EdgeV>)
    ensures
        is_subseq(kept_edges(ls, es), ls),
    decreases ls.len(),
{
    reveal_with_fuel(Seq::<_>::filter, 2);
    if ls.len() > 0 {
        let t = ls.drop_last();
        lemma_kept_edges_is_subseq(t, es);
        let f = kept_edges(ls, es);
        if edge_kept(ls.last(), es) {
            assert(f == kept_edges(t, es).push(ls.last()));
            assert(f.drop_last() =~= kept_edges(t, es));
            assert(is_subseq(f, ls));
        } else {
            assert(f == kept_edges(t, es));
            assert(is_subseq(f, ls));
        }
    }
}

// ===== orientation symmetry =====

/// An edge kept in either written order: a line whose edge is `e` itself
/// or `e` with its endpoints swapped survives whenever `e` is in the
/// keep-set — both orderings test true.
pub proof fn lemma_orientation_symmetry(ls: Seq<Seq<char>>, i: int, e: EdgeV, es: Set<EdgeV>)
    requires
        0 <= i < ls.len(),
        es.contains(e),
        line_edge(ls[i]) == e || line_edge(ls[i]) == rev_edge(e),
    ensures
        kept_edges(ls, es).contains(ls[i]),
{
    assert(rev_edge(rev_edge(e)) == e);
    assert(edge_kept(ls[i], es));
    lemma_kept_edges_contains(ls, es, i);
}

/// A line that passes the edge test stands in the filtered output.
pub proof fn lemma_kept_edges_contains(ls: Seq<Seq<char>>, es: Set<EdgeV>, i: int)
    requires
        0 <= i < ls.len(),
        edge_kept(ls[i], es),
    ensures
        kept_edges(ls, es).contains(ls[i]),
    decreases ls.len(),
{
    reveal_with_fuel(Seq::<_>::filter, 2);
    if i == ls.len() - 1 {
        assert(kept_edges(ls, es).last() == ls[i]);
    } else {
        lemma_kept_edges_contains(ls.drop_last(), es, i);
        assert(ls.drop_last()[i] == ls[i]);
        let ke = kept_edges(ls.drop_last(), es);
        let j = choose|j: int| 0 <= j < ke.len() && ke[j] == ls[i];
        assert(kept_edges(ls, es)[j] == ls[i]);
    }
}

/// A line whose node id passes the segment test stands in the filtered
/// output.
pub proof fn lemma_kept_segments_contains(ls: Seq<Seq<char>>, ns: Set<Seq<char>>, i: int)
    requires
        0 <= i < ls.len(),
        ns.contains(line_field(ls[i], 1)),
    ensures
        kept_segments(ls, ns).contains(ls[i]),
    decreases ls.len(),
{
    reveal_with_fuel(Seq::<_>::filter, 2);
    if i == ls.len() - 1 {
        assert(kept_segments(ls, ns).last() == ls[i]);
    } else {
        lemma_kept_segments_contains(ls.drop_last(), ns, i);
        assert(ls.drop_last()[i] == ls[i]);
        let ke = kept_segments(ls.drop_last(), ns);
        let j = choose|j: int| 0 <= j < ke.len() && ke[j] == ls[i];
        assert(kept_segments(ls, ns)[j] == ls[i]);
    }
}

// ===== soundness =====

/// Membership in the union over rows is membership in some row.
pub proof fn lemma_rows_to_set<A>(rows: Seq<Seq<A>>, x: A)
    ensures
        rows_to_set(rows).contains(x) <==> exists|i: int|
            0 <= i < rows.len() && #[trigger] rows[i].contains(x),
    decreases rows.len(),
{
    if rows.len() > 0 {
        lemma_rows_to_set(rows.drop_last(), x);
        if rows_to_set(rows).contains(x) {
            if rows.last().to_set().contains(x) {
                assert(rows[rows.len() - 1].contains(x));
            } else {
                let i = choose|i: int|
                    0 <= i < rows.drop_last().len() && #[trigger] rows.drop_last()[i].contains(x);
                assert(rows[i].contains(x));
            }
        }
        if exists|i: int| 0 <= i < rows.len() && #[trigger] rows[i].contains(x) {
            let i = choose|i: int| 0 <= i < rows.len() && #[trigger] rows[i].contains(x);
            if i < rows.len() - 1 {
                assert(rows.drop_last()[i].contains(x));
            } else {
                assert(rows.last().to_set().contains(x));
            }
        }
    }
}

/// An edge among a path's links or jumps joins two of the path's pairs.
proof fn lemma_of_pairs_member(ps: Seq<(bool, EdgeV)>, e: EdgeV)
    requires
        links_of_pairs(ps).contains(e) || jumps_of_pairs(ps).contains(e),
    ensures
        exists|k: int| 0 <= k < ps.len() && (#[trigger] ps[k]).1 == e,
    decreases ps.len(),
{
    if ps.len() > 0 {
        let t = ps.drop_last();
        if ps.last().1 == e {
            assert(ps[ps.len() - 1].1 == e);
        } else {
            if links_of_pairs(ps).contains(e) {
                if !ps.last().0 {
                    let m = links_of_pairs(t).push(ps.last().1);
                    let j = choose|j: int| 0 <= j < m.len() && m[j] == e;
                    assert(links_of_pairs(t)[j] == e);
                }
                assert(links_of_pairs(t).contains(e));
            } else {
                if ps.last().0 {
                    let m = jumps_of_pairs(t).push(ps.last().1);
                    let j = choose|j: int| 0 <= j < m.len() && m[j] == e;
                    assert(jumps_of_pairs(t)[j] == e);
                }
                assert(jumps_of_pairs(t).contains(e));
            }
            lemma_of_pairs_member(t, e);
            let k = choose|k: int| 0 <= k < t.len() && (#[trigger] t[k]).1 == e;
            assert(ps[k].1 == e);
        }
    }
}

/// Both endpoint ids of any link or jump edge a path contributes are among
/// the node ids that path contributes.
pub proof fn lemma_path_edge_endpoints(s: Seq<char>, e: EdgeV)
    requires
        path_links(s).contains(e) || path_jumps(s).contains(e),
    ensures
        path_node_ids(s).contains(e.0.0),
        path_node_ids(s).contains(e.1.0),
{
    lemma_of_pairs_member(path_pairs(s), e);
    let k = choose|k: int| 0 <= k < path_pairs(s).len() && (#[trigger] path_pairs(s)[k]).1 == e;
    let ts = path_toks(s);
    assert(path_pairs(s)[k].1 == (tok_onode(ts[k]), tok_onode(ts[k + 1])));
    assert(path_node_ids(s)[k] == tok_id(ts[k]));
    assert(path_node_ids(s)[k + 1] == tok_id(ts[k + 1]));
}

/// Both endpoint ids of any link edge a walk contributes are among the
/// node ids that walk contributes.
pub proof fn lemma_walk_edge_endpoints(s: Seq<char>, e: EdgeV)
    requires
        walk_links(s).contains(e),
    ensures
        walk_ids(s).contains(e.0.0),
        walk_ids(s).contains(e.1.0),
{
    let ns = walk_onodes(s);
    let p = pair_seq(ns);
    let k = choose|k: int| 0 <= k < p.len() && p[k] == e;
    assert(e == (ns[k], ns[k + 1]));
    assert(walk_ids(s)[k] == ns[k].0);
    assert(walk_ids(s)[k + 1] == ns[k + 1].0);
}

/// Soundness, keep-set side: every edge in the link or jump keep-set has
/// both its endpoint node ids in the node keep-set.
pub proof fn lemma_keep_edge_endpoints(ps: Seq<Seq<char>>, ws: Seq<Seq<char>>, e: EdgeV)
    requires
        keep_links(ps, ws).contains(e) || keep_jumps(ps).contains(e),
    ensures
        keep_nodes(ps, ws).contains(e.0.0),
        keep_nodes(ps, ws).contains(e.1.0),
{
    lemma_rows_to_set(paths_link_rows(ps), e);
    lemma_rows_to_set(walks_link_rows(ws), e);
    lemma_rows_to_set(paths_jump_rows(ps), e);
    lemma_rows_to_set(paths_node_rows(ps), e.0.0);
    lemma_rows_to_set(paths_node_rows(ps), e.1.0);
    lemma_rows_to_set(walks_node_rows(ws), e.0.0);
    lemma_rows_to_set(walks_node_rows(ws), e.1.0);
    if rows_to_set(paths_link_rows(ps)).contains(e) {
        let j = choose|j: int|
            0 <= j < paths_link_rows(ps).len() && #[trigger] paths_link_rows(ps)[j].contains(e);
        lemma_path_edge_endpoints(line_field(ps[j], 2), e);
        assert(paths_node_rows(ps)[j].contains(e.0.0));
        assert(paths_node_rows(ps)[j].contains(e.1.0));
    } else if rows_to_set(walks_link_rows(ws)).contains(e) {
        let j = choose|j: int|
            0 <= j < walks_link_rows(ws).len() && #[trigger] walks_link_rows(ws)[j].contains(e);
        lemma_walk_edge_endpoints(line_field(ws[j], 6), e);
        assert(walks_node_rows(ws)[j].contains(e.0.0));
        assert(walks_node_rows(ws)[j].contains(e.1.0));
    } else {
        let j = choose|j: int|
            0 <= j < paths_jump_rows(ps).len() && #[trigger] paths_jump_rows(ps)[j].contains(e);
        lemma_path_edge_endpoints(line_field(ps[j], 2), e);
        assert(paths_node_rows(ps)[j].contains(e.0.0));
        assert(paths_node_rows(ps)[j].contains(e.1.0));
    }
}

/// Soundness, segment side: every segment line in the filtered output is
/// referenced, by node id, by at least one retained path or walk.
pub proof fn lemma_output_segment_referenced(
    segs: Seq<Seq<char>>,
    ps: Seq<Seq<char>>,
    ws: Seq<Seq<char>>,
    i: int,
)
    requires
        0 <= i < kept_segments(segs, keep_nodes(ps, ws)).len(),
    ensures
        ({
            let id = line_field(kept_segments(segs, keep_nodes(ps, ws))[i], 1);
            (exists|j: int|
                0 <= j < ps.len() && path_node_ids(line_field(#[trigger] ps[j], 2)).contains(id))
                || (exists|j: int|
                0 <= j < ws.len() && walk_ids(line_field(#[trigger] ws[j], 6)).contains(id))
        }),
{
    broadcast use vstd::seq_lib::group_filter_ensures;

    let id = line_field(kept_segments(segs, keep_nodes(ps, ws))[i], 1);
    assert(keep_nodes(ps, ws).contains(id));
    lemma_rows_to_set(paths_node_rows(ps), id);
    lemma_rows_to_set(walks_node_rows(ws), id);
    if rows_to_set(paths_node_rows(ps)).contains(id) {
        let j = choose|j: int|
            0 <= j < paths_node_rows(ps).len() && #[trigger] paths_node_rows(ps)[j].contains(id);
        assert(path_node_ids(line_field(ps[j], 2)).contains(id));
    } else {
        let j = choose|j: int|
            0 <= j < walks_node_rows(ws).len() && #[trigger] walks_node_rows(ws)[j].contains(id);
        assert(walk_ids(line_field(ws[j], 6)).contains(id));
    }
}

/// Soundness, edge side: in a graph whose segment lines cover every kept
/// node id, every link or jump line in the filtered output has both its
/// endpoints' node ids carried by segment lines that also survive.
pub proof fn lemma_output_edge_covered(
    segs: Seq<Seq<char>>,
    lks: Seq<Seq<char>>,
    es: Set<EdgeV>,
    ns: Set<Seq<char>>,
    i: int,
)
    requires
        0 <= i < kept_edges(lks, es).len(),
        forall|e: EdgeV| #[trigger] es.contains(e) ==> ns.contains(e.0.0) && ns.contains(e.1.0),
        forall|id: Seq<char>| #[trigger]
            ns.contains(id) ==> exists|j: int|
                0 <= j < segs.len() && line_field(#[trigger] segs[j], 1) == id,
    ensures
        ({
            let l = kept_edges(lks, es)[i];
            (exists|j: int|
                0 <= j < kept_segments(segs, ns).len() && line_field(
                    #[trigger] kept_segments(segs, ns)[j],
                    1,
                ) == line_field(l, 1)) && (exists|j: int|
                0 <= j < kept_segments(segs, ns).len() && line_field(
                    #[trigger] kept_segments(segs, ns)[j],
                    1,
                ) == line_field(l, 3))
        }),
{
    broadcast use vstd::seq_lib::group_filter_ensures;

    let l = kept_edges(lks, es)[i];
    assert(edge_kept(l, es));
    let e = line_edge(l);
    let id1 = e.0.0;
    let id2 = e.1.0;
    if es.contains(e) {
        assert(ns.contains(id1) && ns.contains(id2));
    } else {
        assert(es.contains(rev_edge(e)));
        assert(rev_edge(e).0.0 == id2 && rev_edge(e).1.0 == id1);
        assert(ns.contains(id1) && ns.contains(id2));
    }
    let j1 = choose|j: int| 0 <= j < segs.len() && line_field(#[trigger] segs[j], 1) == id1;
    let j2 = choose|j: int| 0 <= j < segs.len() && line_field(#[trigger] segs[j], 1) == id2;
    lemma_kept_segments_contains(segs, ns, j1);
    lemma_kept_segments_contains(segs, ns, j2);
    let k1 = choose|k: int|
        0 <= k < kept_segments(segs, ns).len() && kept_segments(segs, ns)[k] == segs[j1];
    let k2 = choose|k: int|
        0 <= k < kept_segments(segs, ns).len() && kept_segments(segs, ns)[k] == segs[j2];
    assert(line_field(kept_segments(segs, ns)[k1], 1) == line_field(l, 1));
    assert(line_field(kept_segments(segs, ns)[k2], 1) == line_field(l, 3));
}

/// Soundness for link lines: in a graph whose segment lines cover every
/// kept node id, every link line in the filtered output has both of its
/// endpoints' node ids carried by segment lines that also survive.
pub proof fn lemma_output_links_covered(
    segs: Seq<Seq<char>>,
    lks: Seq<Seq<char>>,
    ps: Seq<Seq<char>>,
    ws: Seq<Seq<char>>,
    i: int,
)
    requires
        0 <= i < kept_edges(lks, keep_links(ps, ws)).len(),
        forall|id: Seq<char>| #[trigger]
            keep_nodes(ps, ws).contains(id) ==> exists|j: int|
                0 <= j < segs.len() && line_field(#[trigger] segs[j], 1) == id,
    ensures
        ({
            let ns = keep_nodes(ps, ws);
            let l = kept_edges(lks, keep_links(ps, ws))[i];
            (exists|j: int|
                0 <= j < kept_segments(segs, ns).len() && line_field(
                    #[trigger] kept_segments(segs, ns)[j],
                    1,
                ) == line_field(l, 1)) && (exists|j: int|
                0 <= j < kept_segments(segs, ns).len() && line_field(
                    #[trigger] kept_segments(segs, ns)[j],
                    1,
                ) == line_field(l, 3))
        }),
{
    assert forall|e: EdgeV| #[trigger] keep_links(ps, ws).contains(e) implies keep_nodes(
        ps,
        ws,
    ).contains(e.0.0) && keep_nodes(ps, ws).contains(e.1.0) by {
        lemma_keep_edge_endpoints(ps, ws, e);
    }
    lemma_output_edge_covered(segs, lks, keep_links(ps, ws), keep_nodes(ps, ws), i);
}

/// Soundness for jump lines, in the same sense.
pub proof fn lemma_output_jumps_covered(
    segs: Seq<Seq<char>>,
    js: Seq<Seq<char>>,
    ps: Seq<Seq<char>>,
    ws: Seq<Seq<char>>,
    i: int,
)
    requires
        0 <= i < kept_edges(js, keep_jumps(ps)).len(),
        forall|id: Seq<char>| #[trigger]
            keep_nodes(ps, ws).contains(id) ==> exists|j: int|
                0 <= j < segs.len() && line_field(#[trigger] segs[j], 1) == id,
    ensures
        ({
            let ns = keep_nodes(ps, ws);
            let l = kept_edges(js, keep_jumps(ps))[i];
            (exists|j: int|
                0 <= j < kept_segments(segs, ns).len() && line_field(
                    #[trigger] kept_segments(segs, ns)[j],
                    1,
                ) == line_field(l, 1)) && (exists|j: int|
                0 <= j < kept_segments(segs, ns).len() && line_field(
                    #[trigger] kept_segments(segs, ns)[j],
                    1,
                ) == line_field(l, 3))
        }),
{
    assert forall|e: EdgeV| #[trigger] keep_jumps(ps).contains(e) implies keep_nodes(
        ps,
        ws,
    ).contains(e.0.0) && keep_nodes(ps, ws).contains(e.1.0) by {
        lemma_keep_edge_endpoints(ps, ws, e);
    }
    lemma_output_edge_covered(segs, js, keep_jumps(ps), keep_nodes(ps, ws), i);
}

// ===== filters that keep everything =====

/// Selection keeps every line whose name passes; if all pass, it is the
/// identity.
pub proof fn lemma_selected_all(ls: Seq<Seq<char>>, names: Seq<Seq<char>>)
    requires
        forall|i: int| 0 <= i < ls.len() ==> name_selected(#[trigger] ls[i], names),
    ensures
        selected_names(ls, names) == ls,
    decreases ls.len(),
{
    reveal_with_fuel(Seq::<_>::filter, 2);
    if ls.len() > 0 {
        let t = ls.drop_last();
        assert(forall|i: int| 0 <= i < t.len() ==> #[trigger] t[i] == ls[i]);
        lemma_selected_all(t, names);
        assert(name_selected(ls.last(), names));
        assert(selected_names(ls, names) =~= ls);
    }
}

/// Segment filtering is the identity when every line's node id is kept.
pub proof fn lemma_kept_segments_all(ls: Seq<Seq<char>>, ns: Set<Seq<char>>)
    requires
        forall|i: int| 0 <= i < ls.len() ==> ns.contains(line_field(#[trigger] ls[i], 1)),
    ensures
        kept_segments(ls, ns) == ls,
    decreases ls.len(),
{
    reveal_with_fuel(Seq::<_>::filter, 2);
    if ls.len() > 0 {
        let t = ls.drop_last();
        assert(forall|i: int| 0 <= i < t.len() ==> #[trigger] t[i] == ls[i]);
        lemma_kept_segments_all(t, ns);
        assert(ns.contains(line_field(ls.last(), 1)));
        assert(kept_segments(ls, ns) =~= ls);
    }
}

/// Edge filtering is the identity when every line's edge is kept.
pub proof fn lemma_kept_edges_all(ls: Seq<Seq<char>>, es: Set<EdgeV>)
    requires
        forall|i: int| 0 <= i < ls.len() ==> edge_kept(#[trigger] ls[i], es),
    ensures
        kept_edges(ls, es) == ls,
    decreases ls.len(),
{
    reveal_with_fuel(Seq::<_>::filter, 2);
    if ls.len() > 0 {
        let t = ls.drop_last();
        assert(forall|i: int| 0 <= i < t.len() ==> #[trigger] t[i] == ls[i]);
        lemma_kept_edges_all(t, es);
        assert(edge_kept(ls.last(), es));
        assert(kept_edges(ls, es) =~= ls);
    }
}

/// Completeness under "keep all": with no selection list, every path
/// record is retained — each line's own name is among the extracted names.
pub proof fn lemma_keep_all_paths(ps: Seq<Seq<char>>)
    ensures
        selected_names(ps, path_names(ps)) == ps,
{
    assert forall|i: int| 0 <= i < ps.len() implies name_selected(
        #[trigger] ps[i],
        path_names(ps),
    ) by {
        assert(path_names(ps)[i] == line_field(ps[i], 1));
    }
    lemma_selected_all(ps, path_names(ps));
}

/// Completeness under "keep all", whole-run form: with no selection list,
/// on a graph whose segments, links and jumps are all touched by its paths
/// and walks, the run is the identity up to regrouping.
pub proof fn lemma_completeness_keep_all(lv: Seq<Seq<char>>)
    requires
        trim_spec(lv, None, false, false, false) is Ok,
        forall|i: int|
            0 <= i < lines_of_kind(lv, 0).len() ==> keep_nodes(
                lines_of_kind(lv, 2),
                lines_of_kind(lv, 3),
            ).contains(line_field(#[trigger] lines_of_kind(lv, 0)[i], 1)),
        forall|i: int|
            0 <= i < lines_of_kind(lv, 1).len() ==> edge_kept(
                #[trigger] lines_of_kind(lv, 1)[i],
                keep_links(lines_of_kind(lv, 2), lines_of_kind(lv, 3)),
            ),
        forall|i: int|
            0 <= i < lines_of_kind(lv, 4).len() ==> edge_kept(
                #[trigger] lines_of_kind(lv, 4)[i],
                keep_jumps(lines_of_kind(lv, 2)),
            ),
    ensures
        trim_spec(lv, None, false, false, false)->Ok_0 == lines_of_kind(lv, 5) + lines_of_kind(
            lv,
            0,
        ) + lines_of_kind(lv, 2) + lines_of_kind(lv, 3) + lines_of_kind(lv, 1) + lines_of_kind(
            lv,
            4,
        ) + lines_of_kind(lv, 6),
{
    let ps = lines_of_kind(lv, 2);
    let ws = lines_of_kind(lv, 3);
    lemma_keep_all_paths(ps);
    lemma_kept_segments_all(lines_of_kind(lv, 0), keep_nodes(ps, ws));
    lemma_kept_edges_all(lines_of_kind(lv, 1), keep_links(ps, ws));
    lemma_kept_edges_all(lines_of_kind(lv, 4), keep_jumps(ps));
}

// ===== idempotence =====

/// Every line of `ls` falls in bucket `k`.
pub open spec fn all_kind(ls: Seq<Seq<char>>, k: int) -> bool {
    forall|i: int| 0 <= i < ls.len() ==> line_kind(#[trigger] ls[i]) == k
}

/// The lines of one bucket all carry that bucket's kind.
pub proof fn lemma_kind_members(lv: Seq<Seq<char>>, k: int)
    ensures
        all_kind(lines_of_kind(lv, k), k),
{
    broadcast use vstd::seq_lib::group_filter_ensures;

    assert forall|i: int| 0 <= i < lines_of_kind(lv, k).len() implies line_kind(
        #[trigger] lines_of_kind(lv, k)[i],
    ) == k by {}
}

/// Classifying lines that are all of one kind returns them for that kind
/// and nothing for any other.
pub proof fn lemma_kind_of_uniform(ls: Seq<Seq<char>>, k: int, k2: int)
    requires
        all_kind(ls, k),
    ensures
        k2 == k ==> lines_of_kind(ls, k2) == ls,
        k2 != k ==> lines_of_kind(ls, k2) == Seq::<Seq<char>>::empty(),
    decreases ls.len(),
{
    reveal_with_fuel(Seq::<_>::filter, 2);
    if ls.len() > 0 {
        let t = ls.drop_last();
        assert(forall|i: int| 0 <= i < t.len() ==> #[trigger] t[i] == ls[i]);
        lemma_kind_of_uniform(t, k, k2);
        assert(line_kind(ls.last()) == k);
        if k2 == k {
            assert(lines_of_kind(ls, k2) =~= ls);
        } else {
            assert(lines_of_kind(ls, k2) =~= Seq::<Seq<char>>::empty());
        }
    }
}

/// A kind that holds of every line of a larger sequence holds of every
/// line of a subsequence of it.
pub proof fn lemma_subseq_all_kind(xs: Seq<Seq<char>>, ys: Seq<Seq<char>>, k: int)
    requires
        is_subseq(xs, ys),
        all_kind(ys, k),
    ensures
        all_kind(xs, k),
{
    lemma_subseq_index(xs, ys);
    assert forall|i: int| 0 <= i < xs.len() implies line_kind(#[trigger] xs[i]) == k by {
        let j = choose|j: int| 0 <= j < ys.len() && ys[j] == xs[i];
    }
}

/// Classification distributes over concatenation.
proof fn lemma_kind_concat(a: Seq<Seq<char>>, b: Seq<Seq<char>>, k: int)
    ensures
        lines_of_kind(a + b, k) == lines_of_kind(a, k) + lines_of_kind(b, k),
    decreases b.len(),
{
    reveal_with_fuel(Seq::<_>::filter, 2);
    if b.len() == 0 {
        assert(a + b =~= a);
        assert(lines_of_kind(b, k) =~= Seq::<Seq<char>>::empty());
        assert(lines_of_kind(a, k) + lines_of_kind(b, k) =~= lines_of_kind(a, k));
    } else {
        lemma_kind_concat(a, b.drop_last(), k);
        assert((a + b).drop_last() =~= a + b.drop_last());
        assert((a + b).last() == b.last());
        assert(lines_of_kind(a + b, k) =~= lines_of_kind(a, k) + lines_of_kind(b, k));
    }
}

/// Classifying the concatenation of the seven groups, each uniform in its
/// own kind, yields the matching group for `k`.
proof fn lemma_reclassify_one(
    hs: Seq<Seq<char>>,
    segs2: Seq<Seq<char>>,
    kept_ps: Seq<Seq<char>>,
    ws: Seq<Seq<char>>,
    lks2: Seq<Seq<char>>,
    js2: Seq<Seq<char>>,
    os: Seq<Seq<char>>,
    k: int,
)
    requires
        all_kind(hs, 5),
        all_kind(segs2, 0),
        all_kind(kept_ps, 2),
        all_kind(ws, 3),
        all_kind(lks2, 1),
        all_kind(js2, 4),
        all_kind(os, 6),
        0 <= k <= 6,
    ensures
        lines_of_kind(hs + segs2 + kept_ps + ws + lks2 + js2 + os, k) == (if k == 0 {
            segs2
        } else if k == 1 {
            lks2
        } else if k == 2 {
            kept_ps
        } else if k == 3 {
            ws
        } else if k == 4 {
            js2
        } else if k == 5 {
            hs
        } else {
            os
        }),
{
    let c1 = hs + segs2;
    let c2 = c1 + kept_ps;
    let c3 = c2 + ws;
    let c4 = c3 + lks2;
    let c5 = c4 + js2;
    lemma_kind_concat(hs, segs2, k);
    lemma_kind_concat(c1, kept_ps, k);
    lemma_kind_concat(c2, ws, k);
    lemma_kind_concat(c3, lks2, k);
    lemma_kind_concat(c4, js2, k);
    lemma_kind_concat(c5, os, k);
    lemma_kind_of_uniform(hs, 5, k);
    lemma_kind_of_uniform(segs2, 0, k);
    lemma_kind_of_uniform(kept_ps, 2, k);
    lemma_kind_of_uniform(ws, 3, k);
    lemma_kind_of_uniform(lks2, 1, k);
    lemma_kind_of_uniform(js2, 4, k);
    lemma_kind_of_uniform(os, 6, k);
    assert(lines_of_kind(c5 + os, k) =~= (if k == 0 {
        segs2
    } else if k == 1 {
        lks2
    } else if k == 2 {
        kept_ps
    } else if k == 3 {
        ws
    } else if k == 4 {
        js2
    } else if k == 5 {
        hs
    } else {
        os
    }));
}

/// Classifying the concatenation of the seven groups, each uniform in its
/// own kind, recovers exactly those groups.
proof fn lemma_reclassify(
    hs: Seq<Seq<char>>,
    segs2: Seq<Seq<char>>,
    kept_ps: Seq<Seq<char>>,
    ws: Seq<Seq<char>>,
    lks2: Seq<Seq<char>>,
    js2: Seq<Seq<char>>,
    os: Seq<Seq<char>>,
)
    requires
        all_kind(hs, 5),
        all_kind(segs2, 0),
        all_kind(kept_ps, 2),
        all_kind(ws, 3),
        all_kind(lks2, 1),
        all_kind(js2, 4),
        all_kind(os, 6),
    ensures
        ({
            let out = hs + segs2 + kept_ps + ws + lks2 + js2 + os;
            &&& lines_of_kind(out, 0) == segs2
            &&& lines_of_kind(out, 1) == lks2
            &&& lines_of_kind(out, 2) == kept_ps
            &&& lines_of_kind(out, 3) == ws
            &&& lines_of_kind(out, 4) == js2
            &&& lines_of_kind(out, 5) == hs
            &&& lines_of_kind(out, 6) == os
        }),
{
    lemma_reclassify_one(hs, segs2, kept_ps, ws, lks2, js2, os, 0);
    lemma_reclassify_one(hs, segs2, kept_ps, ws, lks2, js2, os, 1);
    lemma_reclassify_one(hs, segs2, kept_ps, ws, lks2, js2, os, 2);
    lemma_reclassify_one(hs, segs2, kept_ps, ws, lks2, js2, os, 3);
    lemma_reclassify_one(hs, segs2, kept_ps, ws, lks2, js2, os, 4);
    lemma_reclassify_one(hs, segs2, kept_ps, ws, lks2, js2, os, 5);
    lemma_reclassify_one(hs, segs2, kept_ps, ws, lks2, js2, os, 6);
}

/// A field that every line of a sequence has, every line of a subsequence
/// of it has too.
proof fn lemma_subseq_fields_ok(xs: Seq<Seq<char>>, ys: Seq<Seq<char>>, n: int)
    requires
        is_subseq(xs, ys),
        fields_ok(ys, n),
    ensures
        fields_ok(xs, n),
{
    lemma_subseq_index(xs, ys);
    assert forall|i: int| 0 <= i < xs.len() implies line_has_field(#[trigger] xs[i], n) by {
        let j = choose|j: int| 0 <= j < ys.len() && ys[j] == xs[i];
    }
}

/// Every surviving segment line passed the membership test.
proof fn lemma_kept_segments_members(ls: Seq<Seq<char>>, ns: Set<Seq<char>>)
    ensures
        forall|i: int|
            0 <= i < kept_segments(ls, ns).len() ==> ns.contains(
                line_field(#[trigger] kept_segments(ls, ns)[i], 1),
            ),
{
    broadcast use vstd::seq_lib::group_filter_ensures;

    assert forall|i: int| 0 <= i < kept_segments(ls, ns).len() implies ns.contains(
        line_field(#[trigger] kept_segments(ls, ns)[i], 1),
    ) by {}
}

/// Every surviving edge line passed the membership test.
proof fn lemma_kept_edges_members(ls: Seq<Seq<char>>, es: Set<EdgeV>)
    ensures
        forall|i: int|
            0 <= i < kept_edges(ls, es).len() ==> edge_kept(#[trigger] kept_edges(ls, es)[i], es),
{
    broadcast use vstd::seq_lib::group_filter_ensures;

    assert forall|i: int| 0 <= i < kept_edges(ls, es).len() implies edge_kept(
        #[trigger] kept_edges(ls, es)[i],
        es,
    ) by {}
}

/// A second selection with the same names keeps every already-selected
/// line.
proof fn lemma_select_twice(
    ps: Seq<Seq<char>>,
    names_opt: Option<Seq<Seq<char>>>,
)
    ensures
        ({
            let names = match names_opt {
                Some(ns) => ns,
                None => path_names(ps),
            };
            let kept_ps = selected_names(ps, names);
            let names2 = match names_opt {
                Some(ns) => ns,
                None => path_names(kept_ps),
            };
            selected_names(kept_ps, names2) == kept_ps
        }),
{
    broadcast use vstd::seq_lib::group_filter_ensures;

    let names = match names_opt {
        Some(ns) => ns,
        None => path_names(ps),
    };
    let kept_ps = selected_names(ps, names);
    if names_opt is Some {
        assert forall|i: int| 0 <= i < kept_ps.len() implies name_selected(
            #[trigger] kept_ps[i],
            names,
        ) by {}
        lemma_selected_all(kept_ps, names);
    } else {
        lemma_keep_all_paths(kept_ps);
    }
}

/// A graph already reduced — each group uniform, every check passing, and
/// every filter the identity — passes through the run unchanged.
proof fn lemma_trim_on_reduced(
    names_opt: Option<Seq<Seq<char>>>,
    ig_s: bool,
    ig_l: bool,
    ig_j: bool,
    hs: Seq<Seq<char>>,
    segs2: Seq<Seq<char>>,
    kept_ps: Seq<Seq<char>>,
    ws: Seq<Seq<char>>,
    lks2: Seq<Seq<char>>,
    js2: Seq<Seq<char>>,
    os: Seq<Seq<char>>,
)
    requires
        ({
            let out = hs + segs2 + kept_ps + ws + lks2 + js2 + os;
            &&& lines_of_kind(out, 0) == segs2
            &&& lines_of_kind(out, 1) == lks2
            &&& lines_of_kind(out, 2) == kept_ps
            &&& lines_of_kind(out, 3) == ws
            &&& lines_of_kind(out, 4) == js2
            &&& lines_of_kind(out, 5) == hs
            &&& lines_of_kind(out, 6) == os
        }),
        fields_ok(kept_ps, 1),
        selected_names(
            kept_ps,
            match names_opt {
                Some(ns) => ns,
                None => path_names(kept_ps),
            },
        ) == kept_ps,
        paths_all_ok(kept_ps),
        walks_all_ok(ws),
        !ig_s ==> fields_ok(segs2, 1) && kept_segments(segs2, keep_nodes(kept_ps, ws)) == segs2,
        !ig_l ==> fields_ok(lks2, 4) && kept_edges(lks2, keep_links(kept_ps, ws)) == lks2,
        !ig_j ==> fields_ok(js2, 4) && kept_edges(js2, keep_jumps(kept_ps)) == js2,
    ensures
        ({
            let out = hs + segs2 + kept_ps + ws + lks2 + js2 + os;
            trim_spec(out, names_opt, ig_s, ig_l, ig_j) == Ok::<Seq<Seq<char>>, crate::GraphError>(
                out,
            )
        }),
{
    let out = hs + segs2 + kept_ps + ws + lks2 + js2 + os;
    assert(trim_spec(out, names_opt, ig_s, ig_l, ig_j)->Ok_0 =~= out);
}

/// What a successful run returns, spelled out by group.
#[verifier::spinoff_prover]
proof fn lemma_first_run_shape(
    lv: Seq<Seq<char>>,
    names_opt: Option<Seq<Seq<char>>>,
    ig_s: bool,
    ig_l: bool,
    ig_j: bool,
)
    requires
        trim_spec(lv, names_opt, ig_s, ig_l, ig_j) is Ok,
    ensures
        ({
            let segs = lines_of_kind(lv, 0);
            let lks = lines_of_kind(lv, 1);
            let ps = lines_of_kind(lv, 2);
            let ws = lines_of_kind(lv, 3);
            let js = lines_of_kind(lv, 4);
            let hs = lines_of_kind(lv, 5);
            let os = lines_of_kind(lv, 6);
            let names = match names_opt {
                Some(ns) => ns,
                None => path_names(ps),
            };
            let kept_ps = selected_names(ps, names);
            let nset = keep_nodes(kept_ps, ws);
            let lset = keep_links(kept_ps, ws);
            let jset = keep_jumps(kept_ps);
            let segs2 = if ig_s { segs } else { kept_segments(segs, nset) };
            let lks2 = if ig_l { lks } else { kept_edges(lks, lset) };
            let js2 = if ig_j { js } else { kept_edges(js, jset) };
            &&& trim_spec(lv, names_opt, ig_s, ig_l, ig_j) == Ok::<
                Seq<Seq<char>>,
                crate::GraphError,
            >(hs + segs2 + kept_ps + ws + lks2 + js2 + os)
            &&& fields_ok(ps, 1)
            &&& paths_all_ok(kept_ps)
            &&& walks_all_ok(ws)
            &&& !ig_s ==> fields_ok(segs, 1)
            &&& !ig_l ==> fields_ok(lks, 4)
            &&& !ig_j ==> fields_ok(js, 4)
        }),
{
}

/// A successful run's output, run a second time with the same selection
/// and flags, passes through unchanged.
#[verifier::spinoff_prover]
proof fn lemma_second_run(
    names_opt: Option<Seq<Seq<char>>>,
    ig_s: bool,
    ig_l: bool,
    ig_j: bool,
    segs: Seq<Seq<char>>,
    lks: Seq<Seq<char>>,
    ps: Seq<Seq<char>>,
    ws: Seq<Seq<char>>,
    js: Seq<Seq<char>>,
    hs: Seq<Seq<char>>,
    os: Seq<Seq<char>>,
)
    requires
        all_kind(segs, 0),
        all_kind(lks, 1),
        all_kind(ps, 2),
        all_kind(ws, 3),
        all_kind(js, 4),
        all_kind(hs, 5),
        all_kind(os, 6),
        fields_ok(ps, 1),
        paths_all_ok(
            selected_names(
                ps,
                match names_opt {
                    Some(ns) => ns,
                    None => path_names(ps),
                },
            ),
        ),
        walks_all_ok(ws),
        !ig_s ==> fields_ok(segs, 1),
        !ig_l ==> fields_ok(lks, 4),
        !ig_j ==> fields_ok(js, 4),
    ensures
        ({
            let names = match names_opt {
                Some(ns) => ns,
                None => path_names(ps),
            };
            let kept_ps = selected_names(ps, names);
            let nset = keep_nodes(kept_ps, ws);
            let lset = keep_links(kept_ps, ws);
            let jset = keep_jumps(kept_ps);
            let segs2 = if ig_s { segs } else { kept_segments(segs, nset) };
            let lks2 = if ig_l { lks } else { kept_edges(lks, lset) };
            let js2 = if ig_j { js } else { kept_edges(js, jset) };
            let out = hs + segs2 + kept_ps + ws + lks2 + js2 + os;
            trim_spec(out, names_opt, ig_s, ig_l, ig_j) == Ok::<Seq<Seq<char>>, crate::GraphError>(
                out,
            )
        }),
{
    let names = match names_opt {
        Some(ns) => ns,
        None => path_names(ps),
    };
    let kept_ps = selected_names(ps, names);
    let nset = keep_nodes(kept_ps, ws);
    let lset = keep_links(kept_ps, ws);
    let jset = keep_jumps(kept_ps);
    let segs2 = if ig_s { segs } else { kept_segments(segs, nset) };
    let lks2 = if ig_l { lks } else { kept_edges(lks, lset) };
    let js2 = if ig_j { js } else { kept_edges(js, jset) };

    // The second classification recovers exactly the groups.
    lemma_selected_is_subseq(ps, names);
    lemma_subseq_all_kind(kept_ps, ps, 2);
    if !ig_s {
        lemma_kept_segments_is_subseq(segs, nset);
        lemma_subseq_all_kind(segs2, segs, 0);
    }
    if !ig_l {
        lemma_kept_edges_is_subseq(lks, lset);
        lemma_subseq_all_kind(lks2, lks, 1);
    }
    if !ig_j {
        lemma_kept_edges_is_subseq(js, jset);
        lemma_subseq_all_kind(js2, js, 4);
    }
    lemma_reclassify(hs, segs2, kept_ps, ws, lks2, js2, os);

    // The already-selected lines pass the second selection unchanged.
    lemma_subseq_fields_ok(kept_ps, ps, 1);
    lemma_select_twice(ps, names_opt);

    // The second run's field checks pass, and its filters keep everything.
    if !ig_s {
        lemma_subseq_fields_ok(segs2, segs, 1);
        lemma_kept_segments_members(segs, nset);
        lemma_kept_segments_all(segs2, nset);
    }
    if !ig_l {
        lemma_subseq_fields_ok(lks2, lks, 4);
        lemma_kept_edges_members(lks, lset);
        lemma_kept_edges_all(lks2, lset);
    }
    if !ig_j {
        lemma_subseq_fields_ok(js2, js, 4);
        lemma_kept_edges_members(js, jset);
        lemma_kept_edges_all(js2, jset);
    }
    lemma_trim_on_reduced(names_opt, ig_s, ig_l, ig_j, hs, segs2, kept_ps, ws, lks2, js2, os);
}

/// Idempotence: running the whole filter a second time, with the same
/// selection and the same flags, changes nothing — the output is already
/// reduced.
#[verifier::rlimit(100)]
#[verifier::spinoff_prover]
pub proof fn lemma_idempotent(
    lv: Seq<Seq<char>>,
    names_opt: Option<Seq<Seq<char>>>,
    ig_s: bool,
    ig_l: bool,
    ig_j: bool,
)
    requires
        trim_spec(lv, names_opt, ig_s, ig_l, ig_j) is Ok,
    ensures
        trim_spec(
            trim_spec(lv, names_opt, ig_s, ig_l, ig_j)->Ok_0,
            names_opt,
            ig_s,
            ig_l,
            ig_j,
        ) == trim_spec(lv, names_opt, ig_s, ig_l, ig_j),
{
    lemma_first_run_shape(lv, names_opt, ig_s, ig_l, ig_j);
    lemma_kind_members(lv, 0);
    lemma_kind_members(lv, 1);
    lemma_kind_members(lv, 2);
    lemma_kind_members(lv, 3);
    lemma_kind_members(lv, 4);
    lemma_kind_members(lv, 5);
    lemma_kind_members(lv, 6);
    lemma_second_run(
        names_opt,
        ig_s,
        ig_l,
        ig_j,
        lines_of_kind(lv, 0),
        lines_of_kind(lv, 1),
        lines_of_kind(lv, 2),
        lines_of_kind(lv, 3),
        lines_of_kind(lv, 4),
        lines_of_kind(lv, 5),
        lines_of_kind(lv, 6),
    );
}

} // verus!
