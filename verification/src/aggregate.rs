//! Building the three global keep-sets from every retained path and walk:
//! the nodes to keep, the link edges to keep and the jump edges to keep.
//! The reduction is a set union — associative and commutative with the
//! empty set as identity — so no grouping or order of the records can
//! change the result.

use crate::decode::{
    get_nodes_edges_from_path, get_nodes_edges_from_walk, path_jumps, path_links, path_node_ids,
    path_ok, walk_ids, walk_links, walk_ok,
};
use crate::elements::{
    flatten_into_hashset, rows_to_set, Edge, EdgeV, Edges, Nodes,
};
use crate::text::{line_field, line_has_field};
use crate::GraphError;
use vstd::prelude::*;

verus! {

// ===== what one record contributes =====

/// A path record is usable when it has its node-list field and that field
/// decodes.
pub open spec fn path_line_ok(l: Seq<char>) -> bool {
    line_has_field(l, 2) && path_ok(line_field(l, 2))
}

/// A walk record is usable when it has its walk-string field and that field
/// decodes.
pub open spec fn walk_line_ok(l: Seq<char>) -> bool {
    line_has_field(l, 6) && walk_ok(line_field(l, 6))
}

pub open spec fn paths_all_ok(ps: Seq<Seq<char>>) -> bool {
    forall|i: int| 0 <= i < ps.len() ==> path_line_ok(#[trigger] ps[i])
}

pub open spec fn walks_all_ok(ws: Seq<Seq<char>>) -> bool {
    forall|i: int| 0 <= i < ws.len() ==> walk_line_ok(#[trigger] ws[i])
}

/// The error of the first unusable walk record: a missing field is a
/// malformed record, a field that does not scan is a parse error.
pub open spec fn first_walk_err(ws: Seq<Seq<char>>) -> GraphError
    decreases ws.len(),
{
    if ws.len() == 0 {
        GraphError::MalformedRecord
    } else if !walk_line_ok(ws[0]) {
        if !line_has_field(ws[0], 6) {
            GraphError::MalformedRecord
        } else {
            GraphError::ParseError
        }
    } else {
        first_walk_err(ws.drop_first())
    }
}

pub proof fn lemma_first_walk_err(ws: Seq<Seq<char>>, i: int)
    requires
        0 <= i < ws.len(),
        forall|k: int| 0 <= k < i ==> walk_line_ok(#[trigger] ws[k]),
        !walk_line_ok(ws[i]),
    ensures
        first_walk_err(ws) == (if !line_has_field(ws[i], 6) {
            GraphError::MalformedRecord
        } else {
            GraphError::ParseError
        }),
    decreases i,
{
    if i > 0 {
        let t = ws.drop_first();
        assert(forall|k: int| 0 <= k < i - 1 ==> #[trigger] t[k] == ws[k + 1]);
        lemma_first_walk_err(t, i - 1);
    }
}

// ===== the rows the records contribute =====

pub open spec fn paths_node_rows(ps: Seq<Seq<char>>) -> Seq<Seq<Seq<char>>> {
    ps.map_values(|l: Seq<char>| path_node_ids(line_field(l, 2)))
}

pub open spec fn paths_link_rows(ps: Seq<Seq<char>>) -> Seq<Seq<EdgeV>> {
    ps.map_values(|l: Seq<char>| path_links(line_field(l, 2)))
}

pub open spec fn paths_jump_rows(ps: Seq<Seq<char>>) -> Seq<Seq<EdgeV>> {
    ps.map_values(|l: Seq<char>| path_jumps(line_field(l, 2)))
}

pub open spec fn walks_node_rows(ws: Seq<Seq<char>>) -> Seq<Seq<Seq<char>>> {
    ws.map_values(|l: Seq<char>| walk_ids(line_field(l, 6)))
}

pub open spec fn walks_link_rows(ws: Seq<Seq<char>>) -> Seq<Seq<EdgeV>> {
    ws.map_values(|l: Seq<char>| walk_links(line_field(l, 6)))
}

// ===== the keep-sets =====

/// Every node id referenced by any retained path or walk, irrespective of
/// orientation.
pub open spec fn keep_nodes(ps: Seq<Seq<char>>, ws: Seq<Seq<char>>) -> Set<Seq<char>> {
    rows_to_set(paths_node_rows(ps)).union(rows_to_set(walks_node_rows(ws)))
}

/// Every link edge traversed by any retained path or walk.
pub open spec fn keep_links(ps: Seq<Seq<char>>, ws: Seq<Seq<char>>) -> Set<EdgeV> {
    rows_to_set(paths_link_rows(ps)).union(rows_to_set(walks_link_rows(ws)))
}

/// Every jump edge traversed by any retained path. Walks never contribute
/// jumps.
pub open spec fn keep_jumps(ps: Seq<Seq<char>>) -> Set<EdgeV> {
    rows_to_set(paths_jump_rows(ps))
}

/// Decodes every retained path and walk record and reduces their node and
/// edge lists into the three keep-sets. Fails on the first record that is
/// malformed or does not decode, before any set is handed out.
pub fn get_nodes_edges(paths: &Vec<String>, walks: &Vec<String>) -> (r: Result<
    (Nodes, Edges, Edges),
    GraphError,
>)
    ensures
        r is Ok <==> paths_all_ok(paths.deep_view()) && walks_all_ok(walks.deep_view()),
        !paths_all_ok(paths.deep_view()) ==> r == Err::<(Nodes, Edges, Edges), GraphError>(
            GraphError::MalformedRecord,
        ),
        paths_all_ok(paths.deep_view()) && !walks_all_ok(walks.deep_view()) ==> r == Err::<
            (Nodes, Edges, Edges),
            GraphError,
        >(first_walk_err(walks.deep_view())),
        r is Ok ==> r->Ok_0.0.wf() && r->Ok_0.0@ == keep_nodes(
            paths.deep_view(),
            walks.deep_view(),
        ),
        r is Ok ==> r->Ok_0.1.wf() && r->Ok_0.1@ == keep_links(
            paths.deep_view(),
            walks.deep_view(),
        ),
        r is Ok ==> r->Ok_0.2.wf() && r->Ok_0.2@ == keep_jumps(paths.deep_view()),
{
    let ghost pv = paths.deep_view();
    let ghost wv = walks.deep_view();
    let mut node_rows: Vec<Vec<String>> = Vec::new();
    let mut link_rows: Vec<Vec<Edge>> = Vec::new();
    let mut jump_rows: Vec<Vec<Edge>> = Vec::new();
    let mut i: usize = 0;
    proof {
        assert(node_rows.deep_view() =~~= paths_node_rows(pv).take(0));
        assert(link_rows.deep_view() =~~= paths_link_rows(pv).take(0));
        assert(jump_rows.deep_view() =~~= paths_jump_rows(pv).take(0));
    }
    while i < paths.len()
        invariant
            pv == paths.deep_view(),
            i <= paths.len(),
            forall|k: int| 0 <= k < i ==> path_line_ok(#[trigger] pv[k]),
            node_rows.deep_view() == paths_node_rows(pv).take(i as int),
            link_rows.deep_view() == paths_link_rows(pv).take(i as int),
            jump_rows.deep_view() == paths_jump_rows(pv).take(i as int),
        decreases paths.len() - i,
    {
        let line = &paths[i];
        proof {
            assert(line@ == pv[i as int]);
        }
        let cs = crate::text::chars_vec(line.as_str());
        match crate::text::field_at(&cs, 2) {
            None => {
                proof {
                    assert(!path_line_ok(pv[i as int]));
                }
                return Err(GraphError::MalformedRecord);
            },
            Some(fld) => {
                match get_nodes_edges_from_path(fld.as_str()) {
                    Err(_) => {
                        proof {
                            assert(!path_line_ok(pv[i as int]));
                        }
                        return Err(GraphError::MalformedRecord);
                    },
                    Ok(t) => {
                        let (ns, ls, js) = t;
                        let ghost npre = node_rows.deep_view();
                        let ghost lpre = link_rows.deep_view();
                        let ghost jpre = jump_rows.deep_view();
                        let ghost nsv = ns.deep_view();
                        let ghost lsv = ls.deep_view();
                        let ghost jsv = js.deep_view();
                        proof {
                            assert(nsv == paths_node_rows(pv)[i as int]);
                            assert(lsv == paths_link_rows(pv)[i as int]);
                            assert(jsv == paths_jump_rows(pv)[i as int]);
                        }
                        node_rows.push(ns);
                        link_rows.push(ls);
                        jump_rows.push(js);
                        proof {
                            assert(pv.len() == paths@.len());
                            assert(paths_node_rows(pv).len() == pv.len());
                            assert(npre.len() == i as int);
                            assert(node_rows@.len() == i + 1);
                            assert(node_rows.deep_view().len() == i + 1);
                            assert(node_rows@[i as int].deep_view() == nsv);
                            assert forall|k: int| 0 <= k < i + 1 implies node_rows.deep_view()[k]
                                == paths_node_rows(pv).take(i + 1)[k] by {
                                if k < i {
                                    assert(node_rows.deep_view()[k] == npre[k]);
                                } else {
                                    assert(node_rows.deep_view()[k] == nsv);
                                }
                            }
                            assert(lpre.len() == i as int);
                            assert(link_rows@.len() == i + 1);
                            assert(link_rows@[i as int].deep_view() == lsv);
                            assert(jpre.len() == i as int);
                            assert(jump_rows@.len() == i + 1);
                            assert(jump_rows@[i as int].deep_view() == jsv);
                            assert forall|k: int| 0 <= k < i + 1 implies link_rows.deep_view()[k]
                                == paths_link_rows(pv).take(i + 1)[k] by {
                                if k < i {
                                    assert(link_rows.deep_view()[k] == lpre[k]);
                                } else {
                                    assert(link_rows.deep_view()[k] == lsv);
                                }
                            }
                            assert forall|k: int| 0 <= k < i + 1 implies jump_rows.deep_view()[k]
                                == paths_jump_rows(pv).take(i + 1)[k] by {
                                if k < i {
                                    assert(jump_rows.deep_view()[k] == jpre[k]);
                                } else {
                                    assert(jump_rows.deep_view()[k] == jsv);
                                }
                            }
                            assert(node_rows.deep_view() =~= paths_node_rows(pv).take(i + 1));
                            assert(link_rows.deep_view() =~= paths_link_rows(pv).take(i + 1));
                            assert(jump_rows.deep_view() =~= paths_jump_rows(pv).take(i + 1));
                        }
                    },
                }
            },
        }
        i = i + 1;
    }
    proof {
        assert(paths_node_rows(pv).take(pv.len() as int) =~~= paths_node_rows(pv));
        assert(paths_link_rows(pv).take(pv.len() as int) =~~= paths_link_rows(pv));
        assert(paths_jump_rows(pv).take(pv.len() as int) =~~= paths_jump_rows(pv));
    }
    let mut nodes = flatten_into_hashset(node_rows);
    let mut links = flatten_into_hashset(link_rows);
    let jumps = flatten_into_hashset(jump_rows);
    let mut wnode_rows: Vec<Vec<String>> = Vec::new();
    let mut wlink_rows: Vec<Vec<Edge>> = Vec::new();
    let mut w: usize = 0;
    proof {
        assert(wnode_rows.deep_view() =~~= walks_node_rows(wv).take(0));
        assert(wlink_rows.deep_view() =~~= walks_link_rows(wv).take(0));
    }
    while w < walks.len()
        invariant
            pv == paths.deep_view(),
            wv == walks.deep_view(),
            paths_all_ok(pv),
            w <= walks.len(),
            forall|k: int| 0 <= k < w ==> walk_line_ok(#[trigger] wv[k]),
            wnode_rows.deep_view() == walks_node_rows(wv).take(w as int),
            wlink_rows.deep_view() == walks_link_rows(wv).take(w as int),
        decreases walks.len() - w,
    {
        let line = &walks[w];
        proof {
            assert(line@ == wv[w as int]);
        }
        let cs = crate::text::chars_vec(line.as_str());
        match crate::text::field_at(&cs, 6) {
            None => {
                proof {
                    assert(!walk_line_ok(wv[w as int]));
                    lemma_first_walk_err(wv, w as int);
                }
                return Err(GraphError::MalformedRecord);
            },
            Some(fld) => {
                match get_nodes_edges_from_walk(fld.as_str()) {
                    Err(_) => {
                        proof {
                            assert(!walk_line_ok(wv[w as int]));
                            lemma_first_walk_err(wv, w as int);
                        }
                        return Err(GraphError::ParseError);
                    },
                    Ok(t) => {
                        let (ns, ls) = t;
                        let ghost npre = wnode_rows.deep_view();
                        let ghost lpre = wlink_rows.deep_view();
                        let ghost nsv = ns.deep_view();
                        let ghost lsv = ls.deep_view();
                        proof {
                            assert(nsv == walks_node_rows(wv)[w as int]);
                            assert(lsv == walks_link_rows(wv)[w as int]);
                        }
                        wnode_rows.push(ns);
                        wlink_rows.push(ls);
                        proof {
                            assert(wv.len() == walks@.len());
                            assert(walks_node_rows(wv).len() == wv.len());
                            assert(npre.len() == w as int);
                            assert(wnode_rows@.len() == w + 1);
                            assert(wnode_rows@[w as int].deep_view() == nsv);
                            assert(lpre.len() == w as int);
                            assert(wlink_rows@.len() == w + 1);
                            assert(wlink_rows@[w as int].deep_view() == lsv);
                            assert forall|k: int| 0 <= k < w + 1 implies wnode_rows.deep_view()[k]
                                == walks_node_rows(wv).take(w + 1)[k] by {
                                if k < w {
                                    assert(wnode_rows.deep_view()[k] == npre[k]);
                                } else {
                                    assert(wnode_rows.deep_view()[k] == nsv);
                                }
                            }
                            assert forall|k: int| 0 <= k < w + 1 implies wlink_rows.deep_view()[k]
                                == walks_link_rows(wv).take(w + 1)[k] by {
                                if k < w {
                                    assert(wlink_rows.deep_view()[k] == lpre[k]);
                                } else {
                                    assert(wlink_rows.deep_view()[k] == lsv);
                                }
                            }
                            assert(wnode_rows.deep_view() =~= walks_node_rows(wv).take(w + 1));
                            assert(wlink_rows.deep_view() =~= walks_link_rows(wv).take(w + 1));
                        }
                    },
                }
            },
        }
        w = w + 1;
    }
    proof {
        assert(walks_node_rows(wv).take(wv.len() as int) =~~= walks_node_rows(wv));
        assert(walks_link_rows(wv).take(wv.len() as int) =~~= walks_link_rows(wv));
    }
    let wnodes = flatten_into_hashset(wnode_rows);
    let wlinks = flatten_into_hashset(wlink_rows);
    nodes.merge_from(wnodes);
    links.merge_from(wlinks);
    Ok((nodes, links, jumps))
}

} // verus!
