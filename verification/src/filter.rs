//! The record filters: selecting path records by name, and keeping only
//! the segment, link and jump lines whose referenced node or edge stands in
//! the matching keep-set. Every filter is stable — the surviving lines keep
//! their original relative order — and an edge matches in either
//! orientation order.

use crate::elements::{Edge, EdgeV, Edges, Nodes};
use crate::text::{chars_vec, field_at, line_field, line_has_field};
use crate::GraphError;
use vstd::prelude::*;

verus! {

/// Every line of `ls` has more than `n` tab-delimited fields.
pub open spec fn fields_ok(ls: Seq<Seq<char>>, n: int) -> bool {
    forall|i: int| 0 <= i < ls.len() ==> #[trigger] line_has_field(ls[i], n)
}

// ===== selecting paths by name =====

pub open spec fn name_among(names: Seq<Seq<char>>, x: Seq<char>) -> bool {
    exists|k: int| 0 <= k < names.len() && names[k] == x
}

/// Whether a path line's name field is one of the requested names.
pub open spec fn name_selected(l: Seq<char>, names: Seq<Seq<char>>) -> bool {
    name_among(names, line_field(l, 1))
}

/// The sub-sequence of lines whose name is requested, in original order.
pub open spec fn selected_names(ls: Seq<Seq<char>>, names: Seq<Seq<char>>) -> Seq<Seq<char>> {
    ls.filter(|l: Seq<char>| name_selected(l, names))
}

proof fn lemma_selected_take(ls: Seq<Seq<char>>, names: Seq<Seq<char>>, i: int)
    requires
        0 <= i < ls.len(),
    ensures
        selected_names(ls.take(i + 1), names) == (if name_selected(ls[i], names) {
            selected_names(ls.take(i), names).push(ls[i])
        } else {
            selected_names(ls.take(i), names)
        }),
{
    reveal_with_fuel(Seq::<_>::filter, 2);
    assert(ls.take(i + 1).drop_last() =~= ls.take(i));
    assert(ls.take(i + 1).last() == ls[i]);
}

fn name_in(names: &Vec<String>, x: &String) -> (r: bool)
    ensures
        r == name_among(names.deep_view(), x@),
{
    let ghost nv = names.deep_view();
    let mut k: usize = 0;
    while k < names.len()
        invariant
            nv == names.deep_view(),
            k <= names.len(),
            forall|j: int| 0 <= j < k ==> nv[j] != x@,
        decreases names.len() - k,
    {
        if names[k].eq(x) {
            proof {
                assert(nv[k as int] == x@);
            }
            return true;
        }
        k = k + 1;
    }
    false
}

/// Keeps the path records whose name field is among the requested names, in
/// their original order, each as an owned line. A record without a name
/// field is malformed. A requested name that no record carries selects
/// nothing and raises no error.
pub fn get_paths(paths: Vec<&str>, paths_to_keep: Vec<String>) -> (r: Result<
    Vec<String>,
    GraphError,
>)
    ensures
        r is Ok <==> fields_ok(paths.deep_view(), 1),
        !fields_ok(paths.deep_view(), 1) ==> r == Err::<Vec<String>, GraphError>(
            GraphError::MalformedRecord,
        ),
        r is Ok ==> r->Ok_0.deep_view() == selected_names(
            paths.deep_view(),
            paths_to_keep.deep_view(),
        ),
{
    let ghost pv = paths.deep_view();
    let ghost nv = paths_to_keep.deep_view();
    let mut out: Vec<String> = Vec::new();
    let mut i: usize = 0;
    proof {
        assert(pv.take(0) =~= Seq::<Seq<char>>::empty());
        assert(out.deep_view() =~= selected_names(pv.take(0), nv));
    }
    while i < paths.len()
        invariant
            pv == paths.deep_view(),
            nv == paths_to_keep.deep_view(),
            i <= paths.len(),
            forall|k: int| 0 <= k < i ==> #[trigger] line_has_field(pv[k], 1),
            out.deep_view() == selected_names(pv.take(i as int), nv),
        decreases paths.len() - i,
    {
        let line = paths[i];
        proof {
            assert(line@ == pv[i as int]);
        }
        let cs = chars_vec(line);
        match field_at(&cs, 1) {
            None => {
                proof {
                    assert(!line_has_field(pv[i as int], 1));
                }
                return Err(GraphError::MalformedRecord);
            },
            Some(name) => {
                let keep = name_in(&paths_to_keep, &name);
                proof {
                    lemma_selected_take(pv, nv, i as int);
                }
                if keep {
                    let ghost pre = out.deep_view();
                    let owned = line.to_owned();
                    out.push(owned);
                    proof {
                        assert(out.deep_view() =~= pre.push(pv[i as int]));
                    }
                }
            },
        }
        i = i + 1;
    }
    proof {
        assert(pv.take(pv.len() as int) =~= pv);
    }
    Ok(out)
}

// ===== filtering segments =====

/// The sub-sequence of segment lines whose node id stands in the keep-set,
/// in original order.
pub open spec fn kept_segments(ls: Seq<Seq<char>>, ns: Set<Seq<char>>) -> Seq<Seq<char>> {
    ls.filter(|l: Seq<char>| ns.contains(line_field(l, 1)))
}

proof fn lemma_kept_segments_take(ls: Seq<Seq<char>>, ns: Set<Seq<char>>, i: int)
    requires
        0 <= i < ls.len(),
    ensures
        kept_segments(ls.take(i + 1), ns) == (if ns.contains(line_field(ls[i], 1)) {
            kept_segments(ls.take(i), ns).push(ls[i])
        } else {
            kept_segments(ls.take(i), ns)
        }),
{
    reveal_with_fuel(Seq::<_>::filter, 2);
    assert(ls.take(i + 1).drop_last() =~= ls.take(i));
    assert(ls.take(i + 1).last() == ls[i]);
}

/// Keeps the segment lines whose node id stands in the keep-set, in their
/// original order. A line without an id field is malformed.
pub fn filter_segments<'a>(segments: Vec<&'a str>, nodes_to_keep: Nodes) -> (r: Result<
    Vec<&'a str>,
    GraphError,
>)
    ensures
        r is Ok <==> fields_ok(segments.deep_view(), 1),
        !fields_ok(segments.deep_view(), 1) ==> r == Err::<Vec<&'a str>, GraphError>(
            GraphError::MalformedRecord,
        ),
        r is Ok ==> r->Ok_0.deep_view() == kept_segments(segments.deep_view(), nodes_to_keep@),
{
    let ghost sv = segments.deep_view();
    let ghost ns = nodes_to_keep@;
    let mut out: Vec<&'a str> = Vec::new();
    let mut i: usize = 0;
    proof {
        assert(sv.take(0) =~= Seq::<Seq<char>>::empty());
        assert(out.deep_view() =~= kept_segments(sv.take(0), ns));
    }
    while i < segments.len()
        invariant
            sv == segments.deep_view(),
            ns == nodes_to_keep@,
            i <= segments.len(),
            forall|k: int| 0 <= k < i ==> #[trigger] line_has_field(sv[k], 1),
            out.deep_view() == kept_segments(sv.take(i as int), ns),
        decreases segments.len() - i,
    {
        let line = segments[i];
        proof {
            assert(line@ == sv[i as int]);
        }
        let cs = chars_vec(line);
        match field_at(&cs, 1) {
            None => {
                proof {
                    assert(!line_has_field(sv[i as int], 1));
                }
                return Err(GraphError::MalformedRecord);
            },
            Some(id) => {
                let keep = nodes_to_keep.contains_item(&id);
                proof {
                    lemma_kept_segments_take(sv, ns, i as int);
                }
                if keep {
                    let ghost pre = out.deep_view();
                    out.push(line);
                    proof {
                        assert(out.deep_view() =~= pre.push(sv[i as int]));
                    }
                }
            },
        }
        i = i + 1;
    }
    proof {
        assert(sv.take(sv.len() as int) =~= sv);
    }
    Ok(out)
}

// ===== filtering links and jumps =====

/// Whether a field carries a `+`, the mark of a forward orientation.
pub open spec fn has_plus(s: Seq<char>) -> bool {
    exists|i: int| 0 <= i < s.len() && s[i] == '+'
}

/// The oriented edge an `L` or `J` line references, read from its fixed
/// field positions.
pub open spec fn line_edge(l: Seq<char>) -> EdgeV {
    ((line_field(l, 1), has_plus(line_field(l, 2))), (line_field(l, 3), has_plus(line_field(l, 4))))
}

/// The same edge with its endpoints swapped.
pub open spec fn rev_edge(e: EdgeV) -> EdgeV {
    (e.1, e.0)
}

/// An edge line is kept when its edge, in either orientation order, stands
/// in the keep-set.
pub open spec fn edge_kept(l: Seq<char>, es: Set<EdgeV>) -> bool {
    es.contains(line_edge(l)) || es.contains(rev_edge(line_edge(l)))
}

/// The sub-sequence of edge lines whose edge is kept, in original order.
pub open spec fn kept_edges(ls: Seq<Seq<char>>, es: Set<EdgeV>) -> Seq<Seq<char>> {
    ls.filter(|l: Seq<char>| edge_kept(l, es))
}

proof fn lemma_kept_edges_take(ls: Seq<Seq<char>>, es: Set<EdgeV>, i: int)
    requires
        0 <= i < ls.len(),
    ensures
        kept_edges(ls.take(i + 1), es) == (if edge_kept(ls[i], es) {
            kept_edges(ls.take(i), es).push(ls[i])
        } else {
            kept_edges(ls.take(i), es)
        }),
{
    reveal_with_fuel(Seq::<_>::filter, 2);
    assert(ls.take(i + 1).drop_last() =~= ls.take(i));
    assert(ls.take(i + 1).last() == ls[i]);
}

fn plus_in(s: &String) -> (r: bool)
    ensures
        r == has_plus(s@),
{
    let cs = chars_vec(s.as_str());
    let mut i: usize = 0;
    while i < cs.len()
        invariant
            cs@ == s@,
            i <= cs.len(),
            forall|j: int| 0 <= j < i ==> s@[j] != '+',
        decreases cs.len() - i,
    {
        if cs[i] == '+' {
            proof {
                assert(s@[i as int] == '+');
            }
            return true;
        }
        i = i + 1;
    }
    false
}

/// Keeps the link or jump lines whose edge — in either orientation order —
/// stands in the keep-set, in their original order. A line with fewer than
/// five fields is malformed.
pub fn filter_edges<'a>(links: Vec<&'a str>, edges_to_keep: Edges) -> (r: Result<
    Vec<&'a str>,
    GraphError,
>)
    ensures
        r is Ok <==> fields_ok(links.deep_view(), 4),
        !fields_ok(links.deep_view(), 4) ==> r == Err::<Vec<&'a str>, GraphError>(
            GraphError::MalformedRecord,
        ),
        r is Ok ==> r->Ok_0.deep_view() == kept_edges(links.deep_view(), edges_to_keep@),
{
    let ghost lv = links.deep_view();
    let ghost es = edges_to_keep@;
    let mut out: Vec<&'a str> = Vec::new();
    let mut i: usize = 0;
    proof {
        assert(lv.take(0) =~= Seq::<Seq<char>>::empty());
        assert(out.deep_view() =~= kept_edges(lv.take(0), es));
    }
    while i < links.len()
        invariant
            lv == links.deep_view(),
            es == edges_to_keep@,
            i <= links.len(),
            forall|k: int| 0 <= k < i ==> #[trigger] line_has_field(lv[k], 4),
            out.deep_view() == kept_edges(lv.take(i as int), es),
        decreases links.len() - i,
    {
        let line = links[i];
        proof {
            assert(line@ == lv[i as int]);
        }
        let cs = chars_vec(line);
        match (field_at(&cs, 1), field_at(&cs, 2), field_at(&cs, 3), field_at(&cs, 4)) {
            (Some(a), Some(o1), Some(b), Some(o2)) => {
                let p1 = plus_in(&o1);
                let p2 = plus_in(&o2);
                let e: Edge = ((a.clone(), p1), (b.clone(), p2));
                let rev: Edge = ((b, p2), (a, p1));
                proof {
                    assert(e.deep_view() == line_edge(lv[i as int]));
                    assert(rev.deep_view() == rev_edge(line_edge(lv[i as int])));
                }
                let keep = edges_to_keep.contains_item(&e) || edges_to_keep.contains_item(&rev);
                proof {
                    lemma_kept_edges_take(lv, es, i as int);
                }
                if keep {
                    let ghost pre = out.deep_view();
                    out.push(line);
                    proof {
                        assert(out.deep_view() =~= pre.push(lv[i as int]));
                    }
                }
            },
            _ => {
                proof {
                    assert(!line_has_field(lv[i as int], 4));
                }
                return Err(GraphError::MalformedRecord);
            },
        }
        i = i + 1;
    }
    proof {
        assert(lv.take(lv.len() as int) =~= lv);
    }
    Ok(out)
}

} // verus!
