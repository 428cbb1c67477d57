//! Decoding a path's node-list string and a walk string into the ordered
//! node ids they reference and the oriented adjacencies they traverse.
//!
//! A path string is a `,`/`;`-separated list of `<id><+|->` tokens: the
//! separator that ends a token gives the kind of the edge to the next node,
//! comma a link and semicolon a jump. A walk string is a concatenation of
//! `(>|<)<id>` tokens with no separators; every adjacency of a walk is a
//! link, walks never encode jumps.

use crate::elements::{Edge, EdgeV, Onode, OnodeV, SortedEdges, SortedNodes};
use crate::text::{
    chars_to_string, chars_vec, id_char, is_id_char, is_mark_char, is_sep_char, mark_char,
    sep_char, split_incl, split_incl_vec, trim_bounds, trim_chars,
};
use crate::GraphError;
use itertools::Itertools;
use vstd::prelude::*;

verus! {

// ===== a single path token =====

/// `s` with every orientation mark and separator removed.
pub open spec fn strip_marks(s: Seq<char>) -> Seq<char> {
    s.filter(|c: char| !is_mark_char(c) && !is_sep_char(c))
}

/// The separator ending the trimmed token, if any: `Some(true)` for a jump
/// (`;`), `Some(false)` for a link (`,`).
pub open spec fn tok_sep(t: Seq<char>) -> Option<bool> {
    let u = trim_chars(t);
    if u.len() > 0 && u.last() == ';' {
        Some(true)
    } else if u.len() > 0 && u.last() == ',' {
        Some(false)
    } else {
        None
    }
}

/// The trimmed token without its separator.
pub open spec fn tok_core(t: Seq<char>) -> Seq<char> {
    let u = trim_chars(t);
    if tok_sep(t) is Some {
        u.drop_last()
    } else {
        u
    }
}

/// A node occurrence is forward exactly when the character before the
/// separator (or at the end of the token) is `+`.
pub open spec fn tok_orient(t: Seq<char>) -> bool {
    tok_core(t).len() > 0 && tok_core(t).last() == '+'
}

/// The node id a token references.
pub open spec fn tok_id(t: Seq<char>) -> Seq<char> {
    strip_marks(trim_chars(t))
}

pub open spec fn tok_onode(t: Seq<char>) -> OnodeV {
    (tok_id(t), tok_orient(t))
}

// ===== a whole path string =====

pub open spec fn path_toks(s: Seq<char>) -> Seq<Seq<char>> {
    split_incl(s)
}

/// A path string decodes exactly when every token still references a node
/// id after its marks are stripped.
pub open spec fn path_ok(s: Seq<char>) -> bool {
    forall|i: int| 0 <= i < path_toks(s).len() ==> tok_id(#[trigger] path_toks(s)[i]).len() > 0
}

/// The node ids a path references, in token order.
pub open spec fn path_node_ids(s: Seq<char>) -> Seq<Seq<char>> {
    path_toks(s).map_values(|t: Seq<char>| tok_id(t))
}

/// Every adjacency of a path, in order: the flag says whether the edge is a
/// jump, as decided by the separator ending the left token.
pub open spec fn path_pairs(s: Seq<char>) -> Seq<(bool, EdgeV)> {
    let ts = path_toks(s);
    if ts.len() == 0 {
        Seq::<(bool, EdgeV)>::empty()
    } else {
        Seq::new(
            (ts.len() - 1) as nat,
            |k: int| (tok_sep(ts[k]) == Some(true), (tok_onode(ts[k]), tok_onode(ts[k + 1]))),
        )
    }
}

/// The edges of the pairs whose flag is off, in order.
pub open spec fn links_of_pairs(ps: Seq<(bool, EdgeV)>) -> Seq<EdgeV>
    decreases ps.len(),
{
    if ps.len() == 0 {
        Seq::<EdgeV>::empty()
    } else {
        let rest = links_of_pairs(ps.drop_last());
        if !ps.last().0 {
            rest.push(ps.last().1)
        } else {
            rest
        }
    }
}

/// The edges of the pairs whose flag is on, in order.
pub open spec fn jumps_of_pairs(ps: Seq<(bool, EdgeV)>) -> Seq<EdgeV>
    decreases ps.len(),
{
    if ps.len() == 0 {
        Seq::<EdgeV>::empty()
    } else {
        let rest = jumps_of_pairs(ps.drop_last());
        if ps.last().0 {
            rest.push(ps.last().1)
        } else {
            rest
        }
    }
}

/// The link edges a path traverses.
pub open spec fn path_links(s: Seq<char>) -> Seq<EdgeV> {
    links_of_pairs(path_pairs(s))
}

/// The jump edges a path traverses.
pub open spec fn path_jumps(s: Seq<char>) -> Seq<EdgeV> {
    jumps_of_pairs(path_pairs(s))
}

// ===== executable path decoding =====

/// Stripping distributes over appending one character.
proof fn lemma_strip_marks_push(u: Seq<char>, c: char)
    ensures
        strip_marks(u.push(c)) == (if !is_mark_char(c) && !is_sep_char(c) {
            strip_marks(u).push(c)
        } else {
            strip_marks(u)
        }),
{
    reveal_with_fuel(Seq::<_>::filter, 2);
    let w = u.push(c);
    assert(w.drop_last() =~= u);
    assert(w.last() == c);
    assert(w.len() > 0);
}

/// The trimmed token's characters with marks and separators stripped.
fn strip_id(t: &Vec<char>, lo: usize, hi: usize) -> (r: Vec<char>)
    requires
        lo <= hi <= t.len(),
    ensures
        r@ == strip_marks(t@.subrange(lo as int, hi as int)),
{
    let ghost u = t@.subrange(lo as int, hi as int);
    let mut r: Vec<char> = Vec::new();
    let mut j: usize = lo;
    proof {
        assert(t@.subrange(lo as int, lo as int) =~= Seq::<char>::empty());
        assert(strip_marks(t@.subrange(lo as int, lo as int)) =~= Seq::<char>::empty());
    }
    while j < hi
        invariant
            lo <= j <= hi <= t.len(),
            r@ == strip_marks(t@.subrange(lo as int, j as int)),
        decreases hi - j,
    {
        let c = t[j];
        proof {
            assert(t@.subrange(lo as int, j + 1) =~= t@.subrange(lo as int, j as int).push(c));
            lemma_strip_marks_push(t@.subrange(lo as int, j as int), c);
        }
        if !mark_char(c) && !sep_char(c) {
            r.push(c);
        }
        j = j + 1;
    }
    r
}

/// Decodes one path node-list string into the ordered list of node ids it
/// references, its link edges and its jump edges. A token whose id is empty
/// after stripping makes the whole record malformed.
pub fn get_nodes_edges_from_path(path: &str) -> (r: Result<
    (SortedNodes, SortedEdges, SortedEdges),
    GraphError,
>)
    ensures
        r is Ok <==> path_ok(path@),
        !path_ok(path@) ==> r == Err::<(SortedNodes, SortedEdges, SortedEdges), GraphError>(
            GraphError::MalformedRecord,
        ),
        r is Ok ==> r->Ok_0.0.deep_view() == path_node_ids(path@),
        r is Ok ==> r->Ok_0.1.deep_view() == path_links(path@),
        r is Ok ==> r->Ok_0.2.deep_view() == path_jumps(path@),
{
    let cs = chars_vec(path);
    let toks = split_incl_vec(&cs);
    let ghost ts = path_toks(path@);
    let ghost prs = path_pairs(path@);
    let mut nodes: Vec<String> = Vec::new();
    let mut links: Vec<Edge> = Vec::new();
    let mut jumps: Vec<Edge> = Vec::new();
    let mut prev_id = String::new();
    let mut prev_or = false;
    let mut prev_jump = false;
    let mut i: usize = 0;
    proof {
        assert(nodes.deep_view() =~= path_node_ids(path@).take(0));
        assert(links.deep_view() =~= Seq::<EdgeV>::empty());
        assert(jumps.deep_view() =~= Seq::<EdgeV>::empty());
    }
    while i < toks.len()
        invariant
            toks.deep_view() == ts,
            ts == path_toks(path@),
            prs == path_pairs(path@),
            i <= toks.len(),
            forall|k: int| 0 <= k < i ==> tok_id(#[trigger] ts[k]).len() > 0,
            nodes.deep_view() == path_node_ids(path@).take(i as int),
            i == 0 ==> links.deep_view() == Seq::<EdgeV>::empty() && jumps.deep_view()
                == Seq::<EdgeV>::empty(),
            i >= 1 ==> links.deep_view() == links_of_pairs(prs.take(i - 1)),
            i >= 1 ==> jumps.deep_view() == jumps_of_pairs(prs.take(i - 1)),
            i >= 1 ==> prev_id@ == tok_id(ts[i - 1]) && prev_or == tok_orient(ts[i - 1])
                && prev_jump == (tok_sep(ts[i - 1]) == Some(true)),
        decreases toks.len() - i,
    {
        let t = &toks[i];
        proof {
            assert(toks@[i as int].deep_view() =~= toks@[i as int]@);
            assert(t@ == ts[i as int]);
            assert(t@.subrange(0, t@.len() as int) =~= t@);
        }
        let (lo, hi) = trim_bounds(t, 0, t.len());
        let ghost u = trim_chars(ts[i as int]);
        proof {
            assert(t@.subrange(lo as int, hi as int) == u);
        }
        let mut sep_some = false;
        let mut sep_jump = false;
        if hi > lo {
            let c = t[hi - 1];
            proof {
                assert(u.last() == c);
            }
            if c == ';' {
                sep_some = true;
                sep_jump = true;
            } else if c == ',' {
                sep_some = true;
            }
        }
        proof {
            assert(sep_some == (tok_sep(ts[i as int]) is Some));
            assert(sep_jump == (tok_sep(ts[i as int]) == Some(true)));
        }
        let core_hi = if sep_some {
            hi - 1
        } else {
            hi
        };
        proof {
            assert(tok_core(ts[i as int]) =~= t@.subrange(lo as int, core_hi as int));
        }
        let orient = core_hi > lo && {
            let c = t[core_hi - 1];
            c == '+'
        };
        proof {
            assert(orient == tok_orient(ts[i as int]));
        }
        let idv = strip_id(t, lo, hi);
        proof {
            assert(idv@ == tok_id(ts[i as int]));
        }
        if idv.len() == 0 {
            proof {
                assert(tok_id(ts[i as int]).len() == 0);
                assert(!path_ok(path@));
            }
            return Err(GraphError::MalformedRecord);
        }
        let id_s = chars_to_string(&idv, 0, idv.len());
        proof {
            assert(idv@.subrange(0, idv@.len() as int) =~= idv@);
        }
        if i > 0 {
            let e: Edge = ((prev_id.clone(), prev_or), (id_s.clone(), orient));
            proof {
                assert(e.deep_view() == prs[i - 1].1);
                assert(prs.take(i as int).drop_last() =~= prs.take(i - 1));
                assert(prs.take(i as int).last() == prs[i - 1]);
            }
            if prev_jump {
                let ghost pre = jumps.deep_view();
                jumps.push(e);
                proof {
                    assert(jumps.deep_view() =~= pre.push(prs[i - 1].1));
                    assert(jumps_of_pairs(prs.take(i as int)) == jumps_of_pairs(
                        prs.take(i as int).drop_last(),
                    ).push(prs.take(i as int).last().1));
                    assert(links.deep_view() == links_of_pairs(prs.take(i as int)));
                }
            } else {
                let ghost pre = links.deep_view();
                links.push(e);
                proof {
                    assert(links.deep_view() =~= pre.push(prs[i - 1].1));
                    assert(links_of_pairs(prs.take(i as int)) == links_of_pairs(
                        prs.take(i as int).drop_last(),
                    ).push(prs.take(i as int).last().1));
                    assert(jumps.deep_view() == jumps_of_pairs(prs.take(i as int)));
                }
            }
        }
        let ghost nodes_pre = nodes.deep_view();
        nodes.push(id_s.clone());
        prev_id = id_s;
        prev_or = orient;
        prev_jump = sep_jump;
        proof {
            assert(nodes.deep_view() =~= nodes_pre.push(tok_id(ts[i as int])));
            assert(path_node_ids(path@).take(i + 1) =~= path_node_ids(path@).take(i as int).push(
                tok_id(ts[i as int]),
            ));
        }
        i = i + 1;
    }
    proof {
        assert(path_ok(path@));
        assert(nodes.deep_view() =~= path_node_ids(path@));
        if ts.len() == 0 {
            assert(prs =~= Seq::<(bool, EdgeV)>::empty());
            assert(links.deep_view() =~= links_of_pairs(prs));
            assert(jumps.deep_view() =~= jumps_of_pairs(prs));
        } else {
            assert(prs.take(ts.len() - 1) =~= prs);
        }
    }
    Ok((nodes, links, jumps))
}

// ===== a whole walk string =====

/// Where the run of id characters beginning at `j` ends.
pub open spec fn run_end(s: Seq<char>, j: int) -> int
    decreases s.len() - j,
{
    if j < s.len() && is_id_char(s[j]) {
        run_end(s, j + 1)
    } else {
        j
    }
}

pub proof fn lemma_run_end_bounds(s: Seq<char>, j: int)
    requires
        j <= s.len(),
    ensures
        j <= run_end(s, j) <= s.len(),
    decreases s.len() - j,
{
    if j < s.len() && is_id_char(s[j]) {
        lemma_run_end_bounds(s, j + 1);
    }
}

/// The run ends at the first index at or after `j` that is no id character.
pub proof fn lemma_run_end_match(s: Seq<char>, j: int, m: int)
    requires
        0 <= j <= m <= s.len(),
        forall|k: int| j <= k < m ==> is_id_char(s[k]),
        m < s.len() ==> !is_id_char(s[m]),
    ensures
        run_end(s, j) == m,
    decreases m - j,
{
    if j < m {
        lemma_run_end_match(s, j + 1, m);
    }
}

/// A walk string is well-formed when it is a concatenation of
/// `(>|<)<id-run>` tokens and nothing else.
pub open spec fn walk_ok_from(s: Seq<char>, i: int) -> bool
    decreases s.len() - i,
    via walk_ok_from_decreases
{
    if i >= s.len() {
        true
    } else if (s[i] == '>' || s[i] == '<') && run_end(s, i + 1) > i + 1 {
        walk_ok_from(s, run_end(s, i + 1))
    } else {
        false
    }
}

#[via_fn]
proof fn walk_ok_from_decreases(s: Seq<char>, i: int) {
    if i < s.len() && (s[i] == '>' || s[i] == '<') && run_end(s, i + 1) > i + 1 {
        lemma_run_end_bounds(s, i + 1);
    }
}

pub open spec fn walk_ok(s: Seq<char>) -> bool {
    walk_ok_from(s, 0)
}

/// The oriented node occurrences of a walk, in scan order: `>` is forward,
/// `<` reverse.
pub open spec fn walk_onodes_from(s: Seq<char>, i: int) -> Seq<OnodeV>
    decreases s.len() - i,
    via walk_onodes_from_decreases
{
    if i >= s.len() {
        Seq::<OnodeV>::empty()
    } else if (s[i] == '>' || s[i] == '<') && run_end(s, i + 1) > i + 1 {
        seq![(s.subrange(i + 1, run_end(s, i + 1)), s[i] == '>')] + walk_onodes_from(
            s,
            run_end(s, i + 1),
        )
    } else {
        Seq::<OnodeV>::empty()
    }
}

#[via_fn]
proof fn walk_onodes_from_decreases(s: Seq<char>, i: int) {
    if i < s.len() && (s[i] == '>' || s[i] == '<') && run_end(s, i + 1) > i + 1 {
        lemma_run_end_bounds(s, i + 1);
    }
}

pub open spec fn walk_onodes(s: Seq<char>) -> Seq<OnodeV> {
    walk_onodes_from(s, 0)
}

/// The node ids of a walk, in scan order.
pub open spec fn walk_ids(s: Seq<char>) -> Seq<Seq<char>> {
    walk_onodes(s).map_values(|p: OnodeV| p.0)
}

/// Every consecutive pair of a sequence, in order.
pub open spec fn pair_seq(ns: Seq<OnodeV>) -> Seq<EdgeV> {
    if ns.len() <= 1 {
        Seq::<EdgeV>::empty()
    } else {
        Seq::new((ns.len() - 1) as nat, |k: int| (ns[k], ns[k + 1]))
    }
}

/// The link edges a walk traverses: every consecutive pair of its oriented
/// nodes. Walks never produce jumps.
pub open spec fn walk_links(s: Seq<char>) -> Seq<EdgeV> {
    pair_seq(walk_onodes(s))
}

// ===== executable walk decoding =====

/// Relies on itertools' `tuple_windows` over the vector's iterator: with a
/// pair window it yields exactly the adjacent pairs `(v[k], v[k+1])`, in
/// order, and nothing for a vector of fewer than two items.
#[verifier::external_body]
fn adjacent_pairs(v: &Vec<Onode>) -> (r: Vec<Edge>)
    ensures
        r.deep_view() == pair_seq(v.deep_view()),
{
    v.iter().cloned().tuple_windows().collect()
}

/// Decodes one walk string into the ordered list of node ids it references
/// and its link edges. A walk that is not a clean concatenation of
/// `(>|<)<id>` tokens fails to parse rather than yield a partially wrong
/// node sequence.
pub fn get_nodes_edges_from_walk(walk: &str) -> (r: Result<(SortedNodes, SortedEdges), GraphError>)
    ensures
        r is Ok <==> walk_ok(walk@),
        !walk_ok(walk@) ==> r == Err::<(SortedNodes, SortedEdges), GraphError>(
            GraphError::ParseError,
        ),
        r is Ok ==> r->Ok_0.0.deep_view() == walk_ids(walk@),
        r is Ok ==> r->Ok_0.1.deep_view() == walk_links(walk@),
{
    let cs = chars_vec(walk);
    let ghost s = walk@;
    let mut ids: Vec<String> = Vec::new();
    let mut onodes: Vec<Onode> = Vec::new();
    let mut i: usize = 0;
    proof {
        assert(onodes.deep_view() =~= Seq::<OnodeV>::empty());
        assert(walk_onodes(s) =~= onodes.deep_view() + walk_onodes_from(s, 0));
    }
    while i < cs.len()
        invariant
            s == walk@,
            cs@ == s,
            i <= cs.len(),
            walk_ok(s) == walk_ok_from(s, i as int),
            walk_onodes(s) == onodes.deep_view() + walk_onodes_from(s, i as int),
            ids.deep_view() == onodes.deep_view().map_values(|p: OnodeV| p.0),
        decreases cs.len() - i,
    {
        let c = cs[i];
        if !(c == '>' || c == '<') {
            proof {
                assert(!walk_ok_from(s, i as int));
            }
            return Err(GraphError::ParseError);
        }
        let mut j: usize = i + 1;
        while j < cs.len() && id_char(cs[j])
            invariant
                s == walk@,
                cs@ == s,
                i + 1 <= j <= cs.len(),
                forall|k: int| i + 1 <= k < j ==> is_id_char(s[k]),
            decreases cs.len() - j,
        {
            j = j + 1;
        }
        proof {
            lemma_run_end_match(s, i + 1, j as int);
        }
        if j == i + 1 {
            proof {
                assert(!walk_ok_from(s, i as int));
            }
            return Err(GraphError::ParseError);
        }
        let id_s = chars_to_string(&cs, i + 1, j);
        let forward = c == '>';
        let ghost opre = onodes.deep_view();
        let ghost ipre = ids.deep_view();
        ids.push(id_s.clone());
        onodes.push((id_s, forward));
        proof {
            let onode = (s.subrange(i + 1, j as int), s[i as int] == '>');
            assert(onodes.deep_view() =~= opre.push(onode));
            assert(ids.deep_view() =~= ipre.push(onode.0));
            assert(walk_onodes_from(s, i as int) == seq![onode] + walk_onodes_from(s, j as int));
            assert(onodes.deep_view() + walk_onodes_from(s, j as int) =~= (opre + (seq![onode]
                + walk_onodes_from(s, j as int))));
            assert(ids.deep_view() =~= onodes.deep_view().map_values(|p: OnodeV| p.0));
        }
        i = j;
    }
    proof {
        assert(walk_ok_from(s, cs.len() as int));
        assert(walk_onodes_from(s, cs.len() as int) =~= Seq::<OnodeV>::empty());
        assert(walk_onodes(s) =~= onodes.deep_view());
        assert(ids.deep_view() == walk_ids(s));
    }
    let edges = adjacent_pairs(&onodes);
    Ok((ids, edges))
}

} // verus!
