//! The whole run as one pure transformation: classify the input lines by
//! their leading tag, select the retained paths by name, decode them and
//! every walk into the three keep-sets, filter the segment, link and jump
//! lines against those sets, and reassemble the groups in a fixed order —
//! headers, segments, paths, walks, links, jumps, everything else — each
//! group keeping its internal input order. A failure at any stage aborts
//! the whole run before any output is assembled.

use crate::aggregate::{
    first_walk_err, get_nodes_edges, keep_jumps, keep_links, keep_nodes, paths_all_ok,
    walks_all_ok,
};
use crate::filter::{
    fields_ok, filter_edges, filter_segments, get_paths, kept_edges, kept_segments, selected_names,
};
use crate::text::{chars_vec, field_at, line_field, line_has_field};
use crate::GraphError;
use vstd::prelude::*;
use vstd::string::StrSliceExecFns;

verus! {

// ===== classification by leading tag =====

pub open spec fn has_tag(l: Seq<char>, c: char) -> bool {
    l.len() > 0 && l[0] == c
}

/// Which bucket a line falls into, by its first character, tried in the
/// fixed order segment, link, path, walk, jump, header; everything else is
/// an unrecognized line.
pub open spec fn line_kind(l: Seq<char>) -> int {
    if has_tag(l, 'S') {
        0
    } else if has_tag(l, 'L') {
        1
    } else if has_tag(l, 'P') {
        2
    } else if has_tag(l, 'W') {
        3
    } else if has_tag(l, 'J') {
        4
    } else if has_tag(l, 'H') {
        5
    } else {
        6
    }
}

/// The sub-sequence of lines of one kind, in original order.
pub open spec fn lines_of_kind(ls: Seq<Seq<char>>, k: int) -> Seq<Seq<char>> {
    ls.filter(|l: Seq<char>| line_kind(l) == k)
}

proof fn lemma_kind_take(ls: Seq<Seq<char>>, k: int, i: int)
    requires
        0 <= i < ls.len(),
    ensures
        lines_of_kind(ls.take(i + 1), k) == (if line_kind(ls[i]) == k {
            lines_of_kind(ls.take(i), k).push(ls[i])
        } else {
            lines_of_kind(ls.take(i), k)
        }),
{
    reveal_with_fuel(Seq::<_>::filter, 2);
    assert(ls.take(i + 1).drop_last() =~= ls.take(i));
    assert(ls.take(i + 1).last() == ls[i]);
}

/// The input lines, grouped by record kind, each group in input order.
pub struct GraphParts {
    pub headers: Vec<String>,
    pub segments: Vec<String>,
    pub paths: Vec<String>,
    pub walks: Vec<String>,
    pub links: Vec<String>,
    pub jumps: Vec<String>,
    pub others: Vec<String>,
}

/// Splits the raw lines into the seven buckets by leading tag character,
/// preserving each bucket's input order.
pub fn classify(lines: Vec<String>) -> (g: GraphParts)
    ensures
        g.segments.deep_view() == lines_of_kind(lines.deep_view(), 0),
        g.links.deep_view() == lines_of_kind(lines.deep_view(), 1),
        g.paths.deep_view() == lines_of_kind(lines.deep_view(), 2),
        g.walks.deep_view() == lines_of_kind(lines.deep_view(), 3),
        g.jumps.deep_view() == lines_of_kind(lines.deep_view(), 4),
        g.headers.deep_view() == lines_of_kind(lines.deep_view(), 5),
        g.others.deep_view() == lines_of_kind(lines.deep_view(), 6),
{
    let ghost lv = lines.deep_view();
    let mut w = lines;
    let mut headers: Vec<String> = Vec::new();
    let mut segments: Vec<String> = Vec::new();
    let mut paths: Vec<String> = Vec::new();
    let mut walks: Vec<String> = Vec::new();
    let mut links: Vec<String> = Vec::new();
    let mut jumps: Vec<String> = Vec::new();
    let mut others: Vec<String> = Vec::new();
    let ghost mut i: int = 0;
    proof {
        assert(w.deep_view() =~= lv.skip(0));
        assert(lv.take(0) =~= Seq::<Seq<char>>::empty());
        assert(segments.deep_view() =~= lines_of_kind(lv.take(0), 0));
        assert(links.deep_view() =~= lines_of_kind(lv.take(0), 1));
        assert(paths.deep_view() =~= lines_of_kind(lv.take(0), 2));
        assert(walks.deep_view() =~= lines_of_kind(lv.take(0), 3));
        assert(jumps.deep_view() =~= lines_of_kind(lv.take(0), 4));
        assert(headers.deep_view() =~= lines_of_kind(lv.take(0), 5));
        assert(others.deep_view() =~= lines_of_kind(lv.take(0), 6));
    }
    while w.len() > 0
        invariant
            0 <= i,
            i + w@.len() == lv.len(),
            w.deep_view() == lv.skip(i),
            segments.deep_view() == lines_of_kind(lv.take(i), 0),
            links.deep_view() == lines_of_kind(lv.take(i), 1),
            paths.deep_view() == lines_of_kind(lv.take(i), 2),
            walks.deep_view() == lines_of_kind(lv.take(i), 3),
            jumps.deep_view() == lines_of_kind(lv.take(i), 4),
            headers.deep_view() == lines_of_kind(lv.take(i), 5),
            others.deep_view() == lines_of_kind(lv.take(i), 6),
        decreases w.len(),
    {
        let ghost wv = w@;
        let ghost wpre = w.deep_view();
        let line = w.remove(0);
        proof {
            assert(line@ == wpre[0]);
            assert(wpre[0] == lv[i]);
            assert forall|k: int| 0 <= k < w@.len() implies w.deep_view()[k] == wpre[k + 1] by {
                assert(w@[k] == wv[k + 1]);
            }
            assert(w.deep_view() =~= lv.skip(i + 1));
            lemma_kind_take(lv, 0, i);
            lemma_kind_take(lv, 1, i);
            lemma_kind_take(lv, 2, i);
            lemma_kind_take(lv, 3, i);
            lemma_kind_take(lv, 4, i);
            lemma_kind_take(lv, 5, i);
            lemma_kind_take(lv, 6, i);
        }
        let ghost linev = line@;
        let empty = line.as_str().is_empty();
        let c = if empty {
            ' '
        } else {
            line.as_str().get_char(0)
        };
        if !empty && c == 'S' {
            let ghost pre = segments.deep_view();
            segments.push(line);
            proof {
                assert(line_kind(lv[i]) == 0);
                assert(segments.deep_view() =~= pre.push(lv[i]));
            }
        } else if !empty && c == 'L' {
            let ghost pre = links.deep_view();
            links.push(line);
            proof {
                assert(line_kind(lv[i]) == 1);
                assert(links.deep_view() =~= pre.push(lv[i]));
            }
        } else if !empty && c == 'P' {
            let ghost pre = paths.deep_view();
            paths.push(line);
            proof {
                assert(line_kind(lv[i]) == 2);
                assert(paths.deep_view() =~= pre.push(lv[i]));
            }
        } else if !empty && c == 'W' {
            let ghost pre = walks.deep_view();
            walks.push(line);
            proof {
                assert(line_kind(lv[i]) == 3);
                assert(walks.deep_view() =~= pre.push(lv[i]));
            }
        } else if !empty && c == 'J' {
            let ghost pre = jumps.deep_view();
            jumps.push(line);
            proof {
                assert(line_kind(lv[i]) == 4);
                assert(jumps.deep_view() =~= pre.push(lv[i]));
            }
        } else if !empty && c == 'H' {
            let ghost pre = headers.deep_view();
            headers.push(line);
            proof {
                assert(line_kind(lv[i]) == 5);
                assert(headers.deep_view() =~= pre.push(lv[i]));
            }
        } else {
            let ghost pre = others.deep_view();
            others.push(line);
            proof {
                assert(line_kind(lv[i]) == 6);
                assert(others.deep_view() =~= pre.push(lv[i]));
            }
        }
        proof {
            i = i + 1;
        }
    }
    proof {
        assert(lv.take(i) =~= lv);
    }
    GraphParts { headers, segments, paths, walks, links, jumps, others }
}

// ===== small vector plumbing =====

/// The same lines, borrowed.
fn as_str_vec<'a>(v: &'a Vec<String>) -> (r: Vec<&'a str>)
    ensures
        r.deep_view() == v.deep_view(),
{
    let mut r: Vec<&'a str> = Vec::new();
    let mut i: usize = 0;
    proof {
        assert(r.deep_view() =~= v.deep_view().take(0));
    }
    while i < v.len()
        invariant
            i <= v.len(),
            r.deep_view() == v.deep_view().take(i as int),
        decreases v.len() - i,
    {
        let ghost pre = r.deep_view();
        let s = v[i].as_str();
        r.push(s);
        proof {
            assert(r.deep_view() =~= pre.push(v.deep_view()[i as int]));
            assert(r.deep_view() =~= v.deep_view().take(i + 1));
        }
        i = i + 1;
    }
    proof {
        assert(v.deep_view().take(v@.len() as int) =~= v.deep_view());
    }
    r
}

/// The same lines, owned.
fn owned_vec(v: Vec<&str>) -> (r: Vec<String>)
    ensures
        r.deep_view() == v.deep_view(),
{
    let mut r: Vec<String> = Vec::new();
    let mut i: usize = 0;
    proof {
        assert(r.deep_view() =~= v.deep_view().take(0));
    }
    while i < v.len()
        invariant
            i <= v.len(),
            r.deep_view() == v.deep_view().take(i as int),
        decreases v.len() - i,
    {
        let ghost pre = r.deep_view();
        let s = v[i].to_owned();
        r.push(s);
        proof {
            assert(r.deep_view() =~= pre.push(v.deep_view()[i as int]));
            assert(r.deep_view() =~= v.deep_view().take(i + 1));
        }
        i = i + 1;
    }
    proof {
        assert(v.deep_view().take(v@.len() as int) =~= v.deep_view());
    }
    r
}

/// Moves every line of `v` to the end of `out`.
fn append_lines(out: &mut Vec<String>, v: Vec<String>)
    ensures
        final(out).deep_view() == old(out).deep_view() + v.deep_view(),
{
    let ghost orig = v.deep_view();
    let ghost base = old(out).deep_view();
    let mut w = v;
    let ghost mut i: int = 0;
    proof {
        assert(w.deep_view() =~= orig.skip(0));
        assert(out.deep_view() =~= base + orig.take(0));
    }
    while w.len() > 0
        invariant
            0 <= i,
            i + w@.len() == orig.len(),
            w.deep_view() == orig.skip(i),
            out.deep_view() == base + orig.take(i),
        decreases w.len(),
    {
        let ghost wv = w@;
        let ghost wpre = w.deep_view();
        let x = w.remove(0);
        proof {
            assert(x.deep_view() == wpre[0]);
            assert(wpre[0] == orig[i]);
            assert forall|k: int| 0 <= k < w@.len() implies w.deep_view()[k] == wpre[k + 1] by {
                assert(w@[k] == wv[k + 1]);
            }
            assert(w.deep_view() =~= orig.skip(i + 1));
        }
        let ghost pre = out.deep_view();
        out.push(x);
        proof {
            assert(out.deep_view() =~= pre.push(orig[i]));
            assert(pre.push(orig[i]) =~= base + orig.take(i + 1));
            i = i + 1;
        }
    }
    proof {
        assert(orig.take(i) =~= orig);
    }
}

// ===== the run, at the specification level =====

/// The name field of every path record, in order.
pub open spec fn path_names(ps: Seq<Seq<char>>) -> Seq<Seq<char>> {
    ps.map_values(|l: Seq<char>| line_field(l, 1))
}

pub open spec fn opt_names_view(o: Option<Vec<String>>) -> Option<Seq<Seq<char>>> {
    match o {
        Some(v) => Some(v.deep_view()),
        None => None,
    }
}

/// What one run returns: the regrouped surviving lines, or the error of the
/// first record that could not be used.
pub open spec fn trim_spec(
    lv: Seq<Seq<char>>,
    names_opt: Option<Seq<Seq<char>>>,
    ig_s: bool,
    ig_l: bool,
    ig_j: bool,
) -> Result<Seq<Seq<char>>, GraphError> {
    let segs = lines_of_kind(lv, 0);
    let lks = lines_of_kind(lv, 1);
    let ps = lines_of_kind(lv, 2);
    let ws = lines_of_kind(lv, 3);
    let js = lines_of_kind(lv, 4);
    let hs = lines_of_kind(lv, 5);
    let os = lines_of_kind(lv, 6);
    if !fields_ok(ps, 1) {
        Err(GraphError::MalformedRecord)
    } else {
        let names = match names_opt {
            Some(ns) => ns,
            None => path_names(ps),
        };
        let kept_ps = selected_names(ps, names);
        if !paths_all_ok(kept_ps) {
            Err(GraphError::MalformedRecord)
        } else if !walks_all_ok(ws) {
            Err(first_walk_err(ws))
        } else if !ig_s && !fields_ok(segs, 1) {
            Err(GraphError::MalformedRecord)
        } else if !ig_l && !fields_ok(lks, 4) {
            Err(GraphError::MalformedRecord)
        } else if !ig_j && !fields_ok(js, 4) {
            Err(GraphError::MalformedRecord)
        } else {
            let nset = keep_nodes(kept_ps, ws);
            let lset = keep_links(kept_ps, ws);
            let jset = keep_jumps(kept_ps);
            let segs2 = if ig_s {
                segs
            } else {
                kept_segments(segs, nset)
            };
            let lks2 = if ig_l {
                lks
            } else {
                kept_edges(lks, lset)
            };
            let js2 = if ig_j {
                js
            } else {
                kept_edges(js, jset)
            };
            Ok(hs + segs2 + kept_ps + ws + lks2 + js2 + os)
        }
    }
}

// ===== the run, executed =====

/// The name of every path record, in order; a record without a name field
/// is malformed.
fn path_names_vec(paths: &Vec<String>) -> (r: Result<Vec<String>, GraphError>)
    ensures
        r is Ok <==> fields_ok(paths.deep_view(), 1),
        !fields_ok(paths.deep_view(), 1) ==> r == Err::<Vec<String>, GraphError>(
            GraphError::MalformedRecord,
        ),
        r is Ok ==> r->Ok_0.deep_view() == path_names(paths.deep_view()),
{
    let ghost pv = paths.deep_view();
    let mut out: Vec<String> = Vec::new();
    let mut i: usize = 0;
    proof {
        assert(out.deep_view() =~= path_names(pv).take(0));
    }
    while i < paths.len()
        invariant
            pv == paths.deep_view(),
            i <= paths.len(),
            forall|k: int| 0 <= k < i ==> #[trigger] line_has_field(pv[k], 1),
            out.deep_view() == path_names(pv).take(i as int),
        decreases paths.len() - i,
    {
        let line = &paths[i];
        proof {
            assert(line@ == pv[i as int]);
        }
        let cs = chars_vec(line.as_str());
        match field_at(&cs, 1) {
            None => {
                proof {
                    assert(!line_has_field(pv[i as int], 1));
                }
                return Err(GraphError::MalformedRecord);
            },
            Some(name) => {
                let ghost pre = out.deep_view();
                out.push(name);
                proof {
                    assert(out.deep_view() =~= pre.push(path_names(pv)[i as int]));
                    assert(out.deep_view() =~= path_names(pv).take(i + 1));
                }
            },
        }
        i = i + 1;
    }
    proof {
        assert(path_names(pv).take(pv.len() as int) =~= path_names(pv));
    }
    Ok(out)
}

/// Runs the whole filter over the raw input lines: classification, path
/// selection, keep-set construction, record filtering — each kind skipped
/// when its `ignore` flag is set — and regrouped assembly. Fails before
/// assembling any output.
///
/// The selection names apply to path records; every walk is always
/// retained and contributes to the keep-sets. `None` retains every path; a
/// requested name that no path carries selects nothing and raises no
/// error.
pub fn trim_graph(
    lines: Vec<String>,
    paths_to_keep: Option<Vec<String>>,
    ignore_segments: bool,
    ignore_links: bool,
    ignore_jumps: bool,
) -> (r: Result<Vec<String>, GraphError>)
    ensures
        r is Ok <==> trim_spec(
            lines.deep_view(),
            opt_names_view(paths_to_keep),
            ignore_segments,
            ignore_links,
            ignore_jumps,
        ) is Ok,
        r is Ok ==> r->Ok_0.deep_view() == trim_spec(
            lines.deep_view(),
            opt_names_view(paths_to_keep),
            ignore_segments,
            ignore_links,
            ignore_jumps,
        )->Ok_0,
        r is Err ==> r->Err_0 == trim_spec(
            lines.deep_view(),
            opt_names_view(paths_to_keep),
            ignore_segments,
            ignore_links,
            ignore_jumps,
        )->Err_0,
{
    let ghost lv = lines.deep_view();
    let ghost names_spec = opt_names_view(paths_to_keep);
    let parts = classify(lines);
    let GraphParts { headers, segments, paths, walks, links, jumps, others } = parts;
    let names: Vec<String> = match paths_to_keep {
        Some(ns) => ns,
        None => {
            match path_names_vec(&paths) {
                Ok(ns) => ns,
                Err(e) => {
                    return Err(e);
                },
            }
        },
    };
    let kept_paths = match get_paths(as_str_vec(&paths), names) {
        Ok(v) => v,
        Err(e) => {
            return Err(e);
        },
    };
    let sets = match get_nodes_edges(&kept_paths, &walks) {
        Ok(t) => t,
        Err(e) => {
            return Err(e);
        },
    };
    let (nset, lset, jset) = sets;
    let segs2: Vec<String> = if ignore_segments {
        segments
    } else {
        match filter_segments(as_str_vec(&segments), nset) {
            Ok(v) => owned_vec(v),
            Err(e) => {
                return Err(e);
            },
        }
    };
    let lks2: Vec<String> = if ignore_links {
        links
    } else {
        match filter_edges(as_str_vec(&links), lset) {
            Ok(v) => owned_vec(v),
            Err(e) => {
                return Err(e);
            },
        }
    };
    let js2: Vec<String> = if ignore_jumps {
        jumps
    } else {
        match filter_edges(as_str_vec(&jumps), jset) {
            Ok(v) => owned_vec(v),
            Err(e) => {
                return Err(e);
            },
        }
    };
    let ghost spec_out = trim_spec(lv, names_spec, ignore_segments, ignore_links, ignore_jumps);
    let mut out: Vec<String> = Vec::new();
    append_lines(&mut out, headers);
    append_lines(&mut out, segs2);
    append_lines(&mut out, kept_paths);
    append_lines(&mut out, walks);
    append_lines(&mut out, lks2);
    append_lines(&mut out, js2);
    append_lines(&mut out, others);
    proof {
        assert(out.deep_view() =~= spec_out->Ok_0);
    }
    Ok(out)
}

} // verus!
