//! Character classes and the small text operations the record format rests
//! on: splitting on a separator, separator-inclusive splitting, trimming
//! surrounding whitespace, and building strings from character vectors.

use vstd::prelude::*;
use vstd::string::StrSliceExecFns;

verus! {

// ===== character classes =====

/// ASCII whitespace, as trimmed from around a path token.
pub open spec fn is_space_char(c: char) -> bool {
    c == ' ' || c == '\t' || c == '\r' || c == '\n'
}

/// A separator inside a path's node-list string: comma continues the contig
/// (a link), semicolon hops (a jump).
pub open spec fn is_sep_char(c: char) -> bool {
    c == ',' || c == ';'
}

/// An orientation mark attached to a node occurrence.
pub open spec fn is_mark_char(c: char) -> bool {
    c == '+' || c == '-'
}

/// A character that may stand in a walk token's node id: a visible ASCII
/// character other than the orientation prefixes `>` and `<`.
pub open spec fn is_id_char(c: char) -> bool {
    0x21 <= c as u32 && c as u32 <= 0x7e && c != '<' && c != '>'
}

pub fn space_char(c: char) -> (r: bool)
    ensures
        r == is_space_char(c),
{
    c == ' ' || c == '\t' || c == '\r' || c == '\n'
}

pub fn sep_char(c: char) -> (r: bool)
    ensures
        r == is_sep_char(c),
{
    c == ',' || c == ';'
}

pub fn mark_char(c: char) -> (r: bool)
    ensures
        r == is_mark_char(c),
{
    c == '+' || c == '-'
}

pub fn id_char(c: char) -> (r: bool)
    ensures
        r == is_id_char(c),
{
    let u = c as u32;
    0x21 <= u && u <= 0x7e && c != '<' && c != '>'
}

// ===== splitting on a separator (exclusive, as `str::split` does) =====

/// The pieces of `s` between occurrences of `sep`: always at least one
/// piece, and a trailing separator yields a trailing empty piece.
pub open spec fn split_on(s: Seq<char>, sep: char) -> Seq<Seq<char>>
    decreases s.len(),
{
    if s.len() == 0 {
        seq![Seq::<char>::empty()]
    } else {
        let rest = split_on(s.drop_first(), sep);
        if s[0] == sep {
            seq![Seq::<char>::empty()] + rest
        } else {
            seq![seq![s[0]] + rest[0]] + rest.drop_first()
        }
    }
}

pub proof fn lemma_split_on_len(s: Seq<char>, sep: char)
    ensures
        split_on(s, sep).len() >= 1,
    decreases s.len(),
{
    if s.len() > 0 {
        lemma_split_on_len(s.drop_first(), sep);
    }
}

/// Splitting a string whose first separator stands at index `k` peels off
/// the prefix before it.
pub proof fn lemma_split_on_step(s: Seq<char>, sep: char, k: int)
    requires
        0 <= k < s.len(),
        s[k] == sep,
        forall|j: int| 0 <= j < k ==> s[j] != sep,
    ensures
        split_on(s, sep) == seq![s.take(k)] + split_on(s.skip(k + 1), sep),
    decreases k,
{
    lemma_split_on_len(s.drop_first(), sep);
    if k == 0 {
        assert(s.take(0) =~= Seq::<char>::empty());
        assert(s.skip(1) =~= s.drop_first());
        assert(split_on(s, sep) =~~= seq![s.take(0)] + split_on(s.skip(1), sep));
    } else {
        let t = s.drop_first();
        lemma_split_on_step(t, sep, k - 1);
        let rest = split_on(t, sep);
        assert(rest == seq![t.take(k - 1)] + split_on(t.skip(k), sep));
        assert(rest[0] == t.take(k - 1));
        assert(seq![s[0]] + t.take(k - 1) =~= s.take(k));
        assert(rest.drop_first() =~~= split_on(t.skip(k), sep));
        assert(t.skip(k) =~= s.skip(k + 1));
        assert(split_on(s, sep) =~~= seq![s.take(k)] + split_on(s.skip(k + 1), sep));
    }
}

/// A string without the separator is a single piece.
pub proof fn lemma_split_on_whole(s: Seq<char>, sep: char)
    requires
        forall|j: int| 0 <= j < s.len() ==> s[j] != sep,
    ensures
        split_on(s, sep) == seq![s],
    decreases s.len(),
{
    if s.len() == 0 {
        assert(split_on(s, sep) =~~= seq![s]);
    } else {
        let t = s.drop_first();
        lemma_split_on_whole(t, sep);
        let rest = split_on(t, sep);
        assert(seq![s[0]] + rest[0] =~= s);
        assert(split_on(s, sep) =~~= seq![s]);
    }
}

// ===== separator-inclusive splitting (as `str::split_inclusive` does) =====

/// The tokens of a path's node-list string: each token keeps the separator
/// that ends it, and only the last token may lack one. An empty string has
/// no tokens.
pub open spec fn split_incl(s: Seq<char>) -> Seq<Seq<char>>
    decreases s.len(),
{
    if s.len() == 0 {
        Seq::<Seq<char>>::empty()
    } else {
        let rest = split_incl(s.drop_first());
        if is_sep_char(s[0]) {
            seq![seq![s[0]]] + rest
        } else if rest.len() == 0 {
            seq![seq![s[0]]]
        } else {
            seq![seq![s[0]] + rest[0]] + rest.drop_first()
        }
    }
}

/// Splitting a string whose first separator ends at index `k - 1` peels off
/// the token that runs up to and including it.
pub proof fn lemma_split_incl_step(s: Seq<char>, k: int)
    requires
        0 < k <= s.len(),
        is_sep_char(s[k - 1]),
        forall|j: int| 0 <= j < k - 1 ==> !is_sep_char(s[j]),
    ensures
        split_incl(s) == seq![s.take(k)] + split_incl(s.skip(k)),
    decreases k,
{
    if k == 1 {
        assert(s.take(1) =~= seq![s[0]]);
        assert(s.skip(1) =~= s.drop_first());
        assert(split_incl(s) =~~= seq![s.take(1)] + split_incl(s.skip(1)));
    } else {
        let t = s.drop_first();
        lemma_split_incl_step(t, k - 1);
        let rest = split_incl(t);
        assert(rest == seq![t.take(k - 1)] + split_incl(t.skip(k - 1)));
        assert(rest[0] == t.take(k - 1));
        assert(rest.len() >= 1);
        assert(seq![s[0]] + t.take(k - 1) =~= s.take(k));
        assert(rest.drop_first() =~~= split_incl(t.skip(k - 1)));
        assert(t.skip(k - 1) =~= s.skip(k));
        assert(split_incl(s) =~~= seq![s.take(k)] + split_incl(s.skip(k)));
    }
}

/// A nonempty string without separators is a single token; an empty one has
/// none.
pub proof fn lemma_split_incl_whole(s: Seq<char>)
    requires
        forall|j: int| 0 <= j < s.len() ==> !is_sep_char(s[j]),
    ensures
        s.len() == 0 ==> split_incl(s) == Seq::<Seq<char>>::empty(),
        s.len() > 0 ==> split_incl(s) == seq![s],
    decreases s.len(),
{
    if s.len() > 0 {
        let t = s.drop_first();
        lemma_split_incl_whole(t);
        let rest = split_incl(t);
        if rest.len() == 0 {
            assert(seq![s[0]] =~= s);
        } else {
            assert(seq![s[0]] + rest[0] =~= s);
            assert(rest.drop_first() =~~= Seq::<Seq<char>>::empty());
        }
        assert(split_incl(s) =~~= seq![s]);
    }
}

// ===== trimming =====

pub open spec fn trim_left(s: Seq<char>) -> Seq<char>
    decreases s.len(),
{
    if s.len() > 0 && is_space_char(s[0]) {
        trim_left(s.drop_first())
    } else {
        s
    }
}

pub open spec fn trim_right(s: Seq<char>) -> Seq<char>
    decreases s.len(),
{
    if s.len() > 0 && is_space_char(s.last()) {
        trim_right(s.drop_last())
    } else {
        s
    }
}

/// `s` with ASCII whitespace removed from both ends.
pub open spec fn trim_chars(s: Seq<char>) -> Seq<char> {
    trim_right(trim_left(s))
}

pub proof fn lemma_trim_left_skip(s: Seq<char>, k: int)
    requires
        0 <= k <= s.len(),
        forall|j: int| 0 <= j < k ==> is_space_char(s[j]),
        k < s.len() ==> !is_space_char(s[k]),
    ensures
        trim_left(s) == s.skip(k),
    decreases k,
{
    if k == 0 {
        assert(s.skip(0) =~= s);
    } else {
        let t = s.drop_first();
        lemma_trim_left_skip(t, k - 1);
        assert(t.skip(k - 1) =~= s.skip(k));
    }
}

pub proof fn lemma_trim_right_take(s: Seq<char>, k: int)
    requires
        0 <= k <= s.len(),
        forall|j: int| k <= j < s.len() ==> is_space_char(s[j]),
        k > 0 ==> !is_space_char(s[k - 1]),
    ensures
        trim_right(s) == s.take(k),
    decreases s.len() - k,
{
    if k == s.len() {
        assert(s.take(k) =~= s);
    } else {
        let t = s.drop_last();
        lemma_trim_right_take(t, k);
        assert(t.take(k) =~= s.take(k));
    }
}

/// The bounds of the whitespace-trimmed middle of `v[a..b]`: afterwards
/// `v[r.0..r.1]` is `trim_chars(v[a..b])`.
pub fn trim_bounds(v: &Vec<char>, a: usize, b: usize) -> (r: (usize, usize))
    requires
        a <= b <= v.len(),
    ensures
        a <= r.0 <= r.1 <= b,
        v@.subrange(r.0 as int, r.1 as int) == trim_chars(v@.subrange(a as int, b as int)),
{
    let ghost s = v@.subrange(a as int, b as int);
    let mut lo: usize = a;
    while lo < b && space_char(v[lo])
        invariant
            a <= lo <= b <= v.len(),
            forall|j: int| a <= j < lo ==> is_space_char(v@[j]),
        decreases b - lo,
    {
        lo = lo + 1;
    }
    let mut hi: usize = b;
    while hi > lo && space_char(v[hi - 1])
        invariant
            a <= lo <= hi <= b <= v.len(),
            forall|j: int| a <= j < lo ==> is_space_char(v@[j]),
            forall|j: int| hi <= j < b ==> is_space_char(v@[j]),
        decreases hi,
    {
        hi = hi - 1;
    }
    proof {
        assert(forall|j: int| 0 <= j < lo - a ==> is_space_char(s[j]));
        assert(lo - a < s.len() ==> !is_space_char(s[lo - a]));
        lemma_trim_left_skip(s, lo - a);
        let u = s.skip(lo - a);
        assert(u =~= v@.subrange(lo as int, b as int));
        assert(forall|j: int| hi - lo <= j < u.len() ==> is_space_char(u[j]));
        assert(hi - lo > 0 ==> !is_space_char(u[hi - lo - 1]));
        lemma_trim_right_take(u, hi - lo);
        assert(u.take(hi - lo) =~= v@.subrange(lo as int, hi as int));
    }
    (lo, hi)
}

// ===== executable splitting and string building =====

/// The characters of `v[a..b]` as a fresh vector.
pub fn sub_vec(v: &Vec<char>, a: usize, b: usize) -> (r: Vec<char>)
    requires
        a <= b <= v.len(),
    ensures
        r@ == v@.subrange(a as int, b as int),
{
    let mut r: Vec<char> = Vec::new();
    let mut i: usize = a;
    while i < b
        invariant
            a <= i <= b <= v.len(),
            r@ == v@.subrange(a as int, i as int),
        decreases b - i,
    {
        r.push(v[i]);
        i = i + 1;
        proof {
            assert(r@ =~= v@.subrange(a as int, i as int));
        }
    }
    r
}

/// The characters of a string, in order, as a vector.
pub fn chars_vec(s: &str) -> (v: Vec<char>)
    ensures
        v@ == s@,
{
    let n = s.unicode_len();
    let mut v: Vec<char> = Vec::new();
    let mut i: usize = 0;
    while i < n
        invariant
            i <= n,
            n == s@.len(),
            v@ == s@.take(i as int),
        decreases n - i,
    {
        let c = s.get_char(i);
        v.push(c);
        i = i + 1;
        proof {
            assert(v@ =~= s@.take(i as int));
        }
    }
    proof {
        assert(s@.take(n as int) =~= s@);
    }
    v
}

/// Relies on `String::push`: it appends exactly one character at the end.
#[verifier::external_body]
fn push_char(s: &mut String, c: char)
    ensures
        final(s)@ == old(s)@.push(c),
{
    s.push(c);
}

/// The characters of `v[a..b]` gathered into a `String`.
pub fn chars_to_string(v: &Vec<char>, a: usize, b: usize) -> (s: String)
    requires
        a <= b <= v.len(),
    ensures
        s@ == v@.subrange(a as int, b as int),
{
    let mut s = String::new();
    let mut i: usize = a;
    while i < b
        invariant
            a <= i <= b <= v.len(),
            s@ == v@.subrange(a as int, i as int),
        decreases b - i,
    {
        push_char(&mut s, v[i]);
        i = i + 1;
        proof {
            assert(s@ =~= v@.subrange(a as int, i as int));
        }
    }
    s
}

/// `v` split into pieces at every occurrence of `sep`, the separator kept in
/// no piece.
pub fn split_all(v: &Vec<char>, sep: char) -> (r: Vec<Vec<char>>)
    ensures
        r.deep_view() == split_on(v@, sep),
{
    let mut out: Vec<Vec<char>> = Vec::new();
    let mut start: usize = 0;
    let mut i: usize = 0;
    proof {
        assert(v@.skip(0) =~= v@);
        assert(out.deep_view() + split_on(v@, sep) =~~= split_on(v@, sep));
    }
    while i < v.len()
        invariant
            start <= i <= v.len(),
            forall|j: int| start <= j < i ==> v@[j] != sep,
            split_on(v@, sep) == out.deep_view() + split_on(v@.skip(start as int), sep),
        decreases v.len() - i,
    {
        if v[i] == sep {
            let tok = sub_vec(v, start, i);
            let ghost pre = out.deep_view();
            proof {
                let rem = v@.skip(start as int);
                lemma_split_on_step(rem, sep, i - start);
                assert(rem.take(i - start) =~= v@.subrange(start as int, i as int));
                assert(rem.skip(i - start + 1) =~= v@.skip(i + 1));
            }
            out.push(tok);
            proof {
                assert(out.deep_view() =~~= pre.push(tok@));
                assert(pre.push(tok@) + split_on(v@.skip(i + 1), sep) =~~= pre + (seq![tok@]
                    + split_on(v@.skip(i + 1), sep)));
            }
            start = i + 1;
        }
        i = i + 1;
    }
    let tok = sub_vec(v, start, v.len());
    let ghost pre = out.deep_view();
    proof {
        let rem = v@.skip(start as int);
        lemma_split_on_whole(rem, sep);
        assert(rem =~= tok@);
    }
    out.push(tok);
    proof {
        assert(out.deep_view() =~~= pre.push(tok@));
        assert(pre.push(tok@) =~~= pre + seq![tok@]);
    }
    out
}

/// `v` split into tokens that each keep the separator ending them; only the
/// last token may lack one, and an empty `v` yields no tokens.
pub fn split_incl_vec(v: &Vec<char>) -> (r: Vec<Vec<char>>)
    ensures
        r.deep_view() == split_incl(v@),
{
    let mut out: Vec<Vec<char>> = Vec::new();
    let mut start: usize = 0;
    let mut i: usize = 0;
    proof {
        assert(v@.skip(0) =~= v@);
        assert(out.deep_view() + split_incl(v@) =~~= split_incl(v@));
    }
    while i < v.len()
        invariant
            start <= i <= v.len(),
            forall|j: int| start <= j < i ==> !is_sep_char(v@[j]),
            split_incl(v@) == out.deep_view() + split_incl(v@.skip(start as int)),
        decreases v.len() - i,
    {
        if sep_char(v[i]) {
            let tok = sub_vec(v, start, i + 1);
            let ghost pre = out.deep_view();
            proof {
                let rem = v@.skip(start as int);
                lemma_split_incl_step(rem, i + 1 - start);
                assert(rem.take(i + 1 - start) =~= v@.subrange(start as int, i + 1));
                assert(rem.skip(i + 1 - start) =~= v@.skip(i + 1));
            }
            out.push(tok);
            proof {
                assert(out.deep_view() =~~= pre.push(tok@));
                assert(pre.push(tok@) + split_incl(v@.skip(i + 1)) =~~= pre + (seq![tok@]
                    + split_incl(v@.skip(i + 1))));
            }
            start = i + 1;
        }
        i = i + 1;
    }
    proof {
        let rem = v@.skip(start as int);
        lemma_split_incl_whole(rem);
    }
    if start < v.len() {
        let tok = sub_vec(v, start, v.len());
        let ghost pre = out.deep_view();
        proof {
            assert(v@.skip(start as int) =~= tok@);
        }
        out.push(tok);
        proof {
            assert(out.deep_view() =~~= pre.push(tok@));
            assert(pre.push(tok@) =~~= pre + seq![tok@]);
        }
    } else {
        proof {
            assert(v@.skip(start as int) =~= Seq::<char>::empty());
            assert(out.deep_view() + Seq::<Seq<char>>::empty() =~~= out.deep_view());
        }
    }
    out
}

// ===== tab-delimited fields =====

/// The `n`-th tab-delimited field of the line `s`, if the line has that many
/// fields.
pub open spec fn line_field(s: Seq<char>, n: int) -> Seq<char> {
    split_on(s, '\t')[n]
}

/// Whether the line `s` has more than `n` tab-delimited fields.
pub open spec fn line_has_field(s: Seq<char>, n: int) -> bool {
    n < split_on(s, '\t').len()
}

/// The `n`-th tab-delimited field of `v`, as a `String`.
pub fn field_at(v: &Vec<char>, n: usize) -> (r: Option<String>)
    ensures
        (r is Some) == line_has_field(v@, n as int),
        r is Some ==> r->0@ == line_field(v@, n as int),
{
    let fields = split_all(v, '\t');
    if n < fields.len() {
        let f = &fields[n];
        let s = chars_to_string(f, 0, f.len());
        proof {
            assert(fields.deep_view()[n as int] == fields@[n as int]@);
            assert(f@.subrange(0, f@.len() as int) =~= f@);
        }
        Some(s)
    } else {
        None
    }
}

} // verus!
