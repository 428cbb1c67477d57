//! The keep-set containers. A keep-set holds node ids or oriented edges
//! with set semantics: what matters is the mathematical set of values held,
//! never an insertion order, so the union that builds one is associative and
//! commutative with the empty set as identity.

use vstd::prelude::*;

verus! {

/// An oriented node occurrence: a node id and its orientation, `true` for
/// forward.
pub type Onode = (String, bool);

/// An adjacency between two oriented node occurrences, stored as an ordered
/// pair but matched in either order by the record filter.
pub type Edge = (Onode, Onode);

/// The ordered node ids one record references, duplicates allowed.
pub type SortedNodes = Vec<String>;

/// The ordered edges one record traverses.
pub type SortedEdges = Vec<Edge>;

/// The keep-set of node ids.
pub type Nodes = ItemSet<String>;

/// The keep-set of oriented edges.
pub type Edges = ItemSet<Edge>;

/// The mathematical value of an oriented node occurrence.
pub type OnodeV = (Seq<char>, bool);

/// The mathematical value of an edge.
pub type EdgeV = (OnodeV, OnodeV);

/// An element a keep-set can hold: it can decide whether another element
/// carries the same mathematical value.
pub trait SetItem: DeepView + Sized {
    fn same(&self, other: &Self) -> (r: bool)
        ensures
            r == (self.deep_view() == other.deep_view()),
    ;
}

impl SetItem for u64 {
    fn same(&self, other: &Self) -> (r: bool) {
        *self == *other
    }
}

impl SetItem for String {
    fn same(&self, other: &Self) -> (r: bool) {
        self.eq(other)
    }
}

impl SetItem for (String, bool) {
    fn same(&self, other: &Self) -> (r: bool) {
        self.0.eq(&other.0) && self.1 == other.1
    }
}

impl SetItem for ((String, bool), (String, bool)) {
    fn same(&self, other: &Self) -> (r: bool) {
        self.0.0.eq(&other.0.0) && self.0.1 == other.0.1 && self.1.0.eq(&other.1.0) && self.1.1
            == other.1.1
    }
}

/// A set of items, held as a vector without duplicate values. Membership is
/// what its view speaks of; the order of the vector means nothing.
#[verifier::reject_recursive_types(T)]
pub struct ItemSet<T: SetItem> {
    items: Vec<T>,
}

impl<T: SetItem> View for ItemSet<T> {
    type V = Set<<T as DeepView>::V>;

    closed spec fn view(&self) -> Set<<T as DeepView>::V> {
        self.items.deep_view().to_set()
    }
}

impl<T: SetItem> ItemSet<T> {
    /// No two held items carry the same value.
    pub closed spec fn wf(&self) -> bool {
        self.items.deep_view().no_duplicates()
    }

    pub fn new() -> (s: Self)
        ensures
            s@ == Set::<<T as DeepView>::V>::empty(),
            s.wf(),
    {
        let s = ItemSet { items: Vec::<T>::new() };
        proof {
            assert(s.items.deep_view() =~= Seq::<<T as DeepView>::V>::empty());
            assert(s.items.deep_view().to_set() =~= Set::<<T as DeepView>::V>::empty());
        }
        s
    }

    pub fn contains_item(&self, x: &T) -> (r: bool)
        ensures
            r == self@.contains(x.deep_view()),
    {
        let ghost items = self.items.deep_view();
        let mut i: usize = 0;
        while i < self.items.len()
            invariant
                i <= self.items.len(),
                items == self.items.deep_view(),
                forall|j: int| 0 <= j < i ==> items[j] != x.deep_view(),
            decreases self.items.len() - i,
        {
            let hit = self.items[i].same(x);
            if hit {
                proof {
                    assert(items[i as int] == x.deep_view());
                    assert(items.contains(x.deep_view()));
                }
                return true;
            }
            i = i + 1;
        }
        proof {
            assert(!items.contains(x.deep_view()));
        }
        false
    }

    pub fn insert_item(&mut self, x: T)
        requires
            old(self).wf(),
        ensures
            final(self).wf(),
            final(self)@ == old(self)@.insert(x.deep_view()),
    {
        let ghost xv = x.deep_view();
        let present = self.contains_item(&x);
        if present {
            proof {
                assert(old(self)@.insert(xv) =~= old(self)@);
            }
        } else {
            let ghost pre = self.items.deep_view();
            self.items.push(x);
            proof {
                assert(!pre.contains(xv));
                assert(self.items.deep_view() =~~= pre + seq![xv]);
                Seq::lemma_to_set_insert_commutes(pre, xv);
                assert((pre + seq![xv]).no_duplicates());
            }
        }
    }

    /// How many distinct values the set holds.
    pub fn len(&self) -> (n: usize)
        requires
            self.wf(),
        ensures
            n == self@.len(),
    {
        proof {
            self.items.deep_view().unique_seq_to_set();
        }
        self.items.len()
    }

    /// Unions every element of `v` into the set.
    pub fn insert_all(&mut self, v: Vec<T>)
        requires
            old(self).wf(),
        ensures
            final(self).wf(),
            final(self)@ == old(self)@.union(v.deep_view().to_set()),
    {
        let mut w = v;
        let ghost orig = w.deep_view();
        let ghost pre = old(self)@;
        let ghost mut i: int = 0;
        proof {
            assert(w.deep_view() =~= orig.skip(0));
            assert(orig.take(0) =~= Seq::<<T as DeepView>::V>::empty());
            assert(self@ =~= pre.union(orig.take(0).to_set()));
        }
        while w.len() > 0
            invariant
                self.wf(),
                0 <= i,
                i + w@.len() == orig.len(),
                w.deep_view() == orig.skip(i),
                self@ == pre.union(orig.take(i).to_set()),
            decreases w.len(),
        {
            let ghost wv = w@;
            let ghost wpre = w.deep_view();
            let x = w.remove(0);
            proof {
                assert(x.deep_view() == wpre[0]);
                assert(wpre[0] == orig[i]);
                assert forall|k: int| 0 <= k < w@.len() implies w.deep_view()[k] == wpre[k
                    + 1] by {
                    assert(w@[k] == wv[k + 1]);
                }
                assert(w.deep_view() =~= orig.skip(i + 1));
            }
            self.insert_item(x);
            proof {
                assert(orig.take(i + 1) =~= orig.take(i) + seq![orig[i]]);
                Seq::lemma_to_set_insert_commutes(orig.take(i), orig[i]);
                assert(pre.union(orig.take(i).to_set()).insert(orig[i]) =~= pre.union(orig.take(i
                    + 1).to_set()));
                i = i + 1;
            }
        }
        proof {
            assert(orig.take(i) =~= orig);
        }
    }
}

impl<T: SetItem> ItemSet<T> {
    /// Unions the other set's elements into this one.
    pub fn merge_from(&mut self, other: ItemSet<T>)
        requires
            old(self).wf(),
        ensures
            final(self).wf(),
            final(self)@ == old(self)@.union(other@),
    {
        let ghost ov = other@;
        let ItemSet { items } = other;
        proof {
            assert(items.deep_view().to_set() == ov);
        }
        self.insert_all(items);
    }
}

/// The union of the element sets of every row.
pub open spec fn rows_to_set<A>(rows: Seq<Seq<A>>) -> Set<A>
    decreases rows.len(),
{
    if rows.len() == 0 {
        Set::<A>::empty()
    } else {
        rows_to_set(rows.drop_last()).union(rows.last().to_set())
    }
}

/// Reduces many rows of items into one set: a union of the rows' element
/// sets, with the empty set as identity, so the rows may be combined in any
/// grouping or order.
pub fn flatten_into_hashset<T: SetItem>(v: Vec<Vec<T>>) -> (s: ItemSet<T>)
    ensures
        s.wf(),
        s@ == rows_to_set(v.deep_view()),
{
    let mut w = v;
    let ghost orig = w.deep_view();
    let mut s = ItemSet::<T>::new();
    let ghost mut i: int = 0;
    proof {
        assert(w.deep_view() =~~= orig.skip(0));
        assert(orig.take(0) =~~= Seq::<Seq<<T as DeepView>::V>>::empty());
        assert(s@ =~= rows_to_set(orig.take(0)));
    }
    while w.len() > 0
        invariant
            s.wf(),
            0 <= i,
            i + w@.len() == orig.len(),
            w.deep_view() == orig.skip(i),
            s@ == rows_to_set(orig.take(i)),
        decreases w.len(),
    {
        let ghost wv = w@;
        let ghost wpre = w.deep_view();
        let row = w.remove(0);
        let ghost rowv = row.deep_view();
        proof {
            assert(rowv == wpre[0]);
            assert(wpre[0] == orig[i]);
            assert forall|k: int| 0 <= k < w@.len() implies w.deep_view()[k] == wpre[k + 1] by {
                assert(w@[k] == wv[k + 1]);
            }
            assert(w.deep_view() =~~= orig.skip(i + 1));
        }
        s.insert_all(row);
        proof {
            assert(orig.take(i + 1).drop_last() =~~= orig.take(i));
            assert(orig.take(i + 1).last() == orig[i]);
            assert(rows_to_set(orig.take(i + 1)) == rows_to_set(orig.take(i + 1).drop_last()).union(
                orig.take(i + 1).last().to_set()));
            i = i + 1;
        }
    }
    proof {
        assert(orig.take(i) =~~= orig);
    }
    s
}

} // verus!
