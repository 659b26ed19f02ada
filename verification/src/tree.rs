//! The tree: owner of the root, and the operations offered to callers.

use vstd::prelude::*;
use crate::cursor::{hits, lemma_rest_descend, Cursor, Frame, Iter, Search};
use crate::insert::{insert_rec, joined, replace_rec};
use crate::lookup::locate;
use crate::node::{has_region, lemma_flatten_insert_two, lemma_flatten_one, Node, CAP};
use crate::remove::remove_rec;
use crate::region::Region;

verus! {

/// No two pairs of `s` have the same region.
pub open spec fn distinct<R, V>(s: Seq<(R, V)>) -> bool {
    forall|i: int, j: int| 0 <= i < j < s.len() ==> (#[trigger] s[i]).0 != (#[trigger] s[j]).0
}

/// Adding a pair with a new region keeps the regions distinct.
pub proof fn lemma_distinct_insert<R, V>(s: Seq<(R, V)>, k: int, pair: (R, V))
    requires
        distinct(s),
        !has_region(s, pair.0),
        0 <= k <= s.len(),
    ensures
        distinct(s.insert(k, pair)),
{
    let t = s.insert(k, pair);
    assert forall|i: int, j: int| 0 <= i < j < t.len() implies (#[trigger] t[i]).0 != (
    #[trigger] t[j]).0 by {
        let a = if i < k { i } else { i - 1 };
        let b = if j < k { j } else { j - 1 };
        if i != k && j != k {
            assert(t[i] == s[a] && t[j] == s[b]);
        } else if i == k {
            assert(t[j] == s[b]);
        } else {
            assert(t[i] == s[a]);
        }
    }
}

/// Taking a pair out keeps the regions distinct, and its region is gone.
pub proof fn lemma_distinct_remove<R, V>(s: Seq<(R, V)>, k: int)
    requires
        distinct(s),
        0 <= k < s.len(),
    ensures
        distinct(s.remove(k)),
        !has_region(s.remove(k), s[k].0),
{
    let t = s.remove(k);
    assert forall|i: int, j: int| 0 <= i < j < t.len() implies (#[trigger] t[i]).0 != (
    #[trigger] t[j]).0 by {
        let a = if i < k { i } else { i + 1 };
        let b = if j < k { j } else { j + 1 };
        assert(t[i] == s[a] && t[j] == s[b]);
    }
    assert forall|i: int| 0 <= i < t.len() implies (#[trigger] t[i]).0 != s[k].0 by {
        let a = if i < k { i } else { i + 1 };
        assert(t[i] == s[a]);
    }
}

/// Giving a stored pair a new value keeps the regions distinct.
pub proof fn lemma_distinct_update<R, V>(s: Seq<(R, V)>, k: int, value: V)
    requires
        distinct(s),
        0 <= k < s.len(),
    ensures
        distinct(s.update(k, (s[k].0, value))),
{
    let t = s.update(k, (s[k].0, value));
    assert forall|i: int, j: int| 0 <= i < j < t.len() implies (#[trigger] t[i]).0 != (
    #[trigger] t[j]).0 by {
        assert(t[i].0 == s[i].0 && t[j].0 == s[j].0);
    }
}

/// A balanced multiway tree of (region, value) pairs with distinct regions.
///
/// All leaves lie `height` levels below the root; `size` counts the pairs.
pub struct Tree<R, V> {
    pub root: Option<Node<R, V>>,
    pub height: usize,
    pub size: usize,
}

impl<R: Region, V> View for Tree<R, V> {
    type V = Seq<(R, V)>;

    /// The stored pairs in traversal order: leaf by leaf from the left.
    open spec fn view(&self) -> Seq<(R, V)> {
        match self.root {
            Some(node) => node.pairs(self.height as nat),
            None => Seq::empty(),
        }
    }
}

impl<R: Region, V> Tree<R, V> {
    /// The tree is balanced and its bookkeeping is right: every leaf lies
    /// `height` levels below the root, every node but the root holds between
    /// `MIN` and `CAP` entries, an internal root holds at least two, every
    /// summary encloses what lies below it, `size` counts the pairs, and no
    /// region is stored twice.
    pub open spec fn wf(&self) -> bool {
        &&& distinct(self@)
        &&& self.size == self@.len()
        &&& match self.root {
            None => self.height == 0,
            Some(node) => {
                &&& node.wf(self.height as nat)
                &&& node.regions.len() >= 1
                &&& self.height > 0 ==> node.regions.len() >= 2
            },
        }
    }

    /// An empty tree.
    pub fn new() -> (tree: Self)
        ensures
            tree.wf(),
            tree@ == Seq::<(R, V)>::empty(),
            tree.height == 0,
    {
        Tree { root: None, height: 0, size: 0 }
    }

    /// The number of stored pairs.
    pub fn len(&self) -> (n: usize)
        requires
            self.wf(),
        ensures
            n == self@.len(),
    {
        self.size
    }

    /// Whether the tree stores nothing.
    pub fn is_empty(&self) -> (empty: bool)
        requires
            self.wf(),
        ensures
            empty == (self@.len() == 0),
    {
        self.size == 0
    }

    /// The number of levels between the root and the leaves.
    pub fn height(&self) -> (h: usize)
        ensures
            h == self.height,
    {
        self.height
    }

    /// A traversal of all stored pairs.
    pub fn iter<'a>(&'a self) -> (it: Iter<'a, R, V>)
        requires
            self.wf(),
        ensures
            it.wf(),
            it.remaining() == self@,
    {
        let mut stack: Vec<Frame<'a, R, V>> = Vec::new();
        match &self.root {
            Some(node) => {
                let opened = Frame { cursor: Cursor::from_root(node), next: 0 };
                proof {
                    lemma_rest_descend(stack@, self.height as nat, opened);
                }
                stack.push(opened);
            },
            None => {},
        }
        Iter { stack, height: self.height }
    }

    /// A traversal of the stored pairs whose region overlaps `query`.
    pub fn search<'a>(&'a self, query: &'a R) -> (found: Search<'a, R, V>)
        requires
            self.wf(),
        ensures
            found.wf(),
            found.query == query,
            found.remaining() == self@.filter(hits(*query)),
    {
        let mut stack: Vec<Frame<'a, R, V>> = Vec::new();
        match &self.root {
            Some(node) => {
                let opened = Frame { cursor: Cursor::from_root(node), next: 0 };
                proof {
                    lemma_rest_descend(stack@, self.height as nat, opened);
                }
                stack.push(opened);
            },
            None => {},
        }
        Search { query, stack, height: self.height }
    }

    /// Stores a pair whose region the tree does not hold yet. A root that
    /// overflows is split under a new root, one level higher.
    fn insert_fresh(&mut self, region: R, value: V)
        requires
            old(self).wf(),
            old(self).size < usize::MAX,
            !has_region(old(self)@, region),
        ensures
            final(self).wf(),
            old(self).height <= final(self).height <= old(self).height + 1,
            exists|k: int|
                0 <= k <= old(self)@.len() && final(self)@ == (#[trigger] old(self)@.insert(
                    k,
                    (region, value),
                )),
    {
        let ghost pair = (region, value);
        let ghost before = self@;
        let ghost mut at: int = 0;
        match self.root.take() {
            None => {
                let mut leaf = Node { regions: Vec::new(), values: Vec::new(), children: Vec::new() };
                leaf.regions.push(region);
                leaf.values.push(value);
                proof {
                    assert(leaf.slot_pairs(0) =~= seq![seq![pair]]);
                    lemma_flatten_one(seq![pair]);
                    assert(leaf.pairs(0) =~= before.insert(0, pair));
                }
                self.root = Some(leaf);
            },
            Some(node) => {
                let ghost level = self.height as nat;
                proof {
                    node.lemma_pairs_len(level);
                }
                let (first, second) = insert_rec(node, self.height, region, value);
                proof {
                    at = choose|k: int|
                        0 <= k <= before.len() && joined(first, second, level) == (
                        #[trigger] before.insert(k, pair));
                }
                match second {
                    None => {
                        self.root = Some(first);
                    },
                    Some(right) => {
                        let ghost above = level + 1;
                        let mut top = Node {
                            regions: Vec::new(),
                            values: Vec::new(),
                            children: Vec::new(),
                        };
                        proof {
                            assert(top.slot_pairs(above) =~= Seq::<Seq<(R, V)>>::empty());
                            lemma_flatten_insert_two(
                                top.slot_pairs(above),
                                0,
                                first.pairs(level),
                                right.pairs(level),
                            );
                            assert(top.slot_pairs(above).take(0).flatten() =~= Seq::<
                                (R, V),
                            >::empty());
                            assert(top.slot_pairs(above).skip(0).flatten() =~= Seq::<
                                (R, V),
                            >::empty());
                        }
                        top.put_child(0, right, Ghost(above), Ghost(0));
                        top.put_child(0, first, Ghost(above), Ghost(1));
                        self.height = self.height + 1;
                        self.root = Some(top);
                    },
                }
            },
        }
        self.size = self.size + 1;
        proof {
            assert(self@ =~= before.insert(at, pair));
            lemma_distinct_insert(before, at, pair);
        }
    }

    /// Removes the pair whose region equals `region` and returns its value,
    /// or returns `None` and changes nothing where no such pair is stored.
    /// A root left with a single subtree gives way to that subtree.
    pub fn remove(&mut self, region: &R) -> (removed: Option<V>)
        requires
            old(self).wf(),
        ensures
            final(self).wf(),
            final(self).height <= old(self).height,
            !has_region(final(self)@, *region),
            match removed {
                Some(value) => exists|k: int|
                    0 <= k < old(self)@.len() && old(self)@[k] == (*region, value) && final(self)@
                        == (#[trigger] old(self)@.remove(k)),
                None => !has_region(old(self)@, *region) && final(self)@ == old(self)@
                    && final(self).height == old(self).height,
            },
    {
        let ghost before = self@;
        let ghost level = self.height as nat;
        let mut path: Vec<usize> = Vec::new();
        let found = match &self.root {
            Some(node) => locate(node, self.height, region, &mut path),
            None => false,
        };
        if !found {
            return None;
        }
        let mut node = self.root.take().unwrap();
        let value = remove_rec(&mut node, self.height, region, &path);
        let ghost at = choose|k: int|
            0 <= k < before.len() && before[k] == (*region, value) && node.pairs(level) == (
            #[trigger] before.remove(k));
        if node.regions.len() == 0 {
            self.root = None;
            proof {
                assert(node.slot_pairs(level) =~= Seq::<Seq<(R, V)>>::empty());
            }
        } else if self.height > 0 && node.regions.len() == 1 {
            proof {
                let slots = node.slot_pairs(level);
                assert(slots =~= seq![slots[0]]);
                lemma_flatten_one(slots[0]);
            }
            let child = node.take_child(0, Ghost(level), Ghost(CAP as nat));
            self.height = self.height - 1;
            self.root = Some(child);
        } else {
            self.root = Some(node);
        }
        self.size = self.size - 1;
        proof {
            assert(self@ =~= before.remove(at));
            lemma_distinct_remove(before, at);
        }
        Some(value)
    }

    /// Stores the pair. Where a pair with an equal region is stored already,
    /// that pair keeps its place, takes the new value, and its former value
    /// is returned; otherwise the pair is added and `None` is returned.
    pub fn insert(&mut self, region: R, value: V) -> (previous: Option<V>)
        requires
            old(self).wf(),
            old(self)@.len() < usize::MAX,
        ensures
            final(self).wf(),
            final(self)@.contains((region, value)),
            final(self)@.len() == old(self)@.len() + if previous is None {
                1int
            } else {
                0int
            },
            match previous {
                Some(prior) => final(self).height == old(self).height && exists|i: int|
                    0 <= i < old(self)@.len() && old(self)@[i] == (region, prior) && final(self)@
                        == (#[trigger] old(self)@.update(i, (region, value))),
                None => !has_region(old(self)@, region) && old(self).height <= final(self).height
                    <= old(self).height + 1 && exists|k: int|
                    0 <= k <= old(self)@.len() && final(self)@ == (#[trigger] old(self)@.insert(
                        k,
                        (region, value),
                    )),
            },
    {
        let ghost before = self@;
        let ghost pair = (region, value);
        let mut path: Vec<usize> = Vec::new();
        let found = match &self.root {
            Some(node) => locate(node, self.height, &region, &mut path),
            None => false,
        };
        if found {
            let mut node = self.root.take().unwrap();
            let prior = replace_rec(&mut node, self.height, &region, value, &path);
            self.root = Some(node);
            proof {
                let i = choose|k: int|
                    0 <= k < before.len() && before[k] == (region, prior) && self@ == (
                    #[trigger] before.update(k, pair));
                lemma_distinct_update(before, i, value);
                assert(self@[i] == pair);
            }
            Some(prior)
        } else {
            self.insert_fresh(region, value);
            proof {
                let k = choose|k: int|
                    0 <= k <= before.len() && self@ == (#[trigger] before.insert(k, pair));
                assert(self@[k] == pair);
            }
            None
        }
    }

    /// A traversal yields as many pairs as `len` counts, and no region twice.
    pub proof fn lemma_each_pair_once(&self, it: Iter<R, V>)
        requires
            self.wf(),
            it.remaining() == self@,
        ensures
            it.remaining().len() == self.size,
            forall|i: int, j: int|
                0 <= i < j < it.remaining().len() ==> (#[trigger] it.remaining()[i]).0 != (
                #[trigger] it.remaining()[j]).0,
    {
    }

    /// The tree is empty exactly when it has no root, and it stores more
    /// pairs than it has levels below the root.
    pub proof fn lemma_size(&self)
        requires
            self.wf(),
        ensures
            (self@.len() == 0) == (self.root is None),
            self.root is Some ==> self@.len() > self.height,
    {
        if self.root is Some {
            self.root.unwrap().lemma_pairs_len(self.height as nat);
        }
    }
}

/// The number of `true` entries of `flags`.
pub open spec fn count_true(flags: Seq<bool>) -> nat
    decreases flags.len(),
{
    if flags.len() == 0 {
        0
    } else {
        count_true(flags.drop_last()) + if flags.last() {
            1nat
        } else {
            0nat
        }
    }
}

/// Over a run of inserts into an empty tree, the length in the end is the
/// number of inserts less the number of those that replaced a pair. Here
/// `lens[i]` is the length before insert `i`, which grows as `insert`
/// promises, and `replaced[i]` says whether insert `i` returned a value.
pub proof fn lemma_len_after_inserts(lens: Seq<nat>, replaced: Seq<bool>)
    requires
        lens.len() == replaced.len() + 1,
        lens[0] == 0,
        forall|i: int|
            0 <= i < replaced.len() ==> lens[i + 1] == lens[i] + if #[trigger] replaced[i] {
                0nat
            } else {
                1nat
            },
    ensures
        lens.last() == replaced.len() - count_true(replaced),
    decreases replaced.len(),
{
    if replaced.len() > 0 {
        let n = replaced.len() - 1;
        let fewer = replaced.drop_last();
        assert forall|i: int| 0 <= i < fewer.len() implies lens.drop_last()[i + 1]
            == lens.drop_last()[i] + if #[trigger] fewer[i] {
            0nat
        } else {
            1nat
        } by {
            assert(fewer[i] == replaced[i]);
        }
        lemma_len_after_inserts(lens.drop_last(), fewer);
        assert(lens.drop_last().last() == lens[n]);
        assert(replaced[n] == replaced.last());
    }
}

/// A search with a stored region as its query yields the pair stored under
/// that region, and no other pair with that region.
pub proof fn lemma_search_finds_stored<R: Region, V>(pairs: Seq<(R, V)>, region: R, value: V)
    requires
        distinct(pairs),
        pairs.contains((region, value)),
    ensures
        pairs.filter(hits(region)).contains((region, value)),
        forall|i: int|
            0 <= i < pairs.filter(hits(region)).len() && (#[trigger] pairs.filter(
                hits(region),
            )[i]).0 == region ==> pairs.filter(hits(region))[i].1 == value,
{
    let found = pairs.filter(hits(region));
    let k = choose|k: int| 0 <= k < pairs.len() && pairs[k] == (region, value);
    region.overlaps_reflexive();
    pairs.lemma_filter_contains(hits(region), k);
    assert forall|i: int| 0 <= i < found.len() && (#[trigger] found[i]).0 == region implies found[i].1
        == value by {
        assert(found.contains(found[i]));
        pairs.lemma_filter_contains_rev(hits(region), found[i]);
        let j = choose|j: int| 0 <= j < pairs.len() && pairs[j] == found[i];
        if j != k {
            if j < k {
                assert(pairs[j].0 != pairs[k].0);
            } else {
                assert(pairs[k].0 != pairs[j].0);
            }
        }
    }
}

/// A search yields no pair with a region that is not stored.
pub proof fn lemma_search_misses_absent<R: Region, V>(pairs: Seq<(R, V)>, query: R, region: R)
    requires
        !has_region(pairs, region),
    ensures
        !has_region(pairs.filter(hits(query)), region),
{
    let found = pairs.filter(hits(query));
    if has_region(found, region) {
        let i = choose|i: int| 0 <= i < found.len() && (#[trigger] found[i]).0 == region;
        assert(found.contains(found[i]));
        pairs.lemma_filter_contains_rev(hits(query), found[i]);
        let j = choose|j: int| 0 <= j < pairs.len() && pairs[j] == found[i];
        assert(pairs[j].0 == region);
    }
}

} // verus!
