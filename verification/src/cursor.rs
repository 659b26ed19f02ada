//! Resumable traversals: the full iterator and the pruned window search.
//!
//! Both keep an explicit stack with one frame per open level. A frame holds a
//! cursor at a node and the next slot of that node still to be visited.

use vstd::prelude::*;
use crate::node::{lemma_flatten_skip, Node};
use crate::region::Region;

verus! {

/// A node as a traversal sees it: the node and its depth below the root.
///
/// A cursor owns nothing. Whether it stands on a leaf is not stored either:
/// it does exactly when its depth is the height of the tree.
pub struct Cursor<'a, R, V> {
    pub node: &'a Node<R, V>,
    pub depth: usize,
}

impl<'a, R: Region, V> Cursor<'a, R, V> {
    /// A cursor at the root.
    pub fn from_root(node: &'a Node<R, V>) -> (cursor: Self)
        ensures
            cursor.node == node,
            cursor.depth == 0,
    {
        Cursor { node, depth: 0 }
    }

    /// Whether the node is internal in a tree of the given height.
    pub fn is_internal_node(&self, height: usize) -> (internal: bool)
        ensures
            internal == (self.depth != height),
    {
        self.depth != height
    }

    /// Whether the node is a leaf in a tree of the given height.
    pub fn is_leaf_node(&self, height: usize) -> (leaf: bool)
        ensures
            leaf == (self.depth == height),
    {
        self.depth == height
    }

    /// The number of slots in use.
    pub fn len(&self) -> (count: usize)
        ensures
            count == self.node.regions.len(),
    {
        self.node.regions.len()
    }

    /// A cursor at the subtree under slot `idx` of an internal node.
    pub fn get_child(&self, idx: usize) -> (child: Self)
        requires
            idx < self.node.children.len(),
            self.depth < usize::MAX,
        ensures
            *child.node == self.node.children[idx as int],
            child.depth == self.depth + 1,
    {
        let node: &'a Node<R, V> = self.node;
        Cursor { node: &node.children[idx], depth: self.depth + 1 }
    }

    /// The value in slot `idx` of a leaf.
    pub fn get_value(&self, idx: usize) -> (value: &'a V)
        requires
            idx < self.node.values.len(),
        ensures
            *value == self.node.values[idx as int],
    {
        let node: &'a Node<R, V> = self.node;
        &node.values[idx]
    }

    /// The region in slot `idx`.
    pub fn get_region(&self, idx: usize) -> (region: &'a R)
        requires
            idx < self.node.regions.len(),
        ensures
            *region == self.node.regions[idx as int],
    {
        let node: &'a Node<R, V> = self.node;
        &node.regions[idx]
    }
}

/// One open level of a traversal.
pub struct Frame<'a, R, V> {
    pub cursor: Cursor<'a, R, V>,
    pub next: usize,
}

/// The pairs that the slots of `frame` from `frame.next` on still hold.
pub open spec fn frame_rest<'a, R: Region, V>(frame: Frame<'a, R, V>, level: nat) -> Seq<(R, V)> {
    frame.cursor.node.slot_pairs(level).skip(frame.next as int).flatten()
}

/// The pairs a stack still has to visit: those of the deepest frame first.
pub open spec fn rest<'a, R: Region, V>(stack: Seq<Frame<'a, R, V>>, height: nat) -> Seq<(R, V)>
    decreases stack.len(),
{
    if stack.len() == 0 {
        Seq::empty()
    } else {
        frame_rest(stack.last(), (height - (stack.len() - 1)) as nat) + rest(
            stack.drop_last(),
            height,
        )
    }
}

/// Frame `j` stands at depth `j`, on a well-formed node of that depth, with a
/// slot index within the node's bounds.
pub open spec fn stack_wf<'a, R: Region, V>(stack: Seq<Frame<'a, R, V>>, height: nat) -> bool {
    &&& stack.len() <= height + 1
    &&& forall|j: int|
        0 <= j < stack.len() ==> {
            &&& (#[trigger] stack[j]).cursor.depth == j
            &&& stack[j].cursor.node.wf((height - j) as nat)
            &&& stack[j].next <= stack[j].cursor.node.regions.len()
        }
}

/// A frame whose slots are used up contributes nothing.
pub proof fn lemma_rest_exhausted<'a, R: Region, V>(stack: Seq<Frame<'a, R, V>>, height: nat)
    requires
        stack.len() > 0,
        stack.last().next == stack.last().cursor.node.regions.len(),
    ensures
        rest(stack, height) =~= rest(stack.drop_last(), height),
{
    let level = (height - (stack.len() - 1)) as nat;
    let slots = stack.last().cursor.node.slot_pairs(level);
    assert(slots.skip(stack.last().next as int) =~= Seq::<Seq<(R, V)>>::empty());
}

/// Moving the deepest frame one slot on leaves that slot's pairs behind.
pub proof fn lemma_rest_advance<'a, R: Region, V>(
    stack: Seq<Frame<'a, R, V>>,
    height: nat,
    moved: Frame<'a, R, V>,
)
    requires
        stack.len() > 0,
        stack.last().next < stack.last().cursor.node.regions.len(),
        moved.cursor == stack.last().cursor,
        moved.next == stack.last().next + 1,
    ensures
        rest(stack, height) =~= stack.last().cursor.node.slot_pairs(
            (height - (stack.len() - 1)) as nat,
        )[stack.last().next as int] + rest(stack.drop_last().push(moved), height),
{
    let level = (height - (stack.len() - 1)) as nat;
    let slots = stack.last().cursor.node.slot_pairs(level);
    lemma_flatten_skip(slots, stack.last().next as int);
    let after = stack.drop_last().push(moved);
    assert(after.drop_last() =~= stack.drop_last());
    assert(after.last() == moved);
}

/// Opening a node at its first slot adds all its pairs.
pub proof fn lemma_rest_descend<'a, R: Region, V>(
    stack: Seq<Frame<'a, R, V>>,
    height: nat,
    opened: Frame<'a, R, V>,
)
    requires
        stack.len() <= height,
        opened.next == 0,
    ensures
        rest(stack.push(opened), height) =~= opened.cursor.node.pairs((height - stack.len()) as nat)
            + rest(stack, height),
{
    let after = stack.push(opened);
    assert(after.drop_last() =~= stack);
    assert(after.last() == opened);
    let level = (height - stack.len()) as nat;
    assert(opened.cursor.node.slot_pairs(level).skip(0) =~= opened.cursor.node.slot_pairs(level));
}

/// The work a stack has left: one step per frame, and what each frame has
/// left from its next slot on.
pub open spec fn stack_weight<'a, R: Region, V>(stack: Seq<Frame<'a, R, V>>, height: nat) -> nat
    decreases stack.len(),
{
    if stack.len() == 0 {
        0
    } else {
        1 + stack.last().cursor.node.weight_from(
            (height - (stack.len() - 1)) as nat,
            stack.last().next as nat,
        ) + stack_weight(stack.drop_last(), height)
    }
}

/// The work of a stack with one more frame.
pub proof fn lemma_weight_push<'a, R: Region, V>(
    stack: Seq<Frame<'a, R, V>>,
    height: nat,
    frame: Frame<'a, R, V>,
)
    ensures
        stack_weight(stack.push(frame), height) == 1 + frame.cursor.node.weight_from(
            (height - stack.len()) as nat,
            frame.next as nat,
        ) + stack_weight(stack, height),
{
    assert(stack.push(frame).drop_last() =~= stack);
}

/// The predicate that selects the pairs whose region overlaps `query`.
pub open spec fn hits<R: Region, V>(query: R) -> spec_fn((R, V)) -> bool {
    |pair: (R, V)| pair.0.overlaps(&query)
}

/// A sequence with no selected element filters to nothing.
pub proof fn lemma_filter_none<T>(s: Seq<T>, pred: spec_fn(T) -> bool)
    requires
        forall|k: int| 0 <= k < s.len() ==> !pred(#[trigger] s[k]),
    ensures
        s.filter(pred) =~= Seq::<T>::empty(),
    decreases s.len(),
{
    reveal(Seq::filter);
    if s.len() > 0 {
        lemma_filter_none(s.drop_last(), pred);
    }
}

/// A single selected element filters to itself.
pub proof fn lemma_filter_one<T>(x: T, pred: spec_fn(T) -> bool)
    requires
        pred(x),
    ensures
        seq![x].filter(pred) =~= seq![x],
{
    reveal(Seq::filter);
    assert(seq![x].drop_last() =~= Seq::<T>::empty());
    lemma_filter_none(Seq::<T>::empty(), pred);
}

/// A traversal that yields every pair of the tree, leaf by leaf from the left.
pub struct Iter<'a, R, V> {
    pub stack: Vec<Frame<'a, R, V>>,
    pub height: usize,
}

impl<'a, R: Region, V> Iter<'a, R, V> {
    /// The traversal state is consistent.
    pub open spec fn wf(&self) -> bool {
        stack_wf(self.stack@, self.height as nat)
    }

    /// The pairs still to be yielded, in the order in which they will come.
    pub open spec fn remaining(&self) -> Seq<(R, V)> {
        rest(self.stack@, self.height as nat)
    }

    /// Yields the next pair, or `None` once every pair has been yielded.
    pub fn next(&mut self) -> (item: Option<(&'a R, &'a V)>)
        requires
            old(self).wf(),
        ensures
            final(self).wf(),
            final(self).height == old(self).height,
            match item {
                Some(pair) => old(self).remaining().len() > 0 && (*pair.0, *pair.1) == old(
                    self,
                ).remaining()[0] && final(self).remaining() == old(self).remaining().skip(1),
                None => old(self).remaining().len() == 0 && final(self).remaining().len() == 0,
            },
    {
        let ghost start = self.remaining();
        let ghost height = self.height as nat;
        while self.stack.len() > 0 && self.stack[self.stack.len() - 1].next
            >= self.stack[self.stack.len() - 1].cursor.len()
            invariant
                self.wf(),
                self.height == height,
                self.remaining() == start,
            decreases self.stack.len(),
        {
            proof {
                assert(self.stack@.last().next <= self.stack@.last().cursor.node.regions.len());
                lemma_rest_exhausted(self.stack@, height);
            }
            let ghost before = self.stack@;
            self.stack.pop();
            assert(self.stack@ =~= before.drop_last());
        }
        if self.stack.len() == 0 {
            return None;
        }
        while self.stack[self.stack.len() - 1].cursor.is_internal_node(self.height)
            invariant
                self.wf(),
                self.height == height,
                self.remaining() == start,
                self.stack.len() > 0,
                self.stack@.last().next < self.stack@.last().cursor.node.regions.len(),
            decreases self.height + 1 - self.stack.len(),
        {
            let ghost before = self.stack@;
            let ghost level = (height - (before.len() - 1)) as nat;
            assert(before.last().cursor.node.wf(level));
            let top = self.stack.pop().unwrap();
            let i = top.next;
            let child = top.cursor.get_child(i);
            let moved = Frame { cursor: top.cursor, next: i + 1 };
            let opened = Frame { cursor: child, next: 0 };
            proof {
                assert(moved.cursor.node.children[i as int].wf((level - 1) as nat));
                lemma_rest_advance(before, height, moved);
                lemma_rest_descend(before.drop_last().push(moved), height, opened);
                assert(self.stack@ =~= before.drop_last());
            }
            self.stack.push(moved);
            self.stack.push(opened);
        }
        let ghost before = self.stack@;
        assert(before.last().cursor.node.wf(0));
        let top = self.stack.pop().unwrap();
        let i = top.next;
        let region = top.cursor.get_region(i);
        let value = top.cursor.get_value(i);
        let moved = Frame { cursor: top.cursor, next: i + 1 };
        proof {
            lemma_rest_advance(before, height, moved);
            assert(self.stack@ =~= before.drop_last());
        }
        self.stack.push(moved);
        Some((region, value))
    }
}

/// A traversal that yields the pairs whose region overlaps a query, skipping
/// every subtree whose summary does not.
pub struct Search<'a, R, V> {
    pub query: &'a R,
    pub stack: Vec<Frame<'a, R, V>>,
    pub height: usize,
}

impl<'a, R: Region, V> Search<'a, R, V> {
    /// The traversal state is consistent.
    pub open spec fn wf(&self) -> bool {
        stack_wf(self.stack@, self.height as nat)
    }

    /// The pairs still to be yielded, in the order in which they will come.
    pub open spec fn remaining(&self) -> Seq<(R, V)> {
        rest(self.stack@, self.height as nat).filter(hits(*self.query))
    }

    /// Yields the next overlapping pair, or `None` once all have been yielded.
    pub fn next(&mut self) -> (item: Option<(&'a R, &'a V)>)
        requires
            old(self).wf(),
        ensures
            final(self).wf(),
            final(self).height == old(self).height,
            final(self).query == old(self).query,
            match item {
                Some(pair) => old(self).remaining().len() > 0 && (*pair.0, *pair.1) == old(
                    self,
                ).remaining()[0] && final(self).remaining() == old(self).remaining().skip(1),
                None => old(self).remaining().len() == 0 && final(self).remaining().len() == 0,
            },
    {
        let ghost start = self.remaining();
        let ghost height = self.height as nat;
        let ghost query = self.query;
        let ghost pred = hits::<R, V>(*self.query);
        loop
            invariant
                self.wf(),
                self.height == height,
                self.query == query,
                pred == hits::<R, V>(*query),
                self.remaining() == start,
                height == old(self).height,
                query == old(self).query,
                start == old(self).remaining(),
            decreases stack_weight(self.stack@, height),
        {
            if self.stack.len() == 0 {
                proof {
                    lemma_filter_none(Seq::<(R, V)>::empty(), pred);
                }
                return None;
            }
            let ghost before = self.stack@;
            let ghost level = (height - (before.len() - 1)) as nat;
            let ghost node = before.last().cursor.node;
            assert(node.wf(level));
            let top = self.stack.pop().unwrap();
            let i = top.next;
            proof {
                assert(self.stack@ =~= before.drop_last());
                assert(before =~= self.stack@.push(top));
                lemma_weight_push(self.stack@, height, top);
            }
            if i >= top.cursor.len() {
                proof {
                    lemma_rest_exhausted(before, height);
                }
            } else {
                let region = top.cursor.get_region(i);
                let hit = region.collapses_with(self.query);
                let leaf = top.cursor.is_leaf_node(self.height);
                let ghost slot = node.slot_pairs(level)[i as int];
                let ghost below = self.stack@;
                let ghost moved = Frame { cursor: top.cursor, next: (i + 1) as usize };
                proof {
                    lemma_rest_advance(before, height, moved);
                    lemma_weight_push(below, height, moved);
                    Seq::filter_distributes_over_add(slot, rest(below.push(moved), height), pred);
                }
                if hit && leaf {
                    let value = top.cursor.get_value(i);
                    self.stack.push(Frame { cursor: top.cursor, next: i + 1 });
                    proof {
                        lemma_filter_one((*region, *value), pred);
                        assert(slot =~= seq![(*region, *value)]);
                        assert(start =~= seq![(*region, *value)] + self.remaining());
                        assert(self.remaining() =~= start.skip(1));
                    }
                    return Some((region, value));
                } else if hit {
                    let child = top.cursor.get_child(i);
                    let opened = Frame { cursor: child, next: 0 };
                    self.stack.push(Frame { cursor: top.cursor, next: i + 1 });
                    proof {
                        assert(node.children[i as int].wf((level - 1) as nat));
                        lemma_rest_descend(self.stack@, height, opened);
                        lemma_weight_push(self.stack@, height, opened);
                    }
                    self.stack.push(opened);
                } else {
                    self.stack.push(Frame { cursor: top.cursor, next: i + 1 });
                    proof {
                        assert forall|k: int| 0 <= k < slot.len() implies !pred(
                            #[trigger] slot[k],
                        ) by {
                            if level > 0 {
                                assert(node.children[i as int].wf((level - 1) as nat));
                                assert(crate::region::encloses(&node.regions[i as int], &slot[k].0));
                            }
                        }
                        lemma_filter_none(slot, pred);
                    }
                }
            }
        }
    }
}

} // verus!
