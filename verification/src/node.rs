//! Nodes: the slot container shared by leaves and internal nodes, its
//! mathematical model, and the lemmas about that model.

use vstd::prelude::*;
use vstd::seq_lib::lemma_flatten_concat;
use crate::region::{encloses, Region};

verus! {

/// Largest number of entries a node holds.
pub const CAP: usize = 5;

/// Smallest number of entries a node other than the root holds.
pub const MIN: usize = 3;

/// One node of the tree.
///
/// Whether a node is a leaf is not stored: a node is a leaf exactly when its
/// level (its distance above the leaves) is zero. Slot `i` of a leaf pairs
/// `regions[i]` with `values[i]`; slot `i` of an internal node pairs the
/// summary `regions[i]` with the subtree `children[i]`.
pub struct Node<R, V> {
    pub regions: Vec<R>,
    pub values: Vec<V>,
    pub children: Vec<Node<R, V>>,
}

/// Some pair of `s` has the region `r`.
pub open spec fn has_region<R, V>(s: Seq<(R, V)>, r: R) -> bool {
    exists|k: int| 0 <= k < s.len() && (#[trigger] s[k]).0 == r
}

/// `outer` encloses the region of every pair of `s`.
pub open spec fn encloses_all<R: Region, V>(outer: R, s: Seq<(R, V)>) -> bool {
    forall|k: int| 0 <= k < s.len() ==> encloses(&outer, &(#[trigger] s[k]).0)
}

impl<R: Region, V> Node<R, V> {
    /// The node is a well-formed subtree whose leaves all lie `level` levels
    /// below it: slot arrays agree in length, no node holds more than `CAP`
    /// entries, every child holds at least `MIN`, and every summary encloses
    /// all regions stored below it.
    pub open spec fn wf(&self, level: nat) -> bool
        decreases level, 3nat,
    {
        self.shape(level, CAP as nat)
    }

    /// As `wf`, but this node itself may hold up to `max` entries.
    pub open spec fn shape(&self, level: nat, max: nat) -> bool
        decreases level, 2nat,
    {
        &&& self.regions.len() <= max
        &&& if level == 0 {
            self.values.len() == self.regions.len() && self.children.len() == 0
        } else {
            &&& self.values.len() == 0
            &&& self.children.len() == self.regions.len()
            &&& forall|i: int|
                0 <= i < self.children.len() ==> {
                    &&& (#[trigger] self.children[i]).wf((level - 1) as nat)
                    &&& self.children[i].regions.len() >= MIN
                    &&& encloses_all(self.regions[i], self.children[i].pairs((level - 1) as nat))
                }
        }
    }

    /// The pairs stored under each slot, slot by slot.
    pub open spec fn slot_pairs(&self, level: nat) -> Seq<Seq<(R, V)>>
        decreases level, 0nat,
    {
        Seq::new(
            self.regions.len() as nat,
            |i: int|
                if level == 0 {
                    seq![(self.regions[i], self.values[i])]
                } else {
                    self.children[i].pairs((level - 1) as nat)
                },
        )
    }

    /// All pairs stored in this subtree, in left-to-right slot order.
    pub open spec fn pairs(&self, level: nat) -> Seq<(R, V)>
        decreases level, 1nat,
    {
        self.slot_pairs(level).flatten()
    }
}

/// Flattening from slot `i` on is slot `i` followed by the rest.
pub proof fn lemma_flatten_skip<T>(ss: Seq<Seq<T>>, i: int)
    requires
        0 <= i < ss.len(),
    ensures
        ss.skip(i).flatten() =~= ss[i] + ss.skip(i + 1).flatten(),
{
    assert(ss.skip(i).drop_first() =~= ss.skip(i + 1));
}

/// Every element of a flattened sequence comes from one of its parts.
pub proof fn lemma_flatten_member<T>(ss: Seq<Seq<T>>, k: int) -> (at: (int, int))
    requires
        0 <= k < ss.flatten().len(),
    ensures
        0 <= at.0 < ss.len(),
        0 <= at.1 < ss[at.0].len(),
        ss[at.0][at.1] == ss.flatten()[k],
    decreases ss.len(),
{
    if k < ss.first().len() {
        (0, k)
    } else {
        let rest = ss.drop_first();
        let at = lemma_flatten_member(rest, k - ss.first().len());
        (at.0 + 1, at.1)
    }
}

/// Every element of a part occurs in the flattened sequence, after the parts
/// before it.
pub proof fn lemma_flatten_part<T>(ss: Seq<Seq<T>>, j: int, m: int)
    requires
        0 <= j < ss.len(),
        0 <= m < ss[j].len(),
    ensures
        0 <= ss.take(j).flatten().len() + m < ss.flatten().len(),
        ss.flatten()[ss.take(j).flatten().len() + m] == ss[j][m],
{
    assert(ss =~= ss.take(j) + ss.skip(j));
    lemma_flatten_concat(ss.take(j), ss.skip(j));
    lemma_flatten_skip(ss, j);
}

/// Replacing the parts from `i` to `j` by `mid` replaces their flattening.
pub proof fn lemma_flatten_splice<T>(ss: Seq<Seq<T>>, i: int, j: int, mid: Seq<Seq<T>>)
    requires
        0 <= i <= j <= ss.len(),
    ensures
        ss.flatten() =~= ss.take(i).flatten() + ss.subrange(i, j).flatten() + ss.skip(j).flatten(),
        (ss.take(i) + mid + ss.skip(j)).flatten() =~= ss.take(i).flatten() + mid.flatten()
            + ss.skip(j).flatten(),
{
    assert(ss =~= ss.take(i) + ss.subrange(i, j) + ss.skip(j));
    lemma_flatten_concat(ss.take(i), ss.subrange(i, j));
    lemma_flatten_concat(ss.take(i) + ss.subrange(i, j), ss.skip(j));
    lemma_flatten_concat(ss.take(i), mid);
    lemma_flatten_concat(ss.take(i) + mid, ss.skip(j));
}

/// Flattening a single part gives that part.
pub proof fn lemma_flatten_one<T>(a: Seq<T>)
    ensures
        seq![a].flatten() =~= a,
{
    assert(seq![a].drop_first() =~= Seq::<Seq<T>>::empty());
    assert(seq![a].drop_first().flatten() =~= Seq::<T>::empty());
}

/// Flattening two parts gives the first followed by the second.
pub proof fn lemma_flatten_two<T>(a: Seq<T>, b: Seq<T>)
    ensures
        seq![a, b].flatten() =~= a + b,
{
    lemma_flatten_one(a);
    lemma_flatten_one(b);
    lemma_flatten_concat(seq![a], seq![b]);
    assert(seq![a, b] =~= seq![a] + seq![b]);
}

/// Flattening with one more part at position `i`.
pub proof fn lemma_flatten_insert<T>(ss: Seq<Seq<T>>, i: int, a: Seq<T>)
    requires
        0 <= i <= ss.len(),
    ensures
        ss.flatten() =~= ss.take(i).flatten() + ss.skip(i).flatten(),
        ss.insert(i, a).flatten() =~= ss.take(i).flatten() + a + ss.skip(i).flatten(),
{
    lemma_flatten_splice(ss, i, i, seq![a]);
    lemma_flatten_one(a);
    assert(ss.subrange(i, i) =~= Seq::<Seq<T>>::empty());
    assert(ss.subrange(i, i).flatten() =~= Seq::<T>::empty());
    assert(ss.insert(i, a) =~= ss.take(i) + seq![a] + ss.skip(i));
}

/// Flattening with two more parts at position `i`.
pub proof fn lemma_flatten_insert_two<T>(ss: Seq<Seq<T>>, i: int, a: Seq<T>, b: Seq<T>)
    requires
        0 <= i <= ss.len(),
    ensures
        ss.insert(i, b).insert(i, a).flatten() =~= ss.take(i).flatten() + (a + b) + ss.skip(
            i,
        ).flatten(),
{
    lemma_flatten_splice(ss, i, i, seq![a, b]);
    lemma_flatten_two(a, b);
    assert(ss.insert(i, b).insert(i, a) =~= ss.take(i) + seq![a, b] + ss.skip(i));
}

/// Inserting into the middle one of three concatenated sequences.
pub proof fn lemma_insert_within<T>(head: Seq<T>, mid: Seq<T>, tail: Seq<T>, k: int, x: T)
    requires
        0 <= k <= mid.len(),
    ensures
        head + mid.insert(k, x) + tail =~= (head + mid + tail).insert(head.len() + k, x),
{
}

/// Removing from the middle one of three concatenated sequences.
pub proof fn lemma_remove_within<T>(head: Seq<T>, mid: Seq<T>, tail: Seq<T>, k: int)
    requires
        0 <= k < mid.len(),
    ensures
        head + mid.remove(k) + tail =~= (head + mid + tail).remove(head.len() + k),
        (head + mid + tail)[head.len() + k] == mid[k],
{
}

/// Replacing within the middle one of three concatenated sequences.
pub proof fn lemma_update_within<T>(head: Seq<T>, mid: Seq<T>, tail: Seq<T>, k: int, x: T)
    requires
        0 <= k < mid.len(),
    ensures
        head + mid.update(k, x) + tail =~= (head + mid + tail).update(head.len() + k, x),
        (head + mid + tail)[head.len() + k] == mid[k],
{
}

/// Enclosure is transitive.
pub proof fn lemma_encloses_trans<R: Region>(a: &R, b: &R, c: &R)
    requires
        encloses(a, b),
        encloses(b, c),
    ensures
        encloses(a, c),
{
}

impl<R: Region, V> Node<R, V> {
    /// A region that encloses every slot region of a well-formed node
    /// encloses every region stored in the subtree.
    pub proof fn lemma_encloses_subtree(&self, level: nat, outer: R)
        requires
            self.wf(level),
            forall|j: int| 0 <= j < self.regions.len() ==> encloses(&outer, &#[trigger] self.regions[j]),
        ensures
            encloses_all(outer, self.pairs(level)),
    {
        let ss = self.slot_pairs(level);
        assert forall|k: int| 0 <= k < self.pairs(level).len() implies encloses(
            &outer,
            &(#[trigger] self.pairs(level)[k]).0,
        ) by {
            let at = lemma_flatten_member(ss, k);
            assert(encloses(&outer, &self.regions[at.0]));
            if level > 0 {
                let child = self.children[at.0];
                assert(child.wf((level - 1) as nat));
                let p = child.pairs((level - 1) as nat)[at.1];
                assert(encloses(&self.regions[at.0], &p.0));
                lemma_encloses_trans(&outer, &self.regions[at.0], &p.0);
            }
        }
    }

    /// A subtree of `level` levels whose top node holds two entries, or one
    /// where it is a leaf, stores more than `level` pairs.
    pub proof fn lemma_pairs_len(&self, level: nat)
        requires
            self.wf(level),
            self.regions.len() >= 1,
            level > 0 ==> self.regions.len() >= 2,
        ensures
            self.pairs(level).len() >= level + 1,
        decreases level,
    {
        let slots = self.slot_pairs(level);
        assert(slots.skip(0) =~= slots);
        lemma_flatten_skip(slots, 0);
        if level > 0 {
            lemma_flatten_skip(slots, 1);
            assert(self.children[0].wf((level - 1) as nat));
            assert(self.children[1].wf((level - 1) as nat));
            self.children[0].lemma_pairs_len((level - 1) as nat);
            self.children[1].lemma_pairs_len((level - 1) as nat);
        }
    }

    /// What a pruned traversal has left to do from slot `i` on: one step per
    /// slot, and for an internal node the work below each slot.
    pub open spec fn weight_from(&self, level: nat, i: nat) -> nat
        decreases level, self.regions.len() - i,
    {
        if i >= self.regions.len() {
            0
        } else {
            let below: nat = if level > 0 {
                1 + self.children[i as int].weight_from((level - 1) as nat, 0)
            } else {
                0
            };
            1 + below + self.weight_from(level, i + 1)
        }
    }

    /// Takes slot `slot`, summary and subtree, out of an internal node.
    pub fn take_child(&mut self, slot: usize, level: Ghost<nat>, max: Ghost<nat>) -> (child: Node<
        R,
        V,
    >)
        requires
            level@ > 0,
            old(self).shape(level@, max@),
            slot < old(self).regions.len(),
        ensures
            final(self).shape(level@, max@),
            final(self).regions.len() == old(self).regions.len() - 1,
            final(self).slot_pairs(level@) == old(self).slot_pairs(level@).remove(slot as int),
            child == old(self).children[slot as int],
            child.wf((level@ - 1) as nat),
            child.regions.len() >= MIN,
            child.pairs((level@ - 1) as nat) == old(self).slot_pairs(level@)[slot as int],
    {
        let ghost before = *self;
        let _ = self.regions.remove(slot);
        let child = self.children.remove(slot);
        proof {
            assert(before.children[slot as int] == child);
            assert forall|i: int| 0 <= i < self.children.len() implies {
                &&& (#[trigger] self.children[i]).wf((level@ - 1) as nat)
                &&& self.children[i].regions.len() >= MIN
                &&& encloses_all(self.regions[i], self.children[i].pairs((level@ - 1) as nat))
            } by {
                if i < slot {
                    assert(self.children[i] == before.children[i]);
                } else {
                    assert(self.children[i] == before.children[i + 1]);
                }
            }
            assert(self.slot_pairs(level@) =~= before.slot_pairs(level@).remove(slot as int));
        }
        child
    }

    /// Puts a subtree into an internal node as slot `slot`, under a freshly
    /// computed summary.
    pub fn put_child(&mut self, slot: usize, child: Node<R, V>, level: Ghost<nat>, max: Ghost<nat>)
        requires
            level@ > 0,
            old(self).shape(level@, max@),
            slot <= old(self).regions.len(),
            child.wf((level@ - 1) as nat),
            child.regions.len() >= MIN,
        ensures
            final(self).shape(level@, max@ + 1),
            final(self).regions.len() == old(self).regions.len() + 1,
            final(self).slot_pairs(level@) == old(self).slot_pairs(level@).insert(
                slot as int,
                child.pairs((level@ - 1) as nat),
            ),
    {
        let ghost before = *self;
        let cover = child.summary(Ghost((level@ - 1) as nat));
        self.regions.insert(slot, cover);
        self.children.insert(slot, child);
        proof {
            assert forall|i: int| 0 <= i < self.children.len() implies {
                &&& (#[trigger] self.children[i]).wf((level@ - 1) as nat)
                &&& self.children[i].regions.len() >= MIN
                &&& encloses_all(self.regions[i], self.children[i].pairs((level@ - 1) as nat))
            } by {
                if i < slot {
                    assert(self.children[i] == before.children[i]);
                } else if i > slot {
                    assert(self.children[i] == before.children[i - 1]);
                }
            }
            assert(self.slot_pairs(level@) =~= before.slot_pairs(level@).insert(
                slot as int,
                child.pairs((level@ - 1) as nat),
            ));
        }
    }

    /// A region enclosing every slot region of this node.
    pub fn summary(&self, level: Ghost<nat>) -> (cover: R)
        requires
            self.wf(level@),
            self.regions.len() >= 1,
        ensures
            encloses_all(cover, self.pairs(level@)),
    {
        let mut cover = self.regions[0].cover_of(&self.regions[0]);
        let mut i: usize = 1;
        while i < self.regions.len()
            invariant
                1 <= i <= self.regions.len(),
                forall|j: int| 0 <= j < i ==> encloses(&cover, &#[trigger] self.regions[j]),
            decreases self.regions.len() - i,
        {
            let ghost prev = cover;
            cover = cover.cover_of(&self.regions[i]);
            proof {
                assert forall|j: int| 0 <= j < i + 1 implies encloses(
                    &cover,
                    &#[trigger] self.regions[j],
                ) by {
                    if j < i {
                        lemma_encloses_trans(&cover, &prev, &self.regions[j]);
                    }
                }
            }
            i += 1;
        }
        proof {
            self.lemma_encloses_subtree(level@, cover);
        }
        cover
    }
}

} // verus!
