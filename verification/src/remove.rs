//! Deletion: removing a pair and repairing nodes that fall short.

use vstd::prelude::*;
use vstd::seq_lib::lemma_flatten_concat;
use crate::insert::{put_split, split};
use crate::lookup::{lemma_on_path_holds, on_path};
use crate::node::{
    encloses_all, lemma_flatten_insert, lemma_flatten_one, lemma_flatten_skip,
    lemma_remove_within, Node, CAP, MIN,
};
use crate::region::Region;

verus! {

/// Joins two sibling subtrees into one node, the entries of `left` first.
pub fn merge<R: Region, V>(left: Node<R, V>, right: Node<R, V>, level: Ghost<nat>) -> (merged: Node<
    R,
    V,
>)
    requires
        left.wf(level@),
        right.wf(level@),
    ensures
        merged.shape(level@, (left.regions.len() + right.regions.len()) as nat),
        merged.regions.len() == left.regions.len() + right.regions.len(),
        merged.pairs(level@) == left.pairs(level@) + right.pairs(level@),
{
    let mut merged = left;
    let mut other = right;
    merged.regions.append(&mut other.regions);
    merged.values.append(&mut other.values);
    merged.children.append(&mut other.children);
    proof {
        let n = left.regions.len() as int;
        assert(merged.slot_pairs(level@) =~= left.slot_pairs(level@) + right.slot_pairs(level@));
        lemma_flatten_concat(left.slot_pairs(level@), right.slot_pairs(level@));
        if level@ > 0 {
            assert forall|i: int| 0 <= i < merged.children.len() implies {
                &&& (#[trigger] merged.children[i]).wf((level@ - 1) as nat)
                &&& merged.children[i].regions.len() >= MIN
                &&& encloses_all(merged.regions[i], merged.children[i].pairs((level@ - 1) as nat))
            } by {
                if i < n {
                    assert(merged.children[i] == left.children[i]);
                } else {
                    assert(merged.children[i] == right.children[i - n]);
                }
            }
        }
    }
    merged
}

/// Puts a subtree that may have fallen one entry short of `MIN` back into
/// its parent at `slot`. A subtree that is short is joined with the sibling
/// before it (after it, for the first slot); where the joined node would
/// overflow, it is split again so that both halves hold at least `MIN`.
pub fn restore<R: Region, V>(node: &mut Node<R, V>, slot: usize, child: Node<R, V>, level: usize)
    requires
        level > 0,
        old(node).shape(level as nat, (CAP - 1) as nat),
        old(node).regions.len() >= 1,
        slot <= old(node).regions.len(),
        child.wf((level - 1) as nat),
        child.regions.len() + 1 >= MIN,
    ensures
        final(node).wf(level as nat),
        old(node).regions.len() <= final(node).regions.len() <= old(node).regions.len() + 1,
        final(node).pairs(level as nat) == old(node).slot_pairs(level as nat).take(
            slot as int,
        ).flatten() + child.pairs((level - 1) as nat) + old(node).slot_pairs(level as nat).skip(
            slot as int,
        ).flatten(),
{
    let ghost lv = level as nat;
    let ghost below = (level - 1) as nat;
    let ghost slots = node.slot_pairs(lv);
    let ghost inner = child.pairs(below);
    let ghost limit = (CAP - 1) as nat;
    if child.regions.len() >= MIN {
        put_split(node, slot, child, None, Ghost(lv), Ghost(limit));
    } else if slot > 0 {
        let at = slot - 1;
        let sibling = node.take_child(at, Ghost(lv), Ghost(limit));
        let ghost others = node.slot_pairs(lv);
        let merged = merge(sibling, child, Ghost(below));
        let (first, second) = split(merged, level - 1);
        proof {
            assert(slots.take(slot as int) =~= others.take(at as int) + seq![slots[at as int]]);
            lemma_flatten_concat(others.take(at as int), seq![slots[at as int]]);
            lemma_flatten_one(slots[at as int]);
            assert(slots.skip(slot as int) =~= others.skip(at as int));
        }
        put_split(node, at, first, second, Ghost(lv), Ghost(limit));
    } else {
        let sibling = node.take_child(0, Ghost(lv), Ghost(limit));
        let ghost others = node.slot_pairs(lv);
        let merged = merge(child, sibling, Ghost(below));
        let (first, second) = split(merged, level - 1);
        proof {
            lemma_flatten_skip(slots, 0);
            assert(slots.skip(1) =~= others.skip(0));
            assert(slots.take(0) =~= others.take(0));
        }
        put_split(node, 0, first, second, Ghost(lv), Ghost(limit));
    }
}

/// Removes the pair with region `region`, to which `path` leads, and
/// returns its value. The top node may end one entry short; every node below
/// it is repaired.
pub fn remove_rec<R: Region, V>(
    node: &mut Node<R, V>,
    level: usize,
    region: &R,
    path: &Vec<usize>,
) -> (value: V)
    requires
        old(node).wf(level as nat),
        level > 0 ==> old(node).regions.len() >= 2,
        on_path(*old(node), level as nat, path@, *region),
    ensures
        final(node).wf(level as nat),
        final(node).regions.len() <= old(node).regions.len() <= final(node).regions.len() + 1,
        exists|k: int|
            0 <= k < old(node).pairs(level as nat).len() && old(node).pairs(level as nat)[k] == (
                *region,
                value,
            ) && final(node).pairs(level as nat) == (#[trigger] old(node).pairs(
                level as nat,
            ).remove(k)),
    decreases level,
{
    let ghost lv = level as nat;
    let ghost before = node.pairs(lv);
    let ghost slots = node.slot_pairs(lv);
    let i = path[level];
    proof {
        lemma_on_path_holds(*node, lv, path@, *region);
    }
    if level == 0 {
        let _ = node.regions.remove(i);
        let value = node.values.remove(i);
        proof {
            let others = node.slot_pairs(lv);
            let head = others.take(i as int).flatten();
            let tail = others.skip(i as int).flatten();
            assert(others =~= slots.remove(i as int));
            assert(slots =~= others.insert(i as int, slots[i as int]));
            lemma_flatten_insert(others, i as int, slots[i as int]);
            lemma_remove_within(head, slots[i as int], tail, 0);
            assert(slots[i as int].remove(0) =~= Seq::<(R, V)>::empty());
            assert(slots[i as int][0].0 == *region);
            assert(node.pairs(lv) =~= before.remove(head.len() as int));
        }
        value
    } else {
        assert(on_path(node.children[i as int], (level - 1) as nat, path@, *region));
        let mut child = node.take_child(i, Ghost(lv), Ghost(CAP as nat));
        let ghost others = node.slot_pairs(lv);
        let ghost head = others.take(i as int).flatten();
        let ghost tail = others.skip(i as int).flatten();
        let ghost inner = child.pairs((level - 1) as nat);
        let value = remove_rec(&mut child, level - 1, region, path);
        let ghost at = choose|k: int|
            0 <= k < inner.len() && inner[k] == (*region, value) && child.pairs(
                (level - 1) as nat,
            ) == (#[trigger] inner.remove(k));
        proof {
            assert(slots =~= others.insert(i as int, inner));
            lemma_flatten_insert(others, i as int, inner);
            lemma_remove_within(head, inner, tail, at);
            assert(node.shape(lv, (CAP - 1) as nat));
        }
        restore(node, i, child, level);
        proof {
            assert(node.pairs(lv) =~= before.remove(head.len() + at));
        }
        value
    }
}

} // verus!
