//! Insertion: subtree selection, leaf insertion and overflow splits.

use vstd::prelude::*;
use vstd::seq_lib::lemma_flatten_concat;
use crate::lookup::{lemma_on_path_holds, on_path};
use crate::node::{
    lemma_flatten_insert, lemma_flatten_insert_two, lemma_flatten_one, lemma_insert_within,
    lemma_update_within, Node, CAP, MIN,
};
use crate::region::Region;

verus! {

/// The pairs of a node followed by those of its new right sibling, if any.
pub open spec fn joined<R: Region, V>(
    left: Node<R, V>,
    right: Option<Node<R, V>>,
    level: nat,
) -> Seq<(R, V)> {
    match right {
        Some(node) => left.pairs(level) + node.pairs(level),
        None => left.pairs(level),
    }
}

/// Splits a node that holds more than `CAP` entries into two siblings, the
/// first with the first `MIN` entries; any other node is handed back as it is.
pub fn split<R: Region, V>(node: Node<R, V>, level: usize) -> (out: (Node<R, V>, Option<Node<R, V>>))
    requires
        node.shape(level as nat, (CAP + MIN) as nat),
    ensures
        out.0.wf(level as nat),
        node.regions.len() <= CAP ==> out.1 is None && out.0 == node,
        node.regions.len() > CAP ==> out.1 is Some && out.0.regions.len() == MIN
            && out.1.unwrap().regions.len() == node.regions.len() - MIN && out.1.unwrap().wf(
            level as nat,
        ),
        joined(out.0, out.1, level as nat) == node.pairs(level as nat),
{
    if node.regions.len() <= CAP {
        return (node, None);
    }
    let ghost before = node;
    let mut left = node;
    let regions = left.regions.split_off(MIN);
    let mut right = Node { regions, values: Vec::new(), children: Vec::new() };
    if level == 0 {
        right.values = left.values.split_off(MIN);
    } else {
        right.children = left.children.split_off(MIN);
    }
    proof {
        let all = before.slot_pairs(level as nat);
        assert(left.slot_pairs(level as nat) =~= all.take(MIN as int));
        assert(right.slot_pairs(level as nat) =~= all.skip(MIN as int));
        assert(all =~= all.take(MIN as int) + all.skip(MIN as int));
        lemma_flatten_concat(all.take(MIN as int), all.skip(MIN as int));
        if level > 0 {
            assert forall|i: int| 0 <= i < right.children.len() implies {
                &&& (#[trigger] right.children[i]).wf((level - 1) as nat)
                &&& right.children[i].regions.len() >= MIN
                &&& crate::node::encloses_all(
                    right.regions[i],
                    right.children[i].pairs((level - 1) as nat),
                )
            } by {
                assert(right.children[i] == before.children[i + MIN]);
            }
            assert forall|i: int| 0 <= i < left.children.len() implies {
                &&& (#[trigger] left.children[i]).wf((level - 1) as nat)
                &&& left.children[i].regions.len() >= MIN
                &&& crate::node::encloses_all(
                    left.regions[i],
                    left.children[i].pairs((level - 1) as nat),
                )
            } by {
                assert(left.children[i] == before.children[i]);
            }
        }
    }
    (left, Some(right))
}

/// The slot to descend into: the first whose summary already overlaps
/// `region`, or the first slot when none does.
pub fn choose_slot<R: Region, V>(node: &Node<R, V>, region: &R) -> (slot: usize)
    requires
        node.regions.len() >= 1,
    ensures
        slot < node.regions.len(),
        node.regions[slot as int].overlaps(region) || (slot == 0 && forall|j: int|
            0 <= j < node.regions.len() ==> !(#[trigger] node.regions[j]).overlaps(region)),
        forall|j: int| 0 <= j < slot ==> !(#[trigger] node.regions[j]).overlaps(region),
{
    let mut i: usize = 0;
    while i < node.regions.len()
        invariant
            i <= node.regions.len(),
            forall|j: int| 0 <= j < i ==> !(#[trigger] node.regions[j]).overlaps(region),
        decreases node.regions.len() - i,
    {
        if node.regions[i].collapses_with(region) {
            return i;
        }
        i += 1;
    }
    0
}

/// Puts one subtree, or two adjacent ones, into an internal node at `slot`.
pub fn put_split<R: Region, V>(
    node: &mut Node<R, V>,
    slot: usize,
    first: Node<R, V>,
    second: Option<Node<R, V>>,
    level: Ghost<nat>,
    max: Ghost<nat>,
)
    requires
        level@ > 0,
        old(node).shape(level@, max@),
        slot <= old(node).regions.len(),
        first.wf((level@ - 1) as nat),
        first.regions.len() >= MIN,
        second matches Some(right) ==> right.wf((level@ - 1) as nat) && right.regions.len() >= MIN,
    ensures
        final(node).shape(level@, max@ + 2),
        final(node).regions.len() == old(node).regions.len() + if second is Some {
            2int
        } else {
            1int
        },
        final(node).pairs(level@) == old(node).slot_pairs(level@).take(slot as int).flatten()
            + joined(first, second, (level@ - 1) as nat) + old(node).slot_pairs(level@).skip(
            slot as int,
        ).flatten(),
{
    let ghost slots = node.slot_pairs(level@);
    let ghost below = (level@ - 1) as nat;
    match second {
        Some(right) => {
            proof {
                lemma_flatten_insert_two(slots, slot as int, first.pairs(below), right.pairs(below));
            }
            node.put_child(slot, right, level, max);
            node.put_child(slot, first, level, Ghost(max@ + 1));
        },
        None => {
            proof {
                lemma_flatten_insert(slots, slot as int, first.pairs(below));
            }
            node.put_child(slot, first, level, max);
        },
    }
}

/// Adds the pair to the subtree, splitting nodes that overflow on the way
/// back up. Returns the subtree and, where its top node was split, the new
/// right sibling of that node.
pub fn insert_rec<R: Region, V>(node: Node<R, V>, level: usize, region: R, value: V) -> (out: (
    Node<R, V>,
    Option<Node<R, V>>,
))
    requires
        node.wf(level as nat),
        level > 0 ==> node.regions.len() >= 1,
    ensures
        out.0.wf(level as nat),
        match out.1 {
            Some(right) => right.wf(level as nat) && out.0.regions.len() >= MIN
                && right.regions.len() >= MIN && node.regions.len() == CAP,
            None => out.0.regions.len() >= node.regions.len() && out.0.regions.len() >= 1,
        },
        exists|k: int|
            0 <= k <= node.pairs(level as nat).len() && joined(out.0, out.1, level as nat) == (
            #[trigger] node.pairs(level as nat).insert(k, (region, value))),
    decreases level,
{
    let ghost before = node;
    let ghost pair = (region, value);
    let ghost old_slots = node.slot_pairs(level as nat);
    let mut node = node;
    if level == 0 {
        node.regions.push(region);
        node.values.push(value);
        proof {
            assert(node.slot_pairs(0) =~= old_slots + seq![seq![pair]]);
            lemma_flatten_concat(old_slots, seq![seq![pair]]);
            lemma_flatten_one(seq![pair]);
            assert(node.pairs(0) =~= before.pairs(0).insert(before.pairs(0).len() as int, pair));
        }
        split(node, level)
    } else {
        let i = choose_slot(&node, &region);
        let ghost below = (level - 1) as nat;
        let ghost lv = level as nat;
        let child = node.take_child(i, Ghost(lv), Ghost(CAP as nat));
        let ghost rest = node.slot_pairs(lv);
        let ghost head = rest.take(i as int).flatten();
        let ghost tail = rest.skip(i as int).flatten();
        let ghost inner = child.pairs(below);
        proof {
            assert(old_slots =~= rest.insert(i as int, inner));
            lemma_flatten_insert(rest, i as int, inner);
        }
        let (first, second) = insert_rec(child, level - 1, region, value);
        let ghost at = choose|k: int|
            0 <= k <= inner.len() && joined(first, second, below) == (#[trigger] inner.insert(
                k,
                pair,
            ));
        proof {
            lemma_insert_within(head, inner, tail, at, pair);
        }
        put_split(&mut node, i, first, second, Ghost(lv), Ghost(CAP as nat));
        assert(node.pairs(lv) == before.pairs(lv).insert(head.len() + at, pair));
        split(node, level)
    }
}

/// Gives the pair with region `region`, to which `path` leads, the value
/// `value`, and returns the value it had. The pair keeps its place.
pub fn replace_rec<R: Region, V>(
    node: &mut Node<R, V>,
    level: usize,
    region: &R,
    value: V,
    path: &Vec<usize>,
) -> (prior: V)
    requires
        old(node).wf(level as nat),
        on_path(*old(node), level as nat, path@, *region),
    ensures
        final(node).wf(level as nat),
        final(node).regions.len() == old(node).regions.len(),
        exists|k: int|
            0 <= k < old(node).pairs(level as nat).len() && old(node).pairs(level as nat)[k] == (
                *region,
                prior,
            ) && final(node).pairs(level as nat) == (#[trigger] old(node).pairs(
                level as nat,
            ).update(k, (*region, value))),
    decreases level,
{
    let ghost lv = level as nat;
    let ghost before = node.pairs(lv);
    let ghost slots = node.slot_pairs(lv);
    let i = path[level];
    proof {
        lemma_on_path_holds(*node, lv, path@, *region);
    }
    let ghost others = slots.remove(i as int);
    let ghost head = others.take(i as int).flatten();
    let ghost tail = others.skip(i as int).flatten();
    let ghost inner = slots[i as int];
    proof {
        assert(slots =~= others.insert(i as int, inner));
        lemma_flatten_insert(others, i as int, inner);
    }
    if level == 0 {
        node.values.push(value);
        let prior = node.values.swap_remove(i);
        proof {
            let fresh = seq![(*region, value)];
            assert(inner[0].0 == *region);
            assert(node.slot_pairs(lv) =~= others.insert(i as int, fresh));
            lemma_flatten_insert(others, i as int, fresh);
            lemma_update_within(head, inner, tail, 0, (*region, value));
            assert(inner.update(0, (*region, value)) =~= fresh);
            assert(node.pairs(lv) =~= before.update(head.len() as int, (*region, value)));
        }
        prior
    } else {
        assert(on_path(node.children[i as int], (level - 1) as nat, path@, *region));
        let mut child = node.take_child(i, Ghost(lv), Ghost(CAP as nat));
        let prior = replace_rec(&mut child, level - 1, region, value, path);
        let ghost at = choose|k: int|
            0 <= k < inner.len() && inner[k] == (*region, prior) && child.pairs(
                (level - 1) as nat,
            ) == (#[trigger] inner.update(k, (*region, value)));
        proof {
            lemma_flatten_insert(others, i as int, child.pairs((level - 1) as nat));
            lemma_update_within(head, inner, tail, at, (*region, value));
        }
        node.put_child(i, child, Ghost(lv), Ghost(CAP as nat));
        proof {
            assert(node.pairs(lv) =~= before.update(head.len() + at, (*region, value)));
        }
        prior
    }
}

} // verus!
