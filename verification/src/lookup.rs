//! Lookup: deciding whether, and along which path of slots, a region is stored.

use vstd::prelude::*;
use crate::node::{encloses_all, has_region, lemma_flatten_member, lemma_flatten_part, Node};
use crate::region::{encloses, Region};

verus! {

/// A subtree whose summary does not overlap `region` does not store it.
pub proof fn lemma_pruned<R: Region, V>(summary: R, s: Seq<(R, V)>, region: R)
    requires
        encloses_all(summary, s),
        !summary.overlaps(&region),
    ensures
        !has_region(s, region),
{
    if has_region(s, region) {
        let k = choose|k: int| 0 <= k < s.len() && (#[trigger] s[k]).0 == region;
        region.overlaps_reflexive();
        assert(s[k].0.overlaps(&region));
        assert(encloses(&summary, &s[k].0));
    }
}

/// A region that no slot stores is not stored at all.
pub proof fn lemma_no_slot_holds<R, V>(slots: Seq<Seq<(R, V)>>, region: R)
    requires
        forall|j: int| 0 <= j < slots.len() ==> !has_region(#[trigger] slots[j], region),
    ensures
        !has_region(slots.flatten(), region),
{
    if has_region(slots.flatten(), region) {
        let k = choose|k: int|
            0 <= k < slots.flatten().len() && (#[trigger] slots.flatten()[k]).0 == region;
        let at = lemma_flatten_member(slots, k);
        assert(slots[at.0][at.1].0 == region);
        assert(has_region(slots[at.0], region));
    }
}

/// A region that some slot stores is stored.
pub proof fn lemma_slot_holds<R, V>(slots: Seq<Seq<(R, V)>>, j: int, region: R)
    requires
        0 <= j < slots.len(),
        has_region(slots[j], region),
    ensures
        has_region(slots.flatten(), region),
{
    let m = choose|m: int| 0 <= m < slots[j].len() && (#[trigger] slots[j][m]).0 == region;
    lemma_flatten_part(slots, j, m);
    let k = slots.take(j).flatten().len() + m;
    assert(slots.flatten()[k].0 == region);
}

/// `path` names, for each level from this node down to the leaves, the slot
/// that leads to the pair stored under `region`. The entry for a node `level`
/// levels above the leaves is `path[level]`.
pub open spec fn on_path<R: Region, V>(node: Node<R, V>, level: nat, path: Seq<usize>, region: R) -> bool
    decreases level,
{
    &&& path.len() > level
    &&& path[level as int] < node.regions.len()
    &&& if level == 0 {
        node.regions[path[0] as int] == region
    } else {
        on_path(node.children[path[level as int] as int], (level - 1) as nat, path, region)
    }
}

/// A path stays a path when an entry for a higher level is added.
pub proof fn lemma_on_path_push<R: Region, V>(
    node: Node<R, V>,
    level: nat,
    path: Seq<usize>,
    region: R,
    slot: usize,
)
    requires
        on_path(node, level, path, region),
    ensures
        on_path(node, level, path.push(slot), region),
    decreases level,
{
    if level > 0 {
        lemma_on_path_push(
            node.children[path[level as int] as int],
            (level - 1) as nat,
            path,
            region,
            slot,
        );
    }
}

/// The slot that a path names at the top stores the region.
pub proof fn lemma_on_path_holds<R: Region, V>(
    node: Node<R, V>,
    level: nat,
    path: Seq<usize>,
    region: R,
)
    requires
        node.wf(level),
        on_path(node, level, path, region),
    ensures
        has_region(node.slot_pairs(level)[path[level as int] as int], region),
        has_region(node.pairs(level), region),
    decreases level,
{
    let slot = path[level as int] as int;
    let inner = node.slot_pairs(level)[slot];
    if level == 0 {
        assert(inner[0].0 == region);
    } else {
        assert(node.children[slot].wf((level - 1) as nat));
        lemma_on_path_holds(node.children[slot], (level - 1) as nat, path, region);
    }
    lemma_slot_holds(node.slot_pairs(level), slot, region);
}

/// Looks for the pair stored under `region`, entering a subtree only where
/// its summary overlaps `region`. Where the pair is found, `path` holds the
/// slots that lead to it.
pub fn locate<R: Region, V>(node: &Node<R, V>, level: usize, region: &R, path: &mut Vec<usize>) -> (found:
    bool)
    requires
        node.wf(level as nat),
        old(path).len() == 0,
    ensures
        found == has_region(node.pairs(level as nat), *region),
        found ==> final(path).len() == level + 1 && on_path(
            *node,
            level as nat,
            final(path)@,
            *region,
        ),
        !found ==> final(path).len() == 0,
    decreases level,
{
    let ghost slots = node.slot_pairs(level as nat);
    let mut i: usize = 0;
    while i < node.regions.len()
        invariant
            i <= node.regions.len(),
            node.wf(level as nat),
            slots == node.slot_pairs(level as nat),
            path.len() == 0,
            forall|j: int| 0 <= j < i ==> !has_region(#[trigger] slots[j], *region),
        decreases node.regions.len() - i,
    {
        let ghost inner = slots[i as int];
        if level == 0 {
            assert(inner =~= seq![(node.regions[i as int], node.values[i as int])]);
            if node.regions[i].same_as(region) {
                path.push(i);
                proof {
                    assert(inner[0].0 == *region);
                    lemma_slot_holds(slots, i as int, *region);
                }
                return true;
            }
        } else {
            assert(node.children[i as int].wf((level - 1) as nat));
            if node.regions[i].collapses_with(region) {
                if locate(&node.children[i], level - 1, region, path) {
                    proof {
                        lemma_on_path_push(
                            node.children[i as int],
                            (level - 1) as nat,
                            path@,
                            *region,
                            i,
                        );
                        lemma_slot_holds(slots, i as int, *region);
                    }
                    path.push(i);
                    return true;
                }
            } else {
                proof {
                    lemma_pruned(node.regions[i as int], inner, *region);
                }
            }
        }
        i += 1;
    }
    proof {
        lemma_no_slot_holds(slots, *region);
    }
    false
}

} // verus!
