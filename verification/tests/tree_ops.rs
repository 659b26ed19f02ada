use region_tree::node::{Node, CAP, MIN};
use region_tree::{Region, Tree};

/// A closed axis-aligned rectangle: (x_min, y_min, x_max, y_max).
#[derive(Debug, Clone, Copy, PartialEq, Eq)]
struct Rect(i64, i64, i64, i64);

impl Region for Rect {
    fn overlaps(&self, other: &Self) -> bool {
        self.collapses_with(other)
    }

    fn overlaps_reflexive(&self) {}

    fn collapses_with(&self, other: &Self) -> bool {
        self.0 <= other.2 && other.0 <= self.2 && self.1 <= other.3 && other.1 <= self.3
    }

    fn same_as(&self, other: &Self) -> bool {
        self == other
    }

    fn cover_of(&self, other: &Self) -> Self {
        Rect(
            self.0.min(other.0),
            self.1.min(other.1),
            self.2.max(other.2),
            self.3.max(other.3),
        )
    }
}

fn all_pairs(tree: &Tree<Rect, u32>) -> Vec<(Rect, u32)> {
    let mut out = Vec::new();
    let mut it = tree.iter();
    while let Some((region, value)) = it.next() {
        out.push((*region, *value));
    }
    out
}

fn found_pairs(tree: &Tree<Rect, u32>, query: &Rect) -> Vec<(Rect, u32)> {
    let mut out = Vec::new();
    let mut found = tree.search(query);
    while let Some((region, value)) = found.next() {
        out.push((*region, *value));
    }
    out
}

/// Checks one subtree: leaf depth, occupancy and summaries. Returns the
/// bounding box of what it stores.
fn check_node(node: &Node<Rect, u32>, level: usize, is_root: bool) -> Rect {
    assert!(node.regions.len() <= CAP);
    assert!(node.regions.len() >= 1);
    if !is_root {
        assert!(node.regions.len() >= MIN);
    }
    if level == 0 {
        assert_eq!(node.values.len(), node.regions.len());
        assert!(node.children.is_empty());
        let mut bound = node.regions[0];
        for region in node.regions.iter() {
            bound = bound.cover_of(region);
        }
        bound
    } else {
        assert!(node.values.is_empty());
        assert_eq!(node.children.len(), node.regions.len());
        assert!(node.regions.len() >= 2);
        let mut bound = node.regions[0];
        for (summary, child) in node.regions.iter().zip(node.children.iter()) {
            let inner = check_node(child, level - 1, false);
            assert_eq!(summary.cover_of(&inner), *summary);
            bound = bound.cover_of(summary);
        }
        bound
    }
}

fn check_tree(tree: &Tree<Rect, u32>) {
    match &tree.root {
        Some(node) => {
            check_node(node, tree.height(), true);
        }
        None => {
            assert_eq!(tree.len(), 0);
            assert_eq!(tree.height(), 0);
        }
    }
    assert_eq!(all_pairs(tree).len(), tree.len());
}

fn cell(i: u32) -> Rect {
    let x = ((i * 37) % 101) as i64;
    let y = ((i * 53) % 97) as i64;
    Rect(x, y, x + 2, y + 3)
}

#[test]
fn new_tree_is_empty() {
    let tree: Tree<Rect, u32> = Tree::new();
    assert_eq!(tree.len(), 0);
    assert!(tree.is_empty());
    assert_eq!(tree.height(), 0);
    assert!(tree.root.is_none());
    assert!(all_pairs(&tree).is_empty());
    assert!(found_pairs(&tree, &Rect(0, 0, 10, 10)).is_empty());
}

#[test]
fn three_pairs_in_one_leaf() {
    let a = Rect(0, 0, 1, 1);
    let b = Rect(5, 5, 6, 6);
    let c = Rect(2, 2, 3, 3);
    let mut tree: Tree<Rect, u32> = Tree::new();
    assert_eq!(tree.insert(a, 1), None);
    assert_eq!(tree.insert(b, 2), None);
    assert_eq!(tree.insert(c, 3), None);
    assert_eq!(tree.len(), 3);
    assert!(!tree.is_empty());
    assert_eq!(tree.height(), 0);
    assert_eq!(all_pairs(&tree), vec![(a, 1), (b, 2), (c, 3)]);
    assert_eq!(found_pairs(&tree, &Rect(0, 0, 2, 2)), vec![(a, 1), (c, 3)]);
    check_tree(&tree);
}

#[test]
fn overflow_splits_once_and_underflow_merges_back() {
    let mut tree: Tree<Rect, u32> = Tree::new();
    for i in 0..CAP as u32 {
        assert_eq!(tree.insert(Rect(i as i64 * 10, 0, i as i64 * 10 + 1, 1), i), None);
        assert_eq!(tree.height(), 0);
    }
    assert_eq!(tree.insert(Rect(50, 0, 51, 1), 5), None);
    assert_eq!(tree.height(), 1);
    assert_eq!(tree.len(), CAP + 1);
    {
        let root = tree.root.as_ref().unwrap();
        assert_eq!(root.regions.len(), 2);
        assert_eq!(root.children[0].regions.len(), 3);
        assert_eq!(root.children[1].regions.len(), 3);
        assert_eq!(root.regions[0], Rect(0, 0, 21, 1));
        assert_eq!(root.regions[1], Rect(30, 0, 51, 1));
    }
    let expected: Vec<(Rect, u32)> =
        (0..6u32).map(|i| (Rect(i as i64 * 10, 0, i as i64 * 10 + 1, 1), i)).collect();
    assert_eq!(all_pairs(&tree), expected);
    check_tree(&tree);

    assert_eq!(tree.remove(&Rect(10, 0, 11, 1)), Some(1));
    assert_eq!(tree.height(), 0);
    assert_eq!(tree.len(), CAP);
    assert_eq!(tree.root.as_ref().unwrap().regions.len(), 5);
    let mut left = expected.clone();
    left.remove(1);
    assert_eq!(all_pairs(&tree), left);
    check_tree(&tree);
}

#[test]
fn underflow_borrows_from_a_fuller_sibling() {
    let mut tree: Tree<Rect, u32> = Tree::new();
    for i in 0..6u32 {
        tree.insert(Rect(i as i64 * 10, 0, i as i64 * 10 + 1, 1), i);
    }
    // lands in the second leaf, whose summary it overlaps
    assert_eq!(tree.insert(Rect(45, 0, 46, 1), 6), None);
    {
        let root = tree.root.as_ref().unwrap();
        assert_eq!(root.children[0].regions.len(), 3);
        assert_eq!(root.children[1].regions.len(), 4);
    }
    assert_eq!(tree.remove(&Rect(0, 0, 1, 1)), Some(0));
    assert_eq!(tree.height(), 1);
    {
        let root = tree.root.as_ref().unwrap();
        assert_eq!(root.regions.len(), 2);
        assert_eq!(root.children[0].regions.len(), 3);
        assert_eq!(root.children[1].regions.len(), 3);
        assert_eq!(root.regions[0], Rect(10, 0, 31, 1));
        assert_eq!(root.regions[1], Rect(40, 0, 51, 1));
    }
    assert_eq!(
        all_pairs(&tree),
        vec![
            (Rect(10, 0, 11, 1), 1),
            (Rect(20, 0, 21, 1), 2),
            (Rect(30, 0, 31, 1), 3),
            (Rect(40, 0, 41, 1), 4),
            (Rect(50, 0, 51, 1), 5),
            (Rect(45, 0, 46, 1), 6),
        ]
    );
    check_tree(&tree);
}

#[test]
fn insert_of_an_equal_region_replaces_the_value() {
    let mut tree: Tree<Rect, u32> = Tree::new();
    let mut inserts = 0usize;
    let mut replaced = 0usize;
    for i in 0..40u32 {
        let previous = tree.insert(cell(i % 25), i);
        inserts += 1;
        if i < 25 {
            assert_eq!(previous, None);
        } else {
            assert_eq!(previous, Some(i - 25));
            replaced += 1;
        }
        assert_eq!(tree.len(), inserts - replaced);
    }
    assert_eq!(tree.len(), 25);
    let pairs = all_pairs(&tree);
    for i in 0..25u32 {
        let expected = if i < 15 { i + 25 } else { i };
        assert_eq!(pairs.iter().filter(|p| p.0 == cell(i)).count(), 1);
        assert!(pairs.contains(&(cell(i), expected)));
    }
    check_tree(&tree);
}

#[test]
fn replacing_keeps_the_place_of_the_pair() {
    let mut tree: Tree<Rect, u32> = Tree::new();
    for i in 0..20u32 {
        tree.insert(cell(i), i);
    }
    let before = all_pairs(&tree);
    let height = tree.height();
    assert_eq!(tree.insert(cell(7), 700), Some(7));
    let after = all_pairs(&tree);
    assert_eq!(tree.height(), height);
    assert_eq!(after.len(), before.len());
    for (old, new) in before.iter().zip(after.iter()) {
        assert_eq!(old.0, new.0);
        if old.0 == cell(7) {
            assert_eq!(new.1, 700);
        } else {
            assert_eq!(old.1, new.1);
        }
    }
}

#[test]
fn search_is_the_filtered_traversal() {
    let mut tree: Tree<Rect, u32> = Tree::new();
    for i in 0..200u32 {
        assert_eq!(tree.insert(cell(i), i), None);
    }
    assert_eq!(tree.len(), 200);
    assert!(tree.height() >= 2);
    check_tree(&tree);
    let pairs = all_pairs(&tree);
    assert_eq!(pairs.len(), 200);
    for i in 0..200u32 {
        assert_eq!(pairs.iter().filter(|p| *p == &(cell(i), i)).count(), 1);
    }
    let queries = [
        Rect(0, 0, 10, 10),
        Rect(40, 40, 60, 60),
        Rect(-5, -5, -1, -1),
        Rect(0, 0, 200, 200),
        Rect(99, 0, 99, 200),
        Rect(13, 17, 13, 17),
    ];
    for query in queries.iter() {
        let expected: Vec<(Rect, u32)> =
            pairs.iter().filter(|p| p.0.collapses_with(query)).cloned().collect();
        assert_eq!(found_pairs(&tree, query), expected);
    }
    assert!(found_pairs(&tree, &Rect(-5, -5, -1, -1)).is_empty());
    assert_eq!(found_pairs(&tree, &Rect(0, 0, 200, 200)), pairs);
}

#[test]
fn queries_do_not_change_what_is_observed() {
    let mut tree: Tree<Rect, u32> = Tree::new();
    for i in 0..60u32 {
        tree.insert(cell(i), i);
    }
    let query = Rect(20, 20, 70, 70);
    let first = all_pairs(&tree);
    let hits = found_pairs(&tree, &query);
    assert_eq!(tree.len(), 60);
    assert_eq!(all_pairs(&tree), first);
    assert_eq!(found_pairs(&tree, &query), hits);
    assert_eq!(all_pairs(&tree), first);
    assert_eq!(tree.len(), 60);
}

#[test]
fn inserted_pair_is_found_and_removed_pair_is_not() {
    let mut tree: Tree<Rect, u32> = Tree::new();
    for i in 0..30u32 {
        tree.insert(cell(i), i);
    }
    let key = Rect(300, 300, 301, 301);
    assert_eq!(tree.insert(key, 99), None);
    assert_eq!(found_pairs(&tree, &key), vec![(key, 99)]);
    assert_eq!(tree.remove(&key), Some(99));
    assert!(found_pairs(&tree, &key).is_empty());
    assert_eq!(tree.remove(&key), None);
    assert_eq!(tree.len(), 30);
}

#[test]
fn remove_of_an_absent_region_changes_nothing() {
    let mut tree: Tree<Rect, u32> = Tree::new();
    assert_eq!(tree.remove(&Rect(0, 0, 1, 1)), None);
    for i in 0..12u32 {
        tree.insert(cell(i), i);
    }
    let before = all_pairs(&tree);
    let height = tree.height();
    // overlaps stored regions but equals none of them
    assert_eq!(tree.remove(&Rect(0, 0, 200, 200)), None);
    assert_eq!(all_pairs(&tree), before);
    assert_eq!(tree.height(), height);
    assert_eq!(tree.len(), 12);
}

#[test]
fn removing_everything_empties_the_tree() {
    let mut tree: Tree<Rect, u32> = Tree::new();
    for i in 0..150u32 {
        tree.insert(cell(i), i);
    }
    let mut expected = all_pairs(&tree);
    for step in 0..150u32 {
        let i = (step * 7) % 150;
        assert_eq!(tree.remove(&cell(i)), Some(i));
        expected.retain(|p| p.1 != i);
        assert_eq!(tree.len(), expected.len());
        assert_eq!(all_pairs(&tree), expected);
        check_tree(&tree);
    }
    assert!(tree.is_empty());
    assert_eq!(tree.height(), 0);
    assert!(tree.root.is_none());
}

#[test]
fn mixed_inserts_and_removes_keep_the_tree_balanced() {
    let mut tree: Tree<Rect, u32> = Tree::new();
    let mut model: Vec<(Rect, u32)> = Vec::new();
    for step in 0..400u32 {
        let i = (step * 31) % 90;
        if step % 3 == 2 {
            let expected = model.iter().find(|p| p.0 == cell(i)).map(|p| p.1);
            assert_eq!(tree.remove(&cell(i)), expected);
            model.retain(|p| p.0 != cell(i));
        } else {
            let expected = model.iter().find(|p| p.0 == cell(i)).map(|p| p.1);
            assert_eq!(tree.insert(cell(i), step), expected);
            model.retain(|p| p.0 != cell(i));
            model.push((cell(i), step));
        }
        assert_eq!(tree.len(), model.len());
        check_tree(&tree);
    }
    let mut stored = all_pairs(&tree);
    stored.sort_by_key(|p| p.1);
    model.sort_by_key(|p| p.1);
    assert_eq!(stored, model);
}
