use region_tree::{Region, Tree};

// (x_min, y_min, x_max, y_max), is_inf
#[derive(Debug, PartialEq)]
struct IntInf2DRegion(usize, usize, usize, usize, bool);

fn point_within(px: usize, py: usize, region: &IntInf2DRegion) -> bool {
    px >= region.0 && px <= region.2 && py >= region.1 && py <= region.3
}

impl Region for IntInf2DRegion {
    fn overlaps(&self, other: &Self) -> bool {
        self.collapses_with(other)
    }

    fn overlaps_reflexive(&self) {}

    fn collapses_with(&self, other: &Self) -> bool {
        self.4 || other.4
            || (point_within(self.0, self.1, other) && point_within(self.2, self.3, other))
    }

    fn same_as(&self, other: &Self) -> bool {
        self == other
    }

    fn cover_of(&self, other: &Self) -> Self {
        IntInf2DRegion(
            self.0.min(other.0),
            self.1.min(other.1),
            self.2.max(other.2),
            self.3.max(other.3),
            true,
        )
    }
}

#[test]
fn tree_iter() {
    let tree: Tree<IntInf2DRegion, usize> = Tree::new();
    println!("{:?}", tree.len());
    let mut it = tree.iter();
    while let Some(region) = it.next() {
        println!("{:?}", region)
    }
}

#[test]
fn tree_search() {
    let tree: Tree<IntInf2DRegion, usize> = Tree::new();
    let region = IntInf2DRegion(1, 2, 3, 4, false);
    let mut found = tree.search(&region);
    while let Some(region) = found.next() {
        println!("{:?}", region)
    }
}
