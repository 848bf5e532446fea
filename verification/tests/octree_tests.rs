use meshr::geometry::Intersects;
use meshr::spatial::Octant;
use meshr::spatial::octree::Octree;

#[derive(Debug, Clone, Copy)]
struct Point {
    x: f64,
    y: f64,
    z: f64,
}

#[derive(Debug, Clone, Copy)]
struct Cube {
    cx: f64,
    cy: f64,
    cz: f64,
    half: f64,
}

impl Cube {
    fn unit() -> Cube {
        Cube { cx: 0.0, cy: 0.0, cz: 0.0, half: 0.5 }
    }
}

impl Octant for Cube {
    fn octant(&self, k: usize) -> Cube {
        let h = self.half / 2.0;
        let sx = if k & 4 != 0 { 1.0 } else { -1.0 };
        let sy = if k & 2 != 0 { 1.0 } else { -1.0 };
        let sz = if k & 1 != 0 { 1.0 } else { -1.0 };
        Cube { cx: self.cx + sx * h, cy: self.cy + sy * h, cz: self.cz + sz * h, half: h }
    }
}

impl Intersects<Cube> for Point {
    fn intersects(&self, other: &Cube) -> bool {
        self.x >= other.cx - other.half && self.x <= other.cx + other.half
            && self.y >= other.cy - other.half && self.y <= other.cy + other.half
            && self.z >= other.cz - other.half && self.z <= other.cz + other.half
    }
}

impl Intersects<Point> for Point {
    fn intersects(&self, other: &Point) -> bool {
        self.x == other.x && self.y == other.y && self.z == other.z
    }
}

impl Intersects<Cube> for Cube {
    fn intersects(&self, other: &Cube) -> bool {
        (self.cx - other.cx).abs() <= self.half + other.half
            && (self.cy - other.cy).abs() <= self.half + other.half
            && (self.cz - other.cz).abs() <= self.half + other.half
    }
}

#[test]
fn insert_single() {
    let mut octree: Octree<Point, Cube> = Octree::new(Cube::unit());
    let index = octree.insert(Point { x: 0.0, y: 0.0, z: 0.0 }).unwrap();
    assert_eq!(0, index);
    assert_eq!(1, octree.n_nodes());
    assert_eq!(1, octree.items().len());
    let items = octree.node(1).items();
    assert_eq!(1, items.len());
    assert_eq!(0, items[0]);
}

#[test]
fn insert_split() {
    let mut octree: Octree<Point, Cube> = Octree::new(Cube::unit());
    let count = 101;
    for i in 0..count {
        let v = 0.5 * (i as f64) / (count as f64 - 1.0) - 0.25;
        octree.insert(Point { x: v, y: v, z: v }).unwrap();
    }
    assert_eq!(9, octree.n_nodes());
    assert_eq!(count, octree.items().len());
    assert_eq!(0, octree.node(1).items().len());
    assert_eq!(count / 2 + 1, octree.node(8).items().len());
    assert_eq!(1, octree.node(9).items().len());
    assert_eq!(1, octree.node(10).items().len());
    assert_eq!(1, octree.node(11).items().len());
    assert_eq!(1, octree.node(12).items().len());
    assert_eq!(1, octree.node(14).items().len());
    assert_eq!(count / 2 + 1, octree.node(15).items().len());
}

#[test]
fn insert_no_overlap() {
    let mut octree: Octree<Point, Cube> = Octree::new(Cube::unit());
    let result = octree.insert(Point { x: 1.0, y: 1.0, z: 1.0 });
    assert!(result.is_none());
    assert_eq!(0, octree.items().len());
    assert_eq!(1, octree.n_nodes());
}

#[test]
fn node_codes() {
    let mut octree: Octree<Point, Cube> = Octree::new(Cube::unit());
    for i in 0..101 {
        let v = 0.5 * (i as f64) / 100.0 - 0.25;
        octree.insert(Point { x: v, y: v, z: v }).unwrap();
    }
    // every child code recovers its parent by dropping the last octal digit
    for k in 0..8u64 {
        let child = octree.node(8 + k);
        assert_eq!(child.code() >> 3, 1);
        assert_eq!(child.code(), (1 << 3) | k);
        assert_eq!(child.depth(), 1);
        assert!(child.is_leaf());
    }
    assert!(!octree.node(1).is_leaf());
}

#[test]
fn query_dedup() {
    let mut octree: Octree<Cube, Cube> = Octree::new(Cube::unit());
    // a box straddling the center lands in several leaves after a split
    for i in 0..101 {
        let v = 0.5 * (i as f64) / 100.0 - 0.25;
        octree.insert(Cube { cx: v, cy: v, cz: v, half: 0.01 }).unwrap();
    }
    let probe = Cube { cx: 0.0, cy: 0.0, cz: 0.0, half: 0.02 };
    let found = octree.query(&probe);
    // no index is reported twice
    let mut seen = vec![false; octree.items().len()];
    for &i in found.iter() {
        assert!(!seen[i]);
        seen[i] = true;
    }
    assert!(!found.is_empty());
}
