use nll::region::{Point, Region};

#[test]
fn add_point_reports_growth() {
    let mut r = Region::new();
    let p = Point { index: 3 };
    assert!(!r.contains(p));
    assert!(r.add_point(p)); // grew
    assert!(r.contains(p));
    assert!(!r.add_point(p)); // already present
    assert!(r.contains(p));
}

#[test]
fn add_region_reports_growth() {
    let mut a = Region::new();
    a.add_point(Point { index: 1 });
    let mut b = Region::new();
    b.add_point(Point { index: 1 });
    b.add_point(Point { index: 2 });
    assert!(a.add_region(&b)); // gains P2
    assert!(a.contains(Point { index: 2 }));
    assert!(!a.add_region(&b)); // nothing new
}

#[test]
fn equality_ignores_insertion_order() {
    let mut a = Region::new();
    a.add_point(Point { index: 1 });
    a.add_point(Point { index: 2 });
    let mut b = Region::new();
    b.add_point(Point { index: 2 });
    b.add_point(Point { index: 1 });
    assert!(a.equals(&b));
    assert!(b.equals(&a));
    assert!(a == b);
    b.add_point(Point { index: 3 });
    assert!(!a.equals(&b));
    assert!(a != b);
}

#[test]
fn empty_regions_are_equal() {
    let a = Region::new();
    let b = Region::new();
    assert!(a.equals(&b));
    assert!(!a.contains(Point { index: 0 }));
}

#[test]
fn duplicate_copies_all_points() {
    let mut a = Region::new();
    a.add_point(Point { index: 4 });
    a.add_point(Point { index: 5 });
    let c = a.duplicate();
    assert!(c.equals(&a));
    assert!(c.contains(Point { index: 4 }));
    assert!(c.contains(Point { index: 5 }));
}
