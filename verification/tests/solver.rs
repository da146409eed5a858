use nll::region::{Point, Region};
use nll::region_map::{for_each_region_variable, RegionMap, RegionVariable, SkelArg, Ty, TyName, TySkeleton};

fn region_slot() -> TySkeleton {
    TySkeleton {
        name: TyName { index: 0 },
        args: vec![SkelArg::Region],
    }
}

fn vars_of(ty: &Ty) -> Vec<RegionVariable> {
    let mut vars = Vec::new();
    for_each_region_variable(ty, &mut vars);
    vars
}

fn region_of(points: &[usize]) -> Region {
    let mut r = Region::new();
    for &p in points {
        r.add_point(Point { index: p });
    }
    r
}

#[test]
fn linear_use_and_flow() {
    // A use constraint at P2 and a flow constraint (v, P1, P2) must
    // leave v's region as exactly {P1, P2}.
    let mut m = RegionMap::new();
    let ty = m.instantiate_ty(&region_slot());
    let p1 = Point { index: 1 };
    let p2 = Point { index: 2 };
    m.use_ty(&ty, p2);
    m.flow(&ty, p1, p2);
    let sol = m.solve();
    let v = vars_of(&ty)[0];
    let r = sol.region(v);
    assert!(r.contains(p1));
    assert!(r.contains(p2));
    assert!(r.equals(&region_of(&[1, 2])));
}

#[test]
fn flow_without_use_stays_empty() {
    // A flow constraint alone forces nothing: the target point is
    // absent, so the source point is never added.
    let mut m = RegionMap::new();
    let ty = m.instantiate_ty(&region_slot());
    m.flow(&ty, Point { index: 1 }, Point { index: 2 });
    let sol = m.solve();
    let v = vars_of(&ty)[0];
    let r = sol.region(v);
    assert!(!r.contains(Point { index: 1 }));
    assert!(!r.contains(Point { index: 2 }));
    assert!(r.equals(&region_of(&[])));
}

#[test]
fn flow_chain_propagates_backward() {
    // use at P3, flows (v, P2, P3) and (v, P1, P2): all three points.
    let mut m = RegionMap::new();
    let ty = m.instantiate_ty(&region_slot());
    m.use_ty(&ty, Point { index: 3 });
    m.flow(&ty, Point { index: 2 }, Point { index: 3 });
    m.flow(&ty, Point { index: 1 }, Point { index: 2 });
    let sol = m.solve();
    let v = vars_of(&ty)[0];
    assert!(sol.region(v).equals(&region_of(&[1, 2, 3])));
}

#[test]
fn outlives_pulls_in_subsumed_region() {
    // b holds {P1} via a use constraint; a must outlive b; nothing
    // else constrains a: a's solved region is exactly {P1}.
    let mut m = RegionMap::new();
    let a_ty = m.instantiate_ty(&region_slot());
    let b_ty = m.instantiate_ty(&region_slot());
    let p1 = Point { index: 1 };
    m.use_ty(&b_ty, p1);
    m.subtype(&a_ty, &b_ty);
    let sol = m.solve();
    let a = vars_of(&a_ty)[0];
    let b = vars_of(&b_ty)[0];
    assert!(sol.region(a).equals(&region_of(&[1])));
    assert!(sol.region(b).equals(&region_of(&[1])));
}

#[test]
fn outlives_transitive_chain() {
    // (a, b) and (b, c) with c = {P1}: a's region contains P1.
    let mut m = RegionMap::new();
    let a_ty = m.instantiate_ty(&region_slot());
    let b_ty = m.instantiate_ty(&region_slot());
    let c_ty = m.instantiate_ty(&region_slot());
    m.use_ty(&c_ty, Point { index: 1 });
    m.subtype(&a_ty, &b_ty);
    m.subtype(&b_ty, &c_ty);
    let sol = m.solve();
    assert!(sol.region(vars_of(&a_ty)[0]).contains(Point { index: 1 }));
    assert!(sol.region(vars_of(&a_ty)[0]).equals(&region_of(&[1])));
}

#[test]
fn outlives_cycle_converges() {
    // Mutually outliving variables with different seeds end equal.
    let mut m = RegionMap::new();
    let a_ty = m.instantiate_ty(&region_slot());
    let b_ty = m.instantiate_ty(&region_slot());
    m.use_ty(&a_ty, Point { index: 1 });
    m.use_ty(&b_ty, Point { index: 2 });
    m.subtype(&a_ty, &b_ty);
    m.subtype(&b_ty, &a_ty);
    let sol = m.solve();
    assert!(sol.region(vars_of(&a_ty)[0]).equals(&region_of(&[1, 2])));
    assert!(sol.region(vars_of(&b_ty)[0]).equals(&region_of(&[1, 2])));
}

#[test]
fn order_independent_final_regions() {
    // The same constraints fed in two different orders give the same
    // solved regions.
    let p1 = Point { index: 1 };
    let p2 = Point { index: 2 };

    let mut m1 = RegionMap::new();
    let a1 = m1.instantiate_ty(&region_slot());
    let b1 = m1.instantiate_ty(&region_slot());
    m1.use_ty(&b1, p1);
    m1.flow(&b1, p2, p1);
    m1.subtype(&a1, &b1);

    let mut m2 = RegionMap::new();
    let a2 = m2.instantiate_ty(&region_slot());
    let b2 = m2.instantiate_ty(&region_slot());
    m2.subtype(&a2, &b2);
    m2.flow(&b2, p2, p1);
    m2.use_ty(&b2, p1);

    let s1 = m1.solve();
    let s2 = m2.solve();
    let r1a = s1.region(vars_of(&a1)[0]);
    let r2a = s2.region(vars_of(&a2)[0]);
    assert!(r1a.equals(r2a));
    assert!(r1a.equals(&region_of(&[1, 2])));
    assert!(s1.region(vars_of(&b1)[0]).equals(s2.region(vars_of(&b2)[0])));
}

#[test]
fn resolve_after_fixed_point_is_stable() {
    // Solving the same frozen store twice gives identical regions.
    let mut m = RegionMap::new();
    let ty = m.instantiate_ty(&region_slot());
    m.use_ty(&ty, Point { index: 4 });
    m.flow(&ty, Point { index: 3 }, Point { index: 4 });
    let v = vars_of(&ty)[0];
    let first = m.solve();
    let again = m.solve();
    assert!(first.region(v).equals(again.region(v)));
    assert!(first.region(v).equals(&region_of(&[3, 4])));
}

#[test]
fn nested_skeleton_allocates_all_slots() {
    // Outer(Region, Inner(Region)): two fresh variables, in order.
    let inner = TySkeleton {
        name: TyName { index: 1 },
        args: vec![SkelArg::Region],
    };
    let outer = TySkeleton {
        name: TyName { index: 2 },
        args: vec![SkelArg::Region, SkelArg::Ty(inner)],
    };
    let mut m = RegionMap::new();
    let ty = m.instantiate_ty(&outer);
    let vars = vars_of(&ty);
    assert_eq!(vars.len(), 2);
    assert_ne!(vars[0], vars[1]);
    m.use_ty(&ty, Point { index: 9 });
    let sol = m.solve();
    assert!(sol.region(vars[0]).contains(Point { index: 9 }));
    assert!(sol.region(vars[1]).contains(Point { index: 9 }));
}
