use nll::region::{Point, Region};
use nll::region_map::{
    for_each_region_variable, CheckError, RegionMap, RegionName, RegionVariable, SkelArg, Ty,
    TyName, TySkeleton,
};

fn region_slot() -> TySkeleton {
    TySkeleton {
        name: TyName { index: 0 },
        args: vec![SkelArg::Region],
    }
}

fn vars_of(ty: &Ty) -> Vec<RegionVariable> {
    let mut vars = Vec::new();
    for_each_region_variable(ty, &mut vars);
    vars
}

fn region_of(points: &[usize]) -> Region {
    let mut r = Region::new();
    for &p in points {
        r.add_point(Point { index: p });
    }
    r
}

#[test]
fn equals_assertion_failure_reports_both_regions() {
    // A region-equals assertion expecting {P1} against a variable
    // whose solved region is {P1, P2}: exactly one error, carrying the
    // expected and the actual region.
    let mut m = RegionMap::new();
    let ty = m.instantiate_ty(&region_slot());
    let p1 = Point { index: 1 };
    let p2 = Point { index: 2 };
    m.use_ty(&ty, p1);
    m.use_ty(&ty, p2);
    let name = RegionName { index: 7 };
    m.user_names(name, &ty);
    m.assert_region_eq(name, region_of(&[1]));
    let sol = m.solve();
    assert_eq!(sol.check(), 1);
    let report = sol.check_report();
    assert_eq!(report.len(), 1);
    match &report[0] {
        CheckError::RegionEq {
            name: n,
            var,
            expected,
            actual,
        } => {
            assert_eq!(*n, name);
            assert_eq!(*var, vars_of(&ty)[0]);
            assert!(expected.equals(&region_of(&[1])));
            assert!(actual.equals(&region_of(&[1, 2])));
        }
        CheckError::RegionContains { .. } => panic!("wrong error kind"),
    }
}

#[test]
fn equals_assertion_success() {
    let mut m = RegionMap::new();
    let ty = m.instantiate_ty(&region_slot());
    m.use_ty(&ty, Point { index: 1 });
    let name = RegionName { index: 0 };
    m.user_names(name, &ty);
    m.assert_region_eq(name, region_of(&[1]));
    let sol = m.solve();
    assert_eq!(sol.check(), 0);
    assert!(sol.check_report().is_empty());
}

#[test]
fn contains_assertion_both_directions() {
    // An unexpected absence and an unexpected presence are each one
    // reported error; a satisfied expectation reports nothing.
    let mut m = RegionMap::new();
    let ty = m.instantiate_ty(&region_slot());
    let p1 = Point { index: 1 };
    let p2 = Point { index: 2 };
    m.use_ty(&ty, p1);
    let name = RegionName { index: 3 };
    m.user_names(name, &ty);
    m.assert_region_contains(name, p1, true); // holds
    m.assert_region_contains(name, p2, true); // fails: absent though it should be present
    m.assert_region_contains(name, p1, false); // fails: present though it should be absent
    m.assert_region_contains(name, p2, false); // holds
    let sol = m.solve();
    assert_eq!(sol.check(), 2);
    let report = sol.check_report();
    assert_eq!(report.len(), 2);
    match &report[0] {
        CheckError::RegionContains {
            name: n,
            point,
            expected,
            ..
        } => {
            assert_eq!(*n, name);
            assert_eq!(*point, p2);
            assert!(*expected);
        }
        CheckError::RegionEq { .. } => panic!("wrong error kind"),
    }
    match &report[1] {
        CheckError::RegionContains {
            point, expected, ..
        } => {
            assert_eq!(*point, p1);
            assert!(!*expected);
        }
        CheckError::RegionEq { .. } => panic!("wrong error kind"),
    }
}

#[test]
fn recurring_name_checks_every_binding() {
    // One surface name bound to two variables with different solved
    // regions: the equals assertion is checked against both, and the
    // one that differs is the one reported.
    let mut m = RegionMap::new();
    let ty1 = m.instantiate_ty(&region_slot());
    let ty2 = m.instantiate_ty(&region_slot());
    let p1 = Point { index: 1 };
    m.use_ty(&ty1, p1);
    m.use_ty(&ty2, p1);
    m.use_ty(&ty2, Point { index: 2 });
    let name = RegionName { index: 5 };
    m.user_names(name, &ty1);
    m.user_names(name, &ty2);
    m.assert_region_eq(name, region_of(&[1]));
    let sol = m.solve();
    assert_eq!(sol.check(), 1);
    let report = sol.check_report();
    match &report[0] {
        CheckError::RegionEq { var, .. } => assert_eq!(*var, vars_of(&ty2)[0]),
        CheckError::RegionContains { .. } => panic!("wrong error kind"),
    }
}

#[test]
fn every_failing_pair_is_counted() {
    // Two assertions failing on the same variable: two errors.
    let mut m = RegionMap::new();
    let ty = m.instantiate_ty(&region_slot());
    m.use_ty(&ty, Point { index: 1 });
    let name = RegionName { index: 9 };
    m.user_names(name, &ty);
    m.assert_region_eq(name, region_of(&[2]));
    m.assert_region_contains(name, Point { index: 2 }, true);
    let sol = m.solve();
    assert_eq!(sol.check(), 2);
}
