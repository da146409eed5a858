//! The region constraint store: a write-only accumulator fed while a
//! typed program representation is walked, read-only thereafter.
//!
//! Type skeletons are a closed tagged-variant type: an argument slot is
//! either a region slot or a nested generic type application.
//! Instantiation replaces every region slot with a freshly allocated
//! region variable, left to right.

use vstd::prelude::*;
use vstd::seq_lib::*;
use crate::region::{Point, Region, total_size, lemma_total_size_update, lemma_total_size_bound,
    lemma_region_size_bounded};

verus! {

/// A user-visible region name from the analyzed program's surface
/// syntax; one name can recur across several type instantiations.
#[derive(Clone, Copy, Debug, PartialEq, Eq, PartialOrd, Ord, Hash, Structural)]
pub struct RegionName {
    pub index: usize,
}

/// The name of a type constructor in the erased type structure.
#[derive(Clone, Copy, Debug, PartialEq, Eq, PartialOrd, Ord, Hash, Structural)]
pub struct TyName {
    pub index: usize,
}

/// An opaque, dense, zero-based index identifying one unknown region to
/// be solved for. All information about a variable lives in the
/// constraints referencing it.
#[derive(Clone, Copy, Debug, PartialEq, Eq, PartialOrd, Ord, Hash, Structural)]
pub struct RegionVariable {
    pub index: usize,
}

/// An erased generic type skeleton: a constructor name applied to
/// argument slots, each either a region slot or a nested skeleton.
pub struct TySkeleton {
    pub name: TyName,
    pub args: Vec<SkelArg>,
}

/// One argument slot of a skeleton.
pub enum SkelArg {
    Region,
    Ty(TySkeleton),
}

/// A region-annotated type: the same shape as a skeleton, with every
/// region slot filled by a region variable.
pub struct Ty {
    pub name: TyName,
    pub args: Vec<TyArg>,
}

/// One argument of a region-annotated type.
pub enum TyArg {
    Region(RegionVariable),
    Ty(Ty),
}

/// A use constraint: `var`'s region must contain `contains`.
pub struct UseConstraint {
    pub var: RegionVariable,
    pub contains: Point,
}

/// A recorded expectation that `var`'s region contains `contains`.
pub struct InAssertion {
    pub var: RegionVariable,
    pub contains: Point,
}

/// A recorded expectation that `var`'s region omits `contains`.
pub struct OutAssertion {
    pub var: RegionVariable,
    pub contains: Point,
}

/// The region variables of an annotated type, in left-to-right order of
/// a traversal of its generic arguments.
pub open spec fn ty_vars(t: Ty) -> Seq<RegionVariable>
    decreases t,
{
    args_vars(t.args@)
}

/// The region variables of a sequence of type arguments, left to right.
pub open spec fn args_vars(args: Seq<TyArg>) -> Seq<RegionVariable>
    decreases args,
{
    if args.len() == 0 {
        Seq::empty()
    } else {
        args_vars(args.drop_last()) + arg_vars(args.last())
    }
}

/// The region variables of one type argument.
pub open spec fn arg_vars(a: TyArg) -> Seq<RegionVariable>
    decreases a,
{
    match a {
        TyArg::Region(v) => seq![v],
        TyArg::Ty(t) => ty_vars(t),
    }
}

/// How many region slots a skeleton has.
pub open spec fn skel_count(t: TySkeleton) -> nat
    decreases t,
{
    skel_args_count(t.args@)
}

/// How many region slots a sequence of skeleton arguments has.
pub open spec fn skel_args_count(args: Seq<SkelArg>) -> nat
    decreases args,
{
    if args.len() == 0 {
        0
    } else {
        skel_args_count(args.drop_last()) + skel_arg_count(args.last())
    }
}

/// How many region slots one skeleton argument has.
pub open spec fn skel_arg_count(a: SkelArg) -> nat
    decreases a,
{
    match a {
        SkelArg::Region => 1,
        SkelArg::Ty(t) => skel_count(t),
    }
}

/// Is `t` an instantiation of the skeleton `s`: same shape, with every
/// region slot filled?
pub open spec fn ty_matches_skel(t: Ty, s: TySkeleton) -> bool
    decreases t,
{
    &&& t.name == s.name
    &&& t.args@.len() == s.args@.len()
    &&& forall|i: int| 0 <= i < t.args@.len() ==> arg_matches(#[trigger] t.args@[i], s.args@[i])
}

/// Does one annotated argument instantiate one skeleton argument?
pub open spec fn arg_matches(a: TyArg, s: SkelArg) -> bool
    decreases a,
{
    match a {
        TyArg::Region(_) => s is Region,
        TyArg::Ty(t) => s is Ty && ty_matches_skel(t, s->Ty_0),
    }
}

/// One use constraint per variable: each region must contain `point`.
pub open spec fn use_pairs(vs: Seq<RegionVariable>, point: Point) -> Seq<(RegionVariable, Point)> {
    Seq::new(vs.len(), |i: int| (vs[i], point))
}

/// One flow constraint per variable, over the edge `from -> to`.
pub open spec fn flow_triples(vs: Seq<RegionVariable>, from: Point, to: Point) -> Seq<
    (RegionVariable, Point, Point),
> {
    Seq::new(vs.len(), |i: int| (vs[i], from, to))
}

/// One outlives constraint per aligned pair of variables.
pub open spec fn outlive_pairs(a: Seq<RegionVariable>, b: Seq<RegionVariable>) -> Seq<
    (RegionVariable, RegionVariable),
> {
    Seq::new(a.len(), |i: int| (a[i], b[i]))
}

/// The variables `start, start + 1, ..., start + count - 1`, in order.
pub open spec fn var_range(start: nat, count: nat) -> Seq<RegionVariable> {
    Seq::new(count, |i: int| RegionVariable { index: (start + i) as usize })
}

/// Every variable of `vs` has an index below `n`.
pub open spec fn vars_in_range(vs: Seq<RegionVariable>, n: nat) -> bool {
    forall|i: int| 0 <= i < vs.len() ==> (#[trigger] vs[i]).index < n
}

/// All variables bound to `name`, in binding order, over an entry list
/// in which one name may occur several times.
pub open spec fn lookup_vars(
    entries: Seq<(RegionName, Seq<RegionVariable>)>,
    name: RegionName,
) -> Seq<RegionVariable>
    decreases entries,
{
    if entries.len() == 0 {
        Seq::empty()
    } else {
        lookup_vars(entries.drop_last(), name) + (if entries.last().0 == name {
            entries.last().1
        } else {
            Seq::empty()
        })
    }
}

proof fn lemma_push_drop_last<A>(s: Seq<A>, x: A)
    ensures
        s.push(x).drop_last() == s,
        s.push(x).last() == x,
{
    assert(s.push(x).drop_last() =~= s);
}

/// Region-slot counting distributes over concatenation.
proof fn lemma_skel_args_count_concat(a: Seq<SkelArg>, b: Seq<SkelArg>)
    ensures
        skel_args_count(a + b) == skel_args_count(a) + skel_args_count(b),
    decreases b.len(),
{
    if b.len() == 0 {
        assert(a + b =~= a);
    } else {
        lemma_skel_args_count_concat(a, b.drop_last());
        assert((a + b).drop_last() =~= a + b.drop_last());
        assert((a + b).last() == b.last());
    }
}

/// Variable collection distributes over concatenation.
proof fn lemma_args_vars_concat(a: Seq<TyArg>, b: Seq<TyArg>)
    ensures
        args_vars(a + b) == args_vars(a) + args_vars(b),
    decreases b.len(),
{
    if b.len() == 0 {
        assert(a + b =~= a);
        assert(args_vars(a) + args_vars(b) =~= args_vars(a));
    } else {
        lemma_args_vars_concat(a, b.drop_last());
        assert((a + b).drop_last() =~= a + b.drop_last());
        assert((a + b).last() == b.last());
        assert(args_vars(a) + args_vars(b.drop_last()) + arg_vars(b.last()) =~= args_vars(a) + (
        args_vars(b.drop_last()) + arg_vars(b.last())));
    }
}

/// Well-formedness depends only on the variable counter and the
/// recorded constraint families, not on the store value itself.
proof fn lemma_wf_same(a: RegionMap, b: RegionMap)
    requires
        a.wf(),
        b.num_vars_spec() == a.num_vars_spec(),
        b.use_cs() == a.use_cs(),
        b.flow_cs() == a.flow_cs(),
        b.outlive_cs() == a.outlive_cs(),
        b.name_entries() == a.name_entries(),
    ensures
        b.wf(),
{
    assert forall|i: int| 0 <= i < b.use_cs().len() implies (#[trigger] b.use_cs()[i]).0.index
        < b.num_vars_spec() by {
        assert(b.use_cs()[i] == a.use_cs()[i]);
    }
    assert forall|i: int| 0 <= i < b.flow_cs().len() implies (#[trigger] b.flow_cs()[i]).0.index
        < b.num_vars_spec() by {
        assert(b.flow_cs()[i] == a.flow_cs()[i]);
    }
    assert forall|i: int| 0 <= i < b.outlive_cs().len() implies (
    #[trigger] b.outlive_cs()[i]).0.index < b.num_vars_spec() && b.outlive_cs()[i].1.index
        < b.num_vars_spec() && b.outlive_cs()[i].0 != b.outlive_cs()[i].1 by {
        assert(b.outlive_cs()[i] == a.outlive_cs()[i]);
    }
    assert forall|i: int| 0 <= i < b.name_entries().len() implies vars_in_range(
        (#[trigger] b.name_entries()[i]).1,
        b.num_vars_spec(),
    ) by {
        assert(b.name_entries()[i] == a.name_entries()[i]);
    }
}

/// Appends every region variable of `ty` to `vars`, in left-to-right
/// order.
pub fn for_each_region_variable(ty: &Ty, vars: &mut Vec<RegionVariable>)
    ensures
        final(vars)@ == old(vars)@ + ty_vars(*ty),
    decreases *ty,
{
    let ghost start = vars@;
    let n = ty.args.len();
    for i in 0..n
        invariant
            n == ty.args@.len(),
            vars@ == start + args_vars(ty.args@.subrange(0, i as int)),
        decreases n - i,
    {
        let ghost prefix = ty.args@.subrange(0, i as int);
        proof {
            assert(decreases_to!(*ty => ty.args@[i as int]));
        }
        for_each_region_variable_in_arg(&ty.args[i], vars);
        proof {
            assert(ty.args@.subrange(0, i + 1) =~= prefix.push(ty.args@[i as int]));
            lemma_push_drop_last(prefix, ty.args@[i as int]);
            lemma_args_vars_concat(prefix, seq![ty.args@[i as int]]);
            assert(seq![ty.args@[i as int]].drop_last() =~= Seq::<TyArg>::empty());
            assert(vars@ =~= start + args_vars(ty.args@.subrange(0, i + 1)));
        }
    }
    proof {
        assert(ty.args@.subrange(0, n as int) == ty.args@);
    }
}

/// Appends every region variable of one type argument to `vars`.
fn for_each_region_variable_in_arg(arg: &TyArg, vars: &mut Vec<RegionVariable>)
    ensures
        final(vars)@ == old(vars)@ + arg_vars(*arg),
    decreases *arg,
{
    match arg {
        TyArg::Region(v) => {
            vars.push(*v);
            proof {
                assert(vars@ =~= old(vars)@ + seq![*v]);
            }
        },
        TyArg::Ty(t) => {
            for_each_region_variable(t, vars);
        },
    }
}

/// The constraint store: region-variable allocation plus four
/// append-only constraint families and the user-declared assertions.
/// No constraint is ever removed or mutated once recorded, and the
/// store has no solving logic of its own.
pub struct RegionMap {
    pub(crate) num_vars: usize,
    pub(crate) use_constraints: Vec<(RegionVariable, Point)>,
    pub(crate) flow_constraints: Vec<(RegionVariable, Point, Point)>,
    pub(crate) outlive_constraints: Vec<(RegionVariable, RegionVariable)>,
    pub(crate) user_region_names: Vec<(RegionName, Vec<RegionVariable>)>,
    pub(crate) region_eq_assertions: Vec<(RegionName, Region)>,
    pub(crate) region_in_assertions: Vec<(RegionName, Point, bool)>,
}

impl RegionMap {
    /// How many region variables have been allocated.
    pub closed spec fn num_vars_spec(self) -> nat {
        self.num_vars as nat
    }

    /// The use constraints `(var, point)`, in insertion order.
    pub closed spec fn use_cs(self) -> Seq<(RegionVariable, Point)> {
        self.use_constraints@
    }

    /// The flow constraints `(var, from_point, to_point)`.
    pub closed spec fn flow_cs(self) -> Seq<(RegionVariable, Point, Point)> {
        self.flow_constraints@
    }

    /// The outlives constraints `(a, b)`: `a`'s region must contain
    /// `b`'s.
    pub closed spec fn outlive_cs(self) -> Seq<(RegionVariable, RegionVariable)> {
        self.outlive_constraints@
    }

    /// The name bindings, in binding order.
    pub closed spec fn name_entries(self) -> Seq<(RegionName, Seq<RegionVariable>)> {
        self.user_region_names@.map_values(
            |e: (RegionName, Vec<RegionVariable>)| (e.0, e.1@),
        )
    }

    /// The region-equals assertions, in registration order.
    pub closed spec fn eq_asserts(self) -> Seq<(RegionName, Region)> {
        self.region_eq_assertions@
    }

    /// The region-contains assertions, in registration order.
    pub closed spec fn in_asserts(self) -> Seq<(RegionName, Point, bool)> {
        self.region_in_assertions@
    }

    /// Every recorded constraint and binding speaks of allocated
    /// variables, and no outlives constraint relates a variable to
    /// itself.
    pub open spec fn wf(self) -> bool {
        &&& forall|i: int|
            0 <= i < self.use_cs().len() ==> (#[trigger] self.use_cs()[i]).0.index
                < self.num_vars_spec()
        &&& forall|i: int|
            0 <= i < self.flow_cs().len() ==> (#[trigger] self.flow_cs()[i]).0.index
                < self.num_vars_spec()
        &&& forall|i: int|
            0 <= i < self.outlive_cs().len() ==> (#[trigger] self.outlive_cs()[i]).0.index
                < self.num_vars_spec() && self.outlive_cs()[i].1.index < self.num_vars_spec()
                && self.outlive_cs()[i].0 != self.outlive_cs()[i].1
        &&& forall|i: int|
            0 <= i < self.name_entries().len() ==> vars_in_range(
                (#[trigger] self.name_entries()[i]).1,
                self.num_vars_spec(),
            )
    }

    /// Do two stores hold exactly the same constraints, bindings and
    /// assertions?
    pub open spec fn same_constraints(self, other: RegionMap) -> bool {
        &&& self.use_cs() == other.use_cs()
        &&& self.flow_cs() == other.flow_cs()
        &&& self.outlive_cs() == other.outlive_cs()
        &&& self.name_entries() == other.name_entries()
        &&& self.eq_asserts() == other.eq_asserts()
        &&& self.in_asserts() == other.in_asserts()
    }

    /// An empty store.
    pub fn new() -> (r: RegionMap)
        ensures
            r.wf(),
            r.num_vars_spec() == 0,
            r.use_cs() == Seq::<(RegionVariable, Point)>::empty(),
            r.flow_cs() == Seq::<(RegionVariable, Point, Point)>::empty(),
            r.outlive_cs() == Seq::<(RegionVariable, RegionVariable)>::empty(),
            r.name_entries() == Seq::<(RegionName, Seq<RegionVariable>)>::empty(),
            r.eq_asserts() == Seq::<(RegionName, Region)>::empty(),
            r.in_asserts() == Seq::<(RegionName, Point, bool)>::empty(),
    {
        let r = RegionMap {
            num_vars: 0,
            use_constraints: Vec::new(),
            flow_constraints: Vec::new(),
            outlive_constraints: Vec::new(),
            user_region_names: Vec::new(),
            region_eq_assertions: Vec::new(),
            region_in_assertions: Vec::new(),
        };
        proof {
            assert(r.name_entries() =~= Seq::<(RegionName, Seq<RegionVariable>)>::empty());
        }
        r
    }

    /// Allocates a fresh, monotonically numbered region variable; no
    /// side effect beyond advancing the variable counter.
    pub fn new_var(&mut self) -> (v: RegionVariable)
        requires
            old(self).wf(),
            old(self).num_vars_spec() < usize::MAX,
        ensures
            final(self).wf(),
            v.index == old(self).num_vars_spec(),
            final(self).num_vars_spec() == old(self).num_vars_spec() + 1,
            final(self).same_constraints(*old(self)),
    {
        self.num_vars = self.num_vars + 1;
        proof {
            assert forall|i: int| 0 <= i < self.use_cs().len() implies (
            #[trigger] self.use_cs()[i]).0.index < self.num_vars_spec() by {
                assert(self.use_cs()[i] == old(self).use_cs()[i]);
            }
            assert forall|i: int| 0 <= i < self.flow_cs().len() implies (
            #[trigger] self.flow_cs()[i]).0.index < self.num_vars_spec() by {
                assert(self.flow_cs()[i] == old(self).flow_cs()[i]);
            }
            assert forall|i: int| 0 <= i < self.outlive_cs().len() implies (
            #[trigger] self.outlive_cs()[i]).0.index < self.num_vars_spec()
                && self.outlive_cs()[i].1.index < self.num_vars_spec() && self.outlive_cs()[i].0
                != self.outlive_cs()[i].1 by {
                assert(self.outlive_cs()[i] == old(self).outlive_cs()[i]);
            }
            assert forall|i: int| 0 <= i < self.name_entries().len() implies vars_in_range(
                (#[trigger] self.name_entries()[i]).1,
                self.num_vars_spec(),
            ) by {
                assert(vars_in_range(
                    old(self).name_entries()[i].1,
                    old(self).num_vars_spec(),
                ));
            }
        }
        RegionVariable { index: self.num_vars - 1 }
    }

    /// Walks an erased skeleton and replaces every region slot with a
    /// freshly allocated variable, producing a region-annotated type.
    /// The produced variables are exactly the next `skel_count(*ty)`
    /// indices, left to right.
    pub fn instantiate_ty(&mut self, ty: &TySkeleton) -> (r: Ty)
        requires
            old(self).wf(),
            old(self).num_vars_spec() + skel_count(*ty) <= usize::MAX,
        ensures
            final(self).wf(),
            ty_matches_skel(r, *ty),
            ty_vars(r) == var_range(old(self).num_vars_spec(), skel_count(*ty)),
            final(self).num_vars_spec() == old(self).num_vars_spec() + skel_count(*ty),
            final(self).same_constraints(*old(self)),
        decreases *ty,
    {
        let ghost start = self.num_vars_spec();
        let mut args: Vec<TyArg> = Vec::new();
        let n = ty.args.len();
        for i in 0..n
            invariant
                n == ty.args@.len(),
                self.wf(),
                args@.len() == i,
                self.num_vars_spec() == start + skel_args_count(ty.args@.subrange(0, i as int)),
                start + skel_args_count(ty.args@) <= usize::MAX,
                forall|k: int| 0 <= k < i ==> arg_matches(#[trigger] args@[k], ty.args@[k]),
                args_vars(args@) == var_range(
                    start,
                    skel_args_count(ty.args@.subrange(0, i as int)),
                ),
                self.same_constraints(*old(self)),
            decreases n - i,
        {
            let ghost prefix = ty.args@.subrange(0, i as int);
            let ghost pre_vars = self.num_vars_spec();
            proof {
                assert(ty.args@ =~= prefix + ty.args@.subrange(i as int, n as int));
                lemma_skel_args_count_concat(prefix, ty.args@.subrange(i as int, n as int));
                assert(ty.args@.subrange(i as int, n as int) =~= seq![ty.args@[i as int]]
                    + ty.args@.subrange(i + 1, n as int));
                lemma_skel_args_count_concat(
                    seq![ty.args@[i as int]],
                    ty.args@.subrange(i + 1, n as int),
                );
                assert(seq![ty.args@[i as int]].drop_last() =~= Seq::<SkelArg>::empty());
                assert(skel_args_count(Seq::<SkelArg>::empty()) == 0);
                assert(skel_args_count(seq![ty.args@[i as int]]) == skel_arg_count(
                    ty.args@[i as int],
                ));
                assert(decreases_to!(*ty => ty.args@[i as int]));
            }
            let a = self.instantiate_arg(&ty.args[i]);
            let ghost pre_args = args@;
            args.push(a);
            proof {
                assert(args@ == pre_args.push(a));
                lemma_push_drop_last(pre_args, a);
                assert(args_vars(args@) == args_vars(pre_args) + arg_vars(a));
                assert(ty.args@.subrange(0, i + 1) =~= prefix.push(ty.args@[i as int]));
                lemma_push_drop_last(prefix, ty.args@[i as int]);
                assert(skel_args_count(prefix.push(ty.args@[i as int])) == skel_args_count(prefix)
                    + skel_arg_count(ty.args@[i as int]));
                let k1 = skel_args_count(prefix);
                let k2 = skel_arg_count(ty.args@[i as int]);
                assert(var_range(start, k1) + var_range(start + k1, k2) =~= var_range(
                    start,
                    k1 + k2,
                ));
                assert(args_vars(args@) =~= var_range(
                    start,
                    skel_args_count(ty.args@.subrange(0, i + 1)),
                ));
            }
        }
        proof {
            assert(ty.args@.subrange(0, n as int) == ty.args@);
        }
        let r = Ty { name: ty.name, args };
        proof {
            assert(ty_matches_skel(r, *ty));
            assert(ty_vars(r) == args_vars(r.args@));
        }
        r
    }

    /// Instantiates one skeleton argument.
    fn instantiate_arg(&mut self, arg: &SkelArg) -> (r: TyArg)
        requires
            old(self).wf(),
            old(self).num_vars_spec() + skel_arg_count(*arg) <= usize::MAX,
        ensures
            final(self).wf(),
            arg_matches(r, *arg),
            arg_vars(r) == var_range(old(self).num_vars_spec(), skel_arg_count(*arg)),
            final(self).num_vars_spec() == old(self).num_vars_spec() + skel_arg_count(*arg),
            final(self).same_constraints(*old(self)),
        decreases *arg,
    {
        match arg {
            SkelArg::Region => {
                let v = self.new_var();
                proof {
                    assert(seq![v] =~= var_range(old(self).num_vars_spec(), 1));
                }
                TyArg::Region(v)
            },
            SkelArg::Ty(t) => {
                let inner = self.instantiate_ty(t);
                TyArg::Ty(inner)
            },
        }
    }

    /// Records one use constraint at `point` for every region variable
    /// appearing (recursively) in `ty`.
    pub fn use_ty(&mut self, ty: &Ty, point: Point)
        requires
            old(self).wf(),
            vars_in_range(ty_vars(*ty), old(self).num_vars_spec()),
        ensures
            final(self).wf(),
            final(self).use_cs() == old(self).use_cs() + use_pairs(ty_vars(*ty), point),
            final(self).num_vars_spec() == old(self).num_vars_spec(),
            final(self).flow_cs() == old(self).flow_cs(),
            final(self).outlive_cs() == old(self).outlive_cs(),
            final(self).name_entries() == old(self).name_entries(),
            final(self).eq_asserts() == old(self).eq_asserts(),
            final(self).in_asserts() == old(self).in_asserts(),
    {
        let mut vars: Vec<RegionVariable> = Vec::new();
        for_each_region_variable(ty, &mut vars);
        let n = vars.len();
        for i in 0..n
            invariant
                n == vars@.len(),
                vars@ == ty_vars(*ty),
                vars_in_range(vars@, self.num_vars_spec()),
                self.wf(),
                self.use_cs() == old(self).use_cs() + use_pairs(vars@.subrange(0, i as int), point),
                self.num_vars_spec() == old(self).num_vars_spec(),
                self.flow_cs() == old(self).flow_cs(),
                self.outlive_cs() == old(self).outlive_cs(),
                self.name_entries() == old(self).name_entries(),
                self.eq_asserts() == old(self).eq_asserts(),
                self.in_asserts() == old(self).in_asserts(),
        {
            let v = vars[i];
            let ghost pre = *self;
            self.use_constraints.push((v, point));
            proof {
                assert(self.use_cs() == pre.use_cs().push((v, point)));
                assert(self.use_cs() =~= old(self).use_cs() + use_pairs(
                    vars@.subrange(0, i + 1),
                    point,
                ));
                assert forall|k: int| 0 <= k < self.use_cs().len() implies (
                #[trigger] self.use_cs()[k]).0.index < self.num_vars_spec() by {
                    if k < pre.use_cs().len() {
                        assert(self.use_cs()[k] == pre.use_cs()[k]);
                    } else {
                        assert(vars@[i as int].index < self.num_vars_spec());
                    }
                }
            }
        }
        proof {
            assert(vars@.subrange(0, n as int) == vars@);
        }
    }

    /// Records one flow constraint `(var, a_point, b_point)` for every
    /// region variable in `a_ty`: data typed with that region moves from
    /// `a_point` to `b_point` without renaming.
    pub fn flow(&mut self, a_ty: &Ty, a_point: Point, b_point: Point)
        requires
            old(self).wf(),
            vars_in_range(ty_vars(*a_ty), old(self).num_vars_spec()),
        ensures
            final(self).wf(),
            final(self).flow_cs() == old(self).flow_cs() + flow_triples(
                ty_vars(*a_ty),
                a_point,
                b_point,
            ),
            final(self).num_vars_spec() == old(self).num_vars_spec(),
            final(self).use_cs() == old(self).use_cs(),
            final(self).outlive_cs() == old(self).outlive_cs(),
            final(self).name_entries() == old(self).name_entries(),
            final(self).eq_asserts() == old(self).eq_asserts(),
            final(self).in_asserts() == old(self).in_asserts(),
    {
        let mut vars: Vec<RegionVariable> = Vec::new();
        for_each_region_variable(a_ty, &mut vars);
        let n = vars.len();
        for i in 0..n
            invariant
                n == vars@.len(),
                vars@ == ty_vars(*a_ty),
                vars_in_range(vars@, self.num_vars_spec()),
                self.wf(),
                self.flow_cs() == old(self).flow_cs() + flow_triples(
                    vars@.subrange(0, i as int),
                    a_point,
                    b_point,
                ),
                self.num_vars_spec() == old(self).num_vars_spec(),
                self.use_cs() == old(self).use_cs(),
                self.outlive_cs() == old(self).outlive_cs(),
                self.name_entries() == old(self).name_entries(),
                self.eq_asserts() == old(self).eq_asserts(),
                self.in_asserts() == old(self).in_asserts(),
        {
            let v = vars[i];
            let ghost pre = *self;
            self.flow_constraints.push((v, a_point, b_point));
            proof {
                assert(self.flow_cs() == pre.flow_cs().push((v, a_point, b_point)));
                assert(self.flow_cs() =~= old(self).flow_cs() + flow_triples(
                    vars@.subrange(0, i + 1),
                    a_point,
                    b_point,
                ));
                assert forall|k: int| 0 <= k < self.flow_cs().len() implies (
                #[trigger] self.flow_cs()[k]).0.index < self.num_vars_spec() by {
                    if k < pre.flow_cs().len() {
                        assert(self.flow_cs()[k] == pre.flow_cs()[k]);
                    } else {
                        assert(vars@[i as int].index < self.num_vars_spec());
                    }
                }
            }
        }
        proof {
            assert(vars@.subrange(0, n as int) == vars@);
        }
    }

    /// Creates the constraints such that `a_ty` is a subtype of `b_ty`.
    /// Both types must instantiate a common erased skeleton, so their
    /// region-variable occurrences line up positionally; an aligned pair
    /// of identical variables would be a forbidden self-outlives
    /// constraint and is rejected up front. All region arguments are
    /// treated as contravariant: a fixed, documented simplification, not
    /// full variance inference.
    pub fn subtype(&mut self, a_ty: &Ty, b_ty: &Ty)
        requires
            old(self).wf(),
            vars_in_range(ty_vars(*a_ty), old(self).num_vars_spec()),
            vars_in_range(ty_vars(*b_ty), old(self).num_vars_spec()),
            ty_vars(*a_ty).len() == ty_vars(*b_ty).len(),
            forall|i: int|
                0 <= i < ty_vars(*a_ty).len() ==> (#[trigger] ty_vars(*a_ty)[i]) != ty_vars(
                    *b_ty,
                )[i],
        ensures
            final(self).wf(),
            final(self).outlive_cs() == old(self).outlive_cs() + outlive_pairs(
                ty_vars(*a_ty),
                ty_vars(*b_ty),
            ),
            final(self).num_vars_spec() == old(self).num_vars_spec(),
            final(self).use_cs() == old(self).use_cs(),
            final(self).flow_cs() == old(self).flow_cs(),
            final(self).name_entries() == old(self).name_entries(),
            final(self).eq_asserts() == old(self).eq_asserts(),
            final(self).in_asserts() == old(self).in_asserts(),
    {
        let mut a_vars: Vec<RegionVariable> = Vec::new();
        for_each_region_variable(a_ty, &mut a_vars);
        let mut b_vars: Vec<RegionVariable> = Vec::new();
        for_each_region_variable(b_ty, &mut b_vars);
        let n = a_vars.len();
        for i in 0..n
            invariant
                n == a_vars@.len(),
                a_vars@ == ty_vars(*a_ty),
                b_vars@ == ty_vars(*b_ty),
                a_vars@.len() == b_vars@.len(),
                vars_in_range(a_vars@, self.num_vars_spec()),
                vars_in_range(b_vars@, self.num_vars_spec()),
                forall|k: int| 0 <= k < n ==> (#[trigger] a_vars@[k]) != b_vars@[k],
                self.wf(),
                self.outlive_cs() == old(self).outlive_cs() + outlive_pairs(
                    a_vars@.subrange(0, i as int),
                    b_vars@.subrange(0, i as int),
                ),
                self.num_vars_spec() == old(self).num_vars_spec(),
                self.use_cs() == old(self).use_cs(),
                self.flow_cs() == old(self).flow_cs(),
                self.name_entries() == old(self).name_entries(),
                self.eq_asserts() == old(self).eq_asserts(),
                self.in_asserts() == old(self).in_asserts(),
        {
            let a = a_vars[i];
            let b = b_vars[i];
            let ghost pre = *self;
            self.outlive_constraints.push((a, b));
            proof {
                assert(self.outlive_cs() == pre.outlive_cs().push((a, b)));
                assert(self.outlive_cs() =~= old(self).outlive_cs() + outlive_pairs(
                    a_vars@.subrange(0, i + 1),
                    b_vars@.subrange(0, i + 1),
                ));
                assert forall|k: int| 0 <= k < self.outlive_cs().len() implies (
                #[trigger] self.outlive_cs()[k]).0.index < self.num_vars_spec()
                    && self.outlive_cs()[k].1.index < self.num_vars_spec()
                    && self.outlive_cs()[k].0 != self.outlive_cs()[k].1 by {
                    if k < pre.outlive_cs().len() {
                        assert(self.outlive_cs()[k] == pre.outlive_cs()[k]);
                    } else {
                        assert(a_vars@[i as int].index < self.num_vars_spec());
                        assert(b_vars@[i as int].index < self.num_vars_spec());
                        assert(a_vars@[i as int] != b_vars@[i as int]);
                    }
                }
            }
        }
        proof {
            assert(a_vars@.subrange(0, n as int) == a_vars@);
            assert(b_vars@.subrange(0, n as int) == b_vars@);
        }
    }

    /// Binds the user-visible name `rn` to every region variable of
    /// `ty`, appending to any variables already bound to that name: one
    /// surface name can recur across several instantiations.
    pub fn user_names(&mut self, rn: RegionName, ty: &Ty)
        requires
            old(self).wf(),
            vars_in_range(ty_vars(*ty), old(self).num_vars_spec()),
        ensures
            final(self).wf(),
            final(self).name_entries() == old(self).name_entries().push((rn, ty_vars(*ty))),
            lookup_vars(final(self).name_entries(), rn) == lookup_vars(
                old(self).name_entries(),
                rn,
            ) + ty_vars(*ty),
            forall|n2: RegionName|
                n2 != rn ==> lookup_vars(final(self).name_entries(), n2) == lookup_vars(
                    old(self).name_entries(),
                    n2,
                ),
            final(self).num_vars_spec() == old(self).num_vars_spec(),
            final(self).use_cs() == old(self).use_cs(),
            final(self).flow_cs() == old(self).flow_cs(),
            final(self).outlive_cs() == old(self).outlive_cs(),
            final(self).eq_asserts() == old(self).eq_asserts(),
            final(self).in_asserts() == old(self).in_asserts(),
    {
        let mut vars: Vec<RegionVariable> = Vec::new();
        for_each_region_variable(ty, &mut vars);
        let ghost pre = *self;
        self.user_region_names.push((rn, vars));
        proof {
            assert(self.name_entries() =~= pre.name_entries().push((rn, ty_vars(*ty))));
            lemma_push_drop_last(pre.name_entries(), (rn, ty_vars(*ty)));
            assert(lookup_vars(self.name_entries(), rn) == lookup_vars(pre.name_entries(), rn)
                + ty_vars(*ty));
            assert forall|n2: RegionName| n2 != rn implies lookup_vars(self.name_entries(), n2)
                == lookup_vars(pre.name_entries(), n2) by {
                assert(lookup_vars(self.name_entries(), n2) =~= lookup_vars(
                    pre.name_entries(),
                    n2,
                ));
            }
            assert forall|i: int| 0 <= i < self.name_entries().len() implies vars_in_range(
                (#[trigger] self.name_entries()[i]).1,
                self.num_vars_spec(),
            ) by {
                if i < pre.name_entries().len() {
                    assert(self.name_entries()[i] == pre.name_entries()[i]);
                } else {
                    assert(self.name_entries()[i].1 == ty_vars(*ty));
                }
            }
            assert forall|i: int| 0 <= i < self.use_cs().len() implies (
            #[trigger] self.use_cs()[i]).0.index < self.num_vars_spec() by {
                assert(self.use_cs()[i] == pre.use_cs()[i]);
            }
            assert forall|i: int| 0 <= i < self.flow_cs().len() implies (
            #[trigger] self.flow_cs()[i]).0.index < self.num_vars_spec() by {
                assert(self.flow_cs()[i] == pre.flow_cs()[i]);
            }
            assert forall|i: int| 0 <= i < self.outlive_cs().len() implies (
            #[trigger] self.outlive_cs()[i]).0.index < self.num_vars_spec()
                && self.outlive_cs()[i].1.index < self.num_vars_spec() && self.outlive_cs()[i].0
                != self.outlive_cs()[i].1 by {
                assert(self.outlive_cs()[i] == pre.outlive_cs()[i]);
            }
        }
    }

    /// Registers the expectation that, after solving, every variable
    /// bound to `name` equals `region` exactly. The name must already be
    /// bound: an assertion on an unbound name is a caller error.
    pub fn assert_region_eq(&mut self, name: RegionName, region: Region)
        requires
            old(self).wf(),
            lookup_vars(old(self).name_entries(), name).len() > 0,
        ensures
            final(self).wf(),
            final(self).eq_asserts() == old(self).eq_asserts().push((name, region)),
            final(self).num_vars_spec() == old(self).num_vars_spec(),
            final(self).use_cs() == old(self).use_cs(),
            final(self).flow_cs() == old(self).flow_cs(),
            final(self).outlive_cs() == old(self).outlive_cs(),
            final(self).name_entries() == old(self).name_entries(),
            final(self).in_asserts() == old(self).in_asserts(),
    {
        let ghost pre = *self;
        self.region_eq_assertions.push((name, region));
        proof {
            lemma_wf_same(pre, *self);
        }
    }

    /// Registers the expectation that, after solving, every variable
    /// bound to `name` contains (`expected == true`) or omits
    /// (`expected == false`) the point. The name must already be bound.
    pub fn assert_region_contains(&mut self, name: RegionName, point: Point, expected: bool)
        requires
            old(self).wf(),
            lookup_vars(old(self).name_entries(), name).len() > 0,
        ensures
            final(self).wf(),
            final(self).in_asserts() == old(self).in_asserts().push((name, point, expected)),
            final(self).num_vars_spec() == old(self).num_vars_spec(),
            final(self).use_cs() == old(self).use_cs(),
            final(self).flow_cs() == old(self).flow_cs(),
            final(self).outlive_cs() == old(self).outlive_cs(),
            final(self).name_entries() == old(self).name_entries(),
            final(self).eq_asserts() == old(self).eq_asserts(),
    {
        let ghost pre = *self;
        self.region_in_assertions.push((name, point, expected));
        proof {
            lemma_wf_same(pre, *self);
        }
    }
}



/// The views of a table of regions.
pub open spec fn region_views(rs: Seq<Region>) -> Seq<Set<Point>> {
    rs.map_values(|r: Region| r@)
}

/// Every point that solving may ever put into a region: the points of
/// the use constraints and the source points of the flow constraints.
pub open spec fn source_points(m: RegionMap) -> Seq<Point> {
    m.use_cs().map_values(|c: (RegionVariable, Point)| c.1) + m.flow_cs().map_values(
        |c: (RegionVariable, Point, Point)| c.1,
    )
}

/// Does the table satisfy use constraint `j`?
pub open spec fn use_ok_at(m: RegionMap, w: Seq<Set<Point>>, j: int) -> bool {
    w[m.use_cs()[j].0.index as int].contains(m.use_cs()[j].1)
}

/// Does the table satisfy flow constraint `j`: if the region holds the
/// target point it also holds the source point?
pub open spec fn flow_ok_at(m: RegionMap, w: Seq<Set<Point>>, j: int) -> bool {
    w[m.flow_cs()[j].0.index as int].contains(m.flow_cs()[j].2) ==> w[m.flow_cs()[j].0.index
        as int].contains(m.flow_cs()[j].1)
}

/// Does the table satisfy outlives constraint `j`: the subsumed
/// region's points all lie in the subsuming region?
pub open spec fn outl_ok_at(m: RegionMap, w: Seq<Set<Point>>, j: int) -> bool {
    w[m.outlive_cs()[j].1.index as int] <= w[m.outlive_cs()[j].0.index as int]
}

/// All use constraints hold.
pub open spec fn use_satisfied(m: RegionMap, w: Seq<Set<Point>>) -> bool {
    forall|j: int| 0 <= j < m.use_cs().len() ==> #[trigger] use_ok_at(m, w, j)
}

/// All flow constraints hold.
pub open spec fn flow_closed(m: RegionMap, w: Seq<Set<Point>>) -> bool {
    forall|j: int| 0 <= j < m.flow_cs().len() ==> #[trigger] flow_ok_at(m, w, j)
}

/// All outlives constraints hold.
pub open spec fn outl_closed(m: RegionMap, w: Seq<Set<Point>>) -> bool {
    forall|j: int| 0 <= j < m.outlive_cs().len() ==> #[trigger] outl_ok_at(m, w, j)
}

/// Is `w` a solution of the store: one set per variable, satisfying
/// every use, flow and outlives constraint? A solution is exactly a
/// fixed point of the solve step: re-applying any rule changes nothing.
pub open spec fn sets_satisfy(m: RegionMap, w: Seq<Set<Point>>) -> bool {
    &&& w.len() == m.num_vars_spec()
    &&& use_satisfied(m, w)
    &&& flow_closed(m, w)
    &&& outl_closed(m, w)
}

/// Is each set of `a` included in the corresponding set of `b`?
pub open spec fn pointwise_le(a: Seq<Set<Point>>, b: Seq<Set<Point>>) -> bool {
    forall|i: int| 0 <= i < a.len() ==> (#[trigger] a[i]) <= b[i]
}

/// Is `w` below every solution of the store? Together with
/// `sets_satisfy` this pins the least fixed point: the unique table the
/// solver must produce, whatever order it processes constraints in.
pub open spec fn minimal_solution(m: RegionMap, w: Seq<Set<Point>>) -> bool {
    forall|w2: Seq<Set<Point>>| #[trigger] sets_satisfy(m, w2) ==> pointwise_le(w, w2)
}

/// The solver's internal invariant: a table of the right shape, with
/// well-formed regions drawn from the store's source points, that is
/// below every solution.
spec fn solver_inv(m: RegionMap, rs: Seq<Region>) -> bool {
    &&& rs.len() == m.num_vars_spec()
    &&& forall|k: int| 0 <= k < rs.len() ==> (#[trigger] rs[k]).wf()
    &&& forall|k: int| 0 <= k < rs.len() ==> (#[trigger] rs[k])@ <= source_points(m).to_set()
    &&& minimal_solution(m, region_views(rs))
}

/// Every region of a table obeying the solver invariant is bounded by
/// the number of source points, so the total size is bounded too.
proof fn lemma_solver_bound(m: RegionMap, rs: Seq<Region>)
    requires
        forall|k: int| 0 <= k < rs.len() ==> (#[trigger] rs[k]).wf(),
        forall|k: int| 0 <= k < rs.len() ==> (#[trigger] rs[k])@ <= source_points(m).to_set(),
    ensures
        total_size(rs) <= rs.len() * source_points(m).len(),
{
    broadcast use seq_to_set_is_finite;

    source_points(m).lemma_cardinality_of_set();
    assert forall|k: int| 0 <= k < rs.len() implies (#[trigger] rs[k].size()) <= source_points(
        m,
    ).len() by {
        lemma_region_size_bounded(rs[k], source_points(m).to_set(), source_points(m).len());
    }
    lemma_total_size_bound(rs, source_points(m).len());
}

/// One growth step at index `ai` preserves the solver invariant, the
/// already-satisfied use constraints, and only ever enlarges sets,
/// provided every added point is forced into `w2[ai]` by every
/// solution `w2`.
proof fn lemma_step_preserve(m: RegionMap, pre: Seq<Region>, post: Seq<Region>, ai: int)
    requires
        solver_inv(m, pre),
        0 <= ai < pre.len(),
        post == pre.update(ai, post[ai]),
        post[ai].wf(),
        pre[ai]@ <= post[ai]@,
        post[ai]@ <= source_points(m).to_set() || (post[ai]@ - pre[ai]@) <= source_points(
            m,
        ).to_set(),
        forall|w2: Seq<Set<Point>>| #[trigger] sets_satisfy(m, w2) ==> (post[ai]@ - pre[ai]@)
            <= w2[ai],
    ensures
        solver_inv(m, post),
        forall|k: int|
            0 <= k < pre.len() ==> (#[trigger] region_views(pre)[k]) <= region_views(post)[k],
{
    assert(post.len() == pre.len());
    assert forall|k: int| 0 <= k < post.len() implies (#[trigger] post[k]).wf() by {
        if k != ai {
            assert(post[k] == pre[k]);
        }
    }
    assert forall|k: int|
        0 <= k < pre.len() implies (#[trigger] region_views(pre)[k]) <= region_views(post)[k] by {
        if k != ai {
            assert(post[k] == pre[k]);
        }
    }
    assert forall|k: int| 0 <= k < post.len() implies (#[trigger] post[k])@ <= source_points(
        m,
    ).to_set() by {
        if k == ai {
            assert forall|p: Point| post[ai]@.contains(p) implies source_points(
                m,
            ).to_set().contains(p) by {
                if pre[ai]@.contains(p) {
                    assert(pre[ai]@ <= source_points(m).to_set());
                } else {
                    assert((post[ai]@ - pre[ai]@).contains(p));
                }
            }
        } else {
            assert(post[k] == pre[k]);
        }
    }
    assert forall|w2: Seq<Set<Point>>| #[trigger] sets_satisfy(m, w2) implies pointwise_le(
        region_views(post),
        w2,
    ) by {
        assert(pointwise_le(region_views(pre), w2));
        assert forall|k: int| 0 <= k < post.len() implies (#[trigger] region_views(post)[k])
            <= w2[k] by {
            assert(region_views(pre)[k] <= w2[k]);
            if k == ai {
                assert forall|p: Point| post[ai]@.contains(p) implies w2[ai].contains(p) by {
                    if pre[ai]@.contains(p) {
                        assert(pre[ai]@ <= w2[ai]);
                    } else {
                        assert((post[ai]@ - pre[ai]@).contains(p));
                        assert((post[ai]@ - pre[ai]@) <= w2[ai]);
                    }
                }
            } else {
                assert(post[k] == pre[k]);
            }
        }
    }
}

/// The fixed-point computation: applies every use constraint once, then
/// iterates full passes over the flow and outlives constraints until a
/// pass changes no region. Regions only grow, and each non-final pass
/// strictly grows at least one region, so the loop terminates.
fn find(m: &RegionMap, values: &mut Vec<Region>)
    requires
        m.wf(),
        old(values)@.len() == 0,
    ensures
        forall|k: int| 0 <= k < final(values)@.len() ==> (#[trigger] final(values)@[k]).wf(),
        sets_satisfy(*m, region_views(final(values)@)),
        minimal_solution(*m, region_views(final(values)@)),
{
    let nv = m.num_vars;
    for i in 0..nv
        invariant
            values@.len() == i,
            forall|k: int| 0 <= k < i ==> (#[trigger] values@[k]).wf(),
            forall|k: int| 0 <= k < i ==> (#[trigger] values@[k])@ == Set::<Point>::empty(),
            forall|k: int| 0 <= k < i ==> (#[trigger] values@[k]).size() == 0,
    {
        values.push(Region::new());
    }
    proof {
        assert(nv == m.num_vars_spec());
        assert forall|w2: Seq<Set<Point>>| #[trigger] sets_satisfy(*m, w2) implies pointwise_le(
            region_views(values@),
            w2,
        ) by {
            assert forall|k: int| 0 <= k < values@.len() implies (
            #[trigger] region_views(values@)[k]) <= w2[k] by {
                assert(values@[k]@ == Set::<Point>::empty());
            }
        }
        assert(solver_inv(*m, values@));
    }
    // Apply all use constraints once, unconditionally.
    let n_use = m.use_constraints.len();
    for i in 0..n_use
        invariant
            n_use == m.use_cs().len(),
            m.wf(),
            solver_inv(*m, values@),
            forall|j: int| 0 <= j < i ==> #[trigger] use_ok_at(*m, region_views(values@), j),
    {
        let c = m.use_constraints[i];
        let ghost pre = values@;
        let var = c.0;
        let p = c.1;
        let grew = values[var.index].add_point(p);
        proof {
            let ai = var.index as int;
            assert(values@ == pre.update(ai, values@[ai]));
            assert(values@[ai]@ == pre[ai]@.insert(p));
            assert(pre[ai]@ <= values@[ai]@);
            assert((values@[ai]@ - pre[ai]@) <= Set::<Point>::empty().insert(p));
            assert(source_points(*m)[i as int] == p);
            assert(source_points(*m).to_set().contains(p));
            assert forall|w2: Seq<Set<Point>>| #[trigger] sets_satisfy(*m, w2) implies (
            values@[ai]@ - pre[ai]@) <= w2[ai] by {
                assert(use_ok_at(*m, w2, i as int));
                assert(w2[ai].contains(p));
            }
            lemma_step_preserve(*m, pre, values@, ai);
            assert forall|j: int| 0 <= j < i + 1 implies #[trigger] use_ok_at(
                *m,
                region_views(values@),
                j,
            ) by {
                let xj = m.use_cs()[j].0.index as int;
                if j < i {
                    assert(use_ok_at(*m, region_views(pre), j));
                    assert(region_views(pre)[xj] <= region_views(values@)[xj]);
                } else {
                    assert(values@[ai]@.contains(p));
                }
            }
        }
    }
    // Iterate flow and outlives passes to a fixed point.
    let n_flow = m.flow_constraints.len();
    let n_outl = m.outlive_constraints.len();
    let mut changed = true;
    while changed
        invariant
            n_flow == m.flow_cs().len(),
            n_outl == m.outlive_cs().len(),
            m.wf(),
            solver_inv(*m, values@),
            use_satisfied(*m, region_views(values@)),
            !changed ==> flow_closed(*m, region_views(values@)) && outl_closed(
                *m,
                region_views(values@),
            ),
        decreases
                values@.len() * source_points(*m).len() - total_size(values@),
                (if changed {
                    1int
                } else {
                    0int
                }),
    {
        proof {
            lemma_solver_bound(*m, values@);
        }
        changed = false;
        let ghost m0 = values@;
        for i in 0..n_flow
            invariant
                n_flow == m.flow_cs().len(),
                n_outl == m.outlive_cs().len(),
                m.wf(),
                solver_inv(*m, values@),
                use_satisfied(*m, region_views(values@)),
                values@.len() == m0.len(),
                total_size(values@) >= total_size(m0),
                total_size(values@) <= values@.len() * source_points(*m).len(),
                changed ==> total_size(values@) > total_size(m0),
                !changed ==> values@ == m0,
                !changed ==> forall|j: int|
                    0 <= j < i ==> #[trigger] flow_ok_at(*m, region_views(values@), j),
        {
            let c = m.flow_constraints[i];
            let var = c.0;
            let from = c.1;
            let to = c.2;
            if values[var.index].contains(to) {
                let ghost pre = values@;
                let grew = values[var.index].add_point(from);
                proof {
                    let ai = var.index as int;
                    assert(values@ == pre.update(ai, values@[ai]));
                    lemma_total_size_update(pre, ai, values@[ai]);
                    assert((values@[ai]@ - pre[ai]@) <= Set::<Point>::empty().insert(from));
                    assert(source_points(*m)[m.use_cs().len() + i] == from);
                    assert(source_points(*m).to_set().contains(from));
                    assert forall|w2: Seq<Set<Point>>| #[trigger] sets_satisfy(*m, w2) implies (
                    values@[ai]@ - pre[ai]@) <= w2[ai] by {
                        assert(pointwise_le(region_views(pre), w2));
                        assert(region_views(pre)[ai] <= w2[ai]);
                        assert(w2[ai].contains(to));
                        assert(flow_ok_at(*m, w2, i as int));
                    }
                    lemma_step_preserve(*m, pre, values@, ai);
                    assert forall|j: int| 0 <= j < m.use_cs().len() implies #[trigger] use_ok_at(
                        *m,
                        region_views(values@),
                        j,
                    ) by {
                        let xj = m.use_cs()[j].0.index as int;
                        assert(use_ok_at(*m, region_views(pre), j));
                        assert(region_views(pre)[xj] <= region_views(values@)[xj]);
                    }
                    lemma_solver_bound(*m, values@);
                    if grew {
                        assert(values@[ai].size() > pre[ai].size());
                    } else {
                        assert(values@ =~= pre);
                    }
                }
                changed = changed || grew;
                proof {
                    if !changed {
                        assert(values@ == m0);
                        assert forall|j: int| 0 <= j < i + 1 implies #[trigger] flow_ok_at(
                            *m,
                            region_views(values@),
                            j,
                        ) by {
                            if j == i {
                                assert(values@[var.index as int]@.contains(from));
                            }
                        }
                    }
                }
            } else {
                proof {
                    if !changed {
                        assert forall|j: int| 0 <= j < i + 1 implies #[trigger] flow_ok_at(
                            *m,
                            region_views(values@),
                            j,
                        ) by {
                            if j == i {
                                assert(!region_views(values@)[var.index as int].contains(to));
                            }
                        }
                    }
                }
            }
        }
        let ghost after_flow = values@;
        for i in 0..n_outl
            invariant
                n_outl == m.outlive_cs().len(),
                m.wf(),
                solver_inv(*m, values@),
                use_satisfied(*m, region_views(values@)),
                values@.len() == m0.len(),
                total_size(values@) >= total_size(m0),
                total_size(values@) <= values@.len() * source_points(*m).len(),
                changed ==> total_size(values@) > total_size(m0),
                !changed ==> values@ == m0 && flow_closed(*m, region_views(values@)),
                !changed ==> forall|j: int|
                    0 <= j < i ==> #[trigger] outl_ok_at(*m, region_views(values@), j),
        {
            let c = m.outlive_constraints[i];
            let a = c.0;
            let b = c.1;
            let dup = values[b.index].duplicate();
            let ghost pre = values@;
            let grew = values[a.index].add_region(&dup);
            proof {
                let ai = a.index as int;
                let bi = b.index as int;
                assert(values@ == pre.update(ai, values@[ai]));
                lemma_total_size_update(pre, ai, values@[ai]);
                assert(values@[ai]@ == pre[ai]@ + pre[bi]@);
                assert((values@[ai]@ - pre[ai]@) <= pre[bi]@);
                assert(pre[bi]@ <= source_points(*m).to_set());
                assert forall|w2: Seq<Set<Point>>| #[trigger] sets_satisfy(*m, w2) implies (
                values@[ai]@ - pre[ai]@) <= w2[ai] by {
                    assert(pointwise_le(region_views(pre), w2));
                    assert(region_views(pre)[bi] <= w2[bi]);
                    assert(outl_ok_at(*m, w2, i as int));
                    assert(w2[bi] <= w2[ai]);
                }
                lemma_step_preserve(*m, pre, values@, ai);
                assert forall|j: int| 0 <= j < m.use_cs().len() implies #[trigger] use_ok_at(
                    *m,
                    region_views(values@),
                    j,
                ) by {
                    let xj = m.use_cs()[j].0.index as int;
                    assert(use_ok_at(*m, region_views(pre), j));
                    assert(region_views(pre)[xj] <= region_views(values@)[xj]);
                }
                lemma_solver_bound(*m, values@);
                if grew {
                    assert(values@[ai].size() > pre[ai].size());
                } else {
                    assert(values@ =~= pre);
                }
            }
            changed = changed || grew;
            proof {
                if !changed {
                    assert(values@ == m0);
                    assert forall|j: int| 0 <= j < m.flow_cs().len() implies #[trigger] flow_ok_at(
                        *m,
                        region_views(values@),
                        j,
                    ) by {
                        assert(flow_ok_at(*m, region_views(m0), j));
                    }
                    assert forall|j: int| 0 <= j < i + 1 implies #[trigger] outl_ok_at(
                        *m,
                        region_views(values@),
                        j,
                    ) by {
                        if j == i {
                            assert(values@[a.index as int]@ == pre[a.index as int]@ + dup@);
                        }
                    }
                }
            }
        }
    }
}



/// The solved regions: one per variable of the store, produced by the
/// fixed-point computation, plus read access and assertion checking.
/// The solution borrows the store read-only and owns its region table.
pub struct RegionSolution<'m> {
    region_map: &'m RegionMap,
    values: Vec<Region>,
}

impl<'m> RegionSolution<'m> {
    /// The store this solution was computed from.
    pub closed spec fn map_spec(self) -> RegionMap {
        *self.region_map
    }

    /// The solved region of each variable, as a set of points.
    pub closed spec fn value_sets(self) -> Seq<Set<Point>> {
        region_views(self.values@)
    }

    /// The solution is the least table satisfying every constraint of a
    /// well-formed store.
    pub closed spec fn wf(self) -> bool {
        &&& self.region_map.wf()
        &&& forall|k: int| 0 <= k < self.values@.len() ==> (#[trigger] self.values@[k]).wf()
        &&& sets_satisfy(*self.region_map, region_views(self.values@))
        &&& minimal_solution(*self.region_map, region_views(self.values@))
    }

    /// Solves the store: allocates one empty region per variable and
    /// runs the fixed-point computation, producing the unique least
    /// solution of the store's constraints.
    pub fn new(region_map: &'m RegionMap) -> (s: Self)
        requires
            region_map.wf(),
        ensures
            s.wf(),
            s.map_spec() == *region_map,
            sets_satisfy(*region_map, s.value_sets()),
            minimal_solution(*region_map, s.value_sets()),
    {
        let mut values: Vec<Region> = Vec::new();
        find(region_map, &mut values);
        RegionSolution { region_map, values }
    }

    /// Read access to one solved region, valid for the solution's
    /// lifetime.
    pub fn region(&self, var: RegionVariable) -> (r: &Region)
        requires
            self.wf(),
            var.index < self.map_spec().num_vars_spec(),
        ensures
            r@ == self.value_sets()[var.index as int],
            r.wf(),
    {
        &self.values[var.index]
    }
}

impl RegionMap {
    /// Hands the frozen store to a solver instance.
    pub fn solve<'m>(&'m self) -> (s: RegionSolution<'m>)
        requires
            self.wf(),
        ensures
            s.wf(),
            s.map_spec() == *self,
            sets_satisfy(*self, s.value_sets()),
            minimal_solution(*self, s.value_sets()),
    {
        RegionSolution::new(self)
    }
}


/// One failed assertion, with enough structured detail for a caller to
/// render a diagnostic; the engine itself formats nothing.
pub enum CheckError {
    /// A region-equals assertion failed: the named variable's solved
    /// region differs from the expected region.
    RegionEq { name: RegionName, var: RegionVariable, expected: Region, actual: Region },
    /// A region-contains assertion failed: the named variable's solved
    /// region contains the point iff it should not.
    RegionContains { name: RegionName, var: RegionVariable, point: Point, expected: bool },
}

/// The ghost content of one reported error: regions as sets of points.
pub enum ErrDesc {
    Eq { name: RegionName, var: RegionVariable, expected: Set<Point>, actual: Set<Point> },
    Contains { name: RegionName, var: RegionVariable, point: Point, expected: bool },
}

/// What one reported error says.
pub open spec fn err_desc(e: CheckError) -> ErrDesc {
    match e {
        CheckError::RegionEq { name, var, expected, actual } => ErrDesc::Eq {
            name,
            var,
            expected: expected@,
            actual: actual@,
        },
        CheckError::RegionContains { name, var, point, expected } => ErrDesc::Contains {
            name,
            var,
            point,
            expected,
        },
    }
}

/// What a whole report says.
pub open spec fn descs(es: Seq<CheckError>) -> Seq<ErrDesc> {
    es.map_values(|e: CheckError| err_desc(e))
}

/// The region-equals failures of one assertion, over the variables
/// bound to its name, in binding order.
pub open spec fn eq_failures_vars(
    name: RegionName,
    expected: Set<Point>,
    vars: Seq<RegionVariable>,
    w: Seq<Set<Point>>,
) -> Seq<ErrDesc>
    decreases vars,
{
    if vars.len() == 0 {
        Seq::empty()
    } else {
        eq_failures_vars(name, expected, vars.drop_last(), w) + (if w[vars.last().index as int]
            == expected {
            Seq::empty()
        } else {
            seq![ErrDesc::Eq {
                name,
                var: vars.last(),
                expected,
                actual: w[vars.last().index as int],
            }]
        })
    }
}

/// The failures of all region-equals assertions, in registration order.
pub open spec fn eq_failures(
    asserts: Seq<(RegionName, Region)>,
    entries: Seq<(RegionName, Seq<RegionVariable>)>,
    w: Seq<Set<Point>>,
) -> Seq<ErrDesc>
    decreases asserts,
{
    if asserts.len() == 0 {
        Seq::empty()
    } else {
        eq_failures(asserts.drop_last(), entries, w) + eq_failures_vars(
            asserts.last().0,
            asserts.last().1@,
            lookup_vars(entries, asserts.last().0),
            w,
        )
    }
}

/// The region-contains failures of one assertion, over the variables
/// bound to its name. A point that is present though it should be
/// absent is a failure exactly as one that is absent though it should
/// be present.
pub open spec fn in_failures_vars(
    name: RegionName,
    point: Point,
    expected: bool,
    vars: Seq<RegionVariable>,
    w: Seq<Set<Point>>,
) -> Seq<ErrDesc>
    decreases vars,
{
    if vars.len() == 0 {
        Seq::empty()
    } else {
        in_failures_vars(name, point, expected, vars.drop_last(), w) + (if w[vars.last().index
            as int].contains(point) == expected {
            Seq::empty()
        } else {
            seq![ErrDesc::Contains { name, var: vars.last(), point, expected }]
        })
    }
}

/// The failures of all region-contains assertions, in registration
/// order.
pub open spec fn in_failures(
    asserts: Seq<(RegionName, Point, bool)>,
    entries: Seq<(RegionName, Seq<RegionVariable>)>,
    w: Seq<Set<Point>>,
) -> Seq<ErrDesc>
    decreases asserts,
{
    if asserts.len() == 0 {
        Seq::empty()
    } else {
        in_failures(asserts.drop_last(), entries, w) + in_failures_vars(
            asserts.last().0,
            asserts.last().1,
            asserts.last().2,
            lookup_vars(entries, asserts.last().0),
            w,
        )
    }
}

/// Every failure the checker must report for store `m` and solved
/// table `w`: the region-equals failures, then the region-contains
/// failures.
pub open spec fn all_failures(m: RegionMap, w: Seq<Set<Point>>) -> Seq<ErrDesc> {
    eq_failures(m.eq_asserts(), m.name_entries(), w) + in_failures(
        m.in_asserts(),
        m.name_entries(),
        w,
    )
}

/// Variables looked up from well-formed entries are allocated.
proof fn lemma_lookup_in_range(
    entries: Seq<(RegionName, Seq<RegionVariable>)>,
    name: RegionName,
    n: nat,
)
    requires
        forall|i: int| 0 <= i < entries.len() ==> vars_in_range((#[trigger] entries[i]).1, n),
    ensures
        vars_in_range(lookup_vars(entries, name), n),
    decreases entries.len(),
{
    if entries.len() == 0 {
    } else {
        assert forall|i: int| 0 <= i < entries.drop_last().len() implies vars_in_range(
            (#[trigger] entries.drop_last()[i]).1,
            n,
        ) by {
            assert(entries.drop_last()[i] == entries[i]);
        }
        lemma_lookup_in_range(entries.drop_last(), name, n);
        assert(vars_in_range(entries[entries.len() - 1].1, n));
        let l = lookup_vars(entries, name);
        let a = lookup_vars(entries.drop_last(), name);
        assert forall|i: int| 0 <= i < l.len() implies (#[trigger] l[i]).index < n by {
            if i < a.len() {
                assert(l[i] == a[i]);
            } else {
                assert(entries.last().0 == name);
                assert(l[i] == entries.last().1[i - a.len()]);
            }
        }
    }
}

/// Collects every variable bound to `name`, in binding order.
fn collect_name_vars(m: &RegionMap, name: RegionName) -> (vs: Vec<RegionVariable>)
    ensures
        vs@ == lookup_vars(m.name_entries(), name),
{
    let mut vs: Vec<RegionVariable> = Vec::new();
    let n = m.user_region_names.len();
    for e in 0..n
        invariant
            n == m.name_entries().len(),
            vs@ == lookup_vars(m.name_entries().subrange(0, e as int), name),
    {
        let ghost prefix = m.name_entries().subrange(0, e as int);
        let ghost pre_vs = vs@;
        if m.user_region_names[e].0 == name {
            let k = m.user_region_names[e].1.len();
            for j in 0..k
                invariant
                    0 <= e < m.name_entries().len(),
                    k == m.name_entries()[e as int].1.len(),
                    vs@ == pre_vs + m.name_entries()[e as int].1.subrange(0, j as int),
            {
                vs.push(m.user_region_names[e].1[j]);
                proof {
                    assert(m.name_entries()[e as int].1.subrange(0, j + 1)
                        =~= m.name_entries()[e as int].1.subrange(0, j as int).push(
                        m.name_entries()[e as int].1[j as int],
                    ));
                    assert(vs@ =~= pre_vs + m.name_entries()[e as int].1.subrange(0, j + 1));
                }
            }
            proof {
                assert(m.name_entries()[e as int].1.subrange(
                    0,
                    m.name_entries()[e as int].1.len() as int,
                ) == m.name_entries()[e as int].1);
            }
        }
        proof {
            assert(m.name_entries().subrange(0, e + 1) =~= prefix.push(
                m.name_entries()[e as int],
            ));
            lemma_push_drop_last(prefix, m.name_entries()[e as int]);
            assert(vs@ =~= lookup_vars(m.name_entries().subrange(0, e + 1), name));
        }
    }
    proof {
        assert(m.name_entries().subrange(0, m.name_entries().len() as int) == m.name_entries());
    }
    vs
}


impl<'m> RegionSolution<'m> {
    /// Evaluates every stored assertion against the solved regions and
    /// returns one structured entry per failing (assertion, variable)
    /// pair, in registration order: first the region-equals failures,
    /// then the region-contains failures. An unexpected presence is
    /// reported exactly as an unexpected absence.
    pub fn check_report(&self) -> (r: Vec<CheckError>)
        requires
            self.wf(),
        ensures
            descs(r@) == all_failures(self.map_spec(), self.value_sets()),
    {
        let m = self.region_map;
        let ghost w = region_views(self.values@);
        let mut out: Vec<CheckError> = Vec::new();
        let n_eq = m.region_eq_assertions.len();
        for i in 0..n_eq
            invariant
                self.wf(),
                m == self.region_map,
                w == region_views(self.values@),
                n_eq == m.eq_asserts().len(),
                descs(out@) == eq_failures(m.eq_asserts().subrange(0, i as int), m.name_entries(), w),
        {
            let ghost prefix = m.eq_asserts().subrange(0, i as int);
            let entry = &m.region_eq_assertions[i];
            let name = entry.0;
            let expected = &entry.1;
            let vars = collect_name_vars(m, name);
            proof {
                lemma_lookup_in_range(m.name_entries(), name, m.num_vars_spec());
            }
            let nv = vars.len();
            for j in 0..nv
                invariant
                    self.wf(),
                    m == self.region_map,
                    w == region_views(self.values@),
                    nv == vars@.len(),
                    vars@ == lookup_vars(m.name_entries(), name),
                    vars_in_range(vars@, m.num_vars_spec()),
                    name == m.eq_asserts()[i as int].0,
                    *expected == m.eq_asserts()[i as int].1,
                    0 <= i < m.eq_asserts().len(),
                    prefix == m.eq_asserts().subrange(0, i as int),
                    descs(out@) == eq_failures(prefix, m.name_entries(), w) + eq_failures_vars(
                        name,
                        expected@,
                        vars@.subrange(0, j as int),
                        w,
                    ),
            {
                let ghost vprefix = vars@.subrange(0, j as int);
                let var = vars[j];
                let actual = &self.values[var.index];
                let ghost pre_out = out@;
                if !actual.equals(expected) {
                    out.push(
                        CheckError::RegionEq {
                            name,
                            var,
                            expected: expected.duplicate(),
                            actual: actual.duplicate(),
                        },
                    );
                    proof {
                        assert(descs(out@) =~= descs(pre_out).push(err_desc(out@.last())));
                    }
                }
                proof {
                    assert(vars@.subrange(0, j + 1) =~= vprefix.push(var));
                    lemma_push_drop_last(vprefix, var);
                    assert(actual@ == w[var.index as int]);
                    assert(descs(out@) =~= eq_failures(prefix, m.name_entries(), w)
                        + eq_failures_vars(name, expected@, vars@.subrange(0, j + 1), w));
                }
            }
            proof {
                assert(vars@.subrange(0, nv as int) == vars@);
                assert(m.eq_asserts().subrange(0, i + 1) =~= prefix.push(
                    m.eq_asserts()[i as int],
                ));
                lemma_push_drop_last(prefix, m.eq_asserts()[i as int]);
                assert(descs(out@) =~= eq_failures(m.eq_asserts().subrange(0, i + 1), m.name_entries(), w));
            }
        }
        proof {
            assert(m.eq_asserts().subrange(0, n_eq as int) == m.eq_asserts());
        }
        let n_in = m.region_in_assertions.len();
        for i in 0..n_in
            invariant
                self.wf(),
                m == self.region_map,
                w == region_views(self.values@),
                n_in == m.in_asserts().len(),
                descs(out@) == eq_failures(m.eq_asserts(), m.name_entries(), w) + in_failures(
                    m.in_asserts().subrange(0, i as int),
                    m.name_entries(),
                    w,
                ),
        {
            let ghost prefix = m.in_asserts().subrange(0, i as int);
            let c = m.region_in_assertions[i];
            let name = c.0;
            let point = c.1;
            let expected = c.2;
            let vars = collect_name_vars(m, name);
            proof {
                lemma_lookup_in_range(m.name_entries(), name, m.num_vars_spec());
            }
            let nv = vars.len();
            for j in 0..nv
                invariant
                    self.wf(),
                    m == self.region_map,
                    w == region_views(self.values@),
                    nv == vars@.len(),
                    vars@ == lookup_vars(m.name_entries(), name),
                    vars_in_range(vars@, m.num_vars_spec()),
                    (name, point, expected) == m.in_asserts()[i as int],
                    0 <= i < m.in_asserts().len(),
                    prefix == m.in_asserts().subrange(0, i as int),
                    descs(out@) == eq_failures(m.eq_asserts(), m.name_entries(), w) + in_failures(
                        prefix,
                        m.name_entries(),
                        w,
                    ) + in_failures_vars(name, point, expected, vars@.subrange(0, j as int), w),
            {
                let ghost vprefix = vars@.subrange(0, j as int);
                let var = vars[j];
                let contained = self.values[var.index].contains(point);
                let ghost pre_out = out@;
                if contained != expected {
                    out.push(CheckError::RegionContains { name, var, point, expected });
                    proof {
                        assert(descs(out@) =~= descs(pre_out).push(err_desc(out@.last())));
                    }
                }
                proof {
                    assert(vars@.subrange(0, j + 1) =~= vprefix.push(var));
                    lemma_push_drop_last(vprefix, var);
                    assert(contained == w[var.index as int].contains(point));
                    assert(descs(out@) =~= eq_failures(m.eq_asserts(), m.name_entries(), w)
                        + in_failures(prefix, m.name_entries(), w) + in_failures_vars(
                        name,
                        point,
                        expected,
                        vars@.subrange(0, j + 1),
                        w,
                    ));
                }
            }
            proof {
                assert(vars@.subrange(0, nv as int) == vars@);
                assert(m.in_asserts().subrange(0, i + 1) =~= prefix.push(
                    m.in_asserts()[i as int],
                ));
                lemma_push_drop_last(prefix, m.in_asserts()[i as int]);
                assert(descs(out@) =~= eq_failures(m.eq_asserts(), m.name_entries(), w)
                    + in_failures(m.in_asserts().subrange(0, i + 1), m.name_entries(), w));
            }
        }
        proof {
            assert(m.in_asserts().subrange(0, n_in as int) == m.in_asserts());
        }
        out
    }

    /// The total number of assertion failures: zero exactly when every
    /// stored assertion holds of the solved regions.
    pub fn check(&self) -> (r: usize)
        requires
            self.wf(),
        ensures
            r == all_failures(self.map_spec(), self.value_sets()).len(),
    {
        let report = self.check_report();
        proof {
            assert(descs(report@).len() == report@.len());
        }
        report.len()
    }
}


/// Fixed-point stability: once a table satisfies every constraint,
/// re-running the solve step changes nothing. Applying any use
/// constraint, any applicable flow constraint, or any outlives
/// constraint to the table leaves every set as it was.
pub proof fn lemma_fixed_point_stable(m: RegionMap, w: Seq<Set<Point>>)
    requires
        sets_satisfy(m, w),
    ensures
        forall|j: int|
            0 <= j < m.use_cs().len() ==> w[(#[trigger] m.use_cs()[j]).0.index as int].insert(
                m.use_cs()[j].1,
            ) == w[m.use_cs()[j].0.index as int],
        forall|j: int|
            0 <= j < m.flow_cs().len() ==> (w[(#[trigger] m.flow_cs()[j]).0.index as int].contains(
                m.flow_cs()[j].2,
            ) ==> w[m.flow_cs()[j].0.index as int].insert(m.flow_cs()[j].1) == w[m.flow_cs()[j].0.index as int]),
        forall|j: int|
            0 <= j < m.outlive_cs().len() ==> w[(#[trigger] m.outlive_cs()[j]).0.index as int] + w[m.outlive_cs()[j].1.index as int] == w[m.outlive_cs()[j].0.index as int],
{
    assert forall|j: int|
        0 <= j < m.use_cs().len() implies w[(#[trigger] m.use_cs()[j]).0.index as int].insert(
        m.use_cs()[j].1,
    ) == w[m.use_cs()[j].0.index as int] by {
        assert(use_ok_at(m, w, j));
        assert(w[m.use_cs()[j].0.index as int].insert(m.use_cs()[j].1) =~= w[m.use_cs()[j].0.index as int]);
    }
    assert forall|j: int|
        0 <= j < m.flow_cs().len() && w[(#[trigger] m.flow_cs()[j]).0.index as int].contains(
            m.flow_cs()[j].2,
        ) implies w[m.flow_cs()[j].0.index as int].insert(m.flow_cs()[j].1) == w[m.flow_cs()[j].0.index as int] by {
        assert(flow_ok_at(m, w, j));
        assert(w[m.flow_cs()[j].0.index as int].insert(m.flow_cs()[j].1) =~= w[m.flow_cs()[j].0.index as int]);
    }
    assert forall|j: int|
        0 <= j < m.outlive_cs().len() implies w[(#[trigger] m.outlive_cs()[j]).0.index as int] + w[m.outlive_cs()[j].1.index as int] == w[m.outlive_cs()[j].0.index as int] by {
        assert(outl_ok_at(m, w, j));
        assert(w[m.outlive_cs()[j].0.index as int] + w[m.outlive_cs()[j].1.index as int] =~= w[m.outlive_cs()[j].0.index as int]);
    }
}

/// Order independence: the least fixed point is unique, so any two
/// least solutions of one store are equal, whatever order their
/// solvers processed the flow and outlives constraints in. Processing
/// order may change the number of passes, never the final regions.
pub proof fn lemma_solution_unique(m: RegionMap, w1: Seq<Set<Point>>, w2: Seq<Set<Point>>)
    requires
        sets_satisfy(m, w1),
        minimal_solution(m, w1),
        sets_satisfy(m, w2),
        minimal_solution(m, w2),
    ensures
        w1 == w2,
{
    assert(pointwise_le(w1, w2));
    assert(pointwise_le(w2, w1));
    assert forall|i: int| 0 <= i < w1.len() implies w1[i] == w2[i] by {
        assert(w1[i] <= w2[i]);
        assert(w2[i] <= w1[i]);
        assert(w1[i] =~= w2[i]);
    }
    assert(w1 =~= w2);
}

/// Outlives transitivity: for recorded constraints `(a, b)` and
/// `(b, c)`, every solved table gives `a`'s region all the points of
/// `c`'s region.
pub proof fn lemma_outlives_transitive(m: RegionMap, w: Seq<Set<Point>>, i: int, j: int)
    requires
        sets_satisfy(m, w),
        0 <= i < m.outlive_cs().len(),
        0 <= j < m.outlive_cs().len(),
        m.outlive_cs()[i].1 == m.outlive_cs()[j].0,
    ensures
        w[m.outlive_cs()[j].1.index as int] <= w[m.outlive_cs()[i].0.index as int],
{
    assert(outl_ok_at(m, w, i));
    assert(outl_ok_at(m, w, j));
}

} // verus!
