use vstd::prelude::*;
use vstd::string::StringExecFns;

use crate::dropck::{violation_at, violations, Blame, Violation};
use crate::evaluator::{
    as_diagnostics, assigned_regions, check, check_post, expected_diagnostics, least_table,
    Diagnostic, Verdict,
};
use crate::model::{
    decls_ok, field_ok, is_layering, layable, owns, owns_in, FieldType, LifetimeParam, TypeDecl,
    TypeRef, Variance,
};
use crate::program::{drop_point, fits, program_ok, Binding, BorrowExpr, Program};
use crate::region::{region_of, unsatisfiable, RegionMode};
use crate::variance::{
    closed, derived, facts_below, is_least_table, lemma_least_table_unique, shaped, table_below,
    Facts,
};

verus! {

// `Wrapper`'s destructor is declared over its one lifetime with no exemption.
pub struct Wrapper<'a> {
    pub data: Option<&'a Inner<'a>>,
}

impl<'a> Wrapper<'a> {
    pub fn new() -> (r: Self)
        ensures
            r.data is None,
    {
        Self { data: None }
    }

    pub fn set_inner(&mut self, data: &'a Inner<'a>)
        ensures
            final(self).data == Some(data),
    {
        self.data = Some(data);
    }
}

/// Holds a type-erased value whose destructor may reach data of lifetime `'a`.
pub struct Inner<'a> {
    pub data: Option<Box<dyn SomeTrait + 'a>>,
}

impl<'a> Inner<'a> {
    pub fn new() -> (r: Self)
        ensures
            r.data is None,
    {
        Self { data: None }
    }
}

pub trait SomeTrait {
    fn func(&self);
}

/// Declaration 0 is `Inner`, declaration 1 is `Wrapper`.
pub open spec fn is_declarations(ds: Seq<TypeDecl>) -> bool {
    &&& ds.len() == 2
    &&& ds[0].params@.len() == 1
    &&& !ds[0].params@[0].dangle_escape
    &&& !ds[0].has_destructor
    &&& ds[0].fields@.len() == 1
    &&& ds[0].fields@[0] matches FieldType::InteriorMutable(inner) && *inner
        == FieldType::ErasedDynamic { bound_param: 0 }
    &&& ds[1].params@.len() == 1
    &&& ds[1].params@[0].dangle_escape == false
    &&& ds[1].has_destructor
    &&& ds[1].fields@.len() == 1
    &&& ds[1].fields@[0] matches FieldType::Reference { param, target } && param == 0
        && target.decl == 0 && target.args@ == seq![0usize]
}

/// `wrapper` and `inner`, in this order, and one borrow of `inner` into `wrapper`.
pub open spec fn is_program(prog: Program) -> bool {
    &&& prog.bindings@.len() == 2
    &&& prog.bindings@[0].decl == 1
    &&& prog.bindings@[1].decl == 0
    &&& prog.borrows@.len() == 1
    &&& prog.borrows@[0] == (BorrowExpr { source: 0, target: 1, param: 0, last_read: 0 })
}

fn param(name: &str, dangle_escape: bool) -> (r: LifetimeParam)
    ensures
        r.dangle_escape == dangle_escape,
{
    LifetimeParam { name: String::from_str(name), dangle_escape }
}

/// The declarations of `Inner` and `Wrapper` in the analyzer's model.
pub fn declarations() -> (r: Vec<TypeDecl>)
    ensures
        is_declarations(r@),
        decls_ok(r@),
{
    let inner = TypeDecl {
        name: String::from_str("Inner"),
        params: vec![param("a", false)],
        fields: vec![FieldType::InteriorMutable(Box::new(FieldType::ErasedDynamic { bound_param: 0 }))],
        has_destructor: false,
    };
    let wrapper = TypeDecl {
        name: String::from_str("Wrapper"),
        params: vec![param("a", false)],
        fields: vec![FieldType::Reference { param: 0, target: TypeRef { decl: 0, args: vec![0] } }],
        has_destructor: true,
    };
    let r = vec![inner, wrapper];
    proof {
        let f = r@[1].fields@[0];
        if let FieldType::Reference { target, .. } = f {
            assert(target.args@ =~= seq![target.args@[0]]);
        }
        assert(field_ok(r@, 1, FieldType::ErasedDynamic { bound_param: 0 }));
        assert(field_ok(r@, 1, r@[0].fields@[0]));
        assert(field_ok(r@, r@[1].params@.len(), f));
    }
    r
}

/// `let mut wrapper = Wrapper::new(); let inner = Inner::new(); wrapper.set_inner(&inner);`
pub fn program() -> (r: Program)
    ensures
        is_program(r),
{
    let bindings = vec![
        Binding { name: String::from_str("wrapper"), decl: 1 },
        Binding { name: String::from_str("inner"), decl: 0 },
    ];
    let borrows = vec![BorrowExpr { source: 0, target: 1, param: 0, last_read: 0 }];
    Program { bindings, borrows }
}

pub open spec fn both() -> Facts {
    Facts { variance: Variance::Invariant, relevant: true }
}

/// Both structs are invariant in their lifetime, and both may observe it when dropped.
proof fn lemma_table(ds: Seq<TypeDecl>)
    requires
        is_declarations(ds),
    ensures
        is_least_table(ds, seq![seq![both()], seq![both()]]),
{
    let t = seq![seq![both()], seq![both()]];
    assert forall|u: Seq<Seq<Facts>>| #[trigger] derived(ds, u, 0, 0) == both() by {
        if let FieldType::InteriorMutable(inner) = ds[0].fields@[0] {
            assert(crate::variance::mentions(*inner, 0));
            assert(crate::variance::field_relevant(u, *inner, 0));
        }
    }
    assert forall|u: Seq<Seq<Facts>>|
        shaped(ds, u) && u[0][0] == both() implies #[trigger] derived(ds, u, 1, 0) == both() by {
        if let FieldType::Reference { target, .. } = ds[1].fields@[0] {
            assert(crate::variance::args_variance(u, target, 0, 1) == Variance::Invariant);
        }
    }
    assert(closed(ds, t)) by {
        assert(derived(ds, t, 0, 0) == both());
        assert(derived(ds, t, 1, 0) == both());
    }
    assert forall|u: Seq<Seq<Facts>>| shaped(ds, u) && closed(ds, u) implies table_below(ds, t, u) by {
        assert(derived(ds, u, 0, 0) == both());
        assert(facts_below(derived(ds, u, 0, 0), u[0][0]));
        assert(u[0][0] == both());
        assert(derived(ds, u, 1, 0) == both());
        assert(facts_below(derived(ds, u, 1, 0), u[1][0]));
    }
}

/// The borrower's own destructor is blamed, whatever the strategy.
proof fn lemma_verdict(ds: Seq<TypeDecl>, prog: Program, mode: RegionMode)
    requires
        is_declarations(ds),
        is_program(prog),
    ensures
        expected_diagnostics(ds, prog, mode) == seq![
            Diagnostic::DropCheck(
                Violation { binding: 0, param: 0, referent: 1, blame: Blame::Borrower },
            ),
        ],
{
    lemma_table(ds);
    let t = seq![seq![both()], seq![both()]];
    lemma_least_table_unique(ds, t, least_table(ds));
    assert forall|a: int, b: int| 0 <= a < 2 implies !#[trigger] owns(ds, a, b) by {
        if let FieldType::InteriorMutable(inner) = ds[a].fields@[0] {
            assert(!owns_in(*inner, b));
        }
        assert(!owns_in(ds[a].fields@[0], b));
    }
    assert(is_layering(ds, seq![0nat, 0nat]));
    assert(layable(ds));
    assert(decls_ok(ds)) by {
        assert(field_ok(ds, 1, FieldType::ErasedDynamic { bound_param: 0 }));
    }
    assert(program_ok(ds, prog));
    assert(!unsatisfiable(prog, 0));
    assert(!exists|k: int| 0 <= k < prog.borrows@.len() && unsatisfiable(prog, k));
    let regions = assigned_regions(t, prog, mode);
    assert(region_of(t, prog, mode, 0) > drop_point(prog, 1));
    assert(regions[0] as int == region_of(t, prog, mode, 0));
    let v = Violation { binding: 0, param: 0, referent: 1, blame: Blame::Borrower };
    assert(violation_at(t, prog, regions[0] as int, 0) == Some(v));
    assert(violations(t, prog, regions, 0) == Seq::<Violation>::empty());
    assert(violations(t, prog, regions, 1) == Seq::<Violation>::empty().push(v));
    assert(violations(t, prog, regions, 1) =~= seq![v]);
    assert(as_diagnostics(seq![v]) =~= seq![Diagnostic::DropCheck(v)]);
}

/// Checks the program above against the declarations above.
pub fn test(mode: RegionMode) -> (v: Verdict)
    ensures
        exists|ds: Seq<TypeDecl>, prog: Program|
            is_declarations(ds) && is_program(prog) && check_post(ds, prog, mode, v),
        !(v is Accept),
        v.diagnostics() == seq![
            Diagnostic::DropCheck(
                Violation { binding: 0, param: 0, referent: 1, blame: Blame::Borrower },
            ),
        ],
{
    let ds = declarations();
    let prog = program();
    proof {
        lemma_verdict(ds@, prog, mode);
    }
    check(&ds, &prog, mode)
}

} // verus!
