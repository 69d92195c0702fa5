use dropck_model::dangle_marked;
use dropck_model::dropck::{Blame, Violation};
use dropck_model::evaluator::{check, check_with_table, Diagnostic, Verdict};
use dropck_model::model::{
    validate_declarations, FieldType, LifetimeParam, TypeDecl, TypeRef, ValidationError, Variance,
};
use dropck_model::program::{Binding, BorrowExpr, Program};
use dropck_model::region::RegionMode;
use dropck_model::split_lifetimes;
use dropck_model::unmarked;
use dropck_model::variance::compute_variances;

fn diagnostics(v: &Verdict) -> Vec<Diagnostic> {
    match v {
        Verdict::Accept => Vec::new(),
        Verdict::Reject(d) => d.clone(),
    }
}

fn violation(binding: usize, referent: usize, blame: Blame) -> Diagnostic {
    Diagnostic::DropCheck(Violation { binding, param: 0, referent, blame })
}

fn param(name: &str, dangle_escape: bool) -> LifetimeParam {
    LifetimeParam { name: name.to_string(), dangle_escape }
}

fn inner_decl() -> TypeDecl {
    TypeDecl {
        name: "Inner".to_string(),
        params: vec![param("a", false)],
        fields: vec![FieldType::InteriorMutable(Box::new(FieldType::ErasedDynamic { bound_param: 0 }))],
        has_destructor: false,
    }
}

/// Inner, then Wrapper<'a, 'b> holding `&'a Inner<'b>`.
fn two_lifetime_decls(a_escapes: bool) -> Vec<TypeDecl> {
    vec![
        inner_decl(),
        TypeDecl {
            name: "Wrapper".to_string(),
            params: vec![param("a", a_escapes), param("b", false)],
            fields: vec![FieldType::Reference { param: 0, target: TypeRef { decl: 0, args: vec![1] } }],
            has_destructor: true,
        },
    ]
}

/// `inner` first, then `wrapper`, then the borrow of `inner` into `wrapper`.
fn referent_first() -> Program {
    Program {
        bindings: vec![
            Binding { name: "inner".to_string(), decl: 0 },
            Binding { name: "wrapper".to_string(), decl: 1 },
        ],
        borrows: vec![BorrowExpr { source: 1, target: 0, param: 0, last_read: 0 }],
    }
}

#[test]
fn unmarked_destructor_blames_wrapper_in_both_modes() {
    for mode in [RegionMode::Strict, RegionMode::LegacyWidening] {
        let v = unmarked::test(mode);
        assert!(!v.is_accept());
        assert_eq!(diagnostics(&v), vec![violation(0, 1, Blame::Borrower)]);
    }
}

#[test]
fn dangle_marked_strict_accepts() {
    let v = dangle_marked::test(RegionMode::Strict);
    assert!(v.is_accept());
    assert!(diagnostics(&v).is_empty());
}

#[test]
fn dangle_marked_legacy_blames_inner() {
    let v = dangle_marked::test(RegionMode::LegacyWidening);
    assert!(!v.is_accept());
    assert_eq!(diagnostics(&v), vec![violation(0, 1, Blame::Referent)]);
}

#[test]
fn split_lifetimes_accepts_in_both_modes() {
    assert!(split_lifetimes::test(RegionMode::Strict).is_accept());
    assert!(split_lifetimes::test(RegionMode::LegacyWidening).is_accept());
}

#[test]
fn dangle_marked_swapped_order_still_rejected_under_legacy() {
    let ds = dangle_marked::declarations();
    let v = check(&ds, &referent_first(), RegionMode::LegacyWidening);
    assert_eq!(diagnostics(&v), vec![violation(1, 0, Blame::Referent)]);
    assert!(check(&ds, &referent_first(), RegionMode::Strict).is_accept());
}

#[test]
fn two_lifetimes_unmarked_referent_first_accepts() {
    let ds = two_lifetime_decls(false);
    assert!(check(&ds, &referent_first(), RegionMode::Strict).is_accept());
    assert!(check(&ds, &referent_first(), RegionMode::LegacyWidening).is_accept());
}

#[test]
fn two_lifetimes_unmarked_wrapper_first_blames_wrapper() {
    let ds = two_lifetime_decls(false);
    let v = check(&ds, &split_lifetimes::program(), RegionMode::Strict);
    assert_eq!(diagnostics(&v), vec![violation(0, 1, Blame::Borrower)]);
}

#[test]
fn evaluation_is_repeatable() {
    for mode in [RegionMode::Strict, RegionMode::LegacyWidening] {
        let first = dangle_marked::test(mode);
        let second = dangle_marked::test(mode);
        assert_eq!(first.is_accept(), second.is_accept());
        assert_eq!(diagnostics(&first), diagnostics(&second));
    }
}

#[test]
fn interior_mutability_makes_every_holder_invariant() {
    let t = compute_variances(&unmarked::declarations());
    assert_eq!(t.variance_of(0, 0), Variance::Invariant);
    assert_eq!(t.variance_of(1, 0), Variance::Invariant);
    assert!(t.is_relevant(0, 0));
    assert!(t.is_relevant(1, 0));
}

#[test]
fn dangle_escape_clears_relevance_but_not_invariance() {
    let t = compute_variances(&dangle_marked::declarations());
    assert_eq!(t.variance_of(1, 0), Variance::Invariant);
    assert!(!t.is_relevant(1, 0));
    assert!(t.is_relevant(0, 0));
}

#[test]
fn split_lifetimes_variances() {
    let t = compute_variances(&split_lifetimes::declarations());
    assert_eq!(t.variance_of(1, 0), Variance::Covariant);
    assert_eq!(t.variance_of(1, 1), Variance::Invariant);
    assert!(!t.is_relevant(1, 0));
    assert!(t.is_relevant(1, 1));
}

#[test]
fn erased_dynamic_alone_is_covariant_and_relevant() {
    let ds = vec![TypeDecl {
        name: "Holder".to_string(),
        params: vec![param("a", false)],
        fields: vec![FieldType::ErasedDynamic { bound_param: 0 }],
        has_destructor: false,
    }];
    let t = compute_variances(&ds);
    assert_eq!(t.variance_of(0, 0), Variance::Covariant);
    assert!(t.is_relevant(0, 0));
}

#[test]
fn self_reference_through_borrow_stays_bivariant_where_unused() {
    // List<'a, 'b> { next: &'a List<'a, 'b> }: 'b is never used.
    let ds = vec![TypeDecl {
        name: "List".to_string(),
        params: vec![param("a", false), param("b", false)],
        fields: vec![FieldType::Reference { param: 0, target: TypeRef { decl: 0, args: vec![0, 1] } }],
        has_destructor: false,
    }];
    let t = compute_variances(&ds);
    assert_eq!(t.variance_of(0, 0), Variance::Covariant);
    assert_eq!(t.variance_of(0, 1), Variance::Bivariant);
    assert!(!t.is_relevant(0, 0));
}

#[test]
fn owned_field_passes_relevance_on() {
    // Outer<'x> owns Inner<'x>, which holds an erased value.
    let ds = vec![
        inner_decl(),
        TypeDecl {
            name: "Outer".to_string(),
            params: vec![param("x", false)],
            fields: vec![FieldType::Owned(TypeRef { decl: 0, args: vec![0] })],
            has_destructor: false,
        },
    ];
    let t = compute_variances(&ds);
    assert!(t.is_relevant(1, 0));
    assert_eq!(t.variance_of(1, 0), Variance::Invariant);
}

#[test]
fn undeclared_type_is_a_validation_error() {
    let ds = vec![TypeDecl {
        name: "Broken".to_string(),
        params: vec![param("a", false)],
        fields: vec![FieldType::Owned(TypeRef { decl: 5, args: vec![0] })],
        has_destructor: false,
    }];
    assert_eq!(validate_declarations(&ds), Err(ValidationError::MalformedDeclaration { decl: 0 }));
    let prog = Program { bindings: vec![], borrows: vec![] };
    let v = check(&ds, &prog, RegionMode::Strict);
    assert_eq!(
        diagnostics(&v),
        vec![Diagnostic::Invalid(ValidationError::MalformedDeclaration { decl: 0 })]
    );
}

#[test]
fn binding_of_undeclared_type_is_rejected() {
    let ds = unmarked::declarations();
    let prog = Program {
        bindings: vec![Binding { name: "x".to_string(), decl: 7 }],
        borrows: vec![],
    };
    let v = check(&ds, &prog, RegionMode::Strict);
    assert_eq!(
        diagnostics(&v),
        vec![Diagnostic::Invalid(ValidationError::MalformedBinding { binding: 0 })]
    );
}

#[test]
fn self_borrow_is_rejected() {
    let ds = unmarked::declarations();
    let prog = Program {
        bindings: vec![Binding { name: "wrapper".to_string(), decl: 1 }],
        borrows: vec![BorrowExpr { source: 0, target: 0, param: 0, last_read: 0 }],
    };
    let v = check(&ds, &prog, RegionMode::Strict);
    assert_eq!(
        diagnostics(&v),
        vec![Diagnostic::Invalid(ValidationError::MalformedBorrow { borrow: 0 })]
    );
}

#[test]
fn read_after_referent_dies_is_unsatisfiable() {
    let ds = split_lifetimes::declarations();
    let mut prog = split_lifetimes::program();
    // Points: declarations 0..2, borrow at 2, `inner` dropped at 3, `wrapper` at 4.
    prog.borrows[0].last_read = 4;
    let v = check(&ds, &prog, RegionMode::Strict);
    assert_eq!(diagnostics(&v), vec![Diagnostic::RegionUnsatisfiable { borrow: 0 }]);
    prog.borrows[0].last_read = 3;
    assert!(check(&ds, &prog, RegionMode::Strict).is_accept());
}

#[test]
fn empty_program_accepts() {
    let ds = unmarked::declarations();
    let prog = Program { bindings: vec![], borrows: vec![] };
    assert!(check(&ds, &prog, RegionMode::LegacyWidening).is_accept());
}

#[test]
fn clause_names_the_blamed_binding() {
    let prog = unmarked::program();
    let borrower = Violation { binding: 0, param: 0, referent: 1, blame: Blame::Borrower };
    assert_eq!(
        borrower.clause(&prog),
        "borrow might be used here, when `wrapper` is dropped and runs its destructor"
    );
    let referent = Violation { blame: Blame::Referent, ..borrower };
    assert_eq!(
        referent.clause(&prog),
        "borrow might be used here, when `inner` is dropped and runs its destructor"
    );
}

#[test]
fn wrapper_holds_what_it_was_given() {
    let inner = unmarked::Inner::new();
    assert!(inner.data.is_none());
    let mut wrapper = unmarked::Wrapper::new();
    assert!(wrapper.data.is_none());
    wrapper.set_inner(&inner);
    assert!(std::ptr::eq(wrapper.data.unwrap(), &inner));
    drop(wrapper);
}

#[test]
fn split_wrapper_holds_what_it_was_given() {
    let inner = split_lifetimes::Inner::new();
    let mut wrapper = split_lifetimes::Wrapper::new();
    wrapper.set_inner(&inner);
    assert!(wrapper.data.is_some());
    let marked_inner = dangle_marked::Inner::new();
    let mut marked = dangle_marked::Wrapper::new();
    marked.set_inner(&marked_inner);
    assert!(marked.data.is_some());
}

#[test]
fn owning_itself_inline_is_a_cycle() {
    // Node<'a> { next: Node<'a> } has no finite size.
    let ds = vec![TypeDecl {
        name: "Node".to_string(),
        params: vec![param("a", false)],
        fields: vec![FieldType::Owned(TypeRef { decl: 0, args: vec![0] })],
        has_destructor: false,
    }];
    assert_eq!(validate_declarations(&ds), Err(ValidationError::CyclicOwnership));
    let prog = Program { bindings: vec![], borrows: vec![] };
    assert_eq!(
        diagnostics(&check(&ds, &prog, RegionMode::Strict)),
        vec![Diagnostic::Invalid(ValidationError::CyclicOwnership)]
    );
}

#[test]
fn ownership_cycle_through_interior_mutability_is_found() {
    // A<'a> owns Cell<B<'a>>, B<'a> owns A<'a>.
    let ds = vec![
        TypeDecl {
            name: "A".to_string(),
            params: vec![param("a", false)],
            fields: vec![FieldType::InteriorMutable(Box::new(FieldType::Owned(TypeRef {
                decl: 1,
                args: vec![0],
            })))],
            has_destructor: false,
        },
        TypeDecl {
            name: "B".to_string(),
            params: vec![param("a", false)],
            fields: vec![FieldType::Owned(TypeRef { decl: 0, args: vec![0] })],
            has_destructor: false,
        },
    ];
    assert_eq!(validate_declarations(&ds), Err(ValidationError::CyclicOwnership));
}

#[test]
fn owned_chain_without_cycle_is_valid() {
    let ds = vec![
        inner_decl(),
        TypeDecl {
            name: "Outer".to_string(),
            params: vec![param("x", false)],
            fields: vec![FieldType::Owned(TypeRef { decl: 0, args: vec![0] })],
            has_destructor: false,
        },
        TypeDecl {
            name: "Outermost".to_string(),
            params: vec![param("y", false)],
            fields: vec![FieldType::Owned(TypeRef { decl: 1, args: vec![0] })],
            has_destructor: false,
        },
    ];
    assert_eq!(validate_declarations(&ds), Ok(()));
    let t = compute_variances(&ds);
    assert!(t.is_relevant(2, 0));
    assert_eq!(t.variance_of(2, 0), Variance::Invariant);
}

#[test]
fn one_table_serves_several_programs() {
    let ds = dangle_marked::declarations();
    assert_eq!(validate_declarations(&ds), Ok(()));
    let table = compute_variances(&ds);
    let wrapper_first = dangle_marked::program();
    let swapped = referent_first();
    for mode in [RegionMode::Strict, RegionMode::LegacyWidening] {
        assert_eq!(
            diagnostics(&check_with_table(&ds, &table, &wrapper_first, mode)),
            diagnostics(&check(&ds, &wrapper_first, mode))
        );
        assert_eq!(
            diagnostics(&check_with_table(&ds, &table, &swapped, mode)),
            diagnostics(&check(&ds, &swapped, mode))
        );
    }
    assert!(check_with_table(&ds, &table, &wrapper_first, RegionMode::Strict).is_accept());
}
