use vstd::prelude::*;

use crate::dropck::{check_drops, violations, Violation};
use crate::model::{decls_ok, first_bad_decl, layable, validate_declarations, TypeDecl, ValidationError};
use crate::program::{fits, program_error, program_ok, validate_program, Program};
use crate::region::{first_unsatisfiable, infer_regions, region_of, unsatisfiable, RegionMode};
use crate::variance::{
    compute_variances, is_least_table, lemma_least_table_unique, Facts, VarianceTable,
};

verus! {

/// One reported problem; every problem rejects the scenario.
#[derive(Clone, Copy, PartialEq, Eq, Structural, Debug)]
pub enum Diagnostic {
    Invalid(ValidationError),
    RegionUnsatisfiable { borrow: usize },
    DropCheck(Violation),
}

pub enum Verdict {
    Accept,
    Reject(Vec<Diagnostic>),
}

impl Verdict {
    pub open spec fn diagnostics(&self) -> Seq<Diagnostic> {
        match self {
            Verdict::Accept => Seq::empty(),
            Verdict::Reject(ds) => ds@,
        }
    }

    pub fn is_accept(&self) -> (r: bool)
        ensures
            r == (self is Accept),
    {
        match self {
            Verdict::Accept => true,
            Verdict::Reject(_) => false,
        }
    }
}

/// The variance table of a declaration set (unique when it exists).
pub open spec fn least_table(ds: Seq<TypeDecl>) -> Seq<Seq<Facts>> {
    choose|t: Seq<Seq<Facts>>| is_least_table(ds, t)
}

pub open spec fn assigned_regions(t: Seq<Seq<Facts>>, prog: Program, mode: RegionMode) -> Seq<usize> {
    Seq::new(prog.borrows@.len(), |k: int| region_of(t, prog, mode, k) as usize)
}

pub open spec fn as_diagnostics(vs: Seq<Violation>) -> Seq<Diagnostic> {
    vs.map_values(|v: Violation| Diagnostic::DropCheck(v))
}

/// What the whole pipeline reports: validation, then region inference, then drop check.
pub open spec fn expected_diagnostics(ds: Seq<TypeDecl>, prog: Program, mode: RegionMode) -> Seq<
    Diagnostic,
> {
    if !decls_ok(ds) {
        seq![
            Diagnostic::Invalid(
                ValidationError::MalformedDeclaration { decl: first_bad_decl(ds) as usize },
            ),
        ]
    } else if !layable(ds) {
        seq![Diagnostic::Invalid(ValidationError::CyclicOwnership)]
    } else if !program_ok(ds, prog) {
        seq![Diagnostic::Invalid(program_error(ds, prog))]
    } else if exists|k: int| 0 <= k < prog.borrows@.len() && unsatisfiable(prog, k) {
        seq![Diagnostic::RegionUnsatisfiable { borrow: first_unsatisfiable(prog) as usize }]
    } else {
        let t = least_table(ds);
        as_diagnostics(violations(t, prog, assigned_regions(t, prog, mode), prog.borrows@.len()))
    }
}

pub open spec fn check_post(ds: Seq<TypeDecl>, prog: Program, mode: RegionMode, v: Verdict) -> bool {
    &&& v.diagnostics() == expected_diagnostics(ds, prog, mode)
    &&& (v is Accept <==> expected_diagnostics(ds, prog, mode).len() == 0)
}

fn single(d: Diagnostic) -> (r: Vec<Diagnostic>)
    ensures
        r@ == seq![d],
{
    let mut r: Vec<Diagnostic> = Vec::new();
    r.push(d);
    assert(r@ =~= seq![d]);
    r
}

/// Runs the pipeline on one program under the given region-inference strategy.
pub fn check(ds: &Vec<TypeDecl>, prog: &Program, mode: RegionMode) -> (v: Verdict)
    requires
        fits(*prog),
    ensures
        check_post(ds@, *prog, mode, v),
{
    if let Err(e) = validate_declarations(ds) {
        return Verdict::Reject(single(Diagnostic::Invalid(e)));
    }
    let table = compute_variances(ds);
    check_with_table(ds, &table, prog, mode)
}

/// Runs the pipeline on one program over validated declarations whose variance table was
/// computed once and is shared by every program checked against them.
pub fn check_with_table(ds: &Vec<TypeDecl>, table: &VarianceTable, prog: &Program, mode: RegionMode) -> (v:
    Verdict)
    requires
        fits(*prog),
        decls_ok(ds@),
        layable(ds@),
        is_least_table(ds@, table@),
    ensures
        check_post(ds@, *prog, mode, v),
{
    if let Err(e) = validate_program(ds, prog) {
        return Verdict::Reject(single(Diagnostic::Invalid(e)));
    }
    proof {
        lemma_least_table_unique(ds@, table@, least_table(ds@));
    }
    match infer_regions(ds, table, prog, mode) {
        Err(k) => {
            assert(unsatisfiable(*prog, k as int));
            Verdict::Reject(single(Diagnostic::RegionUnsatisfiable { borrow: k }))
        },
        Ok(regions) => {
            assert forall|k: int| 0 <= k < regions@.len() implies regions@[k]
                == assigned_regions(table@, *prog, mode)[k] by {
                assert(regions@[k] as int == region_of(table@, *prog, mode, k));
            }
            assert(regions@ =~= assigned_regions(table@, *prog, mode));
            assert(!exists|k: int| 0 <= k < prog.borrows@.len() && unsatisfiable(*prog, k));
            let found = check_drops(ds, table, prog, &regions);
            let mut out: Vec<Diagnostic> = Vec::new();
            let mut i: usize = 0;
            while i < found.len()
                invariant
                    i <= found.len(),
                    out@.len() == i,
                    forall|j: int| 0 <= j < i ==> #[trigger] out@[j] == Diagnostic::DropCheck(found@[j]),
                decreases found.len() - i,
            {
                out.push(Diagnostic::DropCheck(found[i]));
                i = i + 1;
            }
            assert(out@ =~= as_diagnostics(found@));
            if out.len() == 0 {
                assert(out@ =~= Seq::<Diagnostic>::empty());
                Verdict::Accept
            } else {
                Verdict::Reject(out)
            }
        },
    }
}

/// Evaluating the same input twice gives the same verdict and the same diagnostics.
pub proof fn lemma_check_deterministic(
    ds: Seq<TypeDecl>,
    prog: Program,
    mode: RegionMode,
    first: Verdict,
    second: Verdict,
)
    requires
        check_post(ds, prog, mode, first),
        check_post(ds, prog, mode, second),
    ensures
        first.diagnostics() == second.diagnostics(),
        first is Accept <==> second is Accept,
{
}

} // verus!
