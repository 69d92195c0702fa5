use vstd::prelude::*;

use crate::model::{TypeDecl, Variance};
use crate::program::{
    binding_ok, borrow_ok, borrow_point, drop_point, fits, program_ok, scope_end, Program,
};
use crate::variance::{shaped, Facts, VarianceTable};

verus! {

/// Which region-inference strategy a run uses; the caller always names one.
#[derive(Clone, Copy, PartialEq, Eq, Structural, Debug)]
pub enum RegionMode {
    /// The minimal region that covers every use.
    Strict,
    /// Reproduces the historical widening of borrows into invariant, drop-relevant structs.
    LegacyWidening,
}

/// Some parameter of declaration `d` is drop-check-relevant.
pub open spec fn type_relevant(t: Seq<Seq<Facts>>, d: int) -> bool {
    exists|i: int| 0 <= i < t[d].len() && #[trigger] t[d][i].relevant
}

/// The last point at which the function body reads borrow `k`.
pub open spec fn body_end(prog: Program, k: int) -> int {
    let b = prog.borrows@[k];
    if b.last_read as int > borrow_point(prog, k) {
        b.last_read as int
    } else {
        borrow_point(prog, k)
    }
}

/// No region can cover the body's reads without outliving the referent.
pub open spec fn unsatisfiable(prog: Program, k: int) -> bool {
    body_end(prog, k) > drop_point(prog, prog.borrows@[k].target as int)
}

pub open spec fn source_facts(t: Seq<Seq<Facts>>, prog: Program, k: int) -> Facts {
    let b = prog.borrows@[k];
    t[prog.bindings@[b.source as int].decl as int][b.param as int]
}

/// The legacy trigger: the borrowing struct is invariant in the borrowed parameter, and a
/// destructor may observe it (the borrower's own, or one the referent's type carries).
pub open spec fn widening_applies(t: Seq<Seq<Facts>>, prog: Program, k: int) -> bool {
    let b = prog.borrows@[k];
    &&& source_facts(t, prog, k).variance == Variance::Invariant
    &&& (source_facts(t, prog, k).relevant || type_relevant(
        t,
        prog.bindings@[b.target as int].decl as int,
    ))
}

/// The minimal region: the body's reads, and the borrower's destruction where its destructor
/// may observe the parameter.
pub open spec fn strict_region(t: Seq<Seq<Facts>>, prog: Program, k: int) -> int {
    let s = prog.borrows@[k].source as int;
    if source_facts(t, prog, k).relevant && drop_point(prog, s) > body_end(prog, k) {
        drop_point(prog, s)
    } else {
        body_end(prog, k)
    }
}

pub open spec fn region_of(t: Seq<Seq<Facts>>, prog: Program, mode: RegionMode, k: int) -> int {
    if mode == RegionMode::LegacyWidening && widening_applies(t, prog, k) {
        scope_end(prog)
    } else {
        strict_region(t, prog, k)
    }
}

pub open spec fn first_unsatisfiable(prog: Program) -> int {
    choose|k: int|
        0 <= k < prog.borrows@.len() && unsatisfiable(prog, k) && forall|j: int|
            0 <= j < k ==> !unsatisfiable(prog, j)
}

pub(crate) fn has_relevant(t: &VarianceTable, d: usize) -> (r: bool)
    requires
        d < t@.len(),
    ensures
        r == type_relevant(t@, d as int),
{
    let n = t.rows[d].len();
    let mut i: usize = 0;
    while i < n
        invariant
            i <= n,
            d < t@.len(),
            n == t@[d as int].len(),
            forall|j: int| 0 <= j < i ==> !t@[d as int][j].relevant,
        decreases n - i,
    {
        if t.rows[d][i].relevant {
            assert(t@[d as int][i as int].relevant);
            return true;
        }
        i = i + 1;
    }
    false
}

/// Assigns every borrow the end point of its region, or names the first borrow that no
/// region can serve.
pub fn infer_regions(ds: &Vec<TypeDecl>, t: &VarianceTable, prog: &Program, mode: RegionMode) -> (r:
    Result<Vec<usize>, usize>)
    requires
        program_ok(ds@, *prog),
        shaped(ds@, t@),
        fits(*prog),
    ensures
        match r {
            Ok(rs) => rs@.len() == prog.borrows@.len() && (forall|k: int|
                0 <= k < rs@.len() ==> !unsatisfiable(*prog, k)) && (forall|k: int|
                0 <= k < rs@.len() ==> #[trigger] rs@[k] as int == region_of(
                    t@,
                    *prog,
                    mode,
                    k,
                )),
            Err(k) => k < prog.borrows@.len() && k as int == first_unsatisfiable(*prog)
                && unsatisfiable(*prog, k as int),
        },
{
    let n = prog.bindings.len();
    let m = prog.borrows.len();
    let mut rs: Vec<usize> = Vec::new();
    let mut k: usize = 0;
    while k < m
        invariant
            k <= m,
            n == prog.bindings@.len(),
            m == prog.borrows@.len(),
            program_ok(ds@, *prog),
            shaped(ds@, t@),
            fits(*prog),
            rs@.len() == k,
            forall|j: int|
                0 <= j < k ==> !unsatisfiable(*prog, j),
            forall|j: int|
                0 <= j < k ==> #[trigger] rs@[j] as int == region_of(
                    t@,
                    *prog,
                    mode,
                    j,
                ),
        decreases m - k,
    {
        let b = &prog.borrows[k];
        assert(borrow_ok(ds@, *prog, k as int));
        assert(binding_ok(ds@, *prog, b.source as int));
        assert(binding_ok(ds@, *prog, b.target as int));
        let point = n + k;
        let body = if b.last_read > point {
            b.last_read
        } else {
            point
        };
        let target_drop = n + m + (n - 1 - b.target);
        if body > target_drop {
            proof {
                let c = first_unsatisfiable(*prog);
                assert(unsatisfiable(*prog, k as int));
                if c < k {
                    assert(!unsatisfiable(*prog, c));
                } else if c > k {
                    assert(!unsatisfiable(*prog, k as int));
                }
            }
            return Err(k);
        }
        let sd = prog.bindings[b.source].decl;
        let td = prog.bindings[b.target].decl;
        let facts = t.rows[sd][b.param];
        assert(facts == source_facts(t@, *prog, k as int));
        let source_drop = n + m + (n - 1 - b.source);
        let strict = if facts.relevant && source_drop > body {
            source_drop
        } else {
            body
        };
        let region = if mode == RegionMode::LegacyWidening && facts.variance == Variance::Invariant
            && (facts.relevant || has_relevant(t, td)) {
            n + n + m
        } else {
            strict
        };
        assert(body as int == body_end(*prog, k as int));
        assert(!unsatisfiable(*prog, k as int));
        assert(strict as int == strict_region(t@, *prog, k as int));
        assert(region as int == region_of(t@, *prog, mode, k as int));
        rs.push(region);
        k = k + 1;
    }
    Ok(rs)
}

} // verus!
