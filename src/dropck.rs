use vstd::prelude::*;
use vstd::string::StringExecFns;

use crate::model::TypeDecl;
use crate::program::{binding_ok, borrow_ok, drop_point, fits, program_ok, Program};
use crate::region::{has_relevant, source_facts, type_relevant};
use crate::variance::{shaped, Facts, VarianceTable};

verus! {

/// Whose destructor is blamed for observing a destroyed referent.
#[derive(Clone, Copy, PartialEq, Eq, Structural, Debug)]
pub enum Blame {
    /// The borrowing binding's own destructor may read through the parameter.
    Borrower,
    /// The referent's type carries a destructor obligation the widened borrow outlives.
    Referent,
}

/// `binding`'s field bound to `param` still borrows `referent` when `referent` is destroyed.
#[derive(Clone, Copy, PartialEq, Eq, Structural, Debug)]
pub struct Violation {
    pub binding: usize,
    pub param: usize,
    pub referent: usize,
    pub blame: Blame,
}

/// The verdict on borrow `k`, given the end point `region` assigned to it.
pub open spec fn violation_at(t: Seq<Seq<Facts>>, prog: Program, region: int, k: int) -> Option<
    Violation,
> {
    let b = prog.borrows@[k];
    let found = Violation {
        binding: b.source,
        param: b.param,
        referent: b.target,
        blame: Blame::Borrower,
    };
    if region <= drop_point(prog, b.target as int) {
        None
    } else if source_facts(t, prog, k).relevant && drop_point(prog, b.target as int) <= drop_point(
        prog,
        b.source as int,
    ) {
        Some(found)
    } else if type_relevant(t, prog.bindings@[b.target as int].decl as int) {
        Some(Violation { blame: Blame::Referent, ..found })
    } else {
        None
    }
}

/// The violations of the first `k` borrows, in borrow order.
pub open spec fn violations(t: Seq<Seq<Facts>>, prog: Program, regions: Seq<usize>, k: nat) -> Seq<
    Violation,
>
    decreases k,
{
    if k == 0 {
        Seq::empty()
    } else {
        let before = violations(t, prog, regions, (k - 1) as nat);
        match violation_at(t, prog, regions[k - 1] as int, k - 1) {
            Some(v) => before.push(v),
            None => before,
        }
    }
}

/// Checks every borrow against the destruction order, with the regions already assigned.
pub fn check_drops(ds: &Vec<TypeDecl>, t: &VarianceTable, prog: &Program, regions: &Vec<usize>) -> (r:
    Vec<Violation>)
    requires
        program_ok(ds@, *prog),
        shaped(ds@, t@),
        fits(*prog),
        regions@.len() == prog.borrows@.len(),
    ensures
        r@ == violations(t@, *prog, regions@, prog.borrows@.len()),
{
    let n = prog.bindings.len();
    let m = prog.borrows.len();
    let mut out: Vec<Violation> = Vec::new();
    let mut k: usize = 0;
    while k < m
        invariant
            k <= m,
            n == prog.bindings@.len(),
            m == prog.borrows@.len(),
            regions@.len() == m,
            program_ok(ds@, *prog),
            shaped(ds@, t@),
            fits(*prog),
            out@ == violations(t@, *prog, regions@, k as nat),
        decreases m - k,
    {
        let b = &prog.borrows[k];
        assert(borrow_ok(ds@, *prog, k as int));
        assert(binding_ok(ds@, *prog, b.source as int));
        assert(binding_ok(ds@, *prog, b.target as int));
        let target_drop = n + m + (n - 1 - b.target);
        let source_drop = n + m + (n - 1 - b.source);
        if regions[k] > target_drop {
            let facts = t.rows[prog.bindings[b.source].decl][b.param];
            assert(facts == source_facts(t@, *prog, k as int));
            if facts.relevant && target_drop <= source_drop {
                out.push(
                    Violation {
                        binding: b.source,
                        param: b.param,
                        referent: b.target,
                        blame: Blame::Borrower,
                    },
                );
            } else if has_relevant(t, prog.bindings[b.target].decl) {
                out.push(
                    Violation {
                        binding: b.source,
                        param: b.param,
                        referent: b.target,
                        blame: Blame::Referent,
                    },
                );
            }
        }
        k = k + 1;
    }
    out
}

pub open spec fn clause_text(who: Seq<char>) -> Seq<char> {
    "borrow might be used here, when `"@ + who + "` is dropped and runs its destructor"@
}

impl Violation {
    /// The binding whose destructor the diagnostic names.
    pub open spec fn blamed(&self) -> usize {
        match self.blame {
            Blame::Borrower => self.binding,
            Blame::Referent => self.referent,
        }
    }

    /// The compiler-style note for this violation.
    pub fn clause(&self, prog: &Program) -> (r: String)
        requires
            self.blamed() < prog.bindings@.len(),
        ensures
            r@ == clause_text(prog.bindings@[self.blamed() as int].name@),
    {
        let who = match self.blame {
            Blame::Borrower => self.binding,
            Blame::Referent => self.referent,
        };
        let mut s = String::new();
        s.append("borrow might be used here, when `");
        s.append(prog.bindings[who].name.as_str());
        s.append("` is dropped and runs its destructor");
        s
    }
}

} // verus!
