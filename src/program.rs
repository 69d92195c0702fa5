use vstd::prelude::*;

use crate::model::{TypeDecl, ValidationError};

verus! {

/// A local binding of a value of declared struct `decl`.
pub struct Binding {
    pub name: String,
    pub decl: usize,
}

/// `source`'s field bound to its parameter `param` is made to refer to `target`.
/// The borrow is read in the function body up to program point `last_read`.
pub struct BorrowExpr {
    pub source: usize,
    pub target: usize,
    pub param: usize,
    pub last_read: usize,
}

/// One function body: bindings in declaration order, then the borrows in order.
pub struct Program {
    pub bindings: Vec<Binding>,
    pub borrows: Vec<BorrowExpr>,
}

pub open spec fn binding_ok(ds: Seq<TypeDecl>, prog: Program, i: int) -> bool {
    prog.bindings@[i].decl < ds.len()
}

pub open spec fn borrow_ok(ds: Seq<TypeDecl>, prog: Program, k: int) -> bool {
    let b = prog.borrows@[k];
    &&& b.source < prog.bindings@.len()
    &&& b.target < prog.bindings@.len()
    &&& b.source != b.target
    &&& b.param < ds[prog.bindings@[b.source as int].decl as int].params@.len()
}

pub open spec fn program_ok(ds: Seq<TypeDecl>, prog: Program) -> bool {
    &&& forall|i: int| 0 <= i < prog.bindings@.len() ==> #[trigger] binding_ok(ds, prog, i)
    &&& forall|k: int| 0 <= k < prog.borrows@.len() ==> #[trigger] borrow_ok(ds, prog, k)
}

/// What validation reports first for a program over declarations that are themselves fine.
pub open spec fn program_error(ds: Seq<TypeDecl>, prog: Program) -> ValidationError {
    if exists|i: int| 0 <= i < prog.bindings@.len() && !binding_ok(ds, prog, i) {
        ValidationError::MalformedBinding {
            binding: (choose|i: int|
                0 <= i < prog.bindings@.len() && !binding_ok(ds, prog, i) && forall|j: int|
                    0 <= j < i ==> binding_ok(ds, prog, j)) as usize,
        }
    } else {
        ValidationError::MalformedBorrow {
            borrow: (choose|k: int|
                0 <= k < prog.borrows@.len() && !borrow_ok(ds, prog, k) && forall|j: int|
                    0 <= j < k ==> borrow_ok(ds, prog, j)) as usize,
        }
    }
}

/// The program fits the machine: every program point is a `usize`.
pub open spec fn fits(prog: Program) -> bool {
    2 * prog.bindings@.len() + prog.borrows@.len() <= usize::MAX
}

/// Program point at which binding `i` is destroyed: after the body, in reverse declaration order.
pub open spec fn drop_point(prog: Program, i: int) -> int {
    let n = prog.bindings@.len() as int;
    n + prog.borrows@.len() + (n - 1 - i)
}

/// Program point at which borrow `k` is established.
pub open spec fn borrow_point(prog: Program, k: int) -> int {
    prog.bindings@.len() + k
}

/// The end of the whole function scope, after every binding is destroyed.
pub open spec fn scope_end(prog: Program) -> int {
    (2 * prog.bindings@.len() + prog.borrows@.len()) as int
}

pub fn validate_program(ds: &Vec<TypeDecl>, prog: &Program) -> (r: Result<(), ValidationError>)
    ensures
        r is Ok <==> program_ok(ds@, *prog),
        r is Err ==> r == Err::<(), ValidationError>(program_error(ds@, *prog)),
{
    let n = prog.bindings.len();
    let mut i: usize = 0;
    while i < n
        invariant
            i <= n,
            n == prog.bindings@.len(),
            forall|j: int| 0 <= j < i ==> #[trigger] binding_ok(ds@, *prog, j),
        decreases n - i,
    {
        if prog.bindings[i].decl >= ds.len() {
            proof {
                assert(!binding_ok(ds@, *prog, i as int));
                let c = choose|c: int|
                    0 <= c < prog.bindings@.len() && !binding_ok(ds@, *prog, c) && forall|j: int|
                        0 <= j < c ==> binding_ok(ds@, *prog, j);
                if c < i {
                    assert(binding_ok(ds@, *prog, c));
                } else if c > i {
                    assert(binding_ok(ds@, *prog, i as int));
                }
            }
            return Err(ValidationError::MalformedBinding { binding: i });
        }
        i = i + 1;
    }
    let mut k: usize = 0;
    while k < prog.borrows.len()
        invariant
            k <= prog.borrows@.len(),
            n == prog.bindings@.len(),
            forall|j: int| 0 <= j < n ==> #[trigger] binding_ok(ds@, *prog, j),
            forall|j: int| 0 <= j < k ==> #[trigger] borrow_ok(ds@, *prog, j),
        decreases prog.borrows@.len() - k,
    {
        let b = &prog.borrows[k];
        if b.source < n {
            assert(binding_ok(ds@, *prog, b.source as int));
        }
        if b.source >= n || b.target >= n || b.source == b.target
            || b.param >= ds[prog.bindings[b.source].decl].params.len() {
            proof {
                assert(!borrow_ok(ds@, *prog, k as int));
                let c = choose|c: int|
                    0 <= c < prog.borrows@.len() && !borrow_ok(ds@, *prog, c) && forall|j: int|
                        0 <= j < c ==> borrow_ok(ds@, *prog, j);
                if c < k {
                    assert(borrow_ok(ds@, *prog, c));
                } else if c > k {
                    assert(borrow_ok(ds@, *prog, k as int));
                }
            }
            return Err(ValidationError::MalformedBorrow { borrow: k });
        }
        k = k + 1;
    }
    Ok(())
}

} // verus!
