use vstd::prelude::*;

verus! {

/// How a lifetime parameter's subtyping direction propagates through a type.
#[derive(Clone, Copy, PartialEq, Eq, Structural, Debug)]
pub enum Variance {
    Bivariant,
    Covariant,
    Contravariant,
    Invariant,
}

/// Least upper bound in the variance lattice (Bivariant at the bottom, Invariant at the top).
pub open spec fn join(a: Variance, b: Variance) -> Variance {
    if a == Variance::Bivariant {
        b
    } else if b == Variance::Bivariant {
        a
    } else if a == b {
        a
    } else {
        Variance::Invariant
    }
}

/// Standard variance composition: the variance of an occurrence with variance `inner`
/// inside a position of variance `outer`.
pub open spec fn transform(outer: Variance, inner: Variance) -> Variance {
    match outer {
        Variance::Bivariant => Variance::Bivariant,
        Variance::Covariant => inner,
        Variance::Contravariant => match inner {
            Variance::Covariant => Variance::Contravariant,
            Variance::Contravariant => Variance::Covariant,
            _ => inner,
        },
        Variance::Invariant => if inner == Variance::Bivariant {
            Variance::Bivariant
        } else {
            Variance::Invariant
        },
    }
}

/// Lattice order: `a` lies below `b`.
pub open spec fn below(a: Variance, b: Variance) -> bool {
    join(a, b) == b
}

pub open spec fn rank(v: Variance) -> nat {
    match v {
        Variance::Bivariant => 0,
        Variance::Covariant => 1,
        Variance::Contravariant => 1,
        Variance::Invariant => 2,
    }
}

pub fn join_variance(a: Variance, b: Variance) -> (r: Variance)
    ensures
        r == join(a, b),
{
    if a == Variance::Bivariant {
        b
    } else if b == Variance::Bivariant {
        a
    } else if a == b {
        a
    } else {
        Variance::Invariant
    }
}

pub fn transform_variance(outer: Variance, inner: Variance) -> (r: Variance)
    ensures
        r == transform(outer, inner),
{
    match outer {
        Variance::Bivariant => Variance::Bivariant,
        Variance::Covariant => inner,
        Variance::Contravariant => match inner {
            Variance::Covariant => Variance::Contravariant,
            Variance::Contravariant => Variance::Covariant,
            _ => inner,
        },
        Variance::Invariant => if inner == Variance::Bivariant {
            Variance::Bivariant
        } else {
            Variance::Invariant
        },
    }
}

/// A use of a declared struct, with the enclosing declaration's parameter indices
/// substituted for the used struct's own parameters (`args[i]` instantiates parameter `i`).
pub struct TypeRef {
    pub decl: usize,
    pub args: Vec<usize>,
}

/// The shape of one field of a struct declaration.
pub enum FieldType {
    /// A value owned by the field.
    Owned(TypeRef),
    /// A shared borrow whose region is the enclosing parameter `param`.
    Reference { param: usize, target: TypeRef },
    /// An interior-mutability wrapper: invariant in everything it mentions.
    InteriorMutable(Box<FieldType>),
    /// A type-erased value assumed to carry a destructor parametric in `bound_param`.
    ErasedDynamic { bound_param: usize },
}

pub struct LifetimeParam {
    pub name: String,
    /// The enclosing type's destructor promises never to reach data through this parameter.
    pub dangle_escape: bool,
}

pub struct TypeDecl {
    pub name: String,
    pub params: Vec<LifetimeParam>,
    pub fields: Vec<FieldType>,
    pub has_destructor: bool,
}

} // verus!

verus! {

pub open spec fn ref_ok(ds: Seq<TypeDecl>, nparams: nat, tr: TypeRef) -> bool {
    &&& tr.decl < ds.len()
    &&& tr.args@.len() == ds[tr.decl as int].params@.len()
    &&& forall|i: int| 0 <= i < tr.args@.len() ==> tr.args@[i] < nparams
}

pub open spec fn field_ok(ds: Seq<TypeDecl>, nparams: nat, f: FieldType) -> bool
    decreases f,
{
    match f {
        FieldType::Owned(tr) => ref_ok(ds, nparams, tr),
        FieldType::Reference { param, target } => param < nparams && ref_ok(ds, nparams, target),
        FieldType::InteriorMutable(inner) => field_ok(ds, nparams, *inner),
        FieldType::ErasedDynamic { bound_param } => bound_param < nparams,
    }
}

/// Every type a declaration names is declared, with one argument per parameter, and every
/// parameter index it uses is one of its own.
pub open spec fn decls_ok(ds: Seq<TypeDecl>) -> bool {
    forall|d: int, k: int|
        0 <= d < ds.len() && 0 <= k < ds[d].fields@.len() ==> #[trigger] field_ok(
            ds,
            ds[d].params@.len(),
            ds[d].fields@[k],
        )
}

} // verus!

verus! {

pub open spec fn decl_ok(ds: Seq<TypeDecl>, d: int) -> bool {
    forall|k: int|
        0 <= k < ds[d].fields@.len() ==> #[trigger] field_ok(
            ds,
            ds[d].params@.len(),
            ds[d].fields@[k],
        )
}

/// The first declaration that names an undeclared type or an index it does not have.
pub open spec fn first_bad_decl(ds: Seq<TypeDecl>) -> int {
    choose|d: int| 0 <= d < ds.len() && !decl_ok(ds, d) && forall|e: int| 0 <= e < d ==> decl_ok(ds, e)
}

/// Malformed input, found before any analysis.
#[derive(Clone, Copy, PartialEq, Eq, Structural, Debug)]
pub enum ValidationError {
    MalformedDeclaration { decl: usize },
    MalformedBinding { binding: usize },
    MalformedBorrow { borrow: usize },
    /// Some declaration holds itself inline, through a chain of owned fields.
    CyclicOwnership,
}

fn check_ref(ds: &Vec<TypeDecl>, n: usize, tr: &TypeRef) -> (r: bool)
    ensures
        r == ref_ok(ds@, n as nat, *tr),
{
    if tr.decl >= ds.len() || tr.args.len() != ds[tr.decl].params.len() {
        return false;
    }
    let mut k: usize = 0;
    while k < tr.args.len()
        invariant
            k <= tr.args.len(),
            forall|i: int| 0 <= i < k ==> tr.args@[i] < n,
        decreases tr.args.len() - k,
    {
        if tr.args[k] >= n {
            return false;
        }
        k = k + 1;
    }
    true
}

fn check_field(ds: &Vec<TypeDecl>, n: usize, f: &FieldType) -> (r: bool)
    ensures
        r == field_ok(ds@, n as nat, *f),
    decreases f,
{
    match f {
        FieldType::Owned(tr) => check_ref(ds, n, tr),
        FieldType::Reference { param, target } => *param < n && check_ref(ds, n, target),
        FieldType::InteriorMutable(inner) => check_field(ds, n, &**inner),
        FieldType::ErasedDynamic { bound_param } => *bound_param < n,
    }
}

/// Checks that every type named is declared, every index is in range, and no declaration
/// holds itself inline.
pub fn validate_declarations(ds: &Vec<TypeDecl>) -> (r: Result<(), ValidationError>)
    ensures
        r is Ok <==> decls_ok(ds@) && layable(ds@),
        !decls_ok(ds@) ==> r == Err::<(), ValidationError>(
            ValidationError::MalformedDeclaration { decl: first_bad_decl(ds@) as usize },
        ),
        decls_ok(ds@) && !layable(ds@) ==> r == Err::<(), ValidationError>(
            ValidationError::CyclicOwnership,
        ),
{
    let mut d: usize = 0;
    while d < ds.len()
        invariant
            d <= ds.len(),
            forall|e: int| 0 <= e < d ==> decl_ok(ds@, e),
        decreases ds.len() - d,
    {
        let n = ds[d].params.len();
        let mut k: usize = 0;
        while k < ds[d].fields.len()
            invariant
                d < ds.len(),
                n == ds@[d as int].params@.len(),
                k <= ds@[d as int].fields@.len(),
                forall|e: int| 0 <= e < d ==> decl_ok(ds@, e),
                forall|j: int| 0 <= j < k ==> #[trigger] field_ok(ds@, n as nat, ds@[d as int].fields@[j]),
            decreases ds@[d as int].fields@.len() - k,
        {
            if !check_field(ds, n, &ds[d].fields[k]) {
                assert(!decl_ok(ds@, d as int));
                assert(0 <= d < ds.len() && !decl_ok(ds@, d as int) && forall|e: int|
                    0 <= e < d ==> decl_ok(ds@, e));
                proof {
                    let b = first_bad_decl(ds@);
                    if b < d {
                        assert(decl_ok(ds@, b));
                    } else if b > d {
                        assert(decl_ok(ds@, d as int));
                    }
                }
                return Err(ValidationError::MalformedDeclaration { decl: d });
            }
            k = k + 1;
        }
        d = d + 1;
    }
    assert forall|e: int, k: int|
        0 <= e < ds.len() && 0 <= k < ds@[e].fields@.len() implies #[trigger] field_ok(
        ds@,
        ds@[e].params@.len(),
        ds@[e].fields@[k],
    ) by {
        assert(decl_ok(ds@, e));
    }
    if !check_layout(ds) {
        return Err(ValidationError::CyclicOwnership);
    }
    Ok(())
}

} // verus!

verus! {

/// Field `f` holds a value of declaration `b` inline (not behind a borrow).
pub open spec fn owns_in(f: FieldType, b: int) -> bool
    decreases f,
{
    match f {
        FieldType::Owned(tr) => tr.decl as int == b,
        FieldType::InteriorMutable(inner) => owns_in(*inner, b),
        _ => false,
    }
}

pub open spec fn owns(ds: Seq<TypeDecl>, a: int, b: int) -> bool {
    exists|k: int| 0 <= k < ds[a].fields@.len() && #[trigger] owns_in(ds[a].fields@[k], b)
}

/// A ranking in which every declaration ranks above everything it holds inline.
pub open spec fn is_layering(ds: Seq<TypeDecl>, rank: Seq<nat>) -> bool {
    &&& rank.len() == ds.len()
    &&& forall|a: int, b: int|
        0 <= a < ds.len() && 0 <= b < ds.len() && #[trigger] owns(ds, a, b) ==> rank[b] < rank[a]
}

/// Every declaration has a finite size: ownership has no cycle.
pub open spec fn layable(ds: Seq<TypeDecl>) -> bool {
    exists|rank: Seq<nat>| is_layering(ds, rank)
}

fn field_ready(f: &FieldType, placed: &Vec<bool>, rank: &Vec<usize>, round: usize) -> (r: bool)
    requires
        placed.len() == rank.len(),
    ensures
        r ==> forall|b: int| #[trigger] owns_in(*f, b) ==> 0 <= b < placed.len() && placed@[b]
            && rank@[b] < round,
        !r ==> exists|b: int| #[trigger] owns_in(*f, b) && !(0 <= b < placed.len() && placed@[b]
            && rank@[b] < round),
    decreases f,
{
    match f {
        FieldType::Owned(tr) => {
            let b = tr.decl;
            assert(owns_in(*f, b as int));
            assert(forall|c: int| #[trigger] owns_in(*f, c) ==> c == b);
            if b >= placed.len() {
                return false;
            }
            let r = placed[b] && rank[b] < round;
            assert(r ==> forall|c: int| #[trigger] owns_in(*f, c) ==> 0 <= c < placed.len()
                && placed@[c] && rank@[c] < round);
            assert(!r ==> !(0 <= b < placed.len() && placed@[b as int] && rank@[b as int] < round));
            r
        },
        FieldType::InteriorMutable(inner) => {
            let r = field_ready(&**inner, placed, rank, round);
            proof {
                if r {
                    assert forall|b: int| #[trigger] owns_in(*f, b) implies 0 <= b < placed.len()
                        && placed@[b] && rank@[b] < round by {
                        assert(owns_in(**inner, b));
                    }
                } else {
                    let b = choose|b: int|
                        #[trigger] owns_in(**inner, b) && !(0 <= b < placed.len() && placed@[b]
                            && rank@[b] < round);
                    assert(owns_in(*f, b));
                }
            }
            r
        },
        FieldType::Reference { .. } => {
            assert(forall|c: int| !owns_in(*f, c));
            true
        },
        FieldType::ErasedDynamic { .. } => {
            assert(forall|c: int| !owns_in(*f, c));
            true
        },
    }
}

proof fn lemma_owns_in_range(ds: Seq<TypeDecl>, n: nat, f: FieldType, b: int)
    requires
        field_ok(ds, n, f),
        owns_in(f, b),
    ensures
        0 <= b < ds.len(),
    decreases f,
{
    if let FieldType::InteriorMutable(inner) = f {
        lemma_owns_in_range(ds, n, *inner, b);
    }
}

/// Declaration `a` may be placed: all it holds inline was placed in an earlier round.
fn node_ready(ds: &Vec<TypeDecl>, a: usize, placed: &Vec<bool>, rank: &Vec<usize>, round: usize) -> (r:
    bool)
    requires
        a < ds.len(),
        placed.len() == rank.len(),
    ensures
        r == forall|b: int| #[trigger] owns(ds@, a as int, b) ==> 0 <= b < placed.len()
            && placed@[b] && rank@[b] < round,
{
    let fields = &ds[a].fields;
    let mut k: usize = 0;
    while k < fields.len()
        invariant
            placed.len() == rank.len(),
            fields@ == ds@[a as int].fields@,
            k <= fields.len(),
            forall|j: int, b: int|
                0 <= j < k && #[trigger] owns_in(fields@[j], b) ==> 0 <= b < placed.len()
                    && placed@[b] && rank@[b] < round,
        decreases fields.len() - k,
    {
        if !field_ready(&fields[k], placed, rank, round) {
            proof {
                let b = choose|b: int|
                    #[trigger] owns_in(fields@[k as int], b) && !(0 <= b < placed.len()
                        && placed@[b] && rank@[b] < round);
                assert(owns(ds@, a as int, b));
            }
            return false;
        }
        k = k + 1;
    }
    true
}

/// The layering facts kept between rounds.
#[verifier::opaque]
spec fn layered_so_far(ds: Seq<TypeDecl>, placed: Seq<bool>, rank: Seq<usize>, round: int) -> bool {
    &&& placed.len() == ds.len()
    &&& rank.len() == ds.len()
    &&& forall|a: int| 0 <= a < ds.len() && placed[a] ==> rank[a] < round
    &&& forall|a: int, b: int|
        0 <= a < ds.len() && 0 <= b < ds.len() && placed[a] && #[trigger] owns(ds, a, b)
            ==> placed[b] && rank[b] < rank[a]
}

fn place_round(ds: &Vec<TypeDecl>, placed: &mut Vec<bool>, rank: &mut Vec<usize>, round: usize) -> (progressed: bool)
    requires
        decls_ok(ds@),
        round < usize::MAX,
        old(placed).len() == ds.len(),
        old(rank).len() == ds.len(),
        layered_so_far(ds@, old(placed)@, old(rank)@, round as int),
    ensures
        final(placed).len() == ds.len(),
        final(rank).len() == ds.len(),
        layered_so_far(ds@, final(placed)@, final(rank)@, round + 1),
        progressed ==> count_unplaced(final(placed)@) < count_unplaced(old(placed)@),
        !progressed ==> final(placed)@ == old(placed)@,
        !progressed ==> forall|x: int| 0 <= x < ds.len() && !final(placed)@[x] ==> exists|y: int|
            0 <= y < ds.len() && !final(placed)@[y] && #[trigger] owns(ds@, x, y),
{
    reveal(layered_so_far);
    let n = ds.len();
    let ghost before = placed@;
    let ghost mut placed_now: nat = 0;
    let mut progressed = false;
    let mut a: usize = 0;
    while a < n
        invariant
            n == ds.len(),
            decls_ok(ds@),
            placed.len() == n,
            rank.len() == n,
            a <= n,
            before.len() == n,
            count_unplaced(placed@) + placed_now == count_unplaced(before),
            progressed <==> placed_now > 0,
            !progressed ==> placed@ == before,
            forall|x: int| 0 <= x < n && before[x] ==> placed@[x] && rank@[x] < round,
            forall|x: int| 0 <= x < n && placed@[x] && !before[x] ==> rank@[x] == round,
            forall|x: int| a <= x < n ==> placed@[x] == before[x],
            forall|x: int, y: int|
                0 <= x < n && 0 <= y < n && placed@[x] && #[trigger] owns(ds@, x, y) ==> placed@[y]
                    && rank@[y] < rank@[x],
            forall|x: int|
                0 <= x < a && !placed@[x] ==> exists|y: int|
                    0 <= y < n && !before[y] && #[trigger] owns(ds@, x, y),
        decreases n - a,
    {
        if !placed[a] {
            if node_ready(ds, a, placed, rank, round) {
                proof {
                    lemma_place_one(placed@, a as int);
                    placed_now = placed_now + 1;
                }
                placed.set(a, true);
                rank.set(a, round);
                progressed = true;
            } else {
                proof {
                    let b = choose|b: int| #[trigger] owns(ds@, a as int, b) && !(0 <= b < n
                        && placed@[b] && rank@[b] < round);
                    let k = choose|k: int|
                        0 <= k < ds@[a as int].fields@.len() && #[trigger] owns_in(
                            ds@[a as int].fields@[k],
                            b,
                        );
                    assert(field_ok(ds@, ds@[a as int].params@.len(), ds@[a as int].fields@[k]));
                    lemma_owns_in_range(ds@, ds@[a as int].params@.len(), ds@[a as int].fields@[k], b);
                }
            }
        }
        a = a + 1;
    }
    assert forall|x: int| 0 <= x < n && placed@[x] implies rank@[x] < round + 1 by {
        if !before[x] {
            assert(rank@[x] == round);
        }
    }
    progressed
}

proof fn lemma_no_layering(ds: Seq<TypeDecl>, placed: Seq<bool>, rank: Seq<nat>, v: nat)
    requires
        is_layering(ds, rank),
        placed.len() == ds.len(),
        forall|a: int|
            0 <= a < ds.len() && !placed[a] ==> exists|b: int|
                0 <= b < ds.len() && !placed[b] && #[trigger] owns(ds, a, b),
    ensures
        forall|a: int| 0 <= a < ds.len() && !placed[a] ==> rank[a] > v,
    decreases v,
{
    if v > 0 {
        lemma_no_layering(ds, placed, rank, (v - 1) as nat);
    }
    assert forall|a: int| 0 <= a < ds.len() && !placed[a] implies rank[a] > v by {
        let b = choose|b: int| 0 <= b < ds.len() && !placed[b] && #[trigger] owns(ds, a, b);
        assert(rank[b] < rank[a]);
    }
}

pub open spec fn count_unplaced(s: Seq<bool>) -> nat
    decreases s.len(),
{
    if s.len() == 0 {
        0
    } else {
        count_unplaced(s.drop_last()) + if s.last() {
            0nat
        } else {
            1nat
        }
    }
}

proof fn lemma_place_one(s: Seq<bool>, i: int)
    requires
        0 <= i < s.len(),
        !s[i],
    ensures
        count_unplaced(s.update(i, true)) + 1 == count_unplaced(s),
    decreases s.len(),
{
    let t = s.update(i, true);
    if i < s.len() - 1 {
        assert(t.drop_last() =~= s.drop_last().update(i, true));
        lemma_place_one(s.drop_last(), i);
    } else {
        assert(t.drop_last() =~= s.drop_last());
    }
}

proof fn lemma_unplaced_positive(s: Seq<bool>, i: int)
    requires
        0 <= i < s.len(),
        !s[i],
    ensures
        count_unplaced(s) > 0,
    decreases s.len(),
{
    if i < s.len() - 1 {
        lemma_unplaced_positive(s.drop_last(), i);
    }
}

proof fn lemma_unplaced_bound(s: Seq<bool>)
    ensures
        count_unplaced(s) <= s.len(),
    decreases s.len(),
{
    if s.len() > 0 {
        lemma_unplaced_bound(s.drop_last());
    }
}

proof fn lemma_all_placed_layable(ds: Seq<TypeDecl>, placed: Seq<bool>, rank: Seq<usize>, round: int)
    requires
        layered_so_far(ds, placed, rank, round),
        placed.len() == ds.len(),
        forall|x: int| 0 <= x < placed.len() ==> placed[x],
    ensures
        layable(ds),
{
    reveal(layered_so_far);
    let rk = rank.map_values(|r: usize| r as nat);
    assert(is_layering(ds, rk));
}

proof fn lemma_stuck_not_layable(ds: Seq<TypeDecl>, placed: Seq<bool>)
    requires
        placed.len() == ds.len(),
        exists|x: int| 0 <= x < ds.len() && !placed[x],
        forall|x: int|
            0 <= x < ds.len() && !placed[x] ==> exists|y: int|
                0 <= y < ds.len() && !placed[y] && #[trigger] owns(ds, x, y),
    ensures
        !layable(ds),
{
    let x = choose|x: int| 0 <= x < ds.len() && !placed[x];
    if layable(ds) {
        let rk = choose|rk: Seq<nat>| is_layering(ds, rk);
        lemma_no_layering(ds, placed, rk, rk[x]);
    }
}

fn all_placed(placed: &Vec<bool>) -> (r: bool)
    ensures
        r <==> forall|x: int| 0 <= x < placed.len() ==> placed@[x],
{
    let mut j: usize = 0;
    while j < placed.len()
        invariant
            j <= placed.len(),
            forall|x: int| 0 <= x < j ==> placed@[x],
        decreases placed.len() - j,
    {
        if !placed[j] {
            return false;
        }
        j = j + 1;
    }
    true
}

/// Decides whether ownership among the declarations is free of cycles, placing in each round
/// every declaration whose inline contents were all placed in earlier rounds.
fn check_layout(ds: &Vec<TypeDecl>) -> (r: bool)
    requires
        decls_ok(ds@),
    ensures
        r == layable(ds@),
{
    let n = ds.len();
    let mut placed: Vec<bool> = Vec::new();
    let mut rank: Vec<usize> = Vec::new();
    let mut i: usize = 0;
    while i < n
        invariant
            i <= n,
            placed.len() == i,
            rank.len() == i,
            forall|a: int| 0 <= a < i ==> !placed@[a],
        decreases n - i,
    {
        placed.push(false);
        rank.push(0);
        i = i + 1;
    }
    proof {
        lemma_unplaced_bound(placed@);
        reveal(layered_so_far);
    }
    let mut round: usize = 0;
    loop
        invariant
            n == ds.len(),
            decls_ok(ds@),
            placed.len() == n,
            rank.len() == n,
            round + count_unplaced(placed@) <= n,
            layered_so_far(ds@, placed@, rank@, round as int),
        decreases count_unplaced(placed@),
    {
        if all_placed(&placed) {
            proof {
                lemma_all_placed_layable(ds@, placed@, rank@, round as int);
            }
            return true;
        }
        proof {
            let x = choose|x: int| 0 <= x < n && !placed@[x];
            lemma_unplaced_positive(placed@, x);
        }
        let progressed = place_round(ds, &mut placed, &mut rank, round);
        if !progressed {
            proof {
                lemma_stuck_not_layable(ds@, placed@);
            }
            return false;
        }
        round = round + 1;
    }
}

} // verus!
