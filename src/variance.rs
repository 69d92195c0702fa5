use vstd::prelude::*;

use crate::model::{below, decls_ok, field_ok, join, join_variance, rank, ref_ok, transform, transform_variance, FieldType, TypeDecl, TypeRef, Variance};

verus! {

/// What is known of one lifetime parameter of one declaration, on two independent axes.
#[derive(Clone, Copy, PartialEq, Eq, Structural, Debug)]
pub struct Facts {
    pub variance: Variance,
    /// Whether dropping a value of the type may observe data reached through the parameter.
    pub relevant: bool,
}

pub open spec fn facts_below(a: Facts, b: Facts) -> bool {
    below(a.variance, b.variance) && (a.relevant ==> b.relevant)
}

pub open spec fn facts_join(a: Facts, b: Facts) -> Facts {
    Facts { variance: join(a.variance, b.variance), relevant: a.relevant || b.relevant }
}

/// Variance contributed by the used struct's parameters that are instantiated with `p`
/// (the first `k` arguments).
pub open spec fn args_variance(t: Seq<Seq<Facts>>, tr: TypeRef, p: int, k: nat) -> Variance
    decreases k,
{
    if k == 0 {
        Variance::Bivariant
    } else {
        join(
            args_variance(t, tr, p, (k - 1) as nat),
            if tr.args@[k - 1] as int == p {
                t[tr.decl as int][k - 1].variance
            } else {
                Variance::Bivariant
            },
        )
    }
}

/// Some parameter of the used struct instantiated with `p` (among the first `k`) is
/// drop-check-relevant there.
pub open spec fn args_relevant(t: Seq<Seq<Facts>>, tr: TypeRef, p: int, k: nat) -> bool
    decreases k,
{
    k > 0 && (args_relevant(t, tr, p, (k - 1) as nat) || (tr.args@[k - 1] as int == p
        && t[tr.decl as int][k - 1].relevant))
}

pub open spec fn mentions(f: FieldType, p: int) -> bool
    decreases f,
{
    match f {
        FieldType::Owned(tr) => tr.args@.contains(p as usize),
        FieldType::Reference { param, target } => param as int == p || target.args@.contains(
            p as usize,
        ),
        FieldType::InteriorMutable(inner) => mentions(*inner, p),
        FieldType::ErasedDynamic { bound_param } => bound_param as int == p,
    }
}

pub open spec fn field_variance(t: Seq<Seq<Facts>>, f: FieldType, p: int) -> Variance
    decreases f,
{
    match f {
        FieldType::Owned(tr) => transform(
            Variance::Covariant,
            args_variance(t, tr, p, tr.args@.len()),
        ),
        FieldType::Reference { param, target } => join(
            if param as int == p {
                Variance::Covariant
            } else {
                Variance::Bivariant
            },
            transform(Variance::Covariant, args_variance(t, target, p, target.args@.len())),
        ),
        FieldType::InteriorMutable(inner) => if mentions(*inner, p) {
            Variance::Invariant
        } else {
            Variance::Bivariant
        },
        FieldType::ErasedDynamic { bound_param } => if bound_param as int == p {
            Variance::Covariant
        } else {
            Variance::Bivariant
        },
    }
}

/// Ownership passes drop obligations on; a borrow does not.
pub open spec fn field_relevant(t: Seq<Seq<Facts>>, f: FieldType, p: int) -> bool
    decreases f,
{
    match f {
        FieldType::Owned(tr) => args_relevant(t, tr, p, tr.args@.len()),
        FieldType::Reference { .. } => false,
        FieldType::InteriorMutable(inner) => field_relevant(t, *inner, p),
        FieldType::ErasedDynamic { bound_param } => bound_param as int == p,
    }
}

pub open spec fn fields_variance(t: Seq<Seq<Facts>>, fs: Seq<FieldType>, p: int, k: nat) -> Variance
    decreases k,
{
    if k == 0 {
        Variance::Bivariant
    } else {
        join(fields_variance(t, fs, p, (k - 1) as nat), field_variance(t, fs[k - 1], p))
    }
}

pub open spec fn fields_relevant(t: Seq<Seq<Facts>>, fs: Seq<FieldType>, p: int, k: nat) -> bool
    decreases k,
{
    k > 0 && (fields_relevant(t, fs, p, (k - 1) as nat) || field_relevant(t, fs[k - 1], p))
}

/// The declaration's own destructor may observe parameter `p`.
pub open spec fn own_relevant(ds: Seq<TypeDecl>, d: int, p: int) -> bool {
    ds[d].has_destructor && !ds[d].params@[p].dangle_escape
}

/// What the fields of declaration `d` say of its parameter `p`, given the table `t`.
pub open spec fn derived(ds: Seq<TypeDecl>, t: Seq<Seq<Facts>>, d: int, p: int) -> Facts {
    Facts {
        variance: fields_variance(t, ds[d].fields@, p, ds[d].fields@.len()),
        relevant: own_relevant(ds, d, p) || fields_relevant(
            t,
            ds[d].fields@,
            p,
            ds[d].fields@.len(),
        ),
    }
}

/// One entry per declaration and parameter.
pub open spec fn shaped(ds: Seq<TypeDecl>, t: Seq<Seq<Facts>>) -> bool {
    &&& t.len() == ds.len()
    &&& forall|d: int| 0 <= d < ds.len() ==> #[trigger] t[d].len() == ds[d].params@.len()
}

pub open spec fn table_below(ds: Seq<TypeDecl>, t: Seq<Seq<Facts>>, u: Seq<Seq<Facts>>) -> bool {
    forall|d: int, p: int|
        0 <= d < ds.len() && 0 <= p < ds[d].params@.len() ==> facts_below(
            #[trigger] t[d][p],
            u[d][p],
        )
}

/// Every entry is at least what the declaration's fields derive from the table.
pub open spec fn closed(ds: Seq<TypeDecl>, t: Seq<Seq<Facts>>) -> bool {
    forall|d: int, p: int|
        0 <= d < ds.len() && 0 <= p < ds[d].params@.len() ==> facts_below(
            #[trigger] derived(ds, t, d, p),
            t[d][p],
        )
}

/// The least table closed under the declarations' rules: the least fixpoint.
pub open spec fn is_least_table(ds: Seq<TypeDecl>, t: Seq<Seq<Facts>>) -> bool {
    &&& shaped(ds, t)
    &&& closed(ds, t)
    &&& forall|u: Seq<Seq<Facts>>| shaped(ds, u) && closed(ds, u) ==> table_below(ds, t, u)
}

pub open spec fn entry_potential(a: Facts) -> nat {
    (3 - rank(a.variance) - (if a.relevant { 1int } else { 0int })) as nat
}

pub open spec fn row_potential(r: Seq<Facts>) -> nat
    decreases r.len(),
{
    if r.len() == 0 {
        0
    } else {
        row_potential(r.drop_last()) + entry_potential(r.last())
    }
}

pub open spec fn potential(t: Seq<Seq<Facts>>) -> nat
    decreases t.len(),
{
    if t.len() == 0 {
        0
    } else {
        potential(t.drop_last()) + row_potential(t.last())
    }
}

proof fn lemma_join_mono(a: Variance, b: Variance, c: Variance, e: Variance)
    requires
        below(a, c),
        below(b, e),
    ensures
        below(join(a, b), join(c, e)),
{
}

proof fn lemma_args_mono(
    ds: Seq<TypeDecl>,
    t: Seq<Seq<Facts>>,
    u: Seq<Seq<Facts>>,
    n: nat,
    tr: TypeRef,
    p: int,
    k: nat,
)
    requires
        ref_ok(ds, n, tr),
        table_below(ds, t, u),
        k <= tr.args@.len(),
    ensures
        below(args_variance(t, tr, p, k), args_variance(u, tr, p, k)),
        args_relevant(t, tr, p, k) ==> args_relevant(u, tr, p, k),
    decreases k,
{
    if k > 0 {
        lemma_args_mono(ds, t, u, n, tr, p, (k - 1) as nat);
        assert(facts_below(t[tr.decl as int][k - 1], u[tr.decl as int][k - 1]));
        lemma_join_mono(
            args_variance(t, tr, p, (k - 1) as nat),
            if tr.args@[k - 1] as int == p {
                t[tr.decl as int][k - 1].variance
            } else {
                Variance::Bivariant
            },
            args_variance(u, tr, p, (k - 1) as nat),
            if tr.args@[k - 1] as int == p {
                u[tr.decl as int][k - 1].variance
            } else {
                Variance::Bivariant
            },
        );
    }
}

proof fn lemma_field_mono(
    ds: Seq<TypeDecl>,
    t: Seq<Seq<Facts>>,
    u: Seq<Seq<Facts>>,
    n: nat,
    f: FieldType,
    p: int,
)
    requires
        field_ok(ds, n, f),
        table_below(ds, t, u),
    ensures
        below(field_variance(t, f, p), field_variance(u, f, p)),
        field_relevant(t, f, p) ==> field_relevant(u, f, p),
    decreases f,
{
    match f {
        FieldType::Owned(tr) => {
            lemma_args_mono(ds, t, u, n, tr, p, tr.args@.len());
        },
        FieldType::Reference { param, target } => {
            lemma_args_mono(ds, t, u, n, target, p, target.args@.len());
            let v = if param as int == p {
                Variance::Covariant
            } else {
                Variance::Bivariant
            };
            lemma_join_mono(
                v,
                args_variance(t, target, p, target.args@.len()),
                v,
                args_variance(u, target, p, target.args@.len()),
            );
        },
        FieldType::InteriorMutable(inner) => {
            lemma_field_mono(ds, t, u, n, *inner, p);
        },
        FieldType::ErasedDynamic { .. } => {},
    }
}

proof fn lemma_fields_mono(
    ds: Seq<TypeDecl>,
    t: Seq<Seq<Facts>>,
    u: Seq<Seq<Facts>>,
    d: int,
    p: int,
    k: nat,
)
    requires
        decls_ok(ds),
        0 <= d < ds.len(),
        k <= ds[d].fields@.len(),
        table_below(ds, t, u),
    ensures
        below(fields_variance(t, ds[d].fields@, p, k), fields_variance(u, ds[d].fields@, p, k)),
        fields_relevant(t, ds[d].fields@, p, k) ==> fields_relevant(u, ds[d].fields@, p, k),
    decreases k,
{
    if k > 0 {
        let fs = ds[d].fields@;
        lemma_fields_mono(ds, t, u, d, p, (k - 1) as nat);
        assert(field_ok(ds, ds[d].params@.len(), fs[k - 1]));
        lemma_field_mono(ds, t, u, ds[d].params@.len(), fs[k - 1], p);
        lemma_join_mono(
            fields_variance(t, fs, p, (k - 1) as nat),
            field_variance(t, fs[k - 1], p),
            fields_variance(u, fs, p, (k - 1) as nat),
            field_variance(u, fs[k - 1], p),
        );
    }
}

/// Deriving is monotone in the table.
proof fn lemma_derived_mono(ds: Seq<TypeDecl>, t: Seq<Seq<Facts>>, u: Seq<Seq<Facts>>, d: int, p: int)
    requires
        decls_ok(ds),
        0 <= d < ds.len(),
        table_below(ds, t, u),
    ensures
        facts_below(derived(ds, t, d, p), derived(ds, u, d, p)),
{
    lemma_fields_mono(ds, t, u, d, p, ds[d].fields@.len());
}

proof fn lemma_row_potential(r: Seq<Facts>, s: Seq<Facts>)
    requires
        r.len() == s.len(),
        forall|i: int| 0 <= i < r.len() ==> facts_below(#[trigger] r[i], s[i]),
    ensures
        row_potential(s) <= row_potential(r),
        (exists|i: int| 0 <= i < r.len() && r[i] != s[i]) ==> row_potential(s) < row_potential(r),
    decreases r.len(),
{
    if r.len() > 0 {
        let n = r.len() - 1;
        lemma_row_potential(r.drop_last(), s.drop_last());
        assert(facts_below(r[n], s[n]));
        if exists|i: int| 0 <= i < r.len() && r[i] != s[i] {
            let i = choose|i: int| 0 <= i < r.len() && r[i] != s[i];
            if i < n {
                assert(r.drop_last()[i] != s.drop_last()[i]);
            }
        }
    }
}

proof fn lemma_potential(ds: Seq<TypeDecl>, t: Seq<Seq<Facts>>, u: Seq<Seq<Facts>>, m: int)
    requires
        shaped(ds, t),
        shaped(ds, u),
        table_below(ds, t, u),
        0 <= m <= ds.len(),
    ensures
        potential(u.take(m)) <= potential(t.take(m)),
        (exists|d: int, p: int| 0 <= d < m && 0 <= p < ds[d].params@.len() && t[d][p] != u[d][p])
            ==> potential(u.take(m)) < potential(t.take(m)),
    decreases m,
{
    if m > 0 {
        let d = m - 1;
        lemma_potential(ds, t, u, m - 1);
        assert(t.take(m).drop_last() == t.take(m - 1));
        assert(u.take(m).drop_last() == u.take(m - 1));
        assert(t[d].len() == ds[d].params@.len());
        assert(u[d].len() == ds[d].params@.len());
        assert forall|i: int| 0 <= i < t[d].len() implies facts_below(#[trigger] t[d][i], u[d][i]) by {
        }
        lemma_row_potential(t[d], u[d]);
        if exists|e: int, p: int|
            0 <= e < m && 0 <= p < ds[e].params@.len() && t[e][p] != u[e][p] {
            let (e, p) = choose|e: int, p: int|
                0 <= e < m && 0 <= p < ds[e].params@.len() && t[e][p] != u[e][p];
            if e == d {
                assert(t[d][p] != u[d][p]);
            }
        }
    }
}

} // verus!

verus! {

pub open spec fn rows_view(rows: Seq<Vec<Facts>>) -> Seq<Seq<Facts>> {
    rows.map_values(|r: Vec<Facts>| r@)
}

/// Per declaration and per lifetime parameter: its variance and its drop-check relevance.
/// Computed once per declaration set, then only read.
pub struct VarianceTable {
    pub rows: Vec<Vec<Facts>>,
}

impl View for VarianceTable {
    type V = Seq<Seq<Facts>>;

    open spec fn view(&self) -> Seq<Seq<Facts>> {
        rows_view(self.rows@)
    }
}

fn join_facts(a: Facts, b: Facts) -> (r: Facts)
    ensures
        r == facts_join(a, b),
{
    Facts { variance: join_variance(a.variance, b.variance), relevant: a.relevant || b.relevant }
}

fn contains_param(args: &Vec<usize>, p: usize) -> (r: bool)
    ensures
        r == args@.contains(p),
{
    let mut k: usize = 0;
    while k < args.len()
        invariant
            k <= args.len(),
            forall|j: int| 0 <= j < k ==> args@[j] != p,
        decreases args.len() - k,
    {
        if args[k] == p {
            assert(args@[k as int] == p);
            return true;
        }
        k = k + 1;
    }
    false
}

fn mentions_param(f: &FieldType, p: usize) -> (r: bool)
    ensures
        r == mentions(*f, p as int),
    decreases f,
{
    match f {
        FieldType::Owned(tr) => contains_param(&tr.args, p),
        FieldType::Reference { param, target } => *param == p || contains_param(&target.args, p),
        FieldType::InteriorMutable(inner) => mentions_param(&**inner, p),
        FieldType::ErasedDynamic { bound_param } => *bound_param == p,
    }
}

fn args_facts(t: &Vec<Vec<Facts>>, tr: &TypeRef, p: usize) -> (r: Facts)
    requires
        tr.decl < t.len(),
        tr.args.len() == t@[tr.decl as int].len(),
    ensures
        r.variance == args_variance(rows_view(t@), *tr, p as int, tr.args@.len()),
        r.relevant == args_relevant(rows_view(t@), *tr, p as int, tr.args@.len()),
{
    let ghost tv = rows_view(t@);
    let row = &t[tr.decl];
    let mut acc = Facts { variance: Variance::Bivariant, relevant: false };
    let mut k: usize = 0;
    while k < tr.args.len()
        invariant
            k <= tr.args.len(),
            tr.args.len() == row.len(),
            row@ == tv[tr.decl as int],
            tv == rows_view(t@),
            acc.variance == args_variance(tv, *tr, p as int, k as nat),
            acc.relevant == args_relevant(tv, *tr, p as int, k as nat),
        decreases tr.args.len() - k,
    {
        if tr.args[k] == p {
            acc = join_facts(acc, row[k]);
        } else {
            acc = join_facts(acc, Facts { variance: Variance::Bivariant, relevant: false });
        }
        k = k + 1;
    }
    acc
}

fn field_facts(ds: &Vec<TypeDecl>, t: &Vec<Vec<Facts>>, n: usize, f: &FieldType, p: usize) -> (r:
    Facts)
    requires
        field_ok(ds@, n as nat, *f),
        shaped(ds@, rows_view(t@)),
    ensures
        r.variance == field_variance(rows_view(t@), *f, p as int),
        r.relevant == field_relevant(rows_view(t@), *f, p as int),
    decreases f,
{
    let ghost tv = rows_view(t@);
    match f {
        FieldType::Owned(tr) => {
            assert(tv[tr.decl as int].len() == ds@[tr.decl as int].params@.len());
            args_facts(t, tr, p)
        },
        FieldType::Reference { param, target } => {
            assert(tv[target.decl as int].len() == ds@[target.decl as int].params@.len());
            let a = args_facts(t, target, p);
            let own = if *param == p {
                Variance::Covariant
            } else {
                Variance::Bivariant
            };
            Facts {
                variance: join_variance(own, transform_variance(Variance::Covariant, a.variance)),
                relevant: false,
            }
        },
        FieldType::InteriorMutable(inner) => {
            let r = field_facts(ds, t, n, &**inner, p);
            let v = if mentions_param(&**inner, p) {
                Variance::Invariant
            } else {
                Variance::Bivariant
            };
            Facts { variance: v, relevant: r.relevant }
        },
        FieldType::ErasedDynamic { bound_param } => {
            if *bound_param == p {
                Facts { variance: Variance::Covariant, relevant: true }
            } else {
                Facts { variance: Variance::Bivariant, relevant: false }
            }
        },
    }
}

fn derive_facts(ds: &Vec<TypeDecl>, t: &Vec<Vec<Facts>>, d: usize, p: usize) -> (r: Facts)
    requires
        decls_ok(ds@),
        d < ds.len(),
        p < ds@[d as int].params@.len(),
        shaped(ds@, rows_view(t@)),
    ensures
        r == derived(ds@, rows_view(t@), d as int, p as int),
{
    let ghost tv = rows_view(t@);
    let decl = &ds[d];
    let n = decl.params.len();
    let mut acc = Facts {
        variance: Variance::Bivariant,
        relevant: decl.has_destructor && !decl.params[p].dangle_escape,
    };
    let mut k: usize = 0;
    while k < decl.fields.len()
        invariant
            k <= decl.fields.len(),
            decl == ds@[d as int],
            n == decl.params@.len(),
            decls_ok(ds@),
            d < ds.len(),
            shaped(ds@, tv),
            tv == rows_view(t@),
            acc.variance == fields_variance(tv, decl.fields@, p as int, k as nat),
            acc.relevant == (own_relevant(ds@, d as int, p as int) || fields_relevant(
                tv,
                decl.fields@,
                p as int,
                k as nat,
            )),
        decreases decl.fields.len() - k,
    {
        assert(field_ok(ds@, n as nat, decl.fields@[k as int]));
        let r = field_facts(ds, t, n, &decl.fields[k], p);
        acc = Facts {
            variance: join_variance(acc.variance, r.variance),
            relevant: acc.relevant || r.relevant,
        };
        k = k + 1;
    }
    acc
}

} // verus!

verus! {

/// One round of the iteration: every entry joined with what its declaration derives from `t`.
fn step(ds: &Vec<TypeDecl>, t: &Vec<Vec<Facts>>) -> (res: (Vec<Vec<Facts>>, bool))
    requires
        decls_ok(ds@),
        shaped(ds@, rows_view(t@)),
    ensures
        shaped(ds@, rows_view(res.0@)),
        forall|d: int, p: int|
            0 <= d < ds.len() && 0 <= p < ds@[d].params@.len() ==> #[trigger] rows_view(res.0@)[d][p]
                == facts_join(rows_view(t@)[d][p], derived(ds@, rows_view(t@), d, p)),
        res.1 <==> exists|d: int, p: int|
            0 <= d < ds.len() && 0 <= p < ds@[d].params@.len() && #[trigger] rows_view(t@)[d][p]
                != rows_view(res.0@)[d][p],
{
    let ghost tv = rows_view(t@);
    let mut next: Vec<Vec<Facts>> = Vec::new();
    let mut changed = false;
    let mut d: usize = 0;
    while d < ds.len()
        invariant
            d <= ds.len(),
            decls_ok(ds@),
            shaped(ds@, tv),
            tv == rows_view(t@),
            next.len() == d,
            forall|e: int| 0 <= e < d ==> #[trigger] next@[e].len() == ds@[e].params@.len(),
            forall|e: int, p: int|
                0 <= e < d && 0 <= p < ds@[e].params@.len() ==> #[trigger] next@[e]@[p]
                    == facts_join(tv[e][p], derived(ds@, tv, e, p)),
            changed <==> exists|e: int, p: int|
                0 <= e < d && 0 <= p < ds@[e].params@.len() && #[trigger] tv[e][p]
                    != next@[e]@[p],
        decreases ds.len() - d,
    {
        let mut row: Vec<Facts> = Vec::new();
        let mut p: usize = 0;
        let n = ds[d].params.len();
        assert(t@[d as int]@ == tv[d as int]);
        while p < n
            invariant
                p <= n,
                n == ds@[d as int].params@.len(),
                d < ds.len(),
                decls_ok(ds@),
                shaped(ds@, tv),
                tv == rows_view(t@),
                row.len() == p,
                forall|q: int|
                    0 <= q < p ==> #[trigger] row@[q] == facts_join(
                        tv[d as int][q],
                        derived(ds@, tv, d as int, q),
                    ),
                changed <==> (exists|e: int, q: int|
                    0 <= e < d && 0 <= q < ds@[e].params@.len() && #[trigger] tv[e][q]
                        != next@[e]@[q]) || (exists|q: int|
                    0 <= q < p && #[trigger] tv[d as int][q] != row@[q]),
            decreases n - p,
        {
            let old_entry = t[d][p];
            assert(old_entry == tv[d as int][p as int]);
            let fresh = join_facts(old_entry, derive_facts(ds, t, d, p));
            if fresh != old_entry {
                changed = true;
            }
            row.push(fresh);
            p = p + 1;
        }
        let ghost prev = next@;
        next.push(row);
        proof {
            assert forall|e: int, q: int|
                0 <= e < d + 1 && 0 <= q < ds@[e].params@.len() && #[trigger] tv[e][q]
                    != next@[e]@[q] implies changed by {
                if e < d {
                    assert(next@[e] == prev[e]);
                }
            }
            if changed {
                if exists|e: int, q: int|
                    0 <= e < d && 0 <= q < ds@[e].params@.len() && #[trigger] tv[e][q]
                        != prev[e]@[q] {
                    let (e, q) = choose|e: int, q: int|
                        0 <= e < d && 0 <= q < ds@[e].params@.len() && #[trigger] tv[e][q]
                            != prev[e]@[q];
                    assert(next@[e] == prev[e]);
                    assert(tv[e][q] != next@[e]@[q]);
                } else {
                    let q = choose|q: int| 0 <= q < p && #[trigger] tv[d as int][q] != row@[q];
                    assert(tv[d as int][q] != next@[d as int]@[q]);
                }
            }
        }
        d = d + 1;
    }
    let ghost nv = rows_view(next@);
    assert forall|e: int| 0 <= e < ds.len() implies #[trigger] nv[e].len()
        == ds@[e].params@.len() by {
        assert(nv[e] == next@[e]@);
        assert(next@[e].len() == ds@[e].params@.len());
    }
    assert forall|e: int, q: int|
        0 <= e < ds.len() && 0 <= q < ds@[e].params@.len() && #[trigger] tv[e][q] != nv[e][q]
        implies changed by {
        assert(nv[e] == next@[e]@);
    }
    (next, changed)
}

/// Computes the variance table of a declaration set by iterating from the bottom of the
/// lattice (Bivariant, not relevant) until nothing changes.
pub fn compute_variances(ds: &Vec<TypeDecl>) -> (r: VarianceTable)
    requires
        decls_ok(ds@),
    ensures
        is_least_table(ds@, r@),
{
    let mut rows: Vec<Vec<Facts>> = Vec::new();
    let mut d: usize = 0;
    while d < ds.len()
        invariant
            d <= ds.len(),
            rows.len() == d,
            forall|e: int| 0 <= e < d ==> #[trigger] rows@[e].len() == ds@[e].params@.len(),
            forall|e: int, p: int|
                0 <= e < d && 0 <= p < ds@[e].params@.len() ==> #[trigger] rows@[e]@[p] == (Facts {
                    variance: Variance::Bivariant,
                    relevant: false,
                }),
        decreases ds.len() - d,
    {
        let mut row: Vec<Facts> = Vec::new();
        let n = ds[d].params.len();
        let mut p: usize = 0;
        while p < n
            invariant
                p <= n,
                row.len() == p,
                forall|q: int|
                    0 <= q < p ==> #[trigger] row@[q] == (Facts {
                        variance: Variance::Bivariant,
                        relevant: false,
                    }),
            decreases n - p,
        {
            row.push(Facts { variance: Variance::Bivariant, relevant: false });
            p = p + 1;
        }
        rows.push(row);
        d = d + 1;
    }
    let ghost tv = rows_view(rows@);
    assert forall|e: int| 0 <= e < ds.len() implies #[trigger] tv[e].len()
        == ds@[e].params@.len() by {
        assert(tv[e] == rows@[e]@);
        assert(rows@[e].len() == ds@[e].params@.len());
    }
    assert forall|u: Seq<Seq<Facts>>| shaped(ds@, u) && closed(ds@, u) implies table_below(
        ds@,
        tv,
        u,
    ) by {
        assert forall|e: int, p: int|
            0 <= e < ds.len() && 0 <= p < ds@[e].params@.len() implies facts_below(
            #[trigger] tv[e][p],
            u[e][p],
        ) by {
            assert(tv[e] == rows@[e]@);
        }
    }
    loop
        invariant
            decls_ok(ds@),
            shaped(ds@, rows_view(rows@)),
            forall|u: Seq<Seq<Facts>>|
                shaped(ds@, u) && closed(ds@, u) ==> table_below(ds@, rows_view(rows@), u),
        decreases potential(rows_view(rows@)),
    {
        let ghost tv = rows_view(rows@);
        let (next, changed) = step(ds, &rows);
        let ghost nv = rows_view(next@);
        if !changed {
            assert forall|e: int, p: int|
                0 <= e < ds.len() && 0 <= p < ds@[e].params@.len() implies facts_below(
                #[trigger] derived(ds@, tv, e, p),
                tv[e][p],
            ) by {
                assert(nv[e][p] == facts_join(tv[e][p], derived(ds@, tv, e, p)));
            }
            return VarianceTable { rows };
        }
        proof {
            assert forall|u: Seq<Seq<Facts>>| shaped(ds@, u) && closed(ds@, u) implies table_below(
                ds@,
                nv,
                u,
            ) by {
                assert forall|e: int, p: int|
                    0 <= e < ds.len() && 0 <= p < ds@[e].params@.len() implies facts_below(
                    #[trigger] nv[e][p],
                    u[e][p],
                ) by {
                    lemma_derived_mono(ds@, tv, u, e, p);
                    assert(facts_below(derived(ds@, u, e, p), u[e][p]));
                    assert(facts_below(tv[e][p], u[e][p]));
                }
            }
            assert forall|e: int, p: int|
                0 <= e < ds.len() && 0 <= p < ds@[e].params@.len() implies facts_below(
                #[trigger] tv[e][p],
                nv[e][p],
            ) by {
                assert(nv[e][p] == facts_join(tv[e][p], derived(ds@, tv, e, p)));
            }
            lemma_potential(ds@, tv, nv, ds.len() as int);
            assert(tv.take(ds.len() as int) == tv);
            assert(nv.take(ds.len() as int) == nv);
        }
        rows = next;
    }
}

} // verus!

verus! {

impl VarianceTable {
    pub fn variance_of(&self, d: usize, p: usize) -> (r: Variance)
        requires
            d < self@.len(),
            p < self@[d as int].len(),
        ensures
            r == self@[d as int][p as int].variance,
    {
        self.rows[d][p].variance
    }

    pub fn is_relevant(&self, d: usize, p: usize) -> (r: bool)
        requires
            d < self@.len(),
            p < self@[d as int].len(),
        ensures
            r == self@[d as int][p as int].relevant,
    {
        self.rows[d][p].relevant
    }
}

proof fn lemma_fields_above(t: Seq<Seq<Facts>>, fs: Seq<FieldType>, p: int, k: nat, j: int)
    requires
        0 <= j < k <= fs.len(),
    ensures
        below(field_variance(t, fs[j], p), fields_variance(t, fs, p, k)),
        field_relevant(t, fs[j], p) ==> fields_relevant(t, fs, p, k),
    decreases k,
{
    if j < k - 1 {
        lemma_fields_above(t, fs, p, (k - 1) as nat, j);
    }
}

/// A struct with an interior-mutability field whose contents mention `p` is invariant in `p`,
/// whatever its other fields are.
pub proof fn lemma_interior_mutable_forces_invariance(
    ds: Seq<TypeDecl>,
    t: Seq<Seq<Facts>>,
    d: int,
    k: int,
    p: int,
)
    requires
        is_least_table(ds, t),
        0 <= d < ds.len(),
        0 <= p < ds[d].params@.len(),
        0 <= k < ds[d].fields@.len(),
        ds[d].fields@[k] matches FieldType::InteriorMutable(inner) && mentions(*inner, p),
    ensures
        t[d][p].variance == Variance::Invariant,
{
    lemma_fields_above(t, ds[d].fields@, p, ds[d].fields@.len(), k);
    assert(facts_below(derived(ds, t, d, p), t[d][p]));
}

/// Invariance passes outward: a struct holding (owned or behind a borrow) a use of another
/// struct whose parameter `q` is invariant and instantiated with `p` is itself invariant in `p`.
pub proof fn lemma_invariance_propagates(
    ds: Seq<TypeDecl>,
    t: Seq<Seq<Facts>>,
    d: int,
    k: int,
    q: int,
    p: int,
)
    requires
        is_least_table(ds, t),
        decls_ok(ds),
        0 <= d < ds.len(),
        0 <= p < ds[d].params@.len(),
        0 <= k < ds[d].fields@.len(),
        match ds[d].fields@[k] {
            FieldType::Owned(tr) => 0 <= q < tr.args@.len() && tr.args@[q] as int == p
                && t[tr.decl as int][q].variance == Variance::Invariant,
            FieldType::Reference { target, .. } => 0 <= q < target.args@.len()
                && target.args@[q] as int == p && t[target.decl as int][q].variance
                == Variance::Invariant,
            _ => false,
        },
    ensures
        t[d][p].variance == Variance::Invariant,
{
    let f = ds[d].fields@[k];
    lemma_fields_above(t, ds[d].fields@, p, ds[d].fields@.len(), k);
    assert(facts_below(derived(ds, t, d, p), t[d][p]));
    match f {
        FieldType::Owned(tr) => {
            lemma_args_above(t, tr, p, tr.args@.len(), q);
        },
        FieldType::Reference { target, .. } => {
            lemma_args_above(t, target, p, target.args@.len(), q);
        },
        _ => {},
    }
}

proof fn lemma_args_above(t: Seq<Seq<Facts>>, tr: TypeRef, p: int, k: nat, q: int)
    requires
        0 <= q < k <= tr.args@.len(),
        tr.args@[q] as int == p,
    ensures
        below(t[tr.decl as int][q].variance, args_variance(t, tr, p, k)),
    decreases k,
{
    if q < k - 1 {
        lemma_args_above(t, tr, p, (k - 1) as nat, q);
    }
}

} // verus!

verus! {

/// The least table is unique, so the variance table is a function of the declarations alone.
pub proof fn lemma_least_table_unique(ds: Seq<TypeDecl>, t: Seq<Seq<Facts>>, u: Seq<Seq<Facts>>)
    requires
        is_least_table(ds, t),
        is_least_table(ds, u),
    ensures
        t == u,
{
    assert(table_below(ds, t, u));
    assert(table_below(ds, u, t));
    assert forall|d: int| 0 <= d < t.len() implies t[d] == u[d] by {
        assert forall|p: int| 0 <= p < t[d].len() implies t[d][p] == u[d][p] by {
            assert(facts_below(t[d][p], u[d][p]));
            assert(facts_below(u[d][p], t[d][p]));
        }
        assert(t[d] =~= u[d]);
    }
    assert(t =~= u);
}

} // verus!
