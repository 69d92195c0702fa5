use vstd::prelude::*;

use crate::model::{decls_ok, field_ok, ref_ok, FieldType, LifetimeParam, TypeDecl, TypeRef};
use crate::variance::{
    args_relevant, args_variance, closed, derived, field_relevant, field_variance,
    facts_below, fields_relevant, fields_variance, is_least_table, mentions, shaped, table_below, Facts,
};

verus! {

/// The content of a field, as plain values.
pub enum FieldView {
    Owned { decl: usize, args: Seq<usize> },
    Reference { param: usize, decl: usize, args: Seq<usize> },
    InteriorMutable(Box<FieldView>),
    ErasedDynamic { bound_param: usize },
}

pub struct ParamView {
    pub name: Seq<char>,
    pub dangle_escape: bool,
}

pub struct DeclView {
    pub name: Seq<char>,
    pub params: Seq<ParamView>,
    pub fields: Seq<FieldView>,
    pub has_destructor: bool,
}

pub open spec fn field_view(f: FieldType) -> FieldView
    decreases f,
{
    match f {
        FieldType::Owned(tr) => FieldView::Owned { decl: tr.decl, args: tr.args@ },
        FieldType::Reference { param, target } => FieldView::Reference {
            param,
            decl: target.decl,
            args: target.args@,
        },
        FieldType::InteriorMutable(inner) => FieldView::InteriorMutable(
            Box::new(field_view(*inner)),
        ),
        FieldType::ErasedDynamic { bound_param } => FieldView::ErasedDynamic { bound_param },
    }
}

pub open spec fn param_view(p: LifetimeParam) -> ParamView {
    ParamView { name: p.name@, dangle_escape: p.dangle_escape }
}

pub open spec fn params_view(ps: Seq<LifetimeParam>) -> Seq<ParamView> {
    ps.map_values(|p: LifetimeParam| param_view(p))
}

pub open spec fn decl_view(d: TypeDecl) -> DeclView {
    DeclView {
        name: d.name@,
        params: params_view(d.params@),
        fields: fields_view(d.fields@),
        has_destructor: d.has_destructor,
    }
}

pub open spec fn decls_view(ds: Seq<TypeDecl>) -> Seq<DeclView> {
    ds.map_values(|d: TypeDecl| decl_view(d))
}

/// A serialized declaration set: a stream of numbers, and the names in order of appearance
/// (each declaration's name, then its parameters' names).
pub struct Record {
    pub numbers: Vec<usize>,
    pub names: Vec<String>,
}

pub open spec fn names_view(names: Seq<String>) -> Seq<Seq<char>> {
    names.map_values(|s: String| s@)
}

pub open spec fn flag(b: bool) -> usize {
    if b {
        1
    } else {
        0
    }
}

pub open spec fn enc_args(args: Seq<usize>) -> Seq<usize> {
    seq![args.len() as usize] + args
}

pub open spec fn enc_field(f: FieldView) -> Seq<usize>
    decreases f,
{
    match f {
        FieldView::Owned { decl, args } => seq![0usize, decl] + enc_args(args),
        FieldView::Reference { param, decl, args } => seq![1usize, param, decl] + enc_args(args),
        FieldView::InteriorMutable(inner) => seq![2usize] + enc_field(*inner),
        FieldView::ErasedDynamic { bound_param } => seq![3usize, bound_param],
    }
}

pub open spec fn enc_fields(fs: Seq<FieldView>) -> Seq<usize>
    decreases fs.len(),
{
    if fs.len() == 0 {
        Seq::empty()
    } else {
        enc_fields(fs.drop_last()) + enc_field(fs.last())
    }
}

pub open spec fn enc_decl(d: DeclView) -> Seq<usize> {
    seq![d.params.len() as usize] + d.params.map_values(|p: ParamView| flag(p.dangle_escape))
        + seq![flag(d.has_destructor), d.fields.len() as usize] + enc_fields(d.fields)
}

pub open spec fn enc_decls(ds: Seq<DeclView>) -> Seq<usize>
    decreases ds.len(),
{
    if ds.len() == 0 {
        Seq::empty()
    } else {
        enc_decls(ds.drop_last()) + enc_decl(ds.last())
    }
}

pub open spec fn decl_names(d: DeclView) -> Seq<Seq<char>> {
    seq![d.name] + d.params.map_values(|p: ParamView| p.name)
}

pub open spec fn names_of(ds: Seq<DeclView>) -> Seq<Seq<char>>
    decreases ds.len(),
{
    if ds.len() == 0 {
        Seq::empty()
    } else {
        names_of(ds.drop_last()) + decl_names(ds.last())
    }
}

pub open spec fn encoded(ds: Seq<DeclView>) -> Seq<usize> {
    seq![ds.len() as usize] + enc_decls(ds)
}

pub open spec fn parse_args(s: Seq<usize>, pos: int) -> Option<(Seq<usize>, int)> {
    if 0 <= pos < s.len() && pos + 1 + s[pos] <= s.len() {
        Some((s.subrange(pos + 1, pos + 1 + s[pos]), pos + 1 + s[pos]))
    } else {
        None
    }
}

pub open spec fn parse_field(s: Seq<usize>, pos: int) -> Option<(FieldView, int)>
    decreases s.len() - pos,
{
    if pos < 0 || pos >= s.len() {
        None
    } else if s[pos] == 0 {
        match parse_args(s, pos + 2) {
            Some((args, end)) => Some((FieldView::Owned { decl: s[pos + 1], args }, end)),
            None => None,
        }
    } else if s[pos] == 1 {
        match parse_args(s, pos + 3) {
            Some((args, end)) => Some(
                (FieldView::Reference { param: s[pos + 1], decl: s[pos + 2], args }, end),
            ),
            None => None,
        }
    } else if s[pos] == 2 {
        match parse_field(s, pos + 1) {
            Some((inner, end)) => Some((FieldView::InteriorMutable(Box::new(inner)), end)),
            None => None,
        }
    } else if s[pos] == 3 && pos + 1 < s.len() {
        Some((FieldView::ErasedDynamic { bound_param: s[pos + 1] }, pos + 2))
    } else {
        None
    }
}

pub open spec fn parse_fields(s: Seq<usize>, pos: int, count: nat) -> Option<(Seq<FieldView>, int)>
    decreases count,
{
    if count == 0 {
        Some((Seq::empty(), pos))
    } else {
        match parse_fields(s, pos, (count - 1) as nat) {
            Some((fs, mid)) => match parse_field(s, mid) {
                Some((f, end)) => Some((fs.push(f), end)),
                None => None,
            },
            None => None,
        }
    }
}

pub open spec fn flags_ok(s: Seq<usize>, from: int, to: int) -> bool {
    forall|i: int| from <= i < to ==> s[i] <= 1
}

/// One declaration at `pos` of the numbers and `npos` of the names.
pub open spec fn parse_decl(s: Seq<usize>, pos: int, names: Seq<Seq<char>>, npos: int) -> Option<
    (DeclView, int, int),
> {
    if !(0 <= pos < s.len()) {
        None
    } else {
        let np = s[pos] as int;
        if pos + 3 + np > s.len() || !flags_ok(s, pos + 1, pos + 2 + np) || npos < 0 || npos + 1
            + np > names.len() {
            None
        } else {
            match parse_fields(s, pos + 3 + np, s[pos + 2 + np] as nat) {
                Some((fields, end)) => Some(
                    (
                        DeclView {
                            name: names[npos],
                            params: Seq::new(
                                np as nat,
                                |i: int| ParamView { name: names[npos + 1 + i], dangle_escape: s[pos + 1 + i] == 1 },
                            ),
                            fields,
                            has_destructor: s[pos + 1 + np] == 1,
                        },
                        end,
                        npos + 1 + np,
                    ),
                ),
                None => None,
            }
        }
    }
}

pub open spec fn parse_decls(s: Seq<usize>, names: Seq<Seq<char>>, count: nat) -> Option<
    (Seq<DeclView>, int, int),
>
    decreases count,
{
    if count == 0 {
        Some((Seq::empty(), 1, 0))
    } else {
        match parse_decls(s, names, (count - 1) as nat) {
            Some((ds, pos, npos)) => match parse_decl(s, pos, names, npos) {
                Some((d, end, nend)) => Some((ds.push(d), end, nend)),
                None => None,
            },
            None => None,
        }
    }
}

/// What a record reads as: every number and every name used, nothing left over.
pub open spec fn parse_record(s: Seq<usize>, names: Seq<Seq<char>>) -> Option<Seq<DeclView>> {
    if s.len() == 0 {
        None
    } else {
        match parse_decls(s, names, s[0] as nat) {
            Some((ds, end, nend)) => if end == s.len() && nend == names.len() {
                Some(ds)
            } else {
                None
            },
            None => None,
        }
    }
}

} // verus!

verus! {

/// Every length fits the numbers of a record.
pub open spec fn field_fits(f: FieldView) -> bool
    decreases f,
{
    match f {
        FieldView::Owned { args, .. } => args.len() <= usize::MAX,
        FieldView::Reference { args, .. } => args.len() <= usize::MAX,
        FieldView::InteriorMutable(inner) => field_fits(*inner),
        FieldView::ErasedDynamic { .. } => true,
    }
}

pub open spec fn decl_fits(d: DeclView) -> bool {
    &&& d.params.len() <= usize::MAX
    &&& d.fields.len() <= usize::MAX
    &&& forall|k: int| 0 <= k < d.fields.len() ==> #[trigger] field_fits(d.fields[k])
}

pub open spec fn decls_fit(ds: Seq<DeclView>) -> bool {
    &&& ds.len() <= usize::MAX
    &&& forall|d: int| 0 <= d < ds.len() ==> #[trigger] decl_fits(ds[d])
}

proof fn lemma_parse_field(s: Seq<usize>, pos: int, f: FieldView)
    requires
        field_fits(f),
        0 <= pos,
        pos + enc_field(f).len() <= s.len(),
        s.subrange(pos, pos + enc_field(f).len()) == enc_field(f),
    ensures
        parse_field(s, pos) == Some((f, pos + enc_field(f).len())),
    decreases f,
{
    let e = enc_field(f);
    assert forall|i: int| 0 <= i < e.len() implies s[pos + i] == e[i] by {
        assert(s.subrange(pos, pos + e.len())[i] == s[pos + i]);
    }
    match f {
        FieldView::Owned { decl, args } => {
            let ea = enc_args(args);
            assert(e == seq![0usize, decl] + ea);
            assert(e[0] == 0 && e[1] == decl && e[2] == ea[0]);
            assert(s[pos] == e[0] && s[pos + 1] == e[1] && s[pos + 2] == e[2]);
            assert forall|i: int| 0 <= i < args.len() implies s.subrange(
                pos + 3,
                pos + 3 + args.len(),
            )[i] == args[i] by {
                assert(e[3 + i] == ea[1 + i]);
                assert(s[pos + (3 + i)] == e[3 + i]);
            }
            assert(s.subrange(pos + 3, pos + 3 + args.len()) =~= args);
        },
        FieldView::Reference { param, decl, args } => {
            let ea = enc_args(args);
            assert(e == seq![1usize, param, decl] + ea);
            assert(e[0] == 1 && e[1] == param && e[2] == decl && e[3] == ea[0]);
            assert(s[pos] == e[0] && s[pos + 1] == e[1] && s[pos + 2] == e[2] && s[pos + 3]
                == e[3]);
            assert forall|i: int| 0 <= i < args.len() implies s.subrange(
                pos + 4,
                pos + 4 + args.len(),
            )[i] == args[i] by {
                assert(e[4 + i] == ea[1 + i]);
                assert(s[pos + (4 + i)] == e[4 + i]);
            }
            assert(s.subrange(pos + 4, pos + 4 + args.len()) =~= args);
        },
        FieldView::InteriorMutable(inner) => {
            let ie = enc_field(*inner);
            assert(e == seq![2usize] + ie);
            assert(e[0] == 2);
            assert(s[pos + 0] == e[0]);
            assert(s[pos] == 2);
            assert(s.subrange(pos + 1, pos + 1 + ie.len()) =~= ie) by {
                assert forall|i: int| 0 <= i < ie.len() implies s.subrange(
                    pos + 1,
                    pos + 1 + ie.len(),
                )[i] == ie[i] by {
                    assert(e[i + 1] == ie[i]);
                    assert(s[pos + (i + 1)] == e[i + 1]);
                }
            }
            lemma_parse_field(s, pos + 1, *inner);
            assert(FieldView::InteriorMutable(Box::new(*inner)) == f);
        },
        FieldView::ErasedDynamic { bound_param } => {
            assert(s[pos] == 3 && s[pos + 1] == bound_param);
        },
    }
}

proof fn lemma_parse_fields(s: Seq<usize>, pos: int, fs: Seq<FieldView>)
    requires
        forall|k: int| 0 <= k < fs.len() ==> #[trigger] field_fits(fs[k]),
        0 <= pos,
        pos + enc_fields(fs).len() <= s.len(),
        s.subrange(pos, pos + enc_fields(fs).len()) == enc_fields(fs),
    ensures
        parse_fields(s, pos, fs.len()) == Some((fs, pos + enc_fields(fs).len())),
    decreases fs.len(),
{
    if fs.len() > 0 {
        let init = fs.drop_last();
        let a = enc_fields(init);
        let b = enc_field(fs.last());
        let all = enc_fields(fs);
        assert(all == a + b);
        assert(s.subrange(pos, pos + a.len()) =~= a) by {
            assert forall|i: int| 0 <= i < a.len() implies s.subrange(pos, pos + a.len())[i]
                == a[i] by {
                assert(s.subrange(pos, pos + all.len())[i] == all[i]);
            }
        }
        assert(s.subrange(pos + a.len(), pos + a.len() + b.len()) =~= b) by {
            assert forall|i: int| 0 <= i < b.len() implies s.subrange(
                pos + a.len(),
                pos + a.len() + b.len(),
            )[i] == b[i] by {
                assert(s.subrange(pos, pos + all.len())[a.len() + i] == all[a.len() + i]);
            }
        }
        assert forall|k: int| 0 <= k < init.len() implies #[trigger] field_fits(init[k]) by {
            assert(field_fits(fs[k]));
        }
        lemma_parse_fields(s, pos, init);
        assert(field_fits(fs[fs.len() - 1]));
        lemma_parse_field(s, pos + a.len(), fs.last());
        assert(init.push(fs.last()) =~= fs);
    }
}

proof fn lemma_parse_decl(s: Seq<usize>, pos: int, names: Seq<Seq<char>>, npos: int, d: DeclView)
    requires
        decl_fits(d),
        0 <= pos,
        pos + enc_decl(d).len() <= s.len(),
        s.subrange(pos, pos + enc_decl(d).len()) == enc_decl(d),
        0 <= npos,
        npos + decl_names(d).len() <= names.len(),
        names.subrange(npos, npos + decl_names(d).len()) == decl_names(d),
    ensures
        parse_decl(s, pos, names, npos) == Some(
            (d, pos + enc_decl(d).len(), npos + decl_names(d).len()),
        ),
{
    let e = enc_decl(d);
    let np = d.params.len() as int;
    let flags = d.params.map_values(|p: ParamView| flag(p.dangle_escape));
    let head = seq![d.params.len() as usize] + flags + seq![
        flag(d.has_destructor),
        d.fields.len() as usize,
    ];
    assert(e == head + enc_fields(d.fields));
    assert forall|i: int| 0 <= i < e.len() implies s[pos + i] == e[i] by {
        assert(s.subrange(pos, pos + e.len())[i] == s[pos + i]);
    }
    assert forall|i: int| 0 <= i < decl_names(d).len() implies names[npos + i] == decl_names(
        d,
    )[i] by {
        assert(names.subrange(npos, npos + decl_names(d).len())[i] == names[npos + i]);
    }
    assert(e[0] == head[0]);
    assert(s[pos + 0] == e[0]);
    assert(s[pos] == np);
    assert forall|i: int| 0 <= i < np implies s[pos + 1 + i] == flag(
        d.params[i].dangle_escape,
    ) by {
        assert(e[1 + i] == head[1 + i]);
        assert(head[1 + i] == flags[i]);
        assert(s[pos + (1 + i)] == e[1 + i]);
    }
    assert(s[pos + 1 + np] == e[1 + np]);
    assert(s[pos + 2 + np] == e[2 + np]);
    assert(e[1 + np] == head[1 + np]);
    assert(e[2 + np] == head[2 + np]);
    assert(s[pos + (1 + np)] == e[1 + np]);
    assert(s[pos + (2 + np)] == e[2 + np]);
    assert forall|i: int| pos + 1 <= i < pos + 2 + np implies s[i] <= 1 by {
        if i < pos + 1 + np {
            assert(s[pos + 1 + (i - pos - 1)] == flag(d.params[i - pos - 1].dangle_escape));
        }
    }
    assert(flags_ok(s, pos + 1, pos + 2 + np));
    let fe = enc_fields(d.fields);
    assert(s.subrange(pos + 3 + np, pos + 3 + np + fe.len()) =~= fe) by {
        assert forall|i: int| 0 <= i < fe.len() implies s.subrange(
            pos + 3 + np,
            pos + 3 + np + fe.len(),
        )[i] == fe[i] by {
            assert(e[head.len() + i] == fe[i]);
        }
    }
    assert forall|k: int| 0 <= k < d.fields.len() implies #[trigger] field_fits(d.fields[k]) by {}
    lemma_parse_fields(s, pos + 3 + np, d.fields);
    let params = Seq::new(
        np as nat,
        |i: int| ParamView { name: names[npos + 1 + i], dangle_escape: s[pos + 1 + i] == 1 },
    );
    assert forall|i: int| 0 <= i < np implies params[i] == d.params[i] by {
        assert(decl_names(d)[1 + i] == d.params[i].name);
    }
    assert(params =~= d.params);
    assert(decl_names(d)[0] == d.name);
    assert(names[npos + 0] == decl_names(d)[0]);
    assert(names[npos] == d.name);
}

proof fn lemma_parse_decls(s: Seq<usize>, names: Seq<Seq<char>>, ds: Seq<DeclView>)
    requires
        forall|d: int| 0 <= d < ds.len() ==> #[trigger] decl_fits(ds[d]),
        1 + enc_decls(ds).len() <= s.len(),
        s.subrange(1, 1 + enc_decls(ds).len() as int) == enc_decls(ds),
        names_of(ds).len() <= names.len(),
        names.subrange(0, names_of(ds).len() as int) == names_of(ds),
    ensures
        parse_decls(s, names, ds.len()) == Some(
            (ds, 1 + enc_decls(ds).len() as int, names_of(ds).len() as int),
        ),
    decreases ds.len(),
{
    if ds.len() > 0 {
        let init = ds.drop_last();
        let a = enc_decls(init);
        let b = enc_decl(ds.last());
        let all = enc_decls(ds);
        let na = names_of(init);
        let nb = decl_names(ds.last());
        let nall = names_of(ds);
        let al = a.len() as int;
        let bl = b.len() as int;
        let alll = all.len() as int;
        let nal = na.len() as int;
        let nbl = nb.len() as int;
        let nalll = nall.len() as int;
        assert(all == a + b);
        assert(nall == na + nb);
        assert(s.subrange(1, 1 + al) =~= a) by {
            assert forall|i: int| 0 <= i < al implies s.subrange(1, 1 + al)[i]
                == a[i] by {
                assert(s.subrange(1, 1 + alll)[i] == all[i]);
            }
        }
        assert(s.subrange(1 + al, 1 + al + bl) =~= b) by {
            assert forall|i: int| 0 <= i < bl implies s.subrange(
                1 + al,
                1 + al + bl,
            )[i] == b[i] by {
                assert(s.subrange(1, 1 + alll)[al + i] == all[al + i]);
            }
        }
        assert(names.subrange(0, nal as int) =~= na) by {
            assert forall|i: int| 0 <= i < nal implies names.subrange(0, nal as int)[i]
                == na[i] by {
                assert(names.subrange(0, nalll as int)[i] == nall[i]);
            }
        }
        assert(names.subrange(nal as int, nal + nbl) =~= nb) by {
            assert forall|i: int| 0 <= i < nbl implies names.subrange(
                nal as int,
                nal + nbl,
            )[i] == nb[i] by {
                assert(names.subrange(0, nalll as int)[nal + i] == nall[nal + i]);
            }
        }
        assert forall|d: int| 0 <= d < init.len() implies #[trigger] decl_fits(init[d]) by {
            assert(decl_fits(ds[d]));
        }
        lemma_parse_decls(s, names, init);
        assert(decl_fits(ds[ds.len() - 1]));
        lemma_parse_decl(s, 1 + al, names, nal as int, ds.last());
        assert(init.push(ds.last()) =~= ds);
    }
}

/// Reading a record back gives exactly the declarations it was written from.
pub proof fn lemma_round_trip(ds: Seq<DeclView>)
    requires
        decls_fit(ds),
    ensures
        parse_record(encoded(ds), names_of(ds)) == Some(ds),
{
    let s = encoded(ds);
    assert(s.subrange(1, 1 + enc_decls(ds).len() as int) =~= enc_decls(ds));
    assert(names_of(ds).subrange(0, names_of(ds).len() as int) =~= names_of(ds));
    lemma_parse_decls(s, names_of(ds), ds);
}

} // verus!

verus! {

fn encode_field(f: &FieldType, out: &mut Vec<usize>)
    ensures
        final(out)@ == old(out)@ + enc_field(field_view(*f)),
        field_fits(field_view(*f)),
    decreases f,
{
    match f {
        FieldType::Owned(tr) => {
            out.push(0);
            out.push(tr.decl);
            encode_args(&tr.args, out);
            assert(final(out)@ =~= old(out)@ + enc_field(field_view(*f)));
        },
        FieldType::Reference { param, target } => {
            out.push(1);
            out.push(*param);
            out.push(target.decl);
            encode_args(&target.args, out);
            assert(final(out)@ =~= old(out)@ + enc_field(field_view(*f)));
        },
        FieldType::InteriorMutable(inner) => {
            out.push(2);
            encode_field(&**inner, out);
            assert(final(out)@ =~= old(out)@ + enc_field(field_view(*f)));
        },
        FieldType::ErasedDynamic { bound_param } => {
            out.push(3);
            out.push(*bound_param);
            assert(final(out)@ =~= old(out)@ + enc_field(field_view(*f)));
        },
    }
}

fn encode_args(args: &Vec<usize>, out: &mut Vec<usize>)
    ensures
        final(out)@ == old(out)@ + enc_args(args@),
        args@.len() <= usize::MAX,
{
    out.push(args.len());
    let ghost start = out@;
    let mut i: usize = 0;
    while i < args.len()
        invariant
            i <= args.len(),
            start == old(out)@.push(args.len()),
            out@ == start + args@.take(i as int),
        decreases args.len() - i,
    {
        out.push(args[i]);
        i = i + 1;
        assert(out@ =~= start + args@.take(i as int));
    }
    assert(args@.take(args.len() as int) =~= args@);
    assert(out@ =~= old(out)@ + enc_args(args@));
}

fn encode_decl(d: &TypeDecl, out: &mut Vec<usize>, names: &mut Vec<String>)
    ensures
        final(out)@ == old(out)@ + enc_decl(decl_view(*d)),
        names_view(final(names)@) == names_view(old(names)@) + decl_names(decl_view(*d)),
        decl_fits(decl_view(*d)),
{
    let ghost v = decl_view(*d);
    let ghost out0 = out@;
    let ghost names0 = names@;
    let np = d.params.len();
    out.push(np);
    names.push(d.name.clone());
    let mut i: usize = 0;
    while i < np
        invariant
            i <= np,
            np == d.params@.len(),
            v == decl_view(*d),
            out@ == out0 + seq![np] + v.params.take(i as int).map_values(
                |p: ParamView| flag(p.dangle_escape),
            ),
            names_view(names@) == names_view(names0) + seq![v.name] + v.params.take(
                i as int,
            ).map_values(|p: ParamView| p.name),
        decreases np - i,
    {
        let p = &d.params[i];
        out.push(if p.dangle_escape {
            1
        } else {
            0
        });
        let ghost before = names@;
        names.push(p.name.clone());
        i = i + 1;
        assert(v.params[i - 1] == param_view(d.params@[i - 1]));
        assert(out@ =~= out0 + seq![np] + v.params.take(i as int).map_values(
            |p: ParamView| flag(p.dangle_escape),
        ));
        assert(names_view(names@) =~= names_view(before) + seq![v.params[i - 1].name]);
        assert(names_view(names@) =~= names_view(names0) + seq![v.name] + v.params.take(
            i as int,
        ).map_values(|p: ParamView| p.name));
    }
    assert(v.params.take(np as int) =~= v.params);
    out.push(if d.has_destructor {
        1
    } else {
        0
    });
    out.push(d.fields.len());
    let ghost mid = out@;
    let mut k: usize = 0;
    while k < d.fields.len()
        invariant
            k <= d.fields.len(),
            v == decl_view(*d),
            out@ == mid + enc_fields(v.fields.take(k as int)),
            forall|j: int| 0 <= j < k ==> #[trigger] field_fits(v.fields[j]),
        decreases d.fields.len() - k,
    {
        encode_field(&d.fields[k], out);
        k = k + 1;
        assert(v.fields.take(k as int).drop_last() =~= v.fields.take(k - 1));
        assert(v.fields[k - 1] == field_view(d.fields@[k - 1]));
    }
    assert(v.fields.take(k as int) =~= v.fields);
    assert(out@ =~= out0 + enc_decl(v));
    assert(names_view(names@) =~= names_view(names0) + decl_names(v));
}

/// Writes a declaration set as a record.
pub fn encode(ds: &Vec<TypeDecl>) -> (r: Record)
    ensures
        r.numbers@ == encoded(decls_view(ds@)),
        names_view(r.names@) == names_of(decls_view(ds@)),
        decls_fit(decls_view(ds@)),
{
    let ghost v = decls_view(ds@);
    let mut numbers: Vec<usize> = Vec::new();
    let mut names: Vec<String> = Vec::new();
    numbers.push(ds.len());
    let mut d: usize = 0;
    while d < ds.len()
        invariant
            d <= ds.len(),
            v == decls_view(ds@),
            numbers@ == seq![ds.len()] + enc_decls(v.take(d as int)),
            names_view(names@) == names_of(v.take(d as int)),
            forall|e: int| 0 <= e < d ==> #[trigger] decl_fits(v[e]),
        decreases ds.len() - d,
    {
        encode_decl(&ds[d], &mut numbers, &mut names);
        d = d + 1;
        assert(v.take(d as int).drop_last() =~= v.take(d - 1));
        assert(v[d - 1] == decl_view(ds@[d - 1]));
    }
    assert(v.take(d as int) =~= v);
    Record { numbers, names }
}

} // verus!

verus! {

fn decode_args(s: &Vec<usize>, q: usize) -> (r: Option<(Vec<usize>, usize)>)
    ensures
        match parse_args(s@, q as int) {
            None => r is None,
            Some((a, end)) => r matches Some((v, e)) && v@ == a && e == end,
        },
{
    if q >= s.len() {
        return None;
    }
    let n = s[q];
    if n > s.len() - q - 1 {
        return None;
    }
    let mut v: Vec<usize> = Vec::new();
    let mut i: usize = 0;
    while i < n
        invariant
            i <= n,
            q + 1 + n <= s.len(),
            v@ == s@.subrange(q + 1, q + 1 + i),
        decreases n - i,
    {
        v.push(s[q + 1 + i]);
        i = i + 1;
        assert(v@ =~= s@.subrange(q + 1, q + 1 + i));
    }
    Some((v, q + 1 + n))
}

fn decode_field(s: &Vec<usize>, pos: usize) -> (r: Option<(FieldType, usize)>)
    ensures
        match parse_field(s@, pos as int) {
            None => r is None,
            Some((fv, end)) => r matches Some((f, e)) && field_view(f) == fv && e == end,
        },
    decreases s.len() - pos,
{
    if pos >= s.len() {
        return None;
    }
    let tag = s[pos];
    if tag == 0 {
        if s.len() - pos <= 2 {
            return None;
        }
        match decode_args(s, pos + 2) {
            Some((args, end)) => Some((FieldType::Owned(TypeRef { decl: s[pos + 1], args }), end)),
            None => None,
        }
    } else if tag == 1 {
        if s.len() - pos <= 3 {
            return None;
        }
        match decode_args(s, pos + 3) {
            Some((args, end)) => Some(
                (
                    FieldType::Reference {
                        param: s[pos + 1],
                        target: TypeRef { decl: s[pos + 2], args },
                    },
                    end,
                ),
            ),
            None => None,
        }
    } else if tag == 2 {
        match decode_field(s, pos + 1) {
            Some((inner, end)) => {
                let f = FieldType::InteriorMutable(Box::new(inner));
                Some((f, end))
            },
            None => None,
        }
    } else if tag == 3 && s.len() - pos > 1 {
        Some((FieldType::ErasedDynamic { bound_param: s[pos + 1] }, pos + 2))
    } else {
        None
    }
}

proof fn lemma_parse_fields_stays_failed(s: Seq<usize>, pos: int, k: nat, count: nat)
    requires
        k <= count,
        parse_fields(s, pos, k) is None,
    ensures
        parse_fields(s, pos, count) is None,
    decreases count,
{
    if count > k {
        lemma_parse_fields_stays_failed(s, pos, k, (count - 1) as nat);
    }
}

pub open spec fn fields_view(fs: Seq<FieldType>) -> Seq<FieldView> {
    fs.map_values(|f: FieldType| field_view(f))
}

fn decode_fields(s: &Vec<usize>, pos: usize, count: usize) -> (r: Option<(Vec<FieldType>, usize)>)
    ensures
        match parse_fields(s@, pos as int, count as nat) {
            None => r is None,
            Some((fvs, end)) => r matches Some((fs, e)) && fields_view(fs@) == fvs && e == end,
        },
{
    let mut fs: Vec<FieldType> = Vec::new();
    let mut cur = pos;
    let mut k: usize = 0;
    while k < count
        invariant
            k <= count,
            parse_fields(s@, pos as int, k as nat) == Some((fields_view(fs@), cur as int)),
        decreases count - k,
    {
        match decode_field(s, cur) {
            Some((f, end)) => {
                let ghost before = fs@;
                fs.push(f);
                cur = end;
                k = k + 1;
                assert(fields_view(fs@) =~= fields_view(before).push(field_view(f)));
            },
            None => {
                proof {
                    lemma_parse_fields_stays_failed(s@, pos as int, (k + 1) as nat, count as nat);
                }
                return None;
            },
        }
    }
    Some((fs, cur))
}

} // verus!

verus! {

fn decode_decl(s: &Vec<usize>, pos: usize, names: &Vec<String>, npos: usize) -> (r: Option<
    (TypeDecl, usize, usize),
>)
    ensures
        match parse_decl(s@, pos as int, names_view(names@), npos as int) {
            None => r is None,
            Some((dv, end, nend)) => r matches Some((d, e, ne)) && decl_view(d) == dv && e == end
                && ne == nend,
        },
{
    let ghost nv = names_view(names@);
    if pos >= s.len() {
        return None;
    }
    let np = s[pos];
    if np > s.len() - pos || s.len() - pos - np < 3 {
        return None;
    }
    let mut i: usize = 0;
    while i < np + 1
        invariant
            i <= np + 1,
            pos + 3 + np <= s.len(),
            np == s@[pos as int],
            forall|j: int| pos + 1 <= j < pos + 1 + i ==> s@[j] <= 1,
        decreases np + 1 - i,
    {
        if s[pos + 1 + i] > 1 {
            assert(!flags_ok(s@, pos + 1, pos + 2 + np));
            return None;
        }
        i = i + 1;
    }
    if npos > names.len() || names.len() - npos < 1 || names.len() - npos - 1 < np {
        return None;
    }
    let ghost pv = Seq::new(
        np as nat,
        |i: int| ParamView { name: nv[npos + 1 + i], dangle_escape: s@[pos + 1 + i] == 1 },
    );
    let mut params: Vec<LifetimeParam> = Vec::new();
    let mut i: usize = 0;
    while i < np
        invariant
            i <= np,
            pos + 3 + np <= s.len(),
            npos + 1 + np <= names.len(),
            nv == names_view(names@),
            pv == Seq::new(
                np as nat,
                |i: int| ParamView { name: nv[npos + 1 + i], dangle_escape: s@[pos + 1 + i] == 1 },
            ),
            params@.len() == i,
            params_view(params@) == pv.take(i as int),
        decreases np - i,
    {
        let name = names[npos + 1 + i].clone();
        assert(name@ == nv[npos + 1 + i]);
        let ghost before = params@;
        let dangle_escape = s[pos + 1 + i] == 1;
        params.push(LifetimeParam { name, dangle_escape });
        assert(param_view(params@[i as int]) == pv[i as int]);
        assert(params_view(params@) =~= params_view(before).push(pv[i as int]));
        i = i + 1;
        assert(params_view(params@) =~= pv.take(i as int));
    }
    assert(pv.take(np as int) =~= pv);
    match decode_fields(s, pos + 3 + np, s[pos + 2 + np]) {
        Some((fields, end)) => {
            let d = TypeDecl {
                name: names[npos].clone(),
                params,
                fields,
                has_destructor: s[pos + 1 + np] == 1,
            };
            Some((d, end, npos + 1 + np))
        },
        None => None,
    }
}

proof fn lemma_parse_decls_stays_failed(s: Seq<usize>, names: Seq<Seq<char>>, k: nat, count: nat)
    requires
        k <= count,
        parse_decls(s, names, k) is None,
    ensures
        parse_decls(s, names, count) is None,
    decreases count,
{
    if count > k {
        lemma_parse_decls_stays_failed(s, names, k, (count - 1) as nat);
    }
}

/// Reads a record back into a declaration set; `None` where it is not one.
pub fn decode(rec: &Record) -> (r: Option<Vec<TypeDecl>>)
    ensures
        match parse_record(rec.numbers@, names_view(rec.names@)) {
            None => r is None,
            Some(dvs) => r matches Some(ds) && decls_view(ds@) == dvs,
        },
{
    let s = &rec.numbers;
    let names = &rec.names;
    let ghost nv = names_view(names@);
    if s.len() == 0 {
        return None;
    }
    let count = s[0];
    let mut ds: Vec<TypeDecl> = Vec::new();
    let mut pos: usize = 1;
    let mut npos: usize = 0;
    let mut k: usize = 0;
    while k < count
        invariant
            k <= count,
            s == &rec.numbers,
            names == &rec.names,
            s@.len() > 0,
            count == s@[0],
            nv == names_view(names@),
            parse_decls(s@, nv, k as nat) == Some((decls_view(ds@), pos as int, npos as int)),
        decreases count - k,
    {
        match decode_decl(s, pos, names, npos) {
            Some((d, end, nend)) => {
                let ghost before = ds@;
                ds.push(d);
                pos = end;
                npos = nend;
                k = k + 1;
                assert(decls_view(ds@) =~= decls_view(before).push(decl_view(d)));
            },
            None => {
                proof {
                    assert(parse_decl(s@, pos as int, nv, npos as int) is None);
                    assert(parse_decls(s@, nv, (k + 1) as nat) is None);
                    lemma_parse_decls_stays_failed(s@, nv, (k + 1) as nat, count as nat);
                    assert(parse_decls(s@, nv, s@[0] as nat) is None);
                }
                return None;
            },
        }
    }
    if pos == s.len() && npos == names.len() {
        Some(ds)
    } else {
        None
    }
}

} // verus!

verus! {

proof fn lemma_args_congruent(t: Seq<Seq<Facts>>, a: TypeRef, b: TypeRef, p: int, k: nat)
    requires
        a.decl == b.decl,
        a.args@ == b.args@,
    ensures
        args_variance(t, a, p, k) == args_variance(t, b, p, k),
        args_relevant(t, a, p, k) == args_relevant(t, b, p, k),
    decreases k,
{
    if k > 0 {
        lemma_args_congruent(t, a, b, p, (k - 1) as nat);
    }
}

proof fn lemma_field_congruent(
    ds1: Seq<TypeDecl>,
    ds2: Seq<TypeDecl>,
    n: nat,
    t: Seq<Seq<Facts>>,
    f: FieldType,
    g: FieldType,
    p: int,
)
    requires
        field_view(f) == field_view(g),
        decls_view(ds1) == decls_view(ds2),
    ensures
        field_variance(t, f, p) == field_variance(t, g, p),
        field_relevant(t, f, p) == field_relevant(t, g, p),
        mentions(f, p) == mentions(g, p),
        field_ok(ds1, n, f) == field_ok(ds2, n, g),
    decreases f,
{
    assert(decls_view(ds1).len() == ds1.len());
    assert(decls_view(ds2).len() == ds2.len());
    match f {
        FieldType::Owned(a) => {
            if let FieldType::Owned(b) = g {
                lemma_args_congruent(t, a, b, p, a.args@.len());
                if a.decl < ds1.len() {
                    lemma_view_at(ds1, ds2, a.decl as int);
                }
                assert(ref_ok(ds1, n, a) == ref_ok(ds2, n, b));
            }
        },
        FieldType::Reference { param, target: a } => {
            if let FieldType::Reference { target: b, .. } = g {
                lemma_args_congruent(t, a, b, p, a.args@.len());
                if a.decl < ds1.len() {
                    lemma_view_at(ds1, ds2, a.decl as int);
                }
                assert(ref_ok(ds1, n, a) == ref_ok(ds2, n, b));
            }
        },
        FieldType::InteriorMutable(a) => {
            if let FieldType::InteriorMutable(b) = g {
                assert(field_view(*a) == field_view(*b));
                lemma_field_congruent(ds1, ds2, n, t, *a, *b, p);
            }
        },
        FieldType::ErasedDynamic { .. } => {},
    }
}

proof fn lemma_fields_congruent(
    ds1: Seq<TypeDecl>,
    ds2: Seq<TypeDecl>,
    t: Seq<Seq<Facts>>,
    fs: Seq<FieldType>,
    gs: Seq<FieldType>,
    p: int,
    k: nat,
)
    requires
        fields_view(fs) == fields_view(gs),
        decls_view(ds1) == decls_view(ds2),
        k <= fs.len(),
    ensures
        fields_variance(t, fs, p, k) == fields_variance(t, gs, p, k),
        fields_relevant(t, fs, p, k) == fields_relevant(t, gs, p, k),
    decreases k,
{
    if k > 0 {
        lemma_fields_congruent(ds1, ds2, t, fs, gs, p, (k - 1) as nat);
        assert(fields_view(fs).len() == fs.len() && fields_view(gs).len() == gs.len());
        assert(fields_view(fs)[k - 1] == field_view(fs[k - 1]));
        assert(fields_view(gs)[k - 1] == field_view(gs[k - 1]));
        lemma_field_congruent(ds1, ds2, 0, t, fs[k - 1], gs[k - 1], p);
    }
}

proof fn lemma_view_at(ds1: Seq<TypeDecl>, ds2: Seq<TypeDecl>, d: int)
    requires
        decls_view(ds1) == decls_view(ds2),
        0 <= d < ds1.len(),
    ensures
        ds1.len() == ds2.len(),
        params_view(ds1[d].params@) == params_view(ds2[d].params@),
        fields_view(ds1[d].fields@) == fields_view(ds2[d].fields@),
        ds1[d].has_destructor == ds2[d].has_destructor,
        ds1[d].params@.len() == ds2[d].params@.len(),
        ds1[d].fields@.len() == ds2[d].fields@.len(),
{
    assert(decls_view(ds1).len() == ds1.len());
    assert(decls_view(ds2).len() == ds2.len());
    assert(decls_view(ds1)[d] == decl_view(ds1[d]));
    assert(decls_view(ds2)[d] == decl_view(ds2[d]));
    assert(params_view(ds1[d].params@).len() == ds1[d].params@.len());
    assert(params_view(ds2[d].params@).len() == ds2[d].params@.len());
    assert(fields_view(ds1[d].fields@).len() == ds1[d].fields@.len());
    assert(fields_view(ds2[d].fields@).len() == ds2[d].fields@.len());
}

proof fn lemma_decls_congruent(ds1: Seq<TypeDecl>, ds2: Seq<TypeDecl>)
    requires
        decls_view(ds1) == decls_view(ds2),
    ensures
        ds1.len() == ds2.len(),
        forall|d: int| 0 <= d < ds1.len() ==> #[trigger] ds1[d].params@.len() == ds2[d].params@.len(),
        forall|t: Seq<Seq<Facts>>, d: int, p: int|
            0 <= d < ds1.len() && 0 <= p < ds1[d].params@.len() ==> #[trigger] derived(ds1, t, d, p)
                == derived(ds2, t, d, p),
        decls_ok(ds1) == decls_ok(ds2),
{
    assert(decls_view(ds1).len() == ds1.len());
    assert(decls_view(ds2).len() == ds2.len());
    assert forall|d: int| 0 <= d < ds1.len() implies #[trigger] ds1[d].params@.len()
        == ds2[d].params@.len() by {
        lemma_view_at(ds1, ds2, d);
    }
    assert forall|t: Seq<Seq<Facts>>, d: int, p: int|
        0 <= d < ds1.len() && 0 <= p < ds1[d].params@.len() implies #[trigger] derived(
        ds1,
        t,
        d,
        p,
    ) == derived(ds2, t, d, p) by {
        lemma_view_at(ds1, ds2, d);
        assert(params_view(ds1[d].params@)[p] == param_view(ds1[d].params@[p]));
        assert(params_view(ds2[d].params@)[p] == param_view(ds2[d].params@[p]));
        lemma_fields_congruent(ds1, ds2, t, ds1[d].fields@, ds2[d].fields@, p, ds1[d].fields@.len());
    }
    assert forall|d: int, k: int|
        0 <= d < ds1.len() && 0 <= k < ds1[d].fields@.len() implies #[trigger] field_ok(
        ds1,
        ds1[d].params@.len(),
        ds1[d].fields@[k],
    ) == field_ok(ds2, ds2[d].params@.len(), ds2[d].fields@[k]) by {
        lemma_view_at(ds1, ds2, d);
        assert(fields_view(ds1[d].fields@)[k] == field_view(ds1[d].fields@[k]));
        assert(fields_view(ds2[d].fields@)[k] == field_view(ds2[d].fields@[k]));
        lemma_field_congruent(
            ds1,
            ds2,
            ds1[d].params@.len(),
            Seq::empty(),
            ds1[d].fields@[k],
            ds2[d].fields@[k],
            0,
        );
    }
    if decls_ok(ds1) {
        assert forall|d: int, k: int|
            0 <= d < ds2.len() && 0 <= k < ds2[d].fields@.len() implies #[trigger] field_ok(
            ds2,
            ds2[d].params@.len(),
            ds2[d].fields@[k],
        ) by {
            lemma_view_at(ds1, ds2, d);
            assert(field_ok(ds1, ds1[d].params@.len(), ds1[d].fields@[k]));
        }
    }
    if decls_ok(ds2) {
        assert forall|d: int, k: int|
            0 <= d < ds1.len() && 0 <= k < ds1[d].fields@.len() implies #[trigger] field_ok(
            ds1,
            ds1[d].params@.len(),
            ds1[d].fields@[k],
        ) by {
            lemma_view_at(ds1, ds2, d);
            assert(field_ok(ds2, ds2[d].params@.len(), ds2[d].fields@[k]));
        }
    }
}

/// Writing a declaration set out as a record and reading it back gives declarations with the
/// same content, the same validity and exactly the same variance table.
pub proof fn lemma_reparse_preserves_variances(
    ds: Seq<TypeDecl>,
    back: Seq<TypeDecl>,
    t: Seq<Seq<Facts>>,
)
    requires
        decls_fit(decls_view(ds)),
        parse_record(encoded(decls_view(ds)), names_of(decls_view(ds))) == Some(decls_view(back)),
    ensures
        decls_view(back) == decls_view(ds),
        decls_ok(back) <==> decls_ok(ds),
        is_least_table(back, t) <==> is_least_table(ds, t),
{
    lemma_round_trip(decls_view(ds));
    lemma_decls_congruent(ds, back);
    assert(shaped(ds, t) == shaped(back, t));
    assert forall|u: Seq<Seq<Facts>>| closed(ds, u) implies #[trigger] closed(back, u) by {
        assert forall|d: int, p: int|
            0 <= d < back.len() && 0 <= p < back[d].params@.len() implies facts_below(
            #[trigger] derived(back, u, d, p),
            u[d][p],
        ) by {
            assert(derived(ds, u, d, p) == derived(back, u, d, p));
        }
    }
    assert forall|u: Seq<Seq<Facts>>| closed(back, u) implies #[trigger] closed(ds, u) by {
        assert forall|d: int, p: int|
            0 <= d < ds.len() && 0 <= p < ds[d].params@.len() implies facts_below(
            #[trigger] derived(ds, u, d, p),
            u[d][p],
        ) by {
            assert(derived(ds, u, d, p) == derived(back, u, d, p));
        }
    }
    assert forall|u: Seq<Seq<Facts>>| #[trigger] shaped(ds, u) == shaped(back, u) by {}
    assert forall|u: Seq<Seq<Facts>>, v: Seq<Seq<Facts>>| #[trigger] table_below(ds, u, v)
        == table_below(back, u, v) by {}
    if is_least_table(ds, t) {
        assert forall|u: Seq<Seq<Facts>>| shaped(back, u) && closed(back, u) implies table_below(
            back,
            t,
            u,
        ) by {
            assert(shaped(ds, u) && closed(ds, u));
        }
    }
    if is_least_table(back, t) {
        assert forall|u: Seq<Seq<Facts>>| shaped(ds, u) && closed(ds, u) implies table_below(
            ds,
            t,
            u,
        ) by {
            assert(shaped(back, u) && closed(back, u));
        }
    }
}

} // verus!
