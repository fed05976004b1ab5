//! The sites of a file: the functions Unfold walks, and what their walks
//! observe and score.
use vstd::prelude::*;
use crate::check::{
    copy_findings, eval_schema, fviews, opt_copy, opt_view, schema_ok, schema_spec, sviews, CheckReport, FindingV, ReportV, Skip, SkipV,
};
use crate::ir::{CtxV, Schema, ValueCtx};
use crate::slot::{def_view, defs_view, fns_view, DefV, FnDef, Fns, FnsV};
use crate::strmap::{keys_of, lemma_lookup_at, lemma_sorted_set, sorted_keys, sorted_set, StrMap};
use crate::syntax::{Arg, FileAst, FnAst, ItemAst, Pt};
use crate::text::{str_same, views};
use crate::walk::{run_def, run_w, trail_view, tv, PathV, Trail};

verus! {

/// The functions of a file in order of appearance, each with the last name
/// of the self type of the `impl` it stands in.
pub open spec fn fn_list(items: Seq<ItemAst>) -> Seq<(FnAst, Option<Seq<char>>)>
    decreases items.len(),
{
    if items.len() == 0 {
        Seq::empty()
    } else {
        fn_list(items.drop_last()) + match items.last() {
            ItemAst::Fn(f) => seq![(f, None::<Seq<char>>)],
            ItemAst::Impl(ty, ms) => ms@.map_values(|m: FnAst| (m, opt_view(ty))),
            _ => Seq::empty(),
        }
    }
}

/// A function's subject, other parameters and whether it walks a value of
/// the Schema `sn`: a receiver in `sn`'s `impl`, or a parameter of type `sn`.
pub open spec fn parts(inputs: Seq<Arg>, it: Option<Seq<char>>, sn: Seq<char>) -> (Seq<char>, Seq<Seq<char>>, bool)
    decreases inputs.len(),
{
    if inputs.len() == 0 {
        (Seq::empty(), Seq::empty(), false)
    } else {
        let (sub, ps, t) = parts(inputs.drop_last(), it, sn);
        match inputs.last() {
            Arg::Receiver => ("self"@, ps, t || it == Some(sn)),
            Arg::Typed(Pt::Ident(id), ty) => if opt_view(ty) == Some(sn) {
                (id@, ps, true)
            } else {
                (if sub.len() == 0 {
                    id@
                } else {
                    sub
                }, ps.push(id@), t)
            },
            _ => (sub, ps, t),
        }
    }
}

pub open spec fn def_of(f: FnAst, it: Option<Seq<char>>, sn: Seq<char>) -> DefV {
    let (sub, ps, t) = parts(f.inputs@, it, sn);
    DefV { name: f.name@, subject: sub, params: ps, is_tuple: t, block: f.block, except: opt_view(f.except) }
}

/// The functions by name, each name's in order of appearance.
pub open spec fn collect_spec(fl: Seq<(FnAst, Option<Seq<char>>)>, sn: Seq<char>) -> FnsV
    decreases fl.len(),
{
    if fl.len() == 0 {
        Map::empty()
    } else {
        let m = collect_spec(fl.drop_last(), sn);
        let d = def_of(fl.last().0, fl.last().1, sn);
        m.insert(d.name, (if m.contains_key(d.name) {
            m[d.name]
        } else {
            Seq::empty()
        }).push(d))
    }
}

pub open spec fn fn_names(fl: Seq<(FnAst, Option<Seq<char>>)>) -> Seq<Seq<char>> {
    fl.map_values(|p: (FnAst, Option<Seq<char>>)| p.0.name@)
}

pub proof fn lemma_collect_names(fl: Seq<(FnAst, Option<Seq<char>>)>, sn: Seq<char>, n: Seq<char>)
    ensures
        collect_spec(fl, sn).contains_key(n) == fn_names(fl).contains(n),
    decreases fl.len(),
{
    if fl.len() > 0 {
        lemma_collect_names(fl.drop_last(), sn, n);
        assert(fn_names(fl.drop_last()) =~= fn_names(fl).drop_last());
        if fn_names(fl).contains(n) {
            let i = choose|i: int| 0 <= i < fn_names(fl).len() && fn_names(fl)[i] == n;
            if i < fl.len() - 1 {
                assert(fn_names(fl.drop_last())[i] == n);
            }
        }
        if fn_names(fl.drop_last()).contains(n) {
            let i = choose|i: int| 0 <= i < fn_names(fl.drop_last()).len() && fn_names(fl.drop_last())[i] == n;
            assert(fn_names(fl)[i] == n);
        }
        assert(fn_names(fl)[fl.len() - 1] == fl.last().0.name@);
    }
}

/// The parts of a function's parameters.
fn parts_of(inputs: &Vec<Arg>, it: Option<&str>, sn: &str) -> (r: (String, Vec<String>, bool))
    ensures
        (r.0@, views(r.1@), r.2) == parts(inputs@, crate::unfold::opt_str(it), sn@),
{
    let ghost itv = crate::unfold::opt_str(it);
    let mut sub = String::new();
    let mut ps: Vec<String> = Vec::new();
    let mut t = false;
    let in_schema = match it {
        Some(x) => str_same(x, sn),
        None => false,
    };
    let mut i: usize = 0;
    proof {
        assert(inputs@.take(0) =~= Seq::<Arg>::empty());
        assert(views(ps@) =~= Seq::<Seq<char>>::empty());
    }
    while i < inputs.len()
        invariant
            i <= inputs@.len(),
            in_schema == (itv == Some(sn@)),
            (sub@, views(ps@), t) == parts(inputs@.take(i as int), itv, sn@),
        decreases inputs.len() - i,
    {
        proof {
            let now = inputs@.take(i + 1);
            assert(now.drop_last() =~= inputs@.take(i as int));
            assert(now.last() == inputs@[i as int]);
        }
        match &inputs[i] {
            Arg::Receiver => {
                sub = "self".to_owned();
                t = t || in_schema;
            },
            Arg::Typed(Pt::Ident(id), ty) => {
                let same = match ty {
                    Some(x) => str_same(x.as_str(), sn),
                    None => false,
                };
                if same {
                    t = true;
                    sub = id.clone();
                } else {
                    if sub.as_str().unicode_len() == 0 {
                        sub = id.clone();
                    }
                    let ghost p0 = ps@;
                    ps.push(id.clone());
                    proof {
                        assert(views(ps@) =~= views(p0).push(id@));
                    }
                }
            },
            _ => {},
        }
        i = i + 1;
    }
    assert(inputs@.take(inputs@.len() as int) =~= inputs@);
    (sub, ps, t)
}


/// The function definition of `f`.
fn fn_from_parts<'a>(f: &'a FnAst, it: Option<&str>, sn: &str) -> (r: FnDef<'a>)
    ensures
        def_view(r) == def_of(*f, crate::unfold::opt_str(it), sn@),
{
    let (subject, params, is_tuple) = parts_of(&f.inputs, it, sn);
    FnDef { name: f.name.clone(), subject, params, is_tuple, block: &f.block, except: opt_copy(&f.except) }
}

/// Adds `d` after the functions of its name.
fn push_def<'a>(fns: &mut Fns<'a>, d: FnDef<'a>)
    ensures
        fns_view(*final(fns)) == fns_view(*old(fns)).insert(
            d.name@,
            (if fns_view(*old(fns)).contains_key(d.name@) {
                fns_view(*old(fns))[d.name@]
            } else {
                Seq::empty()
            }).push(def_view(d)),
        ),
{
    let ghost m0 = fns_view(*fns);
    let ghost f0 = *fns;
    let ghost dv = def_view(d);
    let name = d.name.clone();
    let mut vs = match fns.remove(name.as_str()) {
        Some(v) => v,
        None => Vec::new(),
    };
    let ghost before = vs@;
    proof {
        if m0.contains_key(name@) {
            assert(defs_view(before) == m0[name@]);
        } else {
            assert(defs_view(before) =~= Seq::<DefV>::empty());
        }
    }
    vs.push(d);
    proof {
        assert(defs_view(vs@) =~= defs_view(before).push(dv));
    }
    let ghost f1 = *fns;
    fns.insert(name, vs);
    proof {
        assert forall|q: Seq<char>| q != d.name@ implies #[trigger] fns.get_spec(q) == f0.get_spec(q) by {
            assert(f1.get_spec(q) == f0.get_spec(q));
        }
        assert(fns_view(*fns) =~= m0.insert(
            d.name@,
            (if m0.contains_key(d.name@) {
                m0[d.name@]
            } else {
                Seq::empty()
            }).push(dv),
        ));
    }
}

/// The functions of a file by name, each name's in order of appearance.
pub fn collect_fns<'a>(file: &'a FileAst, s: &Schema) -> (r: Fns<'a>)
    ensures
        fns_view(r) == collect_spec(fn_list(file.items@), s.name@),
{
    let ghost sn = s.name@;
    let mut fns: Fns<'a> = StrMap::new();
    proof {
        assert(fns_view(fns) =~= Map::<Seq<char>, Seq<DefV>>::empty());
        assert(file.items@.take(0) =~= Seq::<ItemAst>::empty());
    }
    let mut i: usize = 0;
    while i < file.items.len()
        invariant
            i <= file.items@.len(),
            sn == s.name@,
            fns_view(fns) == collect_spec(fn_list(file.items@.take(i as int)), sn),
        decreases file.items.len() - i,
    {
        let ghost fl0 = fn_list(file.items@.take(i as int));
        proof {
            let now = file.items@.take(i + 1);
            assert(now.drop_last() =~= file.items@.take(i as int));
            assert(now.last() == file.items@[i as int]);
        }
        match &file.items[i] {
            ItemAst::Fn(f) => {
                let d = fn_from_parts(f, None, s.name.as_str());
                push_def(&mut fns, d);
                proof {
                    let fl1 = fn_list(file.items@.take(i + 1));
                    assert(fl1 =~= fl0 + seq![(*f, None::<Seq<char>>)]);
                    assert(fl1.drop_last() =~= fl0);
                }
            },
            ItemAst::Impl(ty, ms) => {
                let it: Option<&str> = match ty {
                    Some(t) => Some(t.as_str()),
                    None => None,
                };
                let ghost msm = ms@.map_values(|m: FnAst| (m, opt_view(*ty)));
                proof {
                    assert(crate::unfold::opt_str(it) == opt_view(*ty));
                    assert(fl0 + msm.take(0) =~= fl0);
                }
                let mut j: usize = 0;
                while j < ms.len()
                    invariant
                        j <= ms@.len(),
                        sn == s.name@,
                        msm == ms@.map_values(|m: FnAst| (m, opt_view(*ty))),
                        crate::unfold::opt_str(it) == opt_view(*ty),
                        fns_view(fns) == collect_spec(fl0 + msm.take(j as int), sn),
                    decreases ms.len() - j,
                {
                    let d = fn_from_parts(&ms[j], it, s.name.as_str());
                    push_def(&mut fns, d);
                    proof {
                        let now = fl0 + msm.take(j + 1);
                        assert(now.drop_last() =~= fl0 + msm.take(j as int));
                        assert(now.last() == (ms@[j as int], opt_view(*ty)));
                    }
                    j = j + 1;
                }
                proof {
                    assert(msm.take(ms@.len() as int) =~= msm);
                    assert(fn_list(file.items@.take(i + 1)) =~= fl0 + msm);
                }
            },
            _ => {
                proof {
                    assert(fn_list(file.items@.take(i + 1)) =~= fl0);
                }
            },
        }
        i = i + 1;
    }
    assert(file.items@.take(file.items@.len() as int) =~= file.items@);
    fns
}


/// The paths of the walks among `ds` from index `j` on: each function that
/// walks a value of the Schema's type and is not muted by `#[except]`.
pub open spec fn site_paths(s: Schema, cv: FnsV, ds: Seq<DefV>, j: int) -> Seq<PathV>
    decreases ds.len() - j,
{
    if j < 0 || j >= ds.len() {
        Seq::empty()
    } else {
        (if ds[j].is_tuple && ds[j].except is None {
            run_w(s, cv, ds[j])
        } else {
            Seq::empty()
        }) + site_paths(s, cv, ds, j + 1)
    }
}

/// The walks muted by `#[except]` among `ds` from index `j` on.
pub open spec fn site_skips(ds: Seq<DefV>, j: int) -> Seq<SkipV>
    decreases ds.len() - j,
{
    if j < 0 || j >= ds.len() {
        Seq::empty()
    } else {
        (if ds[j].is_tuple && ds[j].except is Some {
            seq![SkipV { site: ds[j].name, reason: ds[j].except->Some_0 }]
        } else {
            Seq::empty()
        }) + site_skips(ds, j + 1)
    }
}

/// The paths of the functions of each name from index `i` on.
pub open spec fn all_paths(s: Schema, cv: FnsV, names: Seq<Seq<char>>, i: int) -> Seq<PathV>
    decreases names.len() - i,
{
    if i < 0 || i >= names.len() {
        Seq::empty()
    } else {
        site_paths(s, cv, cv[names[i]], 0) + all_paths(s, cv, names, i + 1)
    }
}

pub open spec fn all_skips(cv: FnsV, names: Seq<Seq<char>>, i: int) -> Seq<SkipV>
    decreases names.len() - i,
{
    if i < 0 || i >= names.len() {
        Seq::empty()
    } else {
        site_skips(cv[names[i]], 0) + all_skips(cv, names, i + 1)
    }
}

/// The functions of a file, by name.
pub open spec fn file_fns(s: Schema, file: FileAst) -> FnsV {
    collect_spec(fn_list(file.items@), s.name@)
}

/// The names of a file's functions, ascending.
pub open spec fn file_names(file: FileAst) -> Seq<Seq<char>> {
    sorted_set(fn_names(fn_list(file.items@)))
}

/// Every path Unfold walks in a file: by function name, ascending; the
/// functions of one name in order of appearance.
pub open spec fn unfold_paths(s: Schema, file: FileAst) -> Seq<PathV> {
    all_paths(s, file_fns(s, file), file_names(file), 0)
}

/// The walks of a file muted by `#[except]`, in the same order.
pub open spec fn unfold_skips(s: Schema, file: FileAst) -> Seq<SkipV> {
    all_skips(file_fns(s, file), file_names(file), 0)
}

/// One path's snapshot of the schema value.
#[derive(Debug)]
pub struct Observation {
    pub label: String,
    pub ctx: ValueCtx,
    pub rewrites: CheckReport,
}

/// The mathematical form of an observation: label, state and rewrite report.
pub open spec fn obs_views(v: Seq<Observation>) -> Seq<(Seq<char>, CtxV, ReportV)> {
    v.map_values(|o: Observation| (o.label@, o.ctx@, o.rewrites@))
}

/// The observation a path leaves: its label, state and rewrite findings.
pub open spec fn as_obs(ps: Seq<PathV>) -> Seq<(Seq<char>, CtxV, ReportV)> {
    ps.map_values(|p: PathV| (p.label, p.ctx, ReportV { findings: p.rw, skipped: Seq::empty() }))
}

fn to_observations(ts: Vec<Trail>) -> (r: Vec<Observation>)
    ensures
        obs_views(r@) == as_obs(tv(ts@)),
{
    let ghost orig = ts@;
    let ghost want = as_obs(tv(ts@));
    let n = ts.len();
    let mut v = ts;
    let mut rev: Vec<Observation> = Vec::new();
    while v.len() > 0
        invariant
            v@.len() <= n,
            n == orig.len(),
            v@ == orig.take(v@.len() as int),
            want == as_obs(tv(orig)),
            rev@.len() == n - v@.len(),
            forall|q: int| 0 <= q < rev@.len() ==> #[trigger] obs_views(rev@)[q] == want[n - 1 - q],
        decreases v.len(),
    {
        let ghost before = v@;
        let t = v.pop().unwrap();
        proof {
            assert(t == orig[before.len() - 1]);
            assert(v@ =~= orig.take(v@.len() as int));
            assert(tv(orig)[before.len() - 1] == trail_view(t));
        }
        let Trail { label, ctx, done: _, rw } = t;
        let ghost o0 = rev@;
        rev.push(Observation { label, ctx, rewrites: CheckReport { findings: rw, skipped: Vec::new() } });
        proof {
            assert forall|q: int| 0 <= q < rev@.len() implies #[trigger] obs_views(rev@)[q] == want[n - 1 - q] by {
                if q < o0.len() {
                    assert(obs_views(rev@)[q] == obs_views(o0)[q]);
                } else {
                    assert(sviews(Seq::<Skip>::empty()) =~= Seq::<SkipV>::empty());
                }
            }
        }
    }
    let mut out: Vec<Observation> = Vec::new();
    while rev.len() > 0
        invariant
            rev@.len() <= n,
            n == want.len(),
            forall|q: int| 0 <= q < rev@.len() ==> #[trigger] obs_views(rev@)[q] == want[n - 1 - q],
            obs_views(out@) == want.take(n - rev@.len()),
            out@.len() == n - rev@.len(),
        decreases rev.len(),
    {
        let ghost k = n - rev@.len();
        let ghost r0 = rev@;
        let o = rev.pop().unwrap();
        proof {
            assert(o == r0[r0.len() - 1]);
            assert(obs_views(r0)[r0.len() - 1] == want[k]);
            assert forall|q: int| 0 <= q < rev@.len() implies #[trigger] obs_views(rev@)[q] == want[n - 1 - q] by {
                assert(rev@[q] == r0[q]);
                assert(obs_views(r0)[q] == want[n - 1 - q]);
            }
        }
        let ghost o0 = out@;
        out.push(o);
        proof {
            assert(obs_views(out@) =~= obs_views(o0).push(want[k]));
            assert(want.take(k + 1) =~= want.take(k).push(want[k]));
        }
    }
    assert(want.take(n as int) =~= want);
    out
}

proof fn lemma_keys_contains<V>(m: StrMap<V>, es: Seq<(String, V)>, n: Seq<char>)
    requires
        es == m.pairs(),
        sorted_keys(keys_of(es)),
    ensures
        keys_of(es).contains(n) == (m.get_spec(n) is Some),
{
    lemma_lookup_at(es, n);
    if keys_of(es).contains(n) {
        let j = choose|j: int| 0 <= j < keys_of(es).len() && keys_of(es)[j] == n;
        assert(es[j].0@ == n);
    } else {
        assert forall|j: int| 0 <= j < es.len() implies es[j].0@ != n by {
            assert(keys_of(es)[j] == es[j].0@);
        }
    }
}

/// Walk every function of the file that takes a value of the Schema's type;
/// the ones muted by `#[except]` are listed instead.
pub fn unfold_file_ex(schema: &Schema, file: &FileAst) -> (r: (Vec<Observation>, Vec<Skip>))
    ensures
        sviews(r.1@) == unfold_skips(*schema, *file),
        schema_ok(*schema) ==> obs_views(r.0@) == as_obs(unfold_paths(*schema, *file)),
{
    let ghost ok = schema_ok(*schema);
    let fns = collect_fns(file, schema);
    let ghost cv = fns_view(fns);
    let es = fns.entries();
    let ghost names = keys_of(es@);
    proof {
        let fl = fn_list(file.items@);
        assert forall|n: Seq<char>| #[trigger] names.contains(n) == fn_names(fl).contains(n) by {
            lemma_keys_contains(fns, es@, n);
            lemma_collect_names(fl, schema.name@, n);
        }
        lemma_sorted_set(names, fn_names(fl));
    }
    let mut out: Vec<Observation> = Vec::new();
    let mut skipped: Vec<Skip> = Vec::new();
    let mut i: usize = 0;
    while i < es.len()
        invariant
            i <= es@.len(),
            es@ == fns.pairs(),
            sorted_keys(keys_of(es@)),
            names == keys_of(es@),
            cv == fns_view(fns),
            ok == schema_ok(*schema),
            sviews(skipped@) + all_skips(cv, names, i as int) == all_skips(cv, names, 0),
            ok ==> obs_views(out@) + as_obs(all_paths(*schema, cv, names, i as int)) == as_obs(all_paths(*schema, cv, names, 0)),
        decreases es.len() - i,
    {
        let ds = &es[i].1;
        let ghost dv = defs_view(ds@);
        proof {
            lemma_lookup_at(es@, es@[i as int].0@);
            assert(names[i as int] == es@[i as int].0@);
            assert(cv[names[i as int]] == dv);
        }
        let ghost out0 = obs_views(out@);
        let ghost sk0 = sviews(skipped@);
        let mut j: usize = 0;
        while j < ds.len()
            invariant
                j <= ds@.len(),
                dv == defs_view(ds@),
                cv == fns_view(fns),
                ok == schema_ok(*schema),
                sviews(skipped@) + site_skips(dv, j as int) == sk0 + site_skips(dv, 0),
                ok ==> obs_views(out@) + as_obs(site_paths(*schema, cv, dv, j as int)) == out0 + as_obs(site_paths(*schema, cv, dv, 0)),
            decreases ds.len() - j,
        {
            let d = &ds[j];
            proof {
                assert(dv[j as int] == def_view(*d));
            }
            let ghost o1 = obs_views(out@);
            let ghost s1 = sviews(skipped@);
            if d.is_tuple {
                match &d.except {
                    Some(reason) => {
                        skipped.push(Skip { site: d.name.clone(), reason: reason.clone() });
                        proof {
                            assert(sviews(skipped@) =~= s1.push(SkipV { site: d.name@, reason: reason@ }));
                            assert(sviews(skipped@) + site_skips(dv, j + 1) =~= s1 + site_skips(dv, j as int));
                            assert(ok ==> obs_views(out@) + as_obs(site_paths(*schema, cv, dv, j + 1))
                                =~= o1 + as_obs(site_paths(*schema, cv, dv, j as int)));
                        }
                    },
                    None => {
                        let trails = run_def(schema, &fns, d);
                        let mut obs = to_observations(trails);
                        let ghost added = obs_views(obs@);
                        out.append(&mut obs);
                        proof {
                            assert(obs_views(out@) =~= o1 + added);
                            assert(sviews(skipped@) + site_skips(dv, j + 1) =~= s1 + site_skips(dv, j as int));
                            if ok {
                                assert(as_obs(run_w(*schema, cv, dv[j as int]) + site_paths(*schema, cv, dv, j + 1))
                                    =~= as_obs(run_w(*schema, cv, dv[j as int])) + as_obs(site_paths(*schema, cv, dv, j + 1)));
                                assert(obs_views(out@) + as_obs(site_paths(*schema, cv, dv, j + 1))
                                    =~= o1 + as_obs(site_paths(*schema, cv, dv, j as int)));
                            }
                        }
                    },
                }
            } else {
                proof {
                    assert(sviews(skipped@) + site_skips(dv, j + 1) =~= s1 + site_skips(dv, j as int));
                    assert(ok ==> obs_views(out@) + as_obs(site_paths(*schema, cv, dv, j + 1))
                        =~= o1 + as_obs(site_paths(*schema, cv, dv, j as int)));
                }
            }
            j = j + 1;
        }
        proof {
            assert(sviews(skipped@) =~= sviews(skipped@) + site_skips(dv, ds@.len() as int));
            assert(sviews(skipped@) + all_skips(cv, names, i + 1) =~= sk0 + all_skips(cv, names, i as int));
            if ok {
                assert(obs_views(out@) =~= obs_views(out@) + as_obs(site_paths(*schema, cv, dv, ds@.len() as int)));
                assert(as_obs(site_paths(*schema, cv, dv, 0) + all_paths(*schema, cv, names, i + 1))
                    =~= as_obs(site_paths(*schema, cv, dv, 0)) + as_obs(all_paths(*schema, cv, names, i + 1)));
                assert(obs_views(out@) + as_obs(all_paths(*schema, cv, names, i + 1))
                    =~= out0 + as_obs(all_paths(*schema, cv, names, i as int)));
            }
        }
        i = i + 1;
    }
    proof {
        assert(sviews(skipped@) =~= sviews(skipped@) + all_skips(cv, names, es@.len() as int));
        if ok {
            assert(obs_views(out@) =~= obs_views(out@) + as_obs(all_paths(*schema, cv, names, es@.len() as int)));
        }
    }
    (out, skipped)
}


/// The observations of every walk of the file (the muted ones left out).
pub fn unfold_file(schema: &Schema, file: &FileAst) -> (r: Vec<Observation>)
    ensures
        schema_ok(*schema) ==> obs_views(r@) == as_obs(unfold_paths(*schema, *file)),
{
    unfold_file_ex(schema, file).0
}

/// What Eval reports of a list of paths: each path's rewrite findings, then
/// the schema's findings on its state, labelled by the path.
pub open spec fn eval_paths(s: Schema, ps: Seq<PathV>) -> Seq<FindingV>
    decreases ps.len(),
{
    if ps.len() == 0 {
        Seq::empty()
    } else {
        eval_paths(s, ps.drop_last()) + ps.last().rw + schema_spec(s, ps.last().ctx, Some(ps.last().label))
    }
}

/// Scores each observation into `report`.
fn eval_observations(schema: &Schema, obs: &Vec<Observation>, report: &mut CheckReport)
    ensures
        final(report)@.skipped == old(report)@.skipped,
        forall|ps: Seq<PathV>| schema_ok(*schema) && obs_views(obs@) == as_obs(ps) ==> #[trigger] final(report)@.findings
            == old(report)@.findings + eval_paths(*schema, ps),
{
    let ghost f0 = report@.findings;
    let ghost s0 = report@.skipped;
    let mut k: usize = 0;
    while k < obs.len()
        invariant
            k <= obs@.len(),
            report@.skipped == s0,
            forall|ps: Seq<PathV>| schema_ok(*schema) && obs_views(obs@) == as_obs(ps) ==> #[trigger] report@.findings
                == f0 + eval_paths(*schema, ps.take(k as int)),
        decreases obs.len() - k,
    {
        let ghost r0 = report@.findings;
        let o = &obs[k];
        let mut rw = copy_findings(&o.rewrites.findings);
        let ghost rwv = fviews(rw@);
        report.findings.append(&mut rw);
        let sub = eval_schema(schema, &o.ctx, Some(o.label.as_str()));
        let ghost sv = sub@.findings;
        report.merge(sub);
        proof {
            assert(report@.skipped =~= s0);
            assert forall|ps: Seq<PathV>| schema_ok(*schema) && obs_views(obs@) == as_obs(ps) implies #[trigger] report@.findings
                == f0 + eval_paths(*schema, ps.take(k + 1)) by {
                assert(obs_views(obs@).len() == obs@.len());
                assert(as_obs(ps).len() == ps.len());
                assert(obs_views(obs@)[k as int] == as_obs(ps)[k as int]);
                assert(ps.take(k + 1).drop_last() =~= ps.take(k as int));
                assert(ps.take(k + 1).last() == ps[k as int]);
                assert(rwv == ps[k as int].rw);
                assert(report@.findings =~= r0 + rwv + sv);
            }
        }
        k = k + 1;
    }
    proof {
        assert forall|ps: Seq<PathV>| schema_ok(*schema) && obs_views(obs@) == as_obs(ps) implies #[trigger] report@.findings
            == f0 + eval_paths(*schema, ps) by {
            assert(obs_views(obs@).len() == obs@.len());
            assert(as_obs(ps).len() == ps.len());
            assert(ps.take(obs@.len() as int) =~= ps);
        }
    }
}

/// Walk the file, then score each path: its rewrite findings, then the
/// schema's findings on its state. The muted walks are listed as skipped.
pub fn eval_unfold_file(schema: &Schema, file: &FileAst) -> (r: CheckReport)
    ensures
        r@.skipped == unfold_skips(*schema, *file),
        schema_ok(*schema) ==> r@.findings == eval_paths(*schema, unfold_paths(*schema, *file)),
{
    let (obs, skipped) = unfold_file_ex(schema, file);
    let mut report = CheckReport { findings: Vec::new(), skipped };
    proof {
        assert(fviews(report.findings@) =~= Seq::<FindingV>::empty());
    }
    eval_observations(schema, &obs, &mut report);
    proof {
        if schema_ok(*schema) {
            assert(report@.findings =~= Seq::<FindingV>::empty() + eval_paths(*schema, unfold_paths(*schema, *file)));
        }
    }
    report
}

/// The first skip of `name` from index `i` on.
pub open spec fn first_skip(ks: Seq<SkipV>, name: Seq<char>, i: int) -> Option<SkipV>
    decreases ks.len() - i,
{
    if i < 0 || i >= ks.len() {
        None
    } else if ks[i].site == name {
        Some(ks[i])
    } else {
        first_skip(ks, name, i + 1)
    }
}

/// The path belongs to `name`: its label is `name` or starts with `name.`.
pub open spec fn is_named(label: Seq<char>, name: Seq<char>) -> bool {
    label == name || (label.len() >= name.len() + 1 && label.subrange(0, name.len() + 1 as int) == name + "."@)
}

/// The paths that belong to `name`, in order.
pub open spec fn keep_named(ps: Seq<PathV>, name: Seq<char>) -> Seq<PathV>
    decreases ps.len(),
{
    if ps.len() == 0 {
        Seq::empty()
    } else {
        keep_named(ps.drop_last(), name) + if is_named(ps.last().label, name) {
            seq![ps.last()]
        } else {
            Seq::empty()
        }
    }
}

/// The error when no walk belongs to `name`.
pub open spec fn no_paths_msg(name: Seq<char>, sname: Seq<char>) -> Seq<char> {
    "no unfold paths for `"@ + name + "` (need a param/receiver of type "@ + sname + ")"@
}

fn named_of(label: &str, name: &str) -> (r: bool)
    ensures
        r == is_named(label@, name@),
{
    if str_same(label, name) {
        return true;
    }
    let n = name.unicode_len();
    let m = label.unicode_len();
    if m <= n {
        return false;
    }
    let mut i: usize = 0;
    while i < n
        invariant
            i <= n,
            n == name@.len(),
            m == label@.len(),
            m >= n + 1,
            forall|j: int| 0 <= j < i ==> label@[j] == name@[j],
        decreases n - i,
    {
        if label.get_char(i) != name.get_char(i) {
            proof {
                assert(label@.subrange(0, n + 1)[i as int] != (name@ + "."@)[i as int]);
            }
            return false;
        }
        i = i + 1;
    }
    let dot = label.get_char(n) == '.';
    proof {
        reveal_strlit(".");
        if dot {
            assert(label@.subrange(0, n + 1) =~= name@ + "."@);
        } else {
            assert(label@.subrange(0, n + 1)[n as int] != (name@ + "."@)[n as int]);
        }
    }
    dot
}

/// The mathematical form of a report or an error message.
pub open spec fn report_result(r: Result<CheckReport, String>) -> Result<ReportV, Seq<char>> {
    match r {
        Ok(rep) => Ok(rep@),
        Err(m) => Err(m@),
    }
}

/// What scoring the walks of `name` in `file` gives: the skip of `name`
/// when its walk is muted; else the error when no path belongs to `name`;
/// else the findings of the paths that belong to it.
pub open spec fn named_spec(s: Schema, file: FileAst, name: Seq<char>, r: Result<ReportV, Seq<char>>) -> bool {
    match first_skip(unfold_skips(s, file), name, 0) {
        Some(k) => r matches Ok(rep) && rep.findings.len() == 0 && rep.skipped == seq![k],
        None => schema_ok(s) ==> if keep_named(unfold_paths(s, file), name).len() == 0 {
            r == Err::<ReportV, Seq<char>>(no_paths_msg(name, s.name@))
        } else {
            r matches Ok(rep) && rep.skipped.len() == 0 && rep.findings == eval_paths(s, keep_named(unfold_paths(s, file), name))
        },
    }
}

/// Walk the file and score the paths that belong to the function `name`
/// (its label, or its `then` / `else` labels). A walk of `name` muted by
/// `#[except]` is reported as skipped, and nothing else.
pub fn eval_unfold_named_file(schema: &Schema, file: &FileAst, name: &str) -> (r: Result<CheckReport, String>)
    ensures
        named_spec(*schema, *file, name@, report_result(r)),
{
    let ghost ok = schema_ok(*schema);
    let ghost paths = unfold_paths(*schema, *file);
    let ghost skips = unfold_skips(*schema, *file);
    let (obs, skipped) = unfold_file_ex(schema, file);
    let mut i: usize = 0;
    while i < skipped.len()
        invariant
            i <= skipped@.len(),
            sviews(skipped@) == skips,
            skips == unfold_skips(*schema, *file),
            first_skip(skips, name@, 0) == first_skip(skips, name@, i as int),
        decreases skipped.len() - i,
    {
        if str_same(skipped[i].site.as_str(), name) {
            let k = Skip { site: skipped[i].site.clone(), reason: skipped[i].reason.clone() };
            let mut ks: Vec<Skip> = Vec::new();
            ks.push(k);
            let rep = CheckReport { findings: Vec::new(), skipped: ks };
            proof {
                assert(skips[i as int] == skipped@[i as int]@);
                assert(first_skip(skips, name@, i as int) == Some(skips[i as int]));
                assert(sviews(ks@) =~= seq![skips[i as int]]);
                assert(fviews(rep.findings@) =~= Seq::<FindingV>::empty());
                assert(rep@.skipped == seq![skips[i as int]]);
                assert(rep@.findings.len() == 0);
                assert(first_skip(skips, name@, 0) == Some(skips[i as int]));
            }
            return Ok(rep);
        }
        i = i + 1;
    }
    let mut kept: Vec<Observation> = Vec::new();
    let mut rest = obs;
    let ghost all = obs_views(rest@);
    let mut rev: Vec<Observation> = Vec::new();
    while rest.len() > 0
        invariant
            rest@.len() + rev@.len() == all.len(),
            obs_views(rest@) == all.take(rest@.len() as int),
            forall|q: int| 0 <= q < rev@.len() ==> #[trigger] obs_views(rev@)[q] == all[all.len() - 1 - q],
        decreases rest.len(),
    {
        let ghost before = rest@;
        let o = rest.pop().unwrap();
        proof {
            assert(obs_views(before)[before.len() - 1] == all[before.len() - 1]);
            assert(obs_views(rest@) =~= all.take(rest@.len() as int));
        }
        let ghost r0 = rev@;
        rev.push(o);
        proof {
            assert forall|q: int| 0 <= q < rev@.len() implies #[trigger] obs_views(rev@)[q] == all[all.len() - 1 - q] by {
                if q < r0.len() {
                    assert(obs_views(rev@)[q] == obs_views(r0)[q]);
                }
            }
        }
    }
    let n = rev.len();
    let ghost want = all.filter(|t: (Seq<char>, CtxV, ReportV)| is_named(t.0, name@));
    while rev.len() > 0
        invariant
            rev@.len() <= n,
            n == all.len(),
            forall|q: int| 0 <= q < rev@.len() ==> #[trigger] obs_views(rev@)[q] == all[n - 1 - q],
            obs_views(kept@) == all.take(n - rev@.len()).filter(|t: (Seq<char>, CtxV, ReportV)| is_named(t.0, name@)),
        decreases rev.len(),
    {
        let ghost k = n - rev@.len();
        let ghost r0 = rev@;
        let o = rev.pop().unwrap();
        proof {
            assert(obs_views(r0)[r0.len() - 1] == all[k]);
            assert forall|q: int| 0 <= q < rev@.len() implies #[trigger] obs_views(rev@)[q] == all[n - 1 - q] by {
                assert(obs_views(rev@)[q] == obs_views(r0)[q]);
            }
            assert(all.take(k + 1).drop_last() =~= all.take(k));
            reveal(Seq::filter);
        }
        let ghost k0 = obs_views(kept@);
        if named_of(o.label.as_str(), name) {
            kept.push(o);
            proof {
                assert(obs_views(kept@) =~= k0.push(all[k]));
            }
        }
    }
    proof {
        assert(all.take(n as int) =~= all);
    }
    if kept.len() == 0 {
        let mut m = String::new();
        m.append("no unfold paths for `");
        m.append(name);
        m.append("` (need a param/receiver of type ");
        m.append(schema.name.as_str());
        m.append(")");
        proof {
            assert(m@ =~= no_paths_msg(name@, schema.name@));
            if ok {
                lemma_keep_named_filter(paths, name@);
            }
        }
        return Err(m);
    }
    let mut report = CheckReport { findings: Vec::new(), skipped: Vec::new() };
    proof {
        assert(fviews(report.findings@) =~= Seq::<FindingV>::empty());
        assert(sviews(report.skipped@) =~= Seq::<SkipV>::empty());
        if ok {
            lemma_keep_named_filter(paths, name@);
        }
    }
    eval_observations(schema, &kept, &mut report);
    proof {
        if ok {
            assert(report@.findings =~= Seq::<FindingV>::empty() + eval_paths(*schema, keep_named(paths, name@)));
        }
    }
    Ok(report)
}

proof fn lemma_keep_named_filter(ps: Seq<PathV>, name: Seq<char>)
    ensures
        as_obs(keep_named(ps, name)) == as_obs(ps).filter(|t: (Seq<char>, CtxV, ReportV)| is_named(t.0, name)),
    decreases ps.len(),
{
    reveal(Seq::filter);
    if ps.len() > 0 {
        lemma_keep_named_filter(ps.drop_last(), name);
        assert(as_obs(ps).drop_last() =~= as_obs(ps.drop_last()));
        assert(as_obs(ps).last() == as_obs(ps)[ps.len() - 1]);
        if is_named(ps.last().label, name) {
            assert(as_obs(keep_named(ps, name)) =~= as_obs(keep_named(ps.drop_last(), name)).push(as_obs(ps).last()));
        } else {
            assert(as_obs(keep_named(ps, name)) =~= as_obs(keep_named(ps.drop_last(), name)));
        }
    }
}

} // verus!
