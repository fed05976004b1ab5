//! Unfold: one Observe backend. Walks `self` / `m` rewrites, splits paths at
//! conditions on Schema fields, and follows calls whose writes it can read.
//! Layout and live Observe never enter here.
use vstd::prelude::*;
use crate::absval::AbsValV;
use crate::observe::{fact_abs_spec, Fact};
use crate::ir::{exclude_spec, write_spec, CtxV, ValueCtx};
use crate::text::debug_list;
use crate::strmap::{sorted_set, StrMap};
use crate::syntax::{
    eq_str_lits, eq_str_lits_of, field_access, field_access_of, fill_spec, is_ident_spec, is_string_new,
    is_string_new_of, lemma_peel_within, lit_str, lit_str_of, pat_str_lits, pat_str_lits_of,
    path_is_ident, path_last, path_last_of, peel, peel_spec, BinKind, Ex, MacroArgs,
};
use crate::text::{str_same, views};
use crate::check::{fviews, schema_ok, sviews, CheckReport, Finding, FindingV, ReportV, Skip, SkipV};
use crate::ir::Schema;
use crate::lower::{parse_file, parses_as_file};
use crate::sites::{
    as_obs, eval_paths, eval_unfold_file, eval_unfold_named_file, named_spec, obs_views, report_result,
    unfold_file, unfold_paths, unfold_skips, Observation,
};
use crate::syntax::FileAst;

verus! {

/// The photo of a named list of values; a later name wins.
pub open spec fn struct_photo(fields: Seq<(Option<String>, Ex)>) -> Map<Seq<char>, AbsValV>
    decreases fields,
{
    if fields.len() == 0 {
        Map::empty()
    } else {
        let rest = struct_photo(fields.subrange(0, fields.len() - 1));
        match fields[fields.len() - 1].0 {
            Some(n) => rest.insert(n@, fact_photo(fields[fields.len() - 1].1)),
            None => rest,
        }
    }
}

/// The photos of a list of expressions.
pub open spec fn photos(xs: Seq<Ex>) -> Seq<AbsValV>
    decreases xs,
{
    if xs.len() == 0 {
        Seq::empty()
    } else {
        photos(xs.subrange(0, xs.len() - 1)).push(fact_photo(xs[xs.len() - 1]))
    }
}

/// `format!(fmt, args…)` with every argument a known string: the filled text.
pub open spec fn format_photo(args: Option<Vec<Ex>>) -> AbsValV
    decreases args,
{
    match args {
        None => AbsValV::Unknown,
        Some(xs) => if xs@.len() == 0 {
            AbsValV::Unknown
        } else {
            match lit_str(xs@[0]) {
                None => AbsValV::Unknown,
                Some(fmt) => {
                    let rest = photos(xs@.subrange(1, xs@.len() as int));
                    if forall|k: int| 0 <= k < rest.len() ==> #[trigger] rest[k] is Known {
                        match fill_spec(fmt, rest.map_values(|v: AbsValV| v->Known_0), 0, 0, Seq::empty()) {
                            Some(t) => AbsValV::Known(t),
                            None => AbsValV::Unknown,
                        }
                    } else {
                        AbsValV::Unknown
                    }
                },
            }
        },
    }
}

/// What an expression written to a field reads as: a literal, `None`, a
/// list, a struct literal, `String::new()`, a `format!` of literals;
/// anything else is Unknown.
pub open spec fn fact_photo(e: Ex) -> AbsValV
    decreases e,
{
    let pe = peel_spec(e);
    proof {
        lemma_peel_within(e);
    }
    match pe {
        Ex::LitStr(s) => AbsValV::Known(s@),
        Ex::Path(p) => if is_ident_spec(p, "None"@) {
            AbsValV::Absent
        } else {
            AbsValV::Unknown
        },
        Ex::Call(func, args) => {
            let n = path_last(*func);
            if n == Some("Some"@) || n == Some("Single"@) || n == Some("Multiple"@) {
                if args@.len() > 0 {
                    proof {
                        assert(decreases_to!(pe => args@[0]));
                    }
                    fact_photo(args@[0])
                } else {
                    AbsValV::Unknown
                }
            } else if is_string_new(*func) && args@.len() == 0 {
                AbsValV::Known(Seq::empty())
            } else {
                AbsValV::Unknown
            }
        },
        Ex::Macro(p, margs) => if is_ident_spec(p, "format"@) {
            match margs {
                MacroArgs::List(x) => {
                    proof {
                        assert(decreases_to!(pe => margs));
                        assert(decreases_to!(margs => x));
                    }
                    format_photo(x)
                },
                _ => AbsValV::Unknown,
            }
        } else if is_ident_spec(p, "vec"@) {
            match margs {
                MacroArgs::List(Some(xs)) => AbsValV::Array(photos(xs@)),
                MacroArgs::List(None) => AbsValV::Array(Seq::empty()),
                _ => AbsValV::Unknown,
            }
        } else {
            AbsValV::Unknown
        },
        Ex::Array(xs) => AbsValV::Array(photos(xs@)),
        Ex::Struct(_, fields) => AbsValV::Record(struct_photo(fields@)),
        _ => AbsValV::Unknown,
    }
}


pub proof fn lemma_photos(xs: Seq<Ex>)
    ensures
        photos(xs).len() == xs.len(),
        forall|i: int| 0 <= i < xs.len() ==> #[trigger] photos(xs)[i] == fact_photo(xs[i]),
    decreases xs.len(),
{
    if xs.len() > 0 {
        lemma_photos(xs.subrange(0, xs.len() - 1));
    }
}

/// The record photo of named facts relates to their lookup.
pub proof fn lemma_fact_entries_lookup(es: Seq<(String, Fact)>, k: Seq<char>)
    ensures
        crate::observe::fact_entries_spec(es).contains_key(k) == (crate::strmap::lookup(es, k) is Some),
        crate::strmap::lookup(es, k) matches Some(v) ==> crate::observe::fact_entries_spec(es)[k] == fact_abs_spec(v),
    decreases es.len(),
{
    if es.len() > 0 {
        assert(es.subrange(1, es.len() as int) =~= es.drop_first());
        lemma_fact_entries_lookup(es.drop_first(), k);
    }
}

proof fn lemma_fact_record_insert(old: StrMap<Fact>, new: StrMap<Fact>, k: Seq<char>, v: Fact)
    requires
        new.get_spec(k) == Some(v),
        forall|q: Seq<char>| q != k ==> #[trigger] new.get_spec(q) == old.get_spec(q),
    ensures
        crate::observe::fact_entries_spec(new.pairs()) == crate::observe::fact_entries_spec(old.pairs()).insert(k, fact_abs_spec(v)),
{
    let a = crate::observe::fact_entries_spec(new.pairs());
    let b = crate::observe::fact_entries_spec(old.pairs()).insert(k, fact_abs_spec(v));
    assert forall|q: Seq<char>| #[trigger] a.contains_key(q) == b.contains_key(q) && (a.contains_key(q) ==> a[q] == b[q]) by {
        lemma_fact_entries_lookup(new.pairs(), q);
        lemma_fact_entries_lookup(old.pairs(), q);
        if q == k {
            assert(crate::strmap::lookup(new.pairs(), q) == Some(v));
        } else {
            assert(new.get_spec(q) == old.get_spec(q));
        }
    }
    assert(a =~= b);
}

/// The facts of a list of expressions.
pub fn facts_of(xs: &Vec<Ex>) -> (r: Vec<Fact>)
    ensures
        crate::observe::facts_abs_spec(r@) == photos(xs@),
        forall|i: int| 0 <= i < r@.len() ==> !(#[trigger] r@[i] is Wire),
    decreases xs, 0int,
{
    let mut out: Vec<Fact> = Vec::new();
    let mut i: usize = 0;
    while i < xs.len()
        invariant
            i <= xs@.len(),
            out@.len() == i,
            forall|j: int| 0 <= j < i ==> fact_abs_spec(#[trigger] out@[j]) == fact_photo(xs@[j]),
            forall|j: int| 0 <= j < i ==> !(#[trigger] out@[j] is Wire),
        decreases xs.len() - i,
    {
        proof {
            assert(decreases_to!(*xs => xs@[i as int]));
        }
        let f = fact_of(&xs[i]);
        out.push(f);
        i = i + 1;
    }
    proof {
        crate::observe::lemma_facts_abs(out@);
        lemma_photos(xs@);
        assert(crate::observe::facts_abs_spec(out@) =~= photos(xs@));
    }
    out
}

/// The record fact of a struct literal's named fields.
fn fact_of_struct(fields: &Vec<(Option<String>, Ex)>) -> (r: Fact)
    ensures
        fact_abs_spec(r) == AbsValV::Record(struct_photo(fields@)),
        !(r is Wire),
    decreases fields, 0int,
{
    let mut m: StrMap<Fact> = StrMap::new();
    let mut i: usize = 0;
    proof {
        assert(crate::observe::fact_entries_spec(m.pairs()) =~= Map::empty()) by {
            assert forall|q: Seq<char>| !#[trigger] crate::observe::fact_entries_spec(m.pairs()).contains_key(q) by {
                lemma_fact_entries_lookup(m.pairs(), q);
            }
        }
        assert(fields@.subrange(0, 0) =~= Seq::<(Option<String>, Ex)>::empty());
    }
    while i < fields.len()
        invariant
            i <= fields@.len(),
            crate::observe::fact_entries_spec(m.pairs()) == struct_photo(fields@.subrange(0, i as int)),
        decreases fields.len() - i,
    {
        let ghost m0 = m;
        proof {
            assert(decreases_to!(*fields => fields@[i as int]));
            let now = fields@.subrange(0, i + 1);
            assert(now.subrange(0, now.len() - 1) =~= fields@.subrange(0, i as int));
            assert(now[now.len() - 1] == fields@[i as int]);
        }
        match &fields[i].0 {
            Some(n) => {
                let f = fact_of(&fields[i].1);
                let ghost fv = f;
                m.insert(n.clone(), f);
                proof {
                    lemma_fact_record_insert(m0, m, n@, fv);
                }
            },
            None => {},
        }
        i = i + 1;
    }
    assert(fields@.subrange(0, fields@.len() as int) =~= fields@);
    Fact::Record(m)
}

/// `format!` with known-string arguments: the filled text; else Unknown.
fn fact_of_format(x: &Option<Vec<Ex>>) -> (r: Fact)
    ensures
        fact_abs_spec(r) == format_photo(*x),
        !(r is Wire),
    decreases x, 0int,
{
    match x {
        None => Fact::Unknown,
        Some(xs) => {
            if xs.len() == 0 {
                return Fact::Unknown;
            }
            let fmt = match lit_str_of(&xs[0]) {
                Some(f) => f,
                None => {
                    return Fact::Unknown;
                },
            };
            let ghost rest = photos(xs@.subrange(1, xs@.len() as int));
            proof {
                lemma_photos(xs@.subrange(1, xs@.len() as int));
            }
            let mut lits: Vec<String> = Vec::new();
            let mut i: usize = 1;
            while i < xs.len()
                invariant
                    1 <= i <= xs@.len(),
                    *x == Some(*xs),
                    lit_str(xs@[0]) == Some(fmt@),
                    rest == photos(xs@.subrange(1, xs@.len() as int)),
                    rest.len() == xs@.len() - 1,
                    forall|k: int| 0 <= k < rest.len() ==> #[trigger] rest[k] == fact_photo(xs@[k + 1]),
                    lits@.len() == i - 1,
                    forall|k: int| 0 <= k < i - 1 ==> rest[k] == AbsValV::Known(#[trigger] lits@[k]@),
                decreases xs.len() - i,
            {
                proof {
                    assert(decreases_to!(*x => *xs));
                    assert(decreases_to!(*xs => xs@[i as int]));
                    assert(rest[i - 1] == fact_photo(xs@[i as int]));
                }
                match fact_of(&xs[i]) {
                    Fact::Lit(s) => {
                        lits.push(s);
                    },
                    _ => {
                        proof {
                            assert(!(rest[i - 1] is Known));
                        }
                        return Fact::Unknown;
                    },
                }
                i = i + 1;
            }
            proof {
                assert forall|k: int| 0 <= k < rest.len() implies #[trigger] views(lits@)[k] == rest.map_values(|v: AbsValV| v->Known_0)[k] by {
                    assert(rest[k] == AbsValV::Known(lits@[k]@));
                }
                assert(views(lits@) =~= rest.map_values(|v: AbsValV| v->Known_0));
                assert forall|k: int| 0 <= k < rest.len() implies #[trigger] rest[k] is Known by {
                    assert(rest[k] == AbsValV::Known(lits@[k]@));
                }
            }
            match crate::syntax::fill_braces(fmt, &lits) {
                Some(t) => Fact::Lit(t),
                None => Fact::Unknown,
            }
        },
    }
}

/// The fact an expression written to a field reads as.
pub fn fact_of(e: &Ex) -> (r: Fact)
    ensures
        fact_abs_spec(r) == fact_photo(*e),
        !(r is Wire),
    decreases e, 0int,
{
    let pe = peel(e);
    proof {
        lemma_peel_within(*e);
    }
    match pe {
        Ex::LitStr(s) => Fact::Lit(s.clone()),
        Ex::Path(p) => if path_is_ident(p, "None") {
            Fact::Absent
        } else {
            Fact::Unknown
        },
        Ex::Call(func, args) => {
            let ctor = match path_last_of(func) {
                Some(n) => str_same(n, "Some") || str_same(n, "Single") || str_same(n, "Multiple"),
                None => false,
            };
            if ctor {
                if args.len() > 0 {
                    proof {
                        assert(decreases_to!(*pe => args@[0]));
                    }
                    fact_of(&args[0])
                } else {
                    Fact::Unknown
                }
            } else if is_string_new_of(func) && args.len() == 0 {
                Fact::Lit(String::new())
            } else {
                Fact::Unknown
            }
        },
        Ex::Macro(p, margs) => if path_is_ident(p, "format") {
            match margs {
                MacroArgs::List(x) => {
                    proof {
                        assert(decreases_to!(*pe => *margs));
                        assert(decreases_to!(*margs => *x));
                    }
                    fact_of_format(x)
                },
                _ => Fact::Unknown,
            }
        } else if path_is_ident(p, "vec") {
            match margs {
                MacroArgs::List(Some(xs)) => {
                    proof {
                        assert(decreases_to!(*pe => *margs));
                    }
                    Fact::Array(facts_of(xs))
                },
                MacroArgs::List(None) => {
                    let r = Fact::Array(Vec::new());
                    proof {
                        assert(crate::observe::facts_abs_spec(Seq::<Fact>::empty()) =~= Seq::<AbsValV>::empty());
                    }
                    r
                },
                _ => Fact::Unknown,
            }
        } else {
            Fact::Unknown
        },
        Ex::Array(xs) => Fact::Array(facts_of(xs)),
        Ex::Struct(_, fields) => fact_of_struct(fields),
        _ => Fact::Unknown,
    }
}


/// A condition on Schema fields that Unfold can split a path on.
#[derive(Debug)]
pub enum Cond {
    Eq { field: String, lit: String },
    In { field: String, lits: Vec<String> },
    And(Box<Cond>, Box<Cond>),
    Or(Box<Cond>, Box<Cond>),
}

/// The mathematical form of a condition.
pub enum CondV {
    Eq(Seq<char>, Seq<char>),
    In(Seq<char>, Seq<Seq<char>>),
    And(Box<CondV>, Box<CondV>),
    Or(Box<CondV>, Box<CondV>),
}

pub open spec fn cond_view(c: Cond) -> CondV
    decreases c,
{
    match c {
        Cond::Eq { field, lit } => CondV::Eq(field@, lit@),
        Cond::In { field, lits } => CondV::In(field@, views(lits@)),
        Cond::And(a, b) => CondV::And(Box::new(cond_view(*a)), Box::new(cond_view(*b))),
        Cond::Or(a, b) => CondV::Or(Box::new(cond_view(*a)), Box::new(cond_view(*b))),
    }
}

/// The Schema field an expression names: `subject.field`, or a name bound
/// to a field.
pub open spec fn resolve_spec(e: Ex, ts: Option<Seq<char>>, binds: Map<Seq<char>, Seq<char>>) -> Option<Seq<char>> {
    match ts {
        Some(sub) if field_access(e, sub) is Some => field_access(e, sub),
        _ => match peel_spec(e) {
            Ex::Path(p) => if p.plain && p.segs@.len() == 1 && binds.contains_key(p.segs@[0]@) {
                Some(binds[p.segs@[0]@])
            } else {
                None
            },
            _ => None,
        },
    }
}

/// The names bound to Schema fields.
pub open spec fn bind_view(b: StrMap<String>) -> Map<Seq<char>, Seq<char>> {
    Map::new(|k: Seq<char>| b.get_spec(k) is Some, |k: Seq<char>| b.get_spec(k).unwrap()@)
}

pub open spec fn opt_str(o: Option<&str>) -> Option<Seq<char>> {
    match o {
        Some(s) => Some(s@),
        None => None,
    }
}

pub fn resolve_field(e: &Ex, ts: Option<&str>, binds: &StrMap<String>) -> (r: Option<String>)
    ensures
        match resolve_spec(*e, opt_str(ts), bind_view(*binds)) {
            Some(f) => r matches Some(t) && t@ == f,
            None => r is None,
        },
{
    match ts {
        Some(sub) => match field_access_of(e, sub) {
            Some(f) => {
                return Some(f.to_owned());
            },
            None => {},
        },
        None => {},
    }
    match peel(e) {
        Ex::Path(p) => if p.plain && p.segs.len() == 1 {
            match binds.get(p.segs[0].as_str()) {
                Some(f) => Some(f.clone()),
                None => None,
            }
        } else {
            None
        },
        _ => None,
    }
}

/// `field == "lit"` (either way round) on a resolvable field.
pub open spec fn eq_field_lit(c: Ex, ts: Option<Seq<char>>, binds: Map<Seq<char>, Seq<char>>) -> Option<(Seq<char>, Seq<char>)> {
    match peel_spec(c) {
        Ex::Binary(l, BinKind::Eq, r) => match resolve_spec(*l, ts, binds) {
            Some(f) => match lit_str(*r) {
                Some(s) => Some((f, s)),
                None => None,
            },
            None => match resolve_spec(*r, ts, binds) {
                Some(f) => match lit_str(*l) {
                    Some(s) => Some((f, s)),
                    None => None,
                },
                None => None,
            },
        },
        _ => None,
    }
}

fn eq_field_lit_of(c: &Ex, ts: Option<&str>, binds: &StrMap<String>) -> (r: Option<(String, String)>)
    ensures
        match eq_field_lit(*c, opt_str(ts), bind_view(*binds)) {
            Some((f, s)) => r matches Some((a, b)) && a@ == f && b@ == s,
            None => r is None,
        },
{
    match peel(c) {
        Ex::Binary(l, BinKind::Eq, r) => match resolve_field(l, ts, binds) {
            Some(f) => match lit_str_of(r) {
                Some(s) => Some((f, s.to_owned())),
                None => None,
            },
            None => match resolve_field(r, ts, binds) {
                Some(f) => match lit_str_of(l) {
                    Some(s) => Some((f, s.to_owned())),
                    None => None,
                },
                None => None,
            },
        },
        _ => None,
    }
}

/// `matches!(field, "a" | "b")` (or `if x == "a"` as the guard) on a
/// resolvable field, with its literals.
pub open spec fn matches_field_lits(c: Ex, ts: Option<Seq<char>>, binds: Map<Seq<char>, Seq<char>>) -> Option<(Seq<char>, Seq<Seq<char>>)> {
    match peel_spec(c) {
        Ex::Macro(path, MacroArgs::Matches(Some((expr, pat, guard)))) => if !is_ident_spec(path, "matches"@) {
            None
        } else {
            let guard_ok = match guard {
                None => true,
                Some(g) => eq_str_lits(*g) is Some,
            };
            if !guard_ok {
                None
            } else {
                match resolve_spec(*expr, ts, binds) {
                    None => None,
                    Some(f) => {
                        let lits = match pat_str_lits(pat) {
                            Some(l) if l.len() > 0 => Some(l),
                            _ => match guard {
                                Some(g) => eq_str_lits(*g),
                                None => None,
                            },
                        };
                        match lits {
                            Some(l) => if l.len() == 0 {
                                None
                            } else {
                                Some((f, l))
                            },
                            None => None,
                        }
                    },
                }
            }
        },
        _ => None,
    }
}

fn matches_field_lits_of(c: &Ex, ts: Option<&str>, binds: &StrMap<String>) -> (r: Option<(String, Vec<String>)>)
    ensures
        match matches_field_lits(*c, opt_str(ts), bind_view(*binds)) {
            Some((f, ls)) => r matches Some((a, v)) && a@ == f && views(v@) == ls,
            None => r is None,
        },
{
    match peel(c) {
        Ex::Macro(path, MacroArgs::Matches(Some((expr, pat, guard)))) => {
            if !path_is_ident(path, "matches") {
                return None;
            }
            let guard_lits = match guard {
                None => None,
                Some(g) => match eq_str_lits_of(g) {
                    Some(l) => Some(l),
                    None => {
                        return None;
                    },
                },
            };
            let f = match resolve_field(expr, ts, binds) {
                Some(f) => f,
                None => {
                    return None;
                },
            };
            let lits = match pat_str_lits_of(pat) {
                Some(l) => if l.len() > 0 {
                    l
                } else {
                    match guard_lits {
                        Some(g) => g,
                        None => {
                            return None;
                        },
                    }
                },
                None => match guard_lits {
                    Some(g) => g,
                    None => {
                        return None;
                    },
                },
            };
            if lits.len() == 0 {
                None
            } else {
                Some((f, lits))
            }
        },
        _ => None,
    }
}

/// A condition Unfold can read: `&&` / `||` of field equalities and
/// `matches!` on fields.
pub open spec fn parse_cond_spec(c: Ex, ts: Option<Seq<char>>, binds: Map<Seq<char>, Seq<char>>) -> Option<CondV>
    decreases c,
{
    let pc = peel_spec(c);
    proof {
        lemma_peel_within(c);
    }
    match pc {
        Ex::Binary(l, BinKind::And, r) => match parse_cond_spec(*l, ts, binds) {
            Some(a) => match parse_cond_spec(*r, ts, binds) {
                Some(b) => Some(CondV::And(Box::new(a), Box::new(b))),
                None => None,
            },
            None => None,
        },
        Ex::Binary(l, BinKind::Or, r) => match parse_cond_spec(*l, ts, binds) {
            Some(a) => match parse_cond_spec(*r, ts, binds) {
                Some(b) => Some(CondV::Or(Box::new(a), Box::new(b))),
                None => None,
            },
            None => None,
        },
        _ => match eq_field_lit(c, ts, binds) {
            Some((f, s)) => Some(CondV::Eq(f, s)),
            None => match matches_field_lits(c, ts, binds) {
                Some((f, ls)) => Some(CondV::In(f, ls)),
                None => None,
            },
        },
    }
}

pub fn parse_cond(c: &Ex, ts: Option<&str>, binds: &StrMap<String>) -> (r: Option<Cond>)
    ensures
        match parse_cond_spec(*c, opt_str(ts), bind_view(*binds)) {
            Some(cv) => r matches Some(x) && cond_view(x) == cv,
            None => r is None,
        },
    decreases c,
{
    let pc = peel(c);
    proof {
        lemma_peel_within(*c);
    }
    match pc {
        Ex::Binary(l, BinKind::And, r) => {
            let a = match parse_cond(l, ts, binds) {
                Some(a) => a,
                None => {
                    return None;
                },
            };
            let b = match parse_cond(r, ts, binds) {
                Some(b) => b,
                None => {
                    return None;
                },
            };
            Some(Cond::And(Box::new(a), Box::new(b)))
        },
        Ex::Binary(l, BinKind::Or, r) => {
            let a = match parse_cond(l, ts, binds) {
                Some(a) => a,
                None => {
                    return None;
                },
            };
            let b = match parse_cond(r, ts, binds) {
                Some(b) => b,
                None => {
                    return None;
                },
            };
            Some(Cond::Or(Box::new(a), Box::new(b)))
        },
        _ => match eq_field_lit_of(c, ts, binds) {
            Some((f, s)) => Some(Cond::Eq { field: f, lit: s }),
            None => match matches_field_lits_of(c, ts, binds) {
                Some((f, ls)) => Some(Cond::In { field: f, lits: ls }),
                None => None,
            },
        },
    }
}


/// The state with each of `ls` excluded for `f`, in order.
pub open spec fn exclude_all(c: CtxV, f: Seq<char>, ls: Seq<Seq<char>>) -> CtxV
    decreases ls.len(),
{
    if ls.len() == 0 {
        c
    } else {
        exclude_spec(exclude_all(c, f, ls.drop_last()), f, ls.last())
    }
}

/// Labelled states: the paths a split leads to.
pub type Arms = Seq<(CtxV, Seq<char>)>;

/// Split a state on a condition: the states where it holds (`then`) and
/// where it does not (`else`), each labelled by the condition.
pub open spec fn split_spec(c: CondV, ctx: CtxV, label: Seq<char>) -> (Arms, Arms)
    decreases c, 0int, 0int,
{
    match c {
        CondV::Eq(f, l) => (
            seq![(write_spec(ctx, f, AbsValV::Known(l)), label + ".then["@ + f + "=="@ + l + "]"@)],
            seq![(exclude_spec(ctx, f, l), label + ".else["@ + f + "=="@ + l + "]"@)],
        ),
        CondV::In(f, ls) => (
            seq![(write_spec(ctx, f, AbsValV::OneOf(sorted_set(ls))), label + ".then["@ + f + " in "@ + debug_list(ls) + "]"@)],
            seq![(exclude_all(ctx, f, ls), label + ".else["@ + f + " in "@ + debug_list(ls) + "]"@)],
        ),
        CondV::And(a, b) => {
            let (lt, le) = split_spec(*a, ctx, label);
            (thens_after(*b, lt, 0), le + elses_after(*b, lt, 0))
        },
        CondV::Or(a, b) => {
            let (lt, le) = split_spec(*a, ctx, label);
            (lt + thens_after(*b, le, 0), elses_after(*b, le, 0))
        },
    }
}

/// The `then` arms of `b` on each of `items` from `i` on, in order.
pub open spec fn thens_after(b: CondV, items: Arms, i: int) -> Arms
    decreases b, 1int, items.len() - i,
{
    if i < 0 || i >= items.len() {
        Seq::empty()
    } else {
        split_spec(b, items[i].0, items[i].1).0 + thens_after(b, items, i + 1)
    }
}

/// The `else` arms of `b` on each of `items` from `i` on, in order.
pub open spec fn elses_after(b: CondV, items: Arms, i: int) -> Arms
    decreases b, 1int, items.len() - i,
{
    if i < 0 || i >= items.len() {
        Seq::empty()
    } else {
        split_spec(b, items[i].0, items[i].1).1 + elses_after(b, items, i + 1)
    }
}

pub open spec fn arms_view(v: Seq<(ValueCtx, String)>) -> Arms {
    v.map_values(|t: (ValueCtx, String)| (t.0@, t.1@))
}

fn label4(label: &str, mid: &str, f: &str, sep: &str, l: &str) -> (r: String)
    ensures
        r@ == label@ + mid@ + f@ + sep@ + l@ + "]"@,
{
    let mut r = String::new();
    r.append(label);
    r.append(mid);
    r.append(f);
    r.append(sep);
    r.append(l);
    r.append("]");
    assert(r@ =~= label@ + mid@ + f@ + sep@ + l@ + "]"@);
    r
}

/// Split a state on a condition into the `then` and `else` states.
pub fn split_cond(c: &Cond, ctx: &ValueCtx, label: &str) -> (r: (Vec<(ValueCtx, String)>, Vec<(ValueCtx, String)>))
    ensures
        arms_view(r.0@) == split_spec(cond_view(*c), ctx@, label@).0,
        arms_view(r.1@) == split_spec(cond_view(*c), ctx@, label@).1,
    decreases c,
{
    match c {
        Cond::Eq { field, lit } => {
            let t = ctx.clone().lit(field.as_str(), lit.as_str());
            let e = ctx.clone().exclude(field.as_str(), lit.as_str());
            let tl = label4(label, ".then[", field.as_str(), "==", lit.as_str());
            let el = label4(label, ".else[", field.as_str(), "==", lit.as_str());
            let mut thens = Vec::new();
            thens.push((t, tl));
            let mut elses = Vec::new();
            elses.push((e, el));
            proof {
                assert(arms_view(thens@) =~= split_spec(cond_view(*c), ctx@, label@).0);
                assert(arms_view(elses@) =~= split_spec(cond_view(*c), ctx@, label@).1);
            }
            (thens, elses)
        },
        Cond::In { field, lits } => {
            let t = ctx.clone().one_of_strings(field.as_str(), lits);
            let mut e = ctx.clone();
            let mut i: usize = 0;
            while i < lits.len()
                invariant
                    i <= lits@.len(),
                    e@ == exclude_all(ctx@, field@, views(lits@).take(i as int)),
                decreases lits.len() - i,
            {
                e = e.exclude(field.as_str(), lits[i].as_str());
                proof {
                    let now = views(lits@).take(i + 1);
                    assert(now.drop_last() =~= views(lits@).take(i as int));
                    assert(now.last() == lits@[i as int]@);
                }
                i = i + 1;
            }
            assert(views(lits@).take(lits@.len() as int) =~= views(lits@));
            let d = crate::text::debug_strings(lits);
            let tl = label4(label, ".then[", field.as_str(), " in ", d.as_str());
            let el = label4(label, ".else[", field.as_str(), " in ", d.as_str());
            let mut thens = Vec::new();
            thens.push((t, tl));
            let mut elses = Vec::new();
            elses.push((e, el));
            proof {
                assert(arms_view(thens@) =~= split_spec(cond_view(*c), ctx@, label@).0);
                assert(arms_view(elses@) =~= split_spec(cond_view(*c), ctx@, label@).1);
            }
            (thens, elses)
        },
        Cond::And(a, b) => {
            let (lt, le) = split_cond(a, ctx, label);
            let ghost ltv = arms_view(lt@);
            let mut thens: Vec<(ValueCtx, String)> = Vec::new();
            let mut elses = le;
            let ghost lev = arms_view(elses@);
            let mut i: usize = 0;
            proof {
                assert(decreases_to!(*c => **b));
            }
            while i < lt.len()
                invariant
                    decreases_to!(*c => **b),
                    i <= lt@.len(),
                    ltv == arms_view(lt@),
                    ltv.len() == lt@.len(),
                    arms_view(thens@) + thens_after(cond_view(**b), ltv, i as int) == thens_after(cond_view(**b), ltv, 0),
                    arms_view(elses@) + elses_after(cond_view(**b), ltv, i as int) == lev + elses_after(cond_view(**b), ltv, 0),
                decreases lt.len() - i,
            {
                let (rt, re) = split_cond(b, &lt[i].0, lt[i].1.as_str());
                proof {
                    assert(ltv[i as int] == (lt@[i as int].0@, lt@[i as int].1@));
                }
                let ghost t0 = arms_view(thens@);
                let ghost e0 = arms_view(elses@);
                let mut rt = rt;
                let mut re = re;
                thens.append(&mut rt);
                elses.append(&mut re);
                proof {
                    assert(arms_view(thens@) =~= t0 + split_spec(cond_view(**b), ltv[i as int].0, ltv[i as int].1).0);
                    assert(arms_view(elses@) =~= e0 + split_spec(cond_view(**b), ltv[i as int].0, ltv[i as int].1).1);
                    assert(arms_view(thens@) + thens_after(cond_view(**b), ltv, i + 1) =~= t0 + thens_after(cond_view(**b), ltv, i as int));
                    assert(arms_view(elses@) + elses_after(cond_view(**b), ltv, i + 1) =~= e0 + elses_after(cond_view(**b), ltv, i as int));
                }
                i = i + 1;
            }
            proof {
                assert(arms_view(thens@) =~= arms_view(thens@) + thens_after(cond_view(**b), ltv, lt@.len() as int));
                assert(arms_view(elses@) =~= arms_view(elses@) + elses_after(cond_view(**b), ltv, lt@.len() as int));
            }
            (thens, elses)
        },
        Cond::Or(a, b) => {
            let (lt, le) = split_cond(a, ctx, label);
            let ghost lev = arms_view(le@);
            let mut thens = lt;
            let ghost ltv = arms_view(thens@);
            let mut elses: Vec<(ValueCtx, String)> = Vec::new();
            let mut i: usize = 0;
            proof {
                assert(decreases_to!(*c => **b));
            }
            while i < le.len()
                invariant
                    decreases_to!(*c => **b),
                    i <= le@.len(),
                    lev == arms_view(le@),
                    lev.len() == le@.len(),
                    arms_view(thens@) + thens_after(cond_view(**b), lev, i as int) == ltv + thens_after(cond_view(**b), lev, 0),
                    arms_view(elses@) + elses_after(cond_view(**b), lev, i as int) == elses_after(cond_view(**b), lev, 0),
                decreases le.len() - i,
            {
                let (rt, re) = split_cond(b, &le[i].0, le[i].1.as_str());
                proof {
                    assert(lev[i as int] == (le@[i as int].0@, le@[i as int].1@));
                }
                let ghost t0 = arms_view(thens@);
                let ghost e0 = arms_view(elses@);
                let mut rt = rt;
                let mut re = re;
                thens.append(&mut rt);
                elses.append(&mut re);
                proof {
                    assert(arms_view(thens@) =~= t0 + split_spec(cond_view(**b), lev[i as int].0, lev[i as int].1).0);
                    assert(arms_view(elses@) =~= e0 + split_spec(cond_view(**b), lev[i as int].0, lev[i as int].1).1);
                    assert(arms_view(thens@) + thens_after(cond_view(**b), lev, i + 1) =~= t0 + thens_after(cond_view(**b), lev, i as int));
                    assert(arms_view(elses@) + elses_after(cond_view(**b), lev, i + 1) =~= e0 + elses_after(cond_view(**b), lev, i as int));
                }
                i = i + 1;
            }
            proof {
                assert(arms_view(thens@) =~= arms_view(thens@) + thens_after(cond_view(**b), lev, le@.len() as int));
                assert(arms_view(elses@) =~= arms_view(elses@) + elses_after(cond_view(**b), lev, le@.len() as int));
            }
            (thens, elses)
        },
    }
}


// ---------------------------------------------------------------------------
// Unfold on source text.
// ---------------------------------------------------------------------------

/// Parse `source` and observe every function that rewrites a value of
/// `schema`'s type. `#[except("…")]` sites are left out here (calls into
/// them are still followed). A source that does not parse gives syn's error.
pub fn unfold(schema: &Schema, source: &str) -> (r: Result<Vec<Observation>, String>)
    ensures
        r is Ok <==> parses_as_file(source@),
        r matches Ok(v) ==> schema_ok(*schema) ==> exists|f: FileAst| obs_views(v@) == as_obs(#[trigger] unfold_paths(*schema, f)),
{
    match parse_file(source) {
        Ok(file) => {
            let v = unfold_file(schema, &file);
            proof {
                if schema_ok(*schema) {
                    assert(obs_views(v@) == as_obs(unfold_paths(*schema, file)));
                }
            }
            Ok(v)
        },
        Err(m) => Err(m),
    }
}

/// What Eval gives for the walks of some file: its skips, and (for a schema
/// whose refines answer once per string) the findings of its paths.
pub open spec fn unfold_report(s: Schema, rep: ReportV) -> bool {
    exists|f: FileAst|
        rep.skipped == #[trigger] unfold_skips(s, f) && (schema_ok(s) ==> rep.findings == eval_paths(s, unfold_paths(s, f)))
}

/// Parse `source`, walk it, and score every path.
pub fn eval_unfold(schema: &Schema, source: &str) -> (r: Result<CheckReport, String>)
    ensures
        r is Ok <==> parses_as_file(source@),
        r matches Ok(rep) ==> unfold_report(*schema, rep@),
{
    match parse_file(source) {
        Ok(file) => {
            let rep = eval_unfold_file(schema, &file);
            proof {
                assert(rep@.skipped == unfold_skips(*schema, file));
            }
            Ok(rep)
        },
        Err(m) => Err(m),
    }
}

/// Parse `source`, walk it, and score only the paths that belong to `name`
/// (its label, or its `then` / `else` labels). Callees followed from that
/// function count; other top-level functions do not.
pub fn eval_unfold_named(schema: &Schema, source: &str, name: &str) -> (r: Result<CheckReport, String>)
    ensures
        !parses_as_file(source@) ==> r is Err,
        parses_as_file(source@) ==> exists|f: FileAst| #[trigger] named_spec(*schema, f, name@, report_result(r)),
{
    match parse_file(source) {
        Ok(file) => {
            let r = eval_unfold_named_file(schema, &file, name);
            proof {
                assert(named_spec(*schema, file, name@, report_result(r)));
            }
            r
        },
        Err(m) => Err(m),
    }
}

/// A finding's site under the file `file`: `file::site`, or `file`.
pub open spec fn sited_findings(file: Seq<char>, fs: Seq<FindingV>) -> Seq<FindingV> {
    fs.map_values(
        |f: FindingV|
            FindingV {
                site: Some(
                    match f.site {
                        Some(x) => file + "::"@ + x,
                        None => file,
                    },
                ),
                ..f
            },
    )
}

/// A skip's site under the file `file`: `file::site`.
pub open spec fn sited_skips(file: Seq<char>, ks: Seq<SkipV>) -> Seq<SkipV> {
    ks.map_values(|k: SkipV| SkipV { site: file + "::"@ + k.site, ..k })
}

fn join_sep(a: &str, b: &str) -> (r: String)
    ensures
        r@ == a@ + "::"@ + b@,
{
    let mut r = String::new();
    r.append(a);
    r.append("::");
    r.append(b);
    proof {
        reveal_strlit("::");
    }
    assert(r@ =~= a@ + "::"@ + b@);
    r
}

/// The report with every site put under the file `file`.
pub fn prefix_sites(file: &str, report: CheckReport) -> (r: CheckReport)
    ensures
        r@.findings == sited_findings(file@, report@.findings),
        r@.skipped == sited_skips(file@, report@.skipped),
{
    let mut fs: Vec<Finding> = Vec::new();
    let mut i: usize = 0;
    while i < report.findings.len()
        invariant
            i <= report.findings@.len(),
            fviews(fs@) == sited_findings(file@, fviews(report.findings@)).take(i as int),
        decreases report.findings.len() - i,
    {
        let f = &report.findings[i];
        let site = match &f.site {
            Some(x) => join_sep(file, x.as_str()),
            None => file.to_owned(),
        };
        let g = Finding {
            kind: f.kind,
            schema: f.schema.clone(),
            field: f.field.clone(),
            message: f.message.clone(),
            site: Some(site),
        };
        let ghost before = fs@;
        fs.push(g);
        proof {
            assert(fviews(fs@) =~= fviews(before).push(g@));
            assert(sited_findings(file@, fviews(report.findings@)).take(i + 1)
                =~= sited_findings(file@, fviews(report.findings@)).take(i as int).push(g@));
        }
        i = i + 1;
    }
    let mut ks: Vec<Skip> = Vec::new();
    let mut j: usize = 0;
    while j < report.skipped.len()
        invariant
            j <= report.skipped@.len(),
            sviews(ks@) == sited_skips(file@, sviews(report.skipped@)).take(j as int),
        decreases report.skipped.len() - j,
    {
        let k = &report.skipped[j];
        let g = Skip { site: join_sep(file, k.site.as_str()), reason: k.reason.clone() };
        let ghost before = ks@;
        ks.push(g);
        proof {
            assert(sviews(ks@) =~= sviews(before).push(g@));
            assert(sited_skips(file@, sviews(report.skipped@)).take(j + 1)
                =~= sited_skips(file@, sviews(report.skipped@)).take(j as int).push(g@));
        }
        j = j + 1;
    }
    proof {
        assert(sited_findings(file@, fviews(report.findings@)).take(report.findings@.len() as int)
            =~= sited_findings(file@, fviews(report.findings@)));
        assert(sited_skips(file@, sviews(report.skipped@)).take(report.skipped@.len() as int)
            =~= sited_skips(file@, sviews(report.skipped@)));
    }
    CheckReport { findings: fs, skipped: ks }
}

/// The reports of the files from index `i` on, each put under its file.
pub open spec fn sited_all(names: Seq<Seq<char>>, reps: Seq<ReportV>, i: int) -> ReportV
    decreases reps.len() - i,
{
    if i < 0 || i >= reps.len() || i >= names.len() {
        ReportV { findings: Seq::empty(), skipped: Seq::empty() }
    } else {
        let rest = sited_all(names, reps, i + 1);
        ReportV {
            findings: sited_findings(names[i], reps[i].findings) + rest.findings,
            skipped: sited_skips(names[i], reps[i].skipped) + rest.skipped,
        }
    }
}

/// The paths of a list of (path, source) files.
pub open spec fn paths_of(files: Seq<(String, String)>) -> Seq<Seq<char>> {
    files.map_values(|p: (String, String)| p.0@)
}

/// Eval the walks of several source files, each given with its path; every
/// site is put under its file. The first file that does not parse gives
/// its error.
pub fn eval_sources(schema: &Schema, files: &Vec<(String, String)>) -> (r: Result<CheckReport, String>)
    ensures
        r is Ok <==> forall|i: int| 0 <= i < files@.len() ==> parses_as_file(#[trigger] files@[i].1@),
        r matches Ok(rep) ==> exists|reps: Seq<ReportV>|
            reps.len() == files@.len() && (forall|i: int| 0 <= i < reps.len() ==> unfold_report(*schema, #[trigger] reps[i]))
                && rep@ == #[trigger] sited_all(paths_of(files@), reps, 0),
{
    let ghost names = paths_of(files@);
    let mut report = CheckReport { findings: Vec::new(), skipped: Vec::new() };
    let ghost mut reps: Seq<ReportV> = Seq::empty();
    let mut i: usize = 0;
    proof {
        assert(fviews(report.findings@) =~= Seq::<FindingV>::empty());
        assert(sviews(report.skipped@) =~= Seq::<SkipV>::empty());
    }
    while i < files.len()
        invariant
            i <= files@.len(),
            names == paths_of(files@),
            reps.len() == i,
            forall|k: int| 0 <= k < i ==> parses_as_file(#[trigger] files@[k].1@),
            forall|k: int| 0 <= k < reps.len() ==> unfold_report(*schema, #[trigger] reps[k]),
            forall|x: Seq<ReportV>| x.len() == files@.len() && x.take(i as int) == reps ==> {
                let whole = #[trigger] sited_all(names, x, 0);
                let tail = sited_all(names, x, i as int);
                whole.findings == report@.findings + tail.findings && whole.skipped == report@.skipped + tail.skipped
            },
        decreases files.len() - i,
    {
        let one = eval_unfold(schema, files[i].1.as_str());
        match one {
            Err(m) => {
                return Err(m);
            },
            Ok(rep) => {
                let ghost rv = rep@;
                let sited = prefix_sites(files[i].0.as_str(), rep);
                let ghost f0 = report@.findings;
                let ghost s0 = report@.skipped;
                let ghost r0 = reps;
                report.merge(sited);
                proof {
                    reps = reps.push(rv);
                    assert forall|x: Seq<ReportV>| x.len() == files@.len() && x.take(i + 1) == reps implies {
                        let whole = #[trigger] sited_all(names, x, 0);
                        let tail = sited_all(names, x, i + 1);
                        whole.findings == report@.findings + tail.findings && whole.skipped == report@.skipped + tail.skipped
                    } by {
                        assert(x.take(i + 1)[i as int] == x[i as int]);
                        assert(reps[i as int] == rv);
                        assert(x.take(i as int) =~= x.take(i + 1).take(i as int));
                        assert(x.take(i as int) =~= r0);
                        assert(x[i as int] == rv);
                        assert(names[i as int] == files@[i as int].0@);
                        let t0 = sited_all(names, x, i as int);
                        let t1 = sited_all(names, x, i + 1);
                        assert(t0.findings == sited_findings(names[i as int], rv.findings) + t1.findings);
                        assert(report@.findings =~= f0 + sited_findings(names[i as int], rv.findings));
                        assert(report@.skipped =~= s0 + sited_skips(names[i as int], rv.skipped));
                        assert(f0 + t0.findings =~= report@.findings + t1.findings);
                        assert(s0 + t0.skipped =~= report@.skipped + t1.skipped);
                    }
                }
            },
        }
        i = i + 1;
    }
    proof {
        assert(reps.take(files@.len() as int) =~= reps);
        let tail = sited_all(names, reps, files@.len() as int);
        assert(report@.findings =~= report@.findings + tail.findings);
        assert(report@.skipped =~= report@.skipped + tail.skipped);
        assert(report@ == sited_all(names, reps, 0));
    }
    Ok(report)
}

} // verus!
