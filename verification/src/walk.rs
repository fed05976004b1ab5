//! Walk a function that rewrites a value of the Schema's type: split paths
//! at conditions on its fields, observe each field write, and follow calls
//! that take the value along.
use vstd::prelude::*;
use crate::absval::AbsValV;
use crate::check::{
    copy_findings, eval_rewrites, fviews, inv_spec, pred_spec, push_spec, rewrite_body, rewrites_spec, schema_ok, Finding, FindingV,
};
use crate::ir::{empty_ctx, write_spec, CtxV, Field, Rewrite, Schema, ValueCtx};
use crate::observe::{fact_abs_spec, put_spec, Fact};
use crate::slot::{
    cond_known, cond_known_of, find_def, find_def_of, has_field, has_field_of, no_wire, obs, observe, ov,
    def_view, fns_view, DefV, FnDef, Fns, FnsV, Obs, SlotV, FOLLOW_DEPTH,
};
use crate::strmap::StrMap;
use crate::syntax::{
    call_touches_subject, call_touches_subject_of, called_name, called_name_of, is_default, is_default_of, is_subject, is_subject_of, last_seg, last_seg_of, peel, peel_spec, Ex, Pt, St,
};
use crate::unfold::{
    arms_view, bind_view, fact_of, fact_photo, parse_cond, parse_cond_spec, split_cond, split_spec, Arms,
};
use crate::text::str_same;

verus! {

/// One path through a walked function: its state, its label, whether it
/// has returned, and the rewrite findings met on the way.
pub struct PathV {
    pub ctx: CtxV,
    pub label: Seq<char>,
    pub done: bool,
    pub rw: Seq<FindingV>,
}

pub open spec fn at(ctx: CtxV, label: Seq<char>, done: bool) -> PathV {
    PathV { ctx, label, done, rw: Seq::empty() }
}

/// Where a walk stands: the walked value's name and the follow depth.
pub struct EngV {
    pub subject: Seq<char>,
    pub depth: nat,
}

/// Paths with a new label and done flag, where given.
pub open spec fn stamp(ps: Seq<PathV>, label: Option<Seq<char>>, done: Option<bool>) -> Seq<PathV> {
    ps.map_values(
        |p: PathV|
            PathV {
                label: match label {
                    Some(l) => l,
                    None => p.label,
                },
                done: match done {
                    Some(d) => d,
                    None => p.done,
                },
                ..p
            },
    )
}

/// At a function's last expression, every path has returned.
pub open spec fn mark_done(ps: Seq<PathV>, ret: bool) -> Seq<PathV> {
    if ret {
        stamp(ps, None, Some(true))
    } else {
        ps
    }
}

/// The paths after a statement, each with the findings met before it first.
pub open spec fn prefix_rw(rw: Seq<FindingV>, ps: Seq<PathV>) -> Seq<PathV> {
    ps.map_values(|p: PathV| PathV { rw: rw + p.rw, ..p })
}

/// `when(P, rewrite I)` with the write given by its photo.
pub open spec fn rewrite_abs(sname: Seq<char>, rw: Rewrite, pre: CtxV, w: AbsValV, site: Option<Seq<char>>) -> Seq<FindingV> {
    match pred_spec(pre, rw.pred) {
        Ok(false) => Seq::empty(),
        Ok(true) => push_spec(
            sname,
            rw.field@,
            site,
            inv_spec(write_spec(empty_ctx(), rw.field@, w), rw.field@, rewrite_body(rw)),
        ),
        Err(e) => push_spec(sname, rw.field@, site, Err(e)),
    }
}

/// The rewrites of the schema at `field` from index `k` on, the write given by its photo.
pub open spec fn rewrites_abs(s: Schema, pre: CtxV, field: Seq<char>, w: AbsValV, site: Option<Seq<char>>, k: int) -> Seq<FindingV>
    decreases s.rewrites@.len() - k,
{
    if k < 0 || k >= s.rewrites@.len() {
        Seq::empty()
    } else {
        (if s.rewrites@[k].field@ == field {
            rewrite_abs(s.name@, s.rewrites@[k], pre, w, site)
        } else {
            Seq::empty()
        }) + rewrites_abs(s, pre, field, w, site, k + 1)
    }
}

/// A write that is no wire geometry meets the rewrites by its photo.
pub proof fn lemma_rewrites_abs(s: Schema, pre: CtxV, field: Seq<char>, f: Fact, site: Option<Seq<char>>, k: int)
    requires
        !(f is Wire),
    ensures
        rewrites_spec(s, pre, field, f, site, k) == rewrites_abs(s, pre, field, fact_abs_spec(f), site, k),
    decreases s.rewrites@.len() - k,
{
    if 0 <= k < s.rewrites@.len() {
        lemma_rewrites_abs(s, pre, field, f, site, k + 1);
        assert(put_spec(empty_ctx(), s.rewrites@[k].field@, f) == write_spec(empty_ctx(), s.rewrites@[k].field@, fact_abs_spec(f)));
    }
}

/// Each field of `fs` written Unknown, in order.
pub open spec fn unknown_all(fs: Seq<Field>, ctx: CtxV) -> CtxV
    decreases fs.len(),
{
    if fs.len() == 0 {
        ctx
    } else {
        write_spec(unknown_all(fs.drop_last(), ctx), fs.last().name@, AbsValV::Unknown)
    }
}

/// The named fields of a struct literal that are Schema fields, written in order.
pub open spec fn struct_writes(s: Schema, fs: Seq<(Option<String>, Ex)>, ctx: CtxV) -> CtxV
    decreases fs.len(),
{
    if fs.len() == 0 {
        ctx
    } else {
        let c = struct_writes(s, fs.drop_last(), ctx);
        match fs.last().0 {
            Some(n) => if has_field(s, n@) {
                write_spec(c, n@, fact_photo(fs.last().1))
            } else {
                c
            },
            None => c,
        }
    }
}

/// A struct literal of the Schema's type writes its fields.
pub open spec fn struct_w(s: Schema, pe: Ex, ctx: CtxV) -> CtxV {
    match pe {
        Ex::Struct(path, fields) => if last_seg(path) == Some(s.name@) {
            struct_writes(s, fields@, ctx)
        } else {
            ctx
        },
        _ => ctx,
    }
}

/// The walk a call follows into: one that takes the walked value along,
/// within the follow depth.
pub open spec fn follow_w(fns: FnsV, en: EngV, pe: Ex) -> Option<DefV> {
    if en.depth >= FOLLOW_DEPTH {
        None
    } else {
        match called_name(pe) {
            Some(n) => match find_def(fns, n, true) {
                Some(d) => if call_touches_subject(pe, en.subject) {
                    Some(d)
                } else {
                    None
                },
                None => None,
            },
            None => None,
        }
    }
}

/// Split a state on an `if` condition on the walked value's fields; one
/// that cannot be read keeps the state on both sides.
pub open spec fn cond_w(s: Schema, en: EngV, cond: Ex, ctx: CtxV, label: Seq<char>) -> (Arms, Arms) {
    let plain = (seq![(ctx, label + ".then"@)], seq![(ctx, label + ".else"@)]);
    match parse_cond_spec(cond, Some(en.subject), Map::empty()) {
        Some(c) => if cond_known(s, c) {
            split_spec(c, ctx, label)
        } else {
            plain
        },
        None => plain,
    }
}

/// The paths of the observed writes of field `m`.
pub open spec fn writes_w(s: Schema, m: Seq<char>, label: Seq<char>, ws: Obs) -> Seq<PathV> {
    ws.map_values(
        |w: (CtxV, AbsValV)|
            PathV {
                ctx: write_spec(w.0, m, w.1),
                label,
                done: false,
                rw: rewrites_abs(s, w.0, m, w.1, Some(label), 0),
            },
    )
}

/// The statements of a block from index `i` on.
pub open spec fn seq_w(s: Schema, fns: FnsV, en: EngV, stmts: Vec<St>, i: int, ctx: CtxV, label: Seq<char>) -> Seq<PathV>
    decreases FOLLOW_DEPTH - en.depth, stmts, stmts@.len() - i, 1int, 0int,
{
    if i < 0 || i >= stmts@.len() {
        seq![at(ctx, label, false)]
    } else {
        proof {
            assert(decreases_to!(stmts => stmts@[i]));
        }
        let heads = match stmts@[i] {
            St::Expr(x, semi) => expr_w(s, fns, en, x, ctx, label, i + 1 == stmts@.len() && !semi),
            St::Local(p, Some(x)) => seq![local_w(s, fns, en, p, x, ctx, label)],
            _ => seq![at(ctx, label, false)],
        };
        cont_w(s, fns, en, stmts, i + 1, heads, 0)
    }
}

/// Each of `ps` from index `k` on goes on with the statements from `j`,
/// unless it has returned.
pub open spec fn cont_w(s: Schema, fns: FnsV, en: EngV, stmts: Vec<St>, j: int, ps: Seq<PathV>, k: int) -> Seq<PathV>
    decreases FOLLOW_DEPTH - en.depth, stmts, stmts@.len() - j, 2int, ps.len() - k,
{
    if k < 0 || k >= ps.len() {
        Seq::empty()
    } else {
        (if ps[k].done || j >= stmts@.len() {
            seq![ps[k]]
        } else {
            prefix_rw(ps[k].rw, seq_w(s, fns, en, stmts, j, ps[k].ctx, ps[k].label))
        }) + cont_w(s, fns, en, stmts, j, ps, k + 1)
    }
}

/// `let subject = x;` takes the first path of the value.
pub open spec fn local_w(s: Schema, fns: FnsV, en: EngV, p: Pt, x: Ex, ctx: CtxV, label: Seq<char>) -> PathV
    decreases FOLLOW_DEPTH - en.depth, x, 3int, 0int, 0int,
{
    match p {
        Pt::Ident(id) => if id@ == en.subject {
            let ps = value_w(s, fns, en, x, ctx);
            if ps.len() > 0 {
                PathV { label, done: false, ..ps[0] }
            } else {
                at(ctx, label, false)
            }
        } else {
            at(ctx, label, false)
        },
        _ => at(ctx, label, false),
    }
}

/// An expression statement; `ret` when it is the function's value.
pub open spec fn expr_w(s: Schema, fns: FnsV, en: EngV, e: Ex, ctx: CtxV, label: Seq<char>, ret: bool) -> Seq<PathV>
    decreases FOLLOW_DEPTH - en.depth, e, 6int, 0int, 0int,
{
    match e {
        Ex::If(_, _, _) => if_w(s, fns, en, e, ctx, label, ret),
        Ex::Block(b) => mark_done(seq_w(s, fns, en, b, 0, ctx, label), ret),
        Ex::Return(Some(x)) => stamp(value_w(s, fns, en, *x, ctx), Some(label), Some(true)),
        Ex::Return(None) => seq![at(ctx, label, true)],
        Ex::Assign(_, _) => mark_done(assign_w(s, fns, en, e, ctx, label), ret),
        _ => stamp(value_w(s, fns, en, e, ctx), Some(label), if ret {
            Some(true)
        } else {
            None
        }),
    }
}

/// An `if`: its block on each `then` state, its `else` on each `else` state.
pub open spec fn if_w(s: Schema, fns: FnsV, en: EngV, e: Ex, ctx: CtxV, label: Seq<char>, ret: bool) -> Seq<PathV>
    decreases FOLLOW_DEPTH - en.depth, e, 5int, 0int, 0int,
{
    match e {
        Ex::If(c, _, els) => {
            let (th, el) = cond_w(s, en, *c, ctx, label);
            let tp = if_then_w(s, fns, en, e, th, 0);
            let ep = match els {
                Some(_) => if_else_w(s, fns, en, e, el, ret, 0),
                None => el.map_values(|a: (CtxV, Seq<char>)| at(a.0, a.1, false)),
            };
            mark_done(tp + ep, ret)
        },
        _ => Seq::empty(),
    }
}

pub open spec fn if_then_w(s: Schema, fns: FnsV, en: EngV, e: Ex, arms: Arms, k: int) -> Seq<PathV>
    decreases FOLLOW_DEPTH - en.depth, e, 4int, arms.len() - k, 0int,
{
    match e {
        Ex::If(_, then, _) => if 0 <= k < arms.len() {
            seq_w(s, fns, en, then, 0, arms[k].0, arms[k].1) + if_then_w(s, fns, en, e, arms, k + 1)
        } else {
            Seq::empty()
        },
        _ => Seq::empty(),
    }
}

pub open spec fn if_else_w(s: Schema, fns: FnsV, en: EngV, e: Ex, arms: Arms, ret: bool, k: int) -> Seq<PathV>
    decreases FOLLOW_DEPTH - en.depth, e, 4int, arms.len() - k, 0int,
{
    match e {
        Ex::If(_, _, Some(x)) => if 0 <= k < arms.len() {
            expr_w(s, fns, en, *x, arms[k].0, arms[k].1, ret) + if_else_w(s, fns, en, e, arms, ret, k + 1)
        } else {
            Seq::empty()
        },
        _ => Seq::empty(),
    }
}

/// The field an assignment writes: `subject.field` with `field` a Schema field.
pub open spec fn assigned_field(s: Schema, en: EngV, l: Ex) -> Option<Seq<char>> {
    match l {
        Ex::Field(base, m) => if is_subject(*base, en.subject) && has_field(s, m@) {
            Some(m@)
        } else {
            None
        },
        _ => None,
    }
}

/// `subject.field = rhs` observes the write; `subject = rhs` takes the
/// value's paths; any other assignment changes nothing.
pub open spec fn assign_w(s: Schema, fns: FnsV, en: EngV, e: Ex, ctx: CtxV, label: Seq<char>) -> Seq<PathV>
    decreases FOLLOW_DEPTH - en.depth, e, 4int, 0int, 0int,
{
    match e {
        Ex::Assign(l, r) => match assigned_field(s, en, *l) {
            Some(m) => writes_w(
                s,
                m,
                label,
                obs(s, fns, SlotV { field: m, binds: Map::empty(), ts: Some(en.subject), depth: en.depth }, *r, ctx),
            ),
            None => if is_subject(*l, en.subject) {
                stamp(value_w(s, fns, en, *r, ctx), Some(label), Some(false))
            } else {
                seq![at(ctx, label, false)]
            },
        },
        _ => seq![at(ctx, label, false)],
    }
}

/// The paths of a value given to the walked value: `Default::default()`
/// makes every field Unknown; a struct literal writes its fields; a call
/// that takes the value along is followed; anything else changes nothing.
pub open spec fn value_w(s: Schema, fns: FnsV, en: EngV, x: Ex, ctx: CtxV) -> Seq<PathV>
    decreases FOLLOW_DEPTH - en.depth, x, 1int, 0int, 0int,
{
    let pe = peel_spec(x);
    if is_default(pe) {
        seq![at(unknown_all(s.fields@, ctx), Seq::empty(), false)]
    } else if pe is Struct {
        seq![at(struct_w(s, pe, ctx), Seq::empty(), false)]
    } else {
        match follow_w(fns, en, pe) {
            Some(d) => stamp(
                seq_w(s, fns, EngV { subject: d.subject, depth: en.depth + 1 }, d.block, 0, ctx, d.name),
                None,
                Some(false),
            ),
            None => seq![at(ctx, Seq::empty(), false)],
        }
    }
}

/// The paths of a walked function, from the empty state.
pub open spec fn run_w(s: Schema, fns: FnsV, d: DefV) -> Seq<PathV> {
    seq_w(s, fns, EngV { subject: d.subject, depth: 0 }, d.block, 0, empty_ctx(), d.name)
}


// ---------------------------------------------------------------------------
// The walker.
// ---------------------------------------------------------------------------

/// One path through a walked function.
pub struct Trail {
    pub label: String,
    pub ctx: ValueCtx,
    /// The path has returned: later statements do not apply.
    pub done: bool,
    /// The rewrite findings met on the way.
    pub rw: Vec<Finding>,
}

pub open spec fn trail_view(t: Trail) -> PathV {
    PathV { ctx: t.ctx@, label: t.label@, done: t.done, rw: fviews(t.rw@) }
}

pub open spec fn tv(v: Seq<Trail>) -> Seq<PathV> {
    v.map_values(|t: Trail| trail_view(t))
}

pub open spec fn ev(subject: &str, depth: usize) -> EngV {
    EngV { subject: subject@, depth: depth as nat }
}

pub open spec fn opt_label(o: Option<&str>) -> Option<Seq<char>> {
    match o {
        Some(s) => Some(s@),
        None => None,
    }
}

/// The items of `v` in reverse order.
fn reversed<T>(v: Vec<T>) -> (r: Vec<T>)
    ensures
        r@.len() == v@.len(),
        forall|q: int| 0 <= q < v@.len() ==> #[trigger] r@[q] == v@[v@.len() - 1 - q],
{
    let ghost orig = v@;
    let mut v = v;
    let mut r: Vec<T> = Vec::new();
    while v.len() > 0
        invariant
            v@.len() + r@.len() == orig.len(),
            v@ == orig.take(v@.len() as int),
            forall|q: int| 0 <= q < r@.len() ==> #[trigger] r@[q] == orig[orig.len() - 1 - q],
        decreases v.len(),
    {
        let ghost before = v@;
        let x = v.pop().unwrap();
        proof {
            assert(x == orig[before.len() - 1]);
            assert(v@ =~= orig.take(v@.len() as int));
        }
        r.push(x);
    }
    r
}

fn trail(ctx: ValueCtx, label: String, done: bool) -> (r: Trail)
    ensures
        trail_view(r) == at(ctx@, label@, done),
{
    let r = Trail { label, ctx, done, rw: Vec::new() };
    assert(fviews(r.rw@) =~= Seq::<FindingV>::empty());
    r
}

fn one_trail(ctx: ValueCtx, label: String, done: bool) -> (r: Vec<Trail>)
    ensures
        tv(r@) == seq![at(ctx@, label@, done)],
{
    let mut r = Vec::new();
    r.push(trail(ctx, label, done));
    assert(tv(r@) =~= seq![at(ctx@, label@, done)]);
    r
}

fn push_all(out: &mut Vec<Trail>, more: Vec<Trail>)
    ensures
        tv(final(out)@) == tv(old(out)@) + tv(more@),
{
    let mut m = more;
    let ghost a = out@;
    let ghost b = m@;
    out.append(&mut m);
    assert(tv(out@) =~= tv(a) + tv(b));
}

/// The paths with a new label and done flag, where given.
fn restamp(ps: Vec<Trail>, label: Option<&str>, done: Option<bool>) -> (r: Vec<Trail>)
    ensures
        tv(r@) == stamp(tv(ps@), opt_label(label), done),
{
    let ghost orig = ps@;
    let ghost want = stamp(tv(ps@), opt_label(label), done);
    let n = ps.len();
    let mut rev = reversed(ps);
    let mut out: Vec<Trail> = Vec::new();
    while rev.len() > 0
        invariant
            rev@.len() <= n,
            n == orig.len(),
            want == stamp(tv(orig), opt_label(label), done),
            forall|q: int| 0 <= q < rev@.len() ==> #[trigger] rev@[q] == orig[n - 1 - q],
            tv(out@) == want.take(n - rev@.len()),
            out@.len() == n - rev@.len(),
        decreases rev.len(),
    {
        let ghost k = n - rev@.len();
        let p = rev.pop().unwrap();
        proof {
            assert(p == orig[k]);
        }
        let Trail { label: l0, ctx, done: d0, rw } = p;
        let l = match label {
            Some(x) => x.to_owned(),
            None => l0,
        };
        let d = match done {
            Some(x) => x,
            None => d0,
        };
        let ghost o0 = out@;
        out.push(Trail { label: l, ctx, done: d, rw });
        proof {
            assert(tv(orig)[k] == trail_view(orig[k]));
            assert(want[k] == trail_view(out@[k]));
            assert(tv(out@) =~= tv(o0).push(trail_view(out@[k])));
            assert(want.take(k + 1) =~= want.take(k).push(want[k]));
        }
    }
    assert(want.take(n as int) =~= want);
    out
}

/// The paths, each with the findings `rw` first.
fn with_prefix(rw: &Vec<Finding>, ps: Vec<Trail>) -> (r: Vec<Trail>)
    ensures
        tv(r@) == prefix_rw(fviews(rw@), tv(ps@)),
{
    let ghost orig = ps@;
    let ghost want = prefix_rw(fviews(rw@), tv(ps@));
    let n = ps.len();
    let mut rev = reversed(ps);
    let mut out: Vec<Trail> = Vec::new();
    while rev.len() > 0
        invariant
            rev@.len() <= n,
            n == orig.len(),
            want == prefix_rw(fviews(rw@), tv(orig)),
            forall|q: int| 0 <= q < rev@.len() ==> #[trigger] rev@[q] == orig[n - 1 - q],
            tv(out@) == want.take(n - rev@.len()),
            out@.len() == n - rev@.len(),
        decreases rev.len(),
    {
        let ghost k = n - rev@.len();
        let p = rev.pop().unwrap();
        proof {
            assert(p == orig[k]);
        }
        let Trail { label, ctx, done, rw: mine } = p;
        let mut all = copy_findings(rw);
        let ghost a0 = all@;
        let mut m = mine;
        let ghost m0 = m@;
        all.append(&mut m);
        proof {
            assert(fviews(all@) =~= fviews(a0) + fviews(m0));
        }
        let ghost o0 = out@;
        out.push(Trail { label, ctx, done, rw: all });
        proof {
            assert(tv(orig)[k] == trail_view(orig[k]));
            assert(want[k] == trail_view(out@[k]));
            assert(tv(out@) =~= tv(o0).push(trail_view(out@[k])));
            assert(want.take(k + 1) =~= want.take(k).push(want[k]));
        }
    }
    assert(want.take(n as int) =~= want);
    out
}

fn unknown_all_of(s: &Schema, ctx: ValueCtx) -> (r: ValueCtx)
    ensures
        r@ == unknown_all(s.fields@, ctx@),
{
    let ghost c0 = ctx@;
    let mut c = ctx;
    let mut i: usize = 0;
    while i < s.fields.len()
        invariant
            i <= s.fields@.len(),
            c@ == unknown_all(s.fields@.take(i as int), c0),
        decreases s.fields.len() - i,
    {
        c = c.unknown(s.fields[i].name.as_str());
        proof {
            let now = s.fields@.take(i + 1);
            assert(now.drop_last() =~= s.fields@.take(i as int));
        }
        i = i + 1;
    }
    assert(s.fields@.take(s.fields@.len() as int) =~= s.fields@);
    c
}

fn struct_of(s: &Schema, pe: &Ex, ctx: ValueCtx) -> (r: ValueCtx)
    ensures
        r@ == struct_w(*s, *pe, ctx@),
{
    match pe {
        Ex::Struct(path, fields) => {
            let same = match last_seg_of(path) {
                Some(n) => str_same(n, s.name.as_str()),
                None => false,
            };
            if !same {
                return ctx;
            }
            let ghost c0 = ctx@;
            let mut c = ctx;
            let mut i: usize = 0;
            while i < fields.len()
                invariant
                    i <= fields@.len(),
                    c@ == struct_writes(*s, fields@.take(i as int), c0),
                decreases fields.len() - i,
            {
                proof {
                    let now = fields@.take(i + 1);
                    assert(now.drop_last() =~= fields@.take(i as int));
                    assert(now.last() == fields@[i as int]);
                }
                match &fields[i].0 {
                    Some(n) => if has_field_of(s, n.as_str()) {
                        let f = fact_of(&fields[i].1);
                        c = c.put(n.as_str(), f);
                    },
                    None => {},
                }
                i = i + 1;
            }
            assert(fields@.take(fields@.len() as int) =~= fields@);
            c
        },
        _ => ctx,
    }
}

fn cond_of(s: &Schema, subject: &str, depth: usize, cond: &Ex, ctx: &ValueCtx, label: &str) -> (r: (
    Vec<(ValueCtx, String)>,
    Vec<(ValueCtx, String)>,
))
    ensures
        arms_view(r.0@) == cond_w(*s, ev(subject, depth), *cond, ctx@, label@).0,
        arms_view(r.1@) == cond_w(*s, ev(subject, depth), *cond, ctx@, label@).1,
{
    let none: StrMap<String> = StrMap::new();
    proof {
        assert(bind_view(none) =~= Map::<Seq<char>, Seq<char>>::empty());
    }
    let parsed = parse_cond(cond, Some(subject), &none);
    let known = match &parsed {
        Some(c) => cond_known_of(s, c),
        None => false,
    };
    if known {
        match &parsed {
            Some(c) => {
                return split_cond(c, ctx, label);
            },
            None => {},
        }
    }
    let mut tl = String::new();
    tl.append(label);
    tl.append(".then");
    let mut el = String::new();
    el.append(label);
    el.append(".else");
    let mut th = Vec::new();
    th.push((ctx.clone(), tl));
    let mut es = Vec::new();
    es.push((ctx.clone(), el));
    proof {
        assert(arms_view(th@) =~= cond_w(*s, ev(subject, depth), *cond, ctx@, label@).0);
        assert(arms_view(es@) =~= cond_w(*s, ev(subject, depth), *cond, ctx@, label@).1);
    }
    (th, es)
}

/// The paths of the observed writes of field `m`, each scored by the rewrites.
fn writes_of(s: &Schema, m: &str, label: &str, ws: Vec<(ValueCtx, Fact)>) -> (r: Vec<Trail>)
    requires
        no_wire(ws@),
    ensures
        schema_ok(*s) ==> tv(r@) == writes_w(*s, m@, label@, ov(ws@)),
{
    let ghost orig = ws@;
    let ghost want = writes_w(*s, m@, label@, ov(ws@));
    let n = ws.len();
    let mut rev = reversed(ws);
    let mut out: Vec<Trail> = Vec::new();
    while rev.len() > 0
        invariant
            rev@.len() <= n,
            n == orig.len(),
            no_wire(orig),
            want == writes_w(*s, m@, label@, ov(orig)),
            forall|q: int| 0 <= q < rev@.len() ==> #[trigger] rev@[q] == orig[n - 1 - q],
            schema_ok(*s) ==> tv(out@) == want.take(n - rev@.len()),
            out@.len() == n - rev@.len(),
        decreases rev.len(),
    {
        let ghost k = n - rev@.len();
        let (pre, w) = rev.pop().unwrap();
        proof {
            assert((pre, w) == orig[k]);
            assert(!(orig[k].1 is Wire));
            lemma_rewrites_abs(*s, pre@, m@, w, Some(label@), 0);
        }
        let report = eval_rewrites(s, &pre, m, &w, Some(label));
        let c = pre.put(m, w);
        let t = Trail { label: label.to_owned(), ctx: c, done: false, rw: report.findings };
        let ghost o0 = out@;
        out.push(t);
        proof {
            if schema_ok(*s) {
                assert(tv(out@) =~= want.take(k + 1));
            }
        }
    }
    proof {
        if schema_ok(*s) {
            assert(want.take(n as int) =~= want);
        }
    }
    out
}


/// The statements of a block from index `i` on.
fn exec_seq(
    s: &Schema,
    fns: &Fns,
    subject: &str,
    depth: usize,
    stmts: &Vec<St>,
    i: usize,
    ctx: ValueCtx,
    label: String,
) -> (r: Vec<Trail>)
    requires
        depth <= FOLLOW_DEPTH,
    ensures
        schema_ok(*s) ==> tv(r@) == seq_w(*s, fns_view(*fns), ev(subject, depth), *stmts, i as int, ctx@, label@),
    decreases FOLLOW_DEPTH - depth, *stmts, stmts@.len() - i, 1int, 0int,
{
    if i >= stmts.len() {
        return one_trail(ctx, label, false);
    }
    proof {
        assert(decreases_to!(*stmts => stmts@[i as int]));
    }
    let heads: Vec<Trail> = match &stmts[i] {
        St::Expr(x, semi) => {
            let ret = i + 1 == stmts.len() && !*semi;
            exec_expr(s, fns, subject, depth, x, ctx, label, ret)
        },
        St::Local(p, Some(x)) => {
            let t = exec_local(s, fns, subject, depth, p, x, ctx, label);
            let mut v = Vec::new();
            v.push(t);
            proof {
                assert(tv(v@) =~= seq![trail_view(t)]);
            }
            v
        },
        _ => one_trail(ctx, label, false),
    };
    exec_cont(s, fns, subject, depth, stmts, i + 1, heads)
}

/// Each path goes on with the statements from index `j`, unless it has returned.
fn exec_cont(
    s: &Schema,
    fns: &Fns,
    subject: &str,
    depth: usize,
    stmts: &Vec<St>,
    j: usize,
    heads: Vec<Trail>,
) -> (r: Vec<Trail>)
    requires
        depth <= FOLLOW_DEPTH,
        j <= stmts@.len(),
    ensures
        schema_ok(*s) ==> tv(r@) == cont_w(*s, fns_view(*fns), ev(subject, depth), *stmts, j as int, tv(heads@), 0),
    decreases FOLLOW_DEPTH - depth, *stmts, stmts@.len() - j, 2int, 0int,
{
    let ghost en = ev(subject, depth);
    let ghost orig = heads@;
    let ghost ps = tv(heads@);
    let n = heads.len();
    let mut rev = reversed(heads);
    let mut out: Vec<Trail> = Vec::new();
    while rev.len() > 0
        invariant
            depth <= FOLLOW_DEPTH,
            j <= stmts@.len(),
            en == ev(subject, depth),
            rev@.len() <= n,
            n == orig.len(),
            ps == tv(orig),
            forall|q: int| 0 <= q < rev@.len() ==> #[trigger] rev@[q] == orig[n - 1 - q],
            schema_ok(*s) ==> tv(out@) + cont_w(*s, fns_view(*fns), en, *stmts, j as int, ps, n - rev@.len())
                == cont_w(*s, fns_view(*fns), en, *stmts, j as int, ps, 0),
        decreases rev.len(),
    {
        let ghost k = n - rev@.len();
        let p = rev.pop().unwrap();
        proof {
            assert(p == orig[k]);
            assert(ps[k] == trail_view(p));
        }
        let ghost o0 = out@;
        if p.done || j >= stmts.len() {
            out.push(p);
            proof {
                if schema_ok(*s) {
                    assert(tv(out@) =~= tv(o0).push(trail_view(p)));
                    assert(tv(out@) + cont_w(*s, fns_view(*fns), en, *stmts, j as int, ps, k + 1)
                        =~= tv(o0) + cont_w(*s, fns_view(*fns), en, *stmts, j as int, ps, k));
                }
            }
        } else {
            let Trail { label, ctx, done: _, rw } = p;
            let kids = exec_seq(s, fns, subject, depth, stmts, j, ctx, label);
            let kids2 = with_prefix(&rw, kids);
            push_all(&mut out, kids2);
            proof {
                if schema_ok(*s) {
                    assert(tv(out@) + cont_w(*s, fns_view(*fns), en, *stmts, j as int, ps, k + 1)
                        =~= tv(o0) + cont_w(*s, fns_view(*fns), en, *stmts, j as int, ps, k));
                }
            }
        }
    }
    proof {
        if schema_ok(*s) {
            assert(tv(out@) =~= tv(out@) + cont_w(*s, fns_view(*fns), en, *stmts, j as int, ps, n as int));
        }
    }
    out
}

/// `let p = x;`: a `let` of the walked value takes the value's first path.
fn exec_local(
    s: &Schema,
    fns: &Fns,
    subject: &str,
    depth: usize,
    p: &Pt,
    x: &Ex,
    ctx: ValueCtx,
    label: String,
) -> (r: Trail)
    requires
        depth <= FOLLOW_DEPTH,
    ensures
        schema_ok(*s) ==> trail_view(r) == local_w(*s, fns_view(*fns), ev(subject, depth), *p, *x, ctx@, label@),
    decreases FOLLOW_DEPTH - depth, *x, 3int, 0int, 0int,
{
    match p {
        Pt::Ident(id) => if str_same(id.as_str(), subject) {
            let ghost c0 = ctx@;
            let keep = ctx.clone();
            let ps = exec_value(s, fns, subject, depth, x, ctx);
            if ps.len() > 0 {
                let ghost v0 = ps@;
                let mut rev = reversed(ps);
                let first = rev.pop().unwrap();
                proof {
                    assert(first == v0[0]);
                }
                let Trail { label: _, ctx: c, done: _, rw } = first;
                Trail { label, ctx: c, done: false, rw }
            } else {
                trail(keep, label, false)
            }
        } else {
            trail(ctx, label, false)
        },
        _ => trail(ctx, label, false),
    }
}

/// An expression statement; `ret` when it is the function's value.
fn exec_expr(
    s: &Schema,
    fns: &Fns,
    subject: &str,
    depth: usize,
    e: &Ex,
    ctx: ValueCtx,
    label: String,
    ret: bool,
) -> (r: Vec<Trail>)
    requires
        depth <= FOLLOW_DEPTH,
    ensures
        schema_ok(*s) ==> tv(r@) == expr_w(*s, fns_view(*fns), ev(subject, depth), *e, ctx@, label@, ret),
    decreases FOLLOW_DEPTH - depth, *e, 6int, 0int, 0int,
{
    match e {
        Ex::If(_, _, _) => exec_if(s, fns, subject, depth, e, ctx, label, ret),
        Ex::Block(b) => {
            let ps = exec_seq(s, fns, subject, depth, b, 0, ctx, label);
            if ret {
                restamp(ps, None, Some(true))
            } else {
                ps
            }
        },
        Ex::Return(Some(x)) => {
            let ps = exec_value(s, fns, subject, depth, x, ctx);
            restamp(ps, Some(label.as_str()), Some(true))
        },
        Ex::Return(None) => one_trail(ctx, label, true),
        Ex::Assign(_, _) => {
            let ps = exec_assign(s, fns, subject, depth, e, ctx, label);
            if ret {
                restamp(ps, None, Some(true))
            } else {
                ps
            }
        },
        _ => {
            let ps = exec_value(s, fns, subject, depth, e, ctx);
            let d = if ret {
                Some(true)
            } else {
                None
            };
            restamp(ps, Some(label.as_str()), d)
        },
    }
}

/// An `if`: its block on each `then` state, its `else` on each `else` state.
fn exec_if(
    s: &Schema,
    fns: &Fns,
    subject: &str,
    depth: usize,
    e: &Ex,
    ctx: ValueCtx,
    label: String,
    ret: bool,
) -> (r: Vec<Trail>)
    requires
        depth <= FOLLOW_DEPTH,
    ensures
        schema_ok(*s) ==> tv(r@) == if_w(*s, fns_view(*fns), ev(subject, depth), *e, ctx@, label@, ret),
    decreases FOLLOW_DEPTH - depth, *e, 5int, 0int, 0int,
{
    let ghost en = ev(subject, depth);
    match e {
        Ex::If(c, then, els) => {
            let (th, el) = cond_of(s, subject, depth, c, &ctx, label.as_str());
            let ghost thv = arms_view(th@);
            let ghost elv = arms_view(el@);
            let mut out: Vec<Trail> = Vec::new();
            let mut k: usize = 0;
            proof {
                assert(decreases_to!(*e => *then));
            }
            while k < th.len()
                invariant
                    k <= th@.len(),
                    depth <= FOLLOW_DEPTH,
                    en == ev(subject, depth),
                    *e == Ex::If(*c, *then, *els),
                    decreases_to!(*e => *then),
                    thv == arms_view(th@),
                    schema_ok(*s) ==> tv(out@) + if_then_w(*s, fns_view(*fns), en, *e, thv, k as int)
                        == if_then_w(*s, fns_view(*fns), en, *e, thv, 0),
                decreases th.len() - k,
            {
                let sub = exec_seq(s, fns, subject, depth, then, 0, th[k].0.clone(), th[k].1.clone());
                let ghost o0 = out@;
                push_all(&mut out, sub);
                proof {
                    if schema_ok(*s) {
                        assert(tv(out@) + if_then_w(*s, fns_view(*fns), en, *e, thv, k + 1)
                            =~= tv(o0) + if_then_w(*s, fns_view(*fns), en, *e, thv, k as int));
                    }
                }
                k = k + 1;
            }
            proof {
                if schema_ok(*s) {
                    assert(tv(out@) =~= tv(out@) + if_then_w(*s, fns_view(*fns), en, *e, thv, th@.len() as int));
                }
            }
            let ghost tpart = tv(out@);
            match els {
                Some(x) => {
                    let mut k: usize = 0;
                    proof {
                        assert(decreases_to!(*e => **x));
                    }
                    while k < el.len()
                        invariant
                            k <= el@.len(),
                            depth <= FOLLOW_DEPTH,
                            en == ev(subject, depth),
                            *e == Ex::If(*c, *then, Some(*x)),
                            decreases_to!(*e => **x),
                            elv == arms_view(el@),
                            schema_ok(*s) ==> tv(out@) + if_else_w(*s, fns_view(*fns), en, *e, elv, ret, k as int)
                                == tpart + if_else_w(*s, fns_view(*fns), en, *e, elv, ret, 0),
                        decreases el.len() - k,
                    {
                        let sub = exec_expr(s, fns, subject, depth, x, el[k].0.clone(), el[k].1.clone(), ret);
                        let ghost o0 = out@;
                        push_all(&mut out, sub);
                        proof {
                            if schema_ok(*s) {
                                assert(tv(out@) + if_else_w(*s, fns_view(*fns), en, *e, elv, ret, k + 1)
                                    =~= tv(o0) + if_else_w(*s, fns_view(*fns), en, *e, elv, ret, k as int));
                            }
                        }
                        k = k + 1;
                    }
                    proof {
                        if schema_ok(*s) {
                            assert(tv(out@) =~= tv(out@) + if_else_w(*s, fns_view(*fns), en, *e, elv, ret, el@.len() as int));
                        }
                    }
                },
                None => {
                    let mut k: usize = 0;
                    while k < el.len()
                        invariant
                            k <= el@.len(),
                            elv == arms_view(el@),
                            tv(out@) == tpart + elv.take(k as int).map_values(|a: (CtxV, Seq<char>)| at(a.0, a.1, false)),
                        decreases el.len() - k,
                    {
                        let t = trail(el[k].0.clone(), el[k].1.clone(), false);
                        let ghost o0 = out@;
                        out.push(t);
                        proof {
                            assert(elv[k as int] == (el@[k as int].0@, el@[k as int].1@));
                            assert(elv.take(k + 1).map_values(|a: (CtxV, Seq<char>)| at(a.0, a.1, false))
                                =~= elv.take(k as int).map_values(|a: (CtxV, Seq<char>)| at(a.0, a.1, false)).push(at(elv[k as int].0, elv[k as int].1, false)));
                            assert(tv(out@) =~= tv(o0).push(trail_view(t)));
                        }
                        k = k + 1;
                    }
                    proof {
                        assert(elv.take(el@.len() as int) =~= elv);
                    }
                },
            }
            if ret {
                restamp(out, None, Some(true))
            } else {
                out
            }
        },
        _ => Vec::new(),
    }
}

/// `subject.field = rhs` observes the write; `subject = rhs` takes the
/// value's paths; any other assignment changes nothing.
fn exec_assign(
    s: &Schema,
    fns: &Fns,
    subject: &str,
    depth: usize,
    e: &Ex,
    ctx: ValueCtx,
    label: String,
) -> (r: Vec<Trail>)
    requires
        depth <= FOLLOW_DEPTH,
    ensures
        schema_ok(*s) ==> tv(r@) == assign_w(*s, fns_view(*fns), ev(subject, depth), *e, ctx@, label@),
    decreases FOLLOW_DEPTH - depth, *e, 4int, 0int, 0int,
{
    match e {
        Ex::Assign(l, r) => {
            let fw: Option<&str> = match &**l {
                Ex::Field(base, m) => if is_subject_of(base, subject) && has_field_of(s, m.as_str()) {
                    Some(m.as_str())
                } else {
                    None
                },
                _ => None,
            };
            match fw {
                Some(m) => {
                    let none: StrMap<String> = StrMap::new();
                    proof {
                        assert(bind_view(none) =~= Map::<Seq<char>, Seq<char>>::empty());
                    }
                    let ws = observe(s, fns, m, &none, Some(subject), depth, r, ctx);
                    writes_of(s, m, label.as_str(), ws)
                },
                None => if is_subject_of(l, subject) {
                    let ps = exec_value(s, fns, subject, depth, r, ctx);
                    restamp(ps, Some(label.as_str()), Some(false))
                } else {
                    one_trail(ctx, label, false)
                },
            }
        },
        _ => one_trail(ctx, label, false),
    }
}

/// The paths of a value given to the walked value.
fn exec_value(s: &Schema, fns: &Fns, subject: &str, depth: usize, x: &Ex, ctx: ValueCtx) -> (r: Vec<Trail>)
    requires
        depth <= FOLLOW_DEPTH,
    ensures
        schema_ok(*s) ==> tv(r@) == value_w(*s, fns_view(*fns), ev(subject, depth), *x, ctx@),
    decreases FOLLOW_DEPTH - depth, *x, 1int, 0int, 0int,
{
    let pe = peel(x);
    if is_default_of(pe) {
        let c = unknown_all_of(s, ctx);
        return one_trail(c, String::new(), false);
    }
    match pe {
        Ex::Struct(_, _) => {
            let c = struct_of(s, pe, ctx);
            return one_trail(c, String::new(), false);
        },
        _ => {},
    }
    if depth < FOLLOW_DEPTH {
        match called_name_of(pe) {
            Some(n) => match find_def_of(fns, n, true) {
                Some(d) => if call_touches_subject_of(pe, subject) {
                    let ps = exec_seq(s, fns, d.subject.as_str(), depth + 1, d.block, 0, ctx, d.name.clone());
                    return restamp(ps, None, Some(false));
                },
                None => {},
            },
            None => {},
        }
    }
    one_trail(ctx, String::new(), false)
}

/// The paths of a walked function, from the empty state.
pub fn run_def(s: &Schema, fns: &Fns, d: &FnDef) -> (r: Vec<Trail>)
    ensures
        schema_ok(*s) ==> tv(r@) == run_w(*s, fns_view(*fns), def_view(*d)),
{
    exec_seq(s, fns, d.subject.as_str(), 0, d.block, 0, ValueCtx::default(), d.name.clone())
}

} // verus!
