//! Observe one field's right-hand side: peel it, bind parameters to Schema
//! fields, split at `match` arms and conditions, and follow helper calls.
use vstd::prelude::*;
use crate::absval::{absval_view, entries_view, lemma_vals_view, vals_view, AbsVal, AbsValV};
use crate::ir::{write_spec, CtxV, Schema, ValueCtx};
use crate::observe::{fact_abs_spec, fact_entries_spec, facts_abs_spec, lemma_facts_abs, Fact};
use crate::strmap::{keys_of, lemma_sorted_set, sorted_keys, StrMap};
use crate::syntax::{
    called_name, called_name_of, is_wrapper_name, lemma_peel_within, pat_ident, pat_ident_of,
    pat_is_multiple, pat_is_multiple_of, pat_str_lits, pat_str_lits_of, path_last, path_last_of,
    peel, peel_spec, Ex, Pt, St,
};
use crate::unfold::{
    bind_view, cond_view, exclude_all, fact_of, fact_photo, opt_str, parse_cond, parse_cond_spec,
    resolve_field, resolve_spec, split_cond, split_spec, Arms, Cond, CondV, arms_view,
};
use crate::text::{str_same, views};

verus! {

/// How many calls deep Unfold follows helpers.
pub const FOLLOW_DEPTH: usize = 8;

/// A function Unfold can walk or follow.
pub struct FnDef<'a> {
    pub name: String,
    /// `self`, the parameter of the Schema's type, or else the first parameter.
    pub subject: String,
    /// The parameters other than the subject, in order.
    pub params: Vec<String>,
    /// It takes a value of the Schema's type: a receiver in the Schema's
    /// `impl`, or a parameter of that type.
    pub is_tuple: bool,
    pub block: &'a Vec<St>,
    /// The reason of an `#[except("…")]` on it.
    pub except: Option<String>,
}

/// The functions of a file by name, each name's in order of appearance.
pub type Fns<'a> = StrMap<Vec<FnDef<'a>>>;

/// The mathematical form of a function definition.
pub struct DefV {
    pub name: Seq<char>,
    pub subject: Seq<char>,
    pub params: Seq<Seq<char>>,
    pub is_tuple: bool,
    pub block: Vec<St>,
    pub except: Option<Seq<char>>,
}

pub open spec fn def_view<'a>(d: FnDef<'a>) -> DefV {
    DefV {
        name: d.name@,
        subject: d.subject@,
        params: views(d.params@),
        is_tuple: d.is_tuple,
        block: *d.block,
        except: crate::check::opt_view(d.except),
    }
}

/// The functions of a file by name, as mathematical values.
pub type FnsV = Map<Seq<char>, Seq<DefV>>;

pub open spec fn defs_view<'a>(ds: Seq<FnDef<'a>>) -> Seq<DefV> {
    ds.map_values(|d: FnDef<'a>| def_view(d))
}

pub open spec fn fns_view<'a>(f: Fns<'a>) -> FnsV {
    Map::new(|n: Seq<char>| f.get_spec(n) is Some, |n: Seq<char>| defs_view(f.get_spec(n).unwrap()@))
}

/// The Schema has a field of this name.
pub open spec fn has_field(s: Schema, f: Seq<char>) -> bool {
    exists|i: int| 0 <= i < s.fields@.len() && #[trigger] s.fields@[i].name@ == f
}

pub fn has_field_of(s: &Schema, f: &str) -> (r: bool)
    ensures
        r == has_field(*s, f@),
{
    let mut i: usize = 0;
    while i < s.fields.len()
        invariant
            i <= s.fields@.len(),
            forall|j: int| 0 <= j < i ==> #[trigger] s.fields@[j].name@ != f@,
        decreases s.fields.len() - i,
    {
        if str_same(s.fields[i].name.as_str(), f) {
            return true;
        }
        i = i + 1;
    }
    false
}

/// Every field the condition reads is a Schema field.
pub open spec fn cond_known(s: Schema, c: CondV) -> bool
    decreases c,
{
    match c {
        CondV::Eq(f, _) => has_field(s, f),
        CondV::In(f, _) => has_field(s, f),
        CondV::And(a, b) => cond_known(s, *a) && cond_known(s, *b),
        CondV::Or(a, b) => cond_known(s, *a) && cond_known(s, *b),
    }
}

pub fn cond_known_of(s: &Schema, c: &Cond) -> (r: bool)
    ensures
        r == cond_known(*s, cond_view(*c)),
    decreases c,
{
    match c {
        Cond::Eq { field, .. } => has_field_of(s, field.as_str()),
        Cond::In { field, .. } => has_field_of(s, field.as_str()),
        Cond::And(a, b) => cond_known_of(s, a) && cond_known_of(s, b),
        Cond::Or(a, b) => cond_known_of(s, a) && cond_known_of(s, b),
    }
}

/// The first of `ds` from index `i` on that is (or is not) a tuple walk.
pub open spec fn first_def(ds: Seq<DefV>, tuple: bool, i: int) -> Option<DefV>
    decreases ds.len() - i,
{
    if i < 0 || i >= ds.len() {
        None
    } else if ds[i].is_tuple == tuple {
        Some(ds[i])
    } else {
        first_def(ds, tuple, i + 1)
    }
}

/// The first function of this name that is (or is not) a tuple walk.
pub open spec fn find_def(fns: FnsV, name: Seq<char>, tuple: bool) -> Option<DefV> {
    if fns.contains_key(name) {
        first_def(fns[name], tuple, 0)
    } else {
        None
    }
}

pub fn find_def_of<'b, 'a>(fns: &'b Fns<'a>, name: &str, tuple: bool) -> (r: Option<&'b FnDef<'a>>)
    ensures
        match find_def(fns_view(*fns), name@, tuple) {
            Some(d) => r matches Some(x) && def_view(*x) == d,
            None => r is None,
        },
{
    match fns.get(name) {
        None => None,
        Some(ds) => {
            let ghost dv = defs_view(ds@);
            let mut i: usize = 0;
            while i < ds.len()
                invariant
                    i <= ds@.len(),
                    fns.get_spec(name@) == Some(*ds),
                    dv == defs_view(ds@),
                    first_def(dv, tuple, 0) == first_def(dv, tuple, i as int),
                decreases ds.len() - i,
            {
                if ds[i].is_tuple == tuple {
                    return Some(&ds[i]);
                }
                i = i + 1;
            }
            None
        },
    }
}

/// One observed write: the state before it and the value it writes.
pub type Obs = Seq<(CtxV, AbsValV)>;

/// Where a slot stands: the field it writes, the names bound to Schema
/// fields, the walked value's name (if any), and the follow depth.
pub struct SlotV {
    pub field: Seq<char>,
    pub binds: Map<Seq<char>, Seq<char>>,
    pub ts: Option<Seq<char>>,
    pub depth: nat,
}

pub open spec fn slot_view(field: &str, binds: StrMap<String>, ts: Option<&str>, depth: usize) -> SlotV {
    SlotV { field: field@, binds: bind_view(binds), ts: opt_str(ts), depth: depth as nat }
}

/// The value observed for `f`, Unknown when there is none.
pub open spec fn val_or_unknown(c: CtxV, f: Seq<char>) -> AbsValV {
    if c.values.contains_key(f) {
        c.values[f]
    } else {
        AbsValV::Unknown
    }
}

/// `recv.map(|x| body)`: the closure's parameter and body.
pub open spec fn map_closure(e: Ex) -> Option<(Seq<char>, Ex)> {
    match peel_spec(e) {
        Ex::MethodCall(_, m, args) => if m@ == "map"@ && args@.len() > 0 {
            match peel_spec(args@[0]) {
                Ex::Closure(ins, body) => if ins@.len() > 0 {
                    match ins@[0] {
                        Pt::Ident(id) => Some((id@, *body)),
                        _ => None,
                    }
                } else {
                    None
                },
                _ => None,
            }
        } else {
            None
        },
        _ => None,
    }
}

pub proof fn lemma_map_closure(e: Ex)
    ensures
        map_closure(e) matches Some((_, b)) ==> decreases_to!(e => b),
{
    lemma_peel_within(e);
    match peel_spec(e) {
        Ex::MethodCall(_, m, args) => if m@ == "map"@ && args@.len() > 0 {
            assert(decreases_to!(peel_spec(e) => args@[0]));
            lemma_peel_within(args@[0]);
        },
        _ => {},
    }
}

fn map_closure_of<'x>(e: &'x Ex) -> (r: Option<(&'x str, &'x Ex)>)
    ensures
        match map_closure(*e) {
            Some((i, b)) => r matches Some((x, y)) && x@ == i && *y == b,
            None => r is None,
        },
{
    match peel(e) {
        Ex::MethodCall(_, m, args) => if str_same(m.as_str(), "map") && args.len() > 0 {
            match peel(&args[0]) {
                Ex::Closure(ins, body) => if ins.len() > 0 {
                    match &ins[0] {
                        Pt::Ident(id) => Some((id.as_str(), &**body)),
                        _ => None,
                    }
                } else {
                    None
                },
                _ => None,
            }
        } else {
            None
        },
        _ => None,
    }
}

/// `Some(x)` / `Single(x)`: the wrapped expression.
pub open spec fn unwrap_ctor(e: Ex) -> Option<Ex> {
    match peel_spec(e) {
        Ex::Call(func, args) => if is_wrapper_name(path_last(*func)) && args@.len() > 0 {
            Some(args@[0])
        } else {
            None
        },
        _ => None,
    }
}

pub proof fn lemma_unwrap_ctor(e: Ex)
    ensures
        unwrap_ctor(e) matches Some(b) ==> decreases_to!(e => b),
{
    lemma_peel_within(e);
    match peel_spec(e) {
        Ex::Call(func, args) => if args@.len() > 0 {
            assert(decreases_to!(peel_spec(e) => args@[0]));
        },
        _ => {},
    }
}

fn unwrap_ctor_of(e: &Ex) -> (r: Option<&Ex>)
    ensures
        match unwrap_ctor(*e) {
            Some(b) => r matches Some(y) && *y == b,
            None => r is None,
        },
{
    match peel(e) {
        Ex::Call(func, args) => {
            let w = match path_last_of(func) {
                Some(n) => str_same(n, "Some") || str_same(n, "Single"),
                None => false,
            };
            if w && args.len() > 0 {
                Some(&args[0])
            } else {
                None
            }
        },
        _ => None,
    }
}

/// The statement returns: `return …` after `peel`.
pub open spec fn st_returns(st: St) -> bool {
    match st {
        St::Expr(x, _) => peel_spec(x) is Return,
        _ => false,
    }
}

/// `if cond { … return … }` with no `else`: its condition and block.
pub open spec fn if_return(st: St) -> Option<(Ex, Vec<St>)> {
    match st {
        St::Expr(x, _) => match peel_spec(x) {
            Ex::If(c, then, None) => if exists|j: int| 0 <= j < then@.len() && #[trigger] st_returns(then@[j]) {
                Some((*c, then))
            } else {
                None
            },
            _ => None,
        },
        _ => None,
    }
}

pub proof fn lemma_if_return(st: St)
    ensures
        if_return(st) matches Some((_, b)) ==> decreases_to!(st => b),
{
    match st {
        St::Expr(x, _) => {
            lemma_peel_within(x);
        },
        _ => {},
    }
}

fn if_return_of(st: &St) -> (r: Option<(&Ex, &Vec<St>)>)
    ensures
        match if_return(*st) {
            Some((c, b)) => r matches Some((x, y)) && *x == c && *y == b,
            None => r is None,
        },
{
    match st {
        St::Expr(x, _) => match peel(x) {
            Ex::If(c, then, None) => {
                let mut j: usize = 0;
                while j < then.len()
                    invariant
                        j <= then@.len(),
                        forall|k: int| 0 <= k < j ==> !#[trigger] st_returns(then@[k]),
                        match *st {
                            St::Expr(y, _) => peel_spec(y) == Ex::If(*c, *then, None),
                            _ => false,
                        },
                    decreases then.len() - j,
                {
                    let ret = match &then[j] {
                        St::Expr(y, _) => match peel(y) {
                            Ex::Return(_) => true,
                            _ => false,
                        },
                        _ => false,
                    };
                    if ret {
                        assert(st_returns(then@[j as int]));
                        return Some((&**c, then));
                    }
                    j = j + 1;
                }
                None
            },
            _ => None,
        },
        _ => None,
    }
}

/// The literals of the arms, in order: the cases the catch-all arm excludes.
pub open spec fn covered(arms: Seq<(Pt, Ex)>) -> Seq<Seq<char>>
    decreases arms.len(),
{
    if arms.len() == 0 {
        Seq::empty()
    } else {
        covered(arms.drop_last()) + match pat_str_lits(arms.last().0) {
            Some(l) => l,
            None => Seq::empty(),
        }
    }
}

/// The field a `match` splits: its scrutinee's field, else the slot's.
pub open spec fn match_field(sl: SlotV, pe: Ex) -> Seq<char> {
    match pe {
        Ex::Match(x, _) => match resolve_spec(*x, sl.ts, sl.binds) {
            Some(f) => f,
            None => sl.field,
        },
        _ => sl.field,
    }
}

pub open spec fn arm_count(pe: Ex) -> int {
    match pe {
        Ex::Match(_, arms) => arms@.len() as int,
        _ => 0,
    }
}

/// A condition that cannot be read keeps one state on each side.
pub open spec fn unsplit(ctx: CtxV) -> (Arms, Arms) {
    (seq![(ctx, "then"@)], seq![(ctx, "else"@)])
}

/// Split a slot's state on a condition.
pub open spec fn slot_split(s: Schema, sl: SlotV, cond: Ex, ctx: CtxV) -> (Arms, Arms) {
    match parse_cond_spec(cond, sl.ts, sl.binds) {
        Some(c) => if cond_known(s, c) {
            split_spec(c, ctx, "slot"@)
        } else {
            unsplit(ctx)
        },
        None => unsplit(ctx),
    }
}

/// The helper a call follows into, within the follow depth.
pub open spec fn follow_def(fns: FnsV, sl: SlotV, pe: Ex) -> Option<DefV> {
    if sl.depth >= FOLLOW_DEPTH {
        None
    } else {
        match called_name(pe) {
            Some(n) => find_def(fns, n, false),
            None => None,
        }
    }
}

/// Bind each parameter, in order, to the field its argument names.
pub open spec fn bind_args(ps: Seq<Seq<char>>, args: Seq<Ex>, sl: SlotV, acc: Map<Seq<char>, Seq<char>>, j: int) -> Map<Seq<char>, Seq<char>>
    decreases ps.len() - j,
{
    if j < 0 || j >= ps.len() || j >= args.len() {
        acc
    } else {
        bind_args(ps, args, sl, match resolve_spec(args[j], sl.ts, sl.binds) {
            Some(f) => acc.insert(ps[j], f),
            None => acc,
        }, j + 1)
    }
}

/// The names a followed helper starts with: for a method, its subject is the
/// slot's field; each parameter whose argument names a field is that field.
pub open spec fn bind_call(d: DefV, pe: Ex, sl: SlotV) -> Map<Seq<char>, Seq<char>> {
    match peel_spec(pe) {
        Ex::MethodCall(_, _, args) => bind_args(d.params, args@, sl, Map::empty().insert(d.subject, sl.field), 0),
        Ex::Call(_, args) => bind_args(d.params, args@, sl, Map::empty(), 0),
        _ => Map::empty(),
    }
}

/// What a write's right-hand side reads as, state by state.
pub open spec fn obs(s: Schema, fns: FnsV, sl: SlotV, e: Ex, ctx: CtxV) -> Obs
    decreases FOLLOW_DEPTH - sl.depth, e, 9int, 0int, 0int,
{
    let pe = peel_spec(e);
    proof {
        lemma_peel_within(e);
        lemma_map_closure(pe);
        lemma_unwrap_ctor(pe);
    }
    match map_closure(pe) {
        Some((id, body)) => obs(s, fns, SlotV { binds: sl.binds.insert(id, sl.field), ..sl }, body, ctx),
        None => match unwrap_ctor(pe) {
            Some(inner) => obs(s, fns, sl, inner, ctx),
            None => match pe {
                Ex::Match(_, _) => obs_match(s, fns, sl, pe, ctx),
                Ex::If(_, _, _) => obs_if(s, fns, sl, pe, ctx),
                Ex::Return(Some(x)) => obs(s, fns, sl, *x, ctx),
                Ex::Return(None) => seq![(ctx, AbsValV::Unknown)],
                Ex::Block(b) => obs_stmts(s, fns, sl, b, 0, ctx),
                _ => match follow_def(fns, sl, pe) {
                    Some(d) => obs_stmts(
                        s,
                        fns,
                        SlotV { field: sl.field, binds: bind_call(d, pe, sl), ts: None, depth: sl.depth + 1 },
                        d.block,
                        0,
                        ctx,
                    ),
                    None => match resolve_spec(pe, sl.ts, sl.binds) {
                        Some(f) => seq![(ctx, val_or_unknown(ctx, f))],
                        None => seq![(ctx, fact_photo(pe))],
                    },
                },
            },
        },
    }
}

/// A `match`: each arm of literals writes that literal to the split field;
/// the catch-all arm binds its name to the field with the literals excluded.
pub open spec fn obs_match(s: Schema, fns: FnsV, sl: SlotV, pe: Ex, ctx: CtxV) -> Obs
    decreases FOLLOW_DEPTH - sl.depth, pe, 8int, 0int, 0int,
{
    let r = match_arms(s, fns, sl, pe, ctx, 0);
    if r.len() == 0 {
        seq![(ctx, AbsValV::Unknown)]
    } else {
        r
    }
}

/// The arms from index `k` on.
pub open spec fn match_arms(s: Schema, fns: FnsV, sl: SlotV, pe: Ex, ctx: CtxV, k: int) -> Obs
    decreases FOLLOW_DEPTH - sl.depth, pe, 7int, arm_count(pe) - k, 0int,
{
    match pe {
        Ex::Match(_, arms) => if k < 0 || k >= arms@.len() {
            Seq::empty()
        } else {
            let f = match_field(sl, pe);
            let pat = arms@[k].0;
            proof {
                assert(decreases_to!(pe => arms@[k].1));
            }
            (if pat_is_multiple(pat) {
                seq![(ctx, AbsValV::Unknown)]
            } else {
                match pat_str_lits(pat) {
                    Some(ls) => lit_arms(s, fns, sl, pe, ctx, k, ls, 0),
                    None => match pat_ident(pat) {
                        Some(id) => obs(
                            s,
                            fns,
                            SlotV { binds: sl.binds.insert(id, f), ..sl },
                            arms@[k].1,
                            exclude_all(ctx, f, covered(arms@)),
                        ),
                        None => seq![(ctx, AbsValV::Unknown)],
                    },
                }
            }) + match_arms(s, fns, sl, pe, ctx, k + 1)
        },
        _ => Seq::empty(),
    }
}

/// Arm `k`'s body once per literal from index `j` on, the literal written.
pub open spec fn lit_arms(s: Schema, fns: FnsV, sl: SlotV, pe: Ex, ctx: CtxV, k: int, ls: Seq<Seq<char>>, j: int) -> Obs
    decreases FOLLOW_DEPTH - sl.depth, pe, 6int, arm_count(pe) - k, ls.len() - j,
{
    match pe {
        Ex::Match(_, arms) => if 0 <= k < arms@.len() && 0 <= j < ls.len() {
            proof {
                assert(decreases_to!(pe => arms@[k].1));
            }
            obs(s, fns, sl, arms@[k].1, write_spec(ctx, match_field(sl, pe), AbsValV::Known(ls[j])))
                + lit_arms(s, fns, sl, pe, ctx, k, ls, j + 1)
        } else {
            Seq::empty()
        },
        _ => Seq::empty(),
    }
}

/// An `if`: its block on each `then` state; its `else` on each `else`
/// state, or Unknown there when it has none.
pub open spec fn obs_if(s: Schema, fns: FnsV, sl: SlotV, pe: Ex, ctx: CtxV) -> Obs
    decreases FOLLOW_DEPTH - sl.depth, pe, 8int, 0int, 0int,
{
    match pe {
        Ex::If(c, _, els) => {
            let (th, el) = slot_split(s, sl, *c, ctx);
            if_thens(s, fns, sl, pe, th, 0) + match els {
                Some(_) => if_elses(s, fns, sl, pe, el, 0),
                None => el.map_values(|a: (CtxV, Seq<char>)| (a.0, AbsValV::Unknown)),
            }
        },
        _ => Seq::empty(),
    }
}

pub open spec fn if_thens(s: Schema, fns: FnsV, sl: SlotV, pe: Ex, arms: Arms, k: int) -> Obs
    decreases FOLLOW_DEPTH - sl.depth, pe, 7int, arms.len() - k, 0int,
{
    match pe {
        Ex::If(_, then, _) => if 0 <= k < arms.len() {
            obs_stmts(s, fns, sl, then, 0, arms[k].0) + if_thens(s, fns, sl, pe, arms, k + 1)
        } else {
            Seq::empty()
        },
        _ => Seq::empty(),
    }
}

pub open spec fn if_elses(s: Schema, fns: FnsV, sl: SlotV, pe: Ex, arms: Arms, k: int) -> Obs
    decreases FOLLOW_DEPTH - sl.depth, pe, 7int, arms.len() - k, 0int,
{
    match pe {
        Ex::If(_, _, Some(x)) => if 0 <= k < arms.len() {
            obs(s, fns, sl, *x, arms[k].0) + if_elses(s, fns, sl, pe, arms, k + 1)
        } else {
            Seq::empty()
        },
        _ => Seq::empty(),
    }
}

/// A block from statement `i` on: a leading `if … { return … }` splits;
/// `let`s are passed over; the first other statement is the value.
pub open spec fn obs_stmts(s: Schema, fns: FnsV, sl: SlotV, stmts: Vec<St>, i: int, ctx: CtxV) -> Obs
    decreases FOLLOW_DEPTH - sl.depth, stmts, stmts@.len() - i, 1int, 0int,
{
    if i < 0 || i >= stmts@.len() {
        seq![(ctx, AbsValV::Unknown)]
    } else {
        match if_return(stmts@[i]) {
            Some((c, _)) => {
                let (th, el) = slot_split(s, sl, c, ctx);
                stmt_thens(s, fns, sl, stmts, i, th, 0) + stmt_elses(s, fns, sl, stmts, i, el, 0)
            },
            None => if i + 1 < stmts@.len() && stmts@[i] is Local {
                obs_stmts(s, fns, sl, stmts, i + 1, ctx)
            } else {
                proof {
                    assert(decreases_to!(stmts => stmts@[i]));
                }
                match stmts@[i] {
                    St::Expr(x, _) => obs(s, fns, sl, x, ctx),
                    _ => seq![(ctx, AbsValV::Unknown)],
                }
            },
        }
    }
}

pub open spec fn stmt_thens(s: Schema, fns: FnsV, sl: SlotV, stmts: Vec<St>, i: int, arms: Arms, k: int) -> Obs
    decreases FOLLOW_DEPTH - sl.depth, stmts, stmts@.len() - i, 0int, arms.len() - k,
{
    if 0 <= i < stmts@.len() && 0 <= k < arms.len() {
        proof {
            assert(decreases_to!(stmts => stmts@[i]));
            lemma_if_return(stmts@[i]);
        }
        match if_return(stmts@[i]) {
            Some((_, b)) => obs_stmts(s, fns, sl, b, 0, arms[k].0) + stmt_thens(s, fns, sl, stmts, i, arms, k + 1),
            None => Seq::empty(),
        }
    } else {
        Seq::empty()
    }
}

pub open spec fn stmt_elses(s: Schema, fns: FnsV, sl: SlotV, stmts: Vec<St>, i: int, arms: Arms, k: int) -> Obs
    decreases FOLLOW_DEPTH - sl.depth, stmts, stmts@.len() - i, 0int, arms.len() - k,
{
    if 0 <= i < stmts@.len() && 0 <= k < arms.len() {
        obs_stmts(s, fns, sl, stmts, i + 1, arms[k].0) + stmt_elses(s, fns, sl, stmts, i, arms, k + 1)
    } else {
        Seq::empty()
    }
}


// ---------------------------------------------------------------------------
// The observer.
// ---------------------------------------------------------------------------

/// The states and values of a list of observed writes.
pub open spec fn ov(v: Seq<(ValueCtx, Fact)>) -> Obs {
    v.map_values(|t: (ValueCtx, Fact)| (t.0@, fact_abs_spec(t.1)))
}

/// No observed write is wire geometry.
pub open spec fn no_wire(v: Seq<(ValueCtx, Fact)>) -> bool {
    forall|i: int| 0 <= i < v.len() ==> !(#[trigger] v[i].1 is Wire)
}

fn extend(out: &mut Vec<(ValueCtx, Fact)>, more: Vec<(ValueCtx, Fact)>)
    requires
        no_wire(old(out)@),
        no_wire(more@),
    ensures
        ov(final(out)@) == ov(old(out)@) + ov(more@),
        no_wire(final(out)@),
{
    let mut m = more;
    let ghost a = out@;
    let ghost b = m@;
    out.append(&mut m);
    proof {
        assert(ov(out@) =~= ov(a) + ov(b));
        assert forall|i: int| 0 <= i < out@.len() implies !(#[trigger] out@[i].1 is Wire) by {
            if i >= a.len() {
                assert(out@[i] == b[i - a.len()]);
            }
        }
    }
}

fn one(ctx: ValueCtx, f: Fact) -> (r: Vec<(ValueCtx, Fact)>)
    requires
        !(f is Wire),
    ensures
        ov(r@) == seq![(ctx@, fact_abs_spec(f))],
        no_wire(r@),
{
    let mut r = Vec::new();
    r.push((ctx, f));
    assert(ov(r@) =~= seq![(ctx@, fact_abs_spec(f))]);
    r
}

proof fn lemma_fact_entries_same(a: Seq<(String, Fact)>, b: Seq<(String, AbsVal)>)
    requires
        a.len() == b.len(),
        forall|j: int| 0 <= j < a.len() ==> #[trigger] a[j].0@ == b[j].0@,
        forall|j: int| 0 <= j < a.len() ==> fact_abs_spec(#[trigger] a[j].1) == absval_view(b[j].1),
    ensures
        fact_entries_spec(a) == entries_view(b),
    decreases a.len(),
{
    if a.len() > 0 {
        let ra = a.subrange(1, a.len() as int);
        let rb = b.subrange(1, b.len() as int);
        assert forall|j: int| 0 <= j < ra.len() implies #[trigger] ra[j].0@ == rb[j].0@ by {
            assert(ra[j] == a[j + 1]);
            assert(rb[j] == b[j + 1]);
        }
        assert forall|j: int| 0 <= j < ra.len() implies fact_abs_spec(#[trigger] ra[j].1) == absval_view(rb[j].1) by {
            assert(ra[j] == a[j + 1]);
            assert(rb[j] == b[j + 1]);
        }
        lemma_fact_entries_same(ra, rb);
        assert(a[0].0@ == b[0].0@);
    }
}

/// The fact that writes back a stored value.
fn abs_fact(v: &AbsVal) -> (r: Fact)
    ensures
        fact_abs_spec(r) == absval_view(*v),
        !(r is Wire),
    decreases v, 0nat,
{
    match v {
        AbsVal::Known(s) => Fact::Lit(s.clone()),
        AbsVal::OneOf(set) => {
            let ms = set.members_vec();
            proof {
                lemma_sorted_set(set.members(), views(ms@));
            }
            Fact::OneOf(ms)
        },
        AbsVal::Array(xs) => {
            proof {
                assert forall|j: int| 0 <= j < xs.len() implies #[trigger] decreases_to!(*v => xs@[j]) by {
                    assert(decreases_to!(*xs => xs@[j]));
                }
            }
            let mut out: Vec<Fact> = Vec::new();
            let mut i: usize = 0;
            while i < xs.len()
                invariant
                    forall|j: int| 0 <= j < xs.len() ==> #[trigger] decreases_to!(*v => xs@[j]),
                    i <= xs@.len(),
                    out@.len() == i,
                    forall|j: int| 0 <= j < i ==> fact_abs_spec(#[trigger] out@[j]) == absval_view(xs@[j]),
                decreases xs.len() - i,
            {
                let c = abs_fact(&xs[i]);
                out.push(c);
                i = i + 1;
            }
            proof {
                lemma_facts_abs(out@);
                lemma_vals_view(xs@);
                assert(facts_abs_spec(out@) =~= vals_view(xs@));
            }
            Fact::Array(out)
        },
        AbsVal::Record(m) => {
            let es = m.entries();
            proof {
                m.lemma_pairs_decrease();
                assert(decreases_to!(*v => *m));
                assert forall|j: int| 0 <= j < es@.len() implies #[trigger] decreases_to!(*v => es@[j].1) by {
                    assert(decreases_to!(es@ => es@[j]));
                }
            }
            let mut out: Vec<(String, Fact)> = Vec::new();
            let mut i: usize = 0;
            while i < es.len()
                invariant
                    forall|j: int| 0 <= j < es@.len() ==> #[trigger] decreases_to!(*v => es@[j].1),
                    i <= es@.len(),
                    es@ == m.pairs(),
                    sorted_keys(keys_of(es@)),
                    out@.len() == i,
                    forall|j: int| 0 <= j < i ==> #[trigger] out@[j].0 == es@[j].0,
                    forall|j: int| 0 <= j < i ==> fact_abs_spec(#[trigger] out@[j].1) == absval_view(es@[j].1),
                decreases es.len() - i,
            {
                let k = es[i].0.clone();
                let x = abs_fact(&es[i].1);
                out.push((k, x));
                i = i + 1;
            }
            proof {
                assert(keys_of(out@) =~= keys_of(es@));
                lemma_fact_entries_same(out@, es@);
            }
            Fact::Record(StrMap::from_sorted(out))
        },
        AbsVal::Absent => Fact::Absent,
        AbsVal::Unknown => Fact::Unknown,
    }
}

/// The fact that writes back what the state holds for `f`.
fn fact_of_ctx(ctx: &ValueCtx, f: &str) -> (r: Fact)
    ensures
        fact_abs_spec(r) == val_or_unknown(ctx@, f@),
        !(r is Wire),
{
    match crate::check::val_at(ctx, f) {
        Some(v) => abs_fact(v),
        None => Fact::Unknown,
    }
}

/// `binds` with `k` bound to `v`.
fn rebind(binds: &StrMap<String>, k: &str, v: &str) -> (r: StrMap<String>)
    ensures
        bind_view(r) == bind_view(*binds).insert(k@, v@),
{
    let mut b = binds.copied_strings();
    let ghost b0 = b;
    b.insert(k.to_owned(), v.to_owned());
    proof {
        assert forall|q: Seq<char>| q != k@ implies #[trigger] b.get_spec(q) == b0.get_spec(q) by {}
        assert(bind_view(b) =~= bind_view(*binds).insert(k@, v@));
    }
    b
}

/// `binds` with each parameter bound, in order, to the field its argument names.
fn bind_args_of(
    ps: &Vec<String>,
    args: &Vec<Ex>,
    field: &str,
    binds: &StrMap<String>,
    ts: Option<&str>,
    depth: usize,
    acc: StrMap<String>,
) -> (r: StrMap<String>)
    ensures
        bind_view(r) == bind_args(views(ps@), args@, slot_view(field, *binds, ts, depth), bind_view(acc), 0),
{
    let ghost sl = slot_view(field, *binds, ts, depth);
    let ghost a0 = bind_view(acc);
    let mut acc = acc;
    let mut j: usize = 0;
    while j < ps.len() && j < args.len()
        invariant
            j <= ps@.len(),
            bind_args(views(ps@), args@, sl, bind_view(acc), j as int) == bind_args(views(ps@), args@, sl, a0, 0),
            sl == slot_view(field, *binds, ts, depth),
        decreases ps.len() - j,
    {
        match resolve_field(&args[j], ts, binds) {
            Some(f) => {
                let ghost b0 = acc;
                acc.insert(ps[j].clone(), f);
                proof {
                    assert forall|q: Seq<char>| q != ps@[j as int]@ implies #[trigger] acc.get_spec(q) == b0.get_spec(q) by {}
                    assert(bind_view(acc) =~= bind_view(b0).insert(ps@[j as int]@, f@));
                }
            },
            None => {},
        }
        j = j + 1;
    }
    acc
}

fn bind_call_of(d: &FnDef, pe: &Ex, field: &str, binds: &StrMap<String>, ts: Option<&str>, depth: usize) -> (r: StrMap<String>)
    ensures
        bind_view(r) == bind_call(def_view(*d), *pe, slot_view(field, *binds, ts, depth)),
{
    match peel(pe) {
        Ex::MethodCall(_, _, args) => {
            let mut acc: StrMap<String> = StrMap::new();
            acc.insert(d.subject.clone(), field.to_owned());
            proof {
                assert(bind_view(acc) =~= Map::<Seq<char>, Seq<char>>::empty().insert(d.subject@, field@));
            }
            bind_args_of(&d.params, args, field, binds, ts, depth, acc)
        },
        Ex::Call(_, args) => {
            let acc: StrMap<String> = StrMap::new();
            proof {
                assert(bind_view(acc) =~= Map::<Seq<char>, Seq<char>>::empty());
            }
            bind_args_of(&d.params, args, field, binds, ts, depth, acc)
        },
        _ => {
            let acc: StrMap<String> = StrMap::new();
            proof {
                assert(bind_view(acc) =~= Map::<Seq<char>, Seq<char>>::empty());
            }
            acc
        },
    }
}

/// The state with each of `ls` excluded for `f`, in order.
pub fn exclude_each(ctx: ValueCtx, f: &str, ls: &Vec<String>) -> (r: ValueCtx)
    ensures
        r@ == exclude_all(ctx@, f@, views(ls@)),
{
    let ghost c0 = ctx@;
    let mut e = ctx;
    let mut i: usize = 0;
    while i < ls.len()
        invariant
            i <= ls@.len(),
            e@ == exclude_all(c0, f@, views(ls@).take(i as int)),
        decreases ls.len() - i,
    {
        e = e.exclude(f, ls[i].as_str());
        proof {
            let now = views(ls@).take(i + 1);
            assert(now.drop_last() =~= views(ls@).take(i as int));
            assert(now.last() == ls@[i as int]@);
        }
        i = i + 1;
    }
    assert(views(ls@).take(ls@.len() as int) =~= views(ls@));
    e
}

fn covered_of(arms: &Vec<(Pt, Ex)>) -> (r: Vec<String>)
    ensures
        views(r@) == covered(arms@),
{
    let mut out: Vec<String> = Vec::new();
    let mut k: usize = 0;
    while k < arms.len()
        invariant
            k <= arms@.len(),
            views(out@) == covered(arms@.take(k as int)),
        decreases arms.len() - k,
    {
        proof {
            let now = arms@.take(k + 1);
            assert(now.drop_last() =~= arms@.take(k as int));
            assert(now.last() == arms@[k as int]);
        }
        match pat_str_lits_of(&arms[k].0) {
            Some(ls) => {
                let ghost before = out@;
                let mut m = ls;
                let ghost lv = m@;
                out.append(&mut m);
                proof {
                    assert(views(out@) =~= views(before) + views(lv));
                }
            },
            None => {
                proof {
                    assert(covered(arms@.take(k + 1)) =~= covered(arms@.take(k as int)));
                }
            },
        }
        k = k + 1;
    }
    assert(arms@.take(arms@.len() as int) =~= arms@);
    out
}

fn unsplit_of(ctx: &ValueCtx) -> (r: (Vec<(ValueCtx, String)>, Vec<(ValueCtx, String)>))
    ensures
        arms_view(r.0@) == unsplit(ctx@).0,
        arms_view(r.1@) == unsplit(ctx@).1,
{
    let mut th = Vec::new();
    th.push((ctx.clone(), "then".to_owned()));
    let mut el = Vec::new();
    el.push((ctx.clone(), "else".to_owned()));
    assert(arms_view(th@) =~= unsplit(ctx@).0);
    assert(arms_view(el@) =~= unsplit(ctx@).1);
    (th, el)
}

fn slot_split_of(
    s: &Schema,
    field: &str,
    binds: &StrMap<String>,
    ts: Option<&str>,
    depth: usize,
    cond: &Ex,
    ctx: &ValueCtx,
) -> (r: (Vec<(ValueCtx, String)>, Vec<(ValueCtx, String)>))
    ensures
        arms_view(r.0@) == slot_split(*s, slot_view(field, *binds, ts, depth), *cond, ctx@).0,
        arms_view(r.1@) == slot_split(*s, slot_view(field, *binds, ts, depth), *cond, ctx@).1,
{
    match parse_cond(cond, ts, binds) {
        Some(c) => if cond_known_of(s, &c) {
            split_cond(&c, ctx, "slot")
        } else {
            unsplit_of(ctx)
        },
        None => unsplit_of(ctx),
    }
}


/// What a write's right-hand side reads as, state by state.
pub fn observe(
    s: &Schema,
    fns: &Fns,
    field: &str,
    binds: &StrMap<String>,
    ts: Option<&str>,
    depth: usize,
    e: &Ex,
    ctx: ValueCtx,
) -> (r: Vec<(ValueCtx, Fact)>)
    requires
        depth <= FOLLOW_DEPTH,
    ensures
        ov(r@) == obs(*s, fns_view(*fns), slot_view(field, *binds, ts, depth), *e, ctx@),
        no_wire(r@),
    decreases FOLLOW_DEPTH - depth, *e, 9int, 0int, 0int,
{
    let ghost sl = slot_view(field, *binds, ts, depth);
    let pe = peel(e);
    proof {
        lemma_peel_within(*e);
        lemma_map_closure(*pe);
        lemma_unwrap_ctor(*pe);
    }
    match map_closure_of(pe) {
        Some((id, body)) => {
            let b2 = rebind(binds, id, field);
            return observe(s, fns, field, &b2, ts, depth, body, ctx);
        },
        None => {},
    }
    match unwrap_ctor_of(pe) {
        Some(inner) => {
            return observe(s, fns, field, binds, ts, depth, inner, ctx);
        },
        None => {},
    }
    match pe {
        Ex::Match(_, _) => observe_match(s, fns, field, binds, ts, depth, pe, ctx),
        Ex::If(_, _, _) => observe_if(s, fns, field, binds, ts, depth, pe, ctx),
        Ex::Return(Some(x)) => observe(s, fns, field, binds, ts, depth, x, ctx),
        Ex::Return(None) => one(ctx, Fact::Unknown),
        Ex::Block(b) => observe_stmts(s, fns, field, binds, ts, depth, b, 0, ctx),
        _ => {
            if depth < FOLLOW_DEPTH {
                match called_name_of(pe) {
                    Some(n) => match find_def_of(fns, n, false) {
                        Some(d) => {
                            let b2 = bind_call_of(d, pe, field, binds, ts, depth);
                            return observe_stmts(s, fns, field, &b2, None, depth + 1, d.block, 0, ctx);
                        },
                        None => {},
                    },
                    None => {},
                }
            }
            match resolve_field(pe, ts, binds) {
                Some(f) => {
                    let fact = fact_of_ctx(&ctx, f.as_str());
                    one(ctx, fact)
                },
                None => {
                    let fact = fact_of(pe);
                    one(ctx, fact)
                },
            }
        },
    }
}

fn observe_match(
    s: &Schema,
    fns: &Fns,
    field: &str,
    binds: &StrMap<String>,
    ts: Option<&str>,
    depth: usize,
    pe: &Ex,
    ctx: ValueCtx,
) -> (r: Vec<(ValueCtx, Fact)>)
    requires
        depth <= FOLLOW_DEPTH,
    ensures
        ov(r@) == obs_match(*s, fns_view(*fns), slot_view(field, *binds, ts, depth), *pe, ctx@),
        no_wire(r@),
    decreases FOLLOW_DEPTH - depth, *pe, 8int, 0int, 0int,
{
    let ghost sl = slot_view(field, *binds, ts, depth);
    match pe {
        Ex::Match(scrut, arms) => {
            let f: String = match resolve_field(scrut, ts, binds) {
                Some(f) => f,
                None => field.to_owned(),
            };
            let cov = covered_of(arms);
            let mut out: Vec<(ValueCtx, Fact)> = Vec::new();
            let mut k: usize = 0;
            while k < arms.len()
                invariant
                    k <= arms@.len(),
                    depth <= FOLLOW_DEPTH,
                    sl == slot_view(field, *binds, ts, depth),
                    *pe == Ex::Match(*scrut, *arms),
                    f@ == match_field(sl, *pe),
                    views(cov@) == covered(arms@),
                    no_wire(out@),
                    ov(out@) + match_arms(*s, fns_view(*fns), sl, *pe, ctx@, k as int) == match_arms(*s, fns_view(*fns), sl, *pe, ctx@, 0),
                decreases arms.len() - k,
            {
                let pat = &arms[k].0;
                let body = &arms[k].1;
                proof {
                    assert(decreases_to!(*pe => arms@[k as int].1));
                }
                let part: Vec<(ValueCtx, Fact)> = if pat_is_multiple_of(pat) {
                    one(ctx.clone(), Fact::Unknown)
                } else {
                    match pat_str_lits_of(pat) {
                        Some(ls) => {
                            let ghost lv = views(ls@);
                            let mut acc: Vec<(ValueCtx, Fact)> = Vec::new();
                            let mut j: usize = 0;
                            while j < ls.len()
                                invariant
                                    j <= ls@.len(),
                                    lv == views(ls@),
                                    depth <= FOLLOW_DEPTH,
                                    sl == slot_view(field, *binds, ts, depth),
                                    *pe == Ex::Match(*scrut, *arms),
                                    k < arms@.len(),
                                    *body == arms@[k as int].1,
                                    decreases_to!(*pe => arms@[k as int].1),
                                    f@ == match_field(sl, *pe),
                                    no_wire(acc@),
                                    ov(acc@) + lit_arms(*s, fns_view(*fns), sl, *pe, ctx@, k as int, lv, j as int)
                                        == lit_arms(*s, fns_view(*fns), sl, *pe, ctx@, k as int, lv, 0),
                                decreases ls.len() - j,
                            {
                                let c = ctx.clone().lit(f.as_str(), ls[j].as_str());
                                let sub = observe(s, fns, field, binds, ts, depth, body, c);
                                let ghost a0 = acc@;
                                extend(&mut acc, sub);
                                proof {
                                    assert(ov(acc@) + lit_arms(*s, fns_view(*fns), sl, *pe, ctx@, k as int, lv, j + 1)
                                        =~= ov(a0) + lit_arms(*s, fns_view(*fns), sl, *pe, ctx@, k as int, lv, j as int));
                                }
                                j = j + 1;
                            }
                            proof {
                                assert(ov(acc@) =~= ov(acc@) + lit_arms(*s, fns_view(*fns), sl, *pe, ctx@, k as int, lv, ls@.len() as int));
                            }
                            acc
                        },
                        None => match pat_ident_of(pat) {
                            Some(id) => {
                                let b2 = rebind(binds, id, f.as_str());
                                let pre = exclude_each(ctx.clone(), f.as_str(), &cov);
                                observe(s, fns, field, &b2, ts, depth, body, pre)
                            },
                            None => one(ctx.clone(), Fact::Unknown),
                        },
                    }
                };
                let ghost o0 = out@;
                extend(&mut out, part);
                proof {
                    assert(ov(out@) + match_arms(*s, fns_view(*fns), sl, *pe, ctx@, k + 1)
                        =~= ov(o0) + match_arms(*s, fns_view(*fns), sl, *pe, ctx@, k as int));
                }
                k = k + 1;
            }
            proof {
                assert(ov(out@) =~= ov(out@) + match_arms(*s, fns_view(*fns), sl, *pe, ctx@, arms@.len() as int));
            }
            if out.len() == 0 {
                one(ctx, Fact::Unknown)
            } else {
                out
            }
        },
        _ => one(ctx, Fact::Unknown),
    }
}

fn observe_if(
    s: &Schema,
    fns: &Fns,
    field: &str,
    binds: &StrMap<String>,
    ts: Option<&str>,
    depth: usize,
    pe: &Ex,
    ctx: ValueCtx,
) -> (r: Vec<(ValueCtx, Fact)>)
    requires
        depth <= FOLLOW_DEPTH,
    ensures
        ov(r@) == obs_if(*s, fns_view(*fns), slot_view(field, *binds, ts, depth), *pe, ctx@),
        no_wire(r@),
    decreases FOLLOW_DEPTH - depth, *pe, 8int, 0int, 0int,
{
    let ghost sl = slot_view(field, *binds, ts, depth);
    match pe {
        Ex::If(c, then, els) => {
            let (th, el) = slot_split_of(s, field, binds, ts, depth, c, &ctx);
            let ghost thv = arms_view(th@);
            let ghost elv = arms_view(el@);
            let mut out: Vec<(ValueCtx, Fact)> = Vec::new();
            let mut k: usize = 0;
            while k < th.len()
                invariant
                    k <= th@.len(),
                    depth <= FOLLOW_DEPTH,
                    sl == slot_view(field, *binds, ts, depth),
                    *pe == Ex::If(*c, *then, *els),
                    thv == arms_view(th@),
                    no_wire(out@),
                    ov(out@) + if_thens(*s, fns_view(*fns), sl, *pe, thv, k as int) == if_thens(*s, fns_view(*fns), sl, *pe, thv, 0),
                decreases th.len() - k,
            {
                let sub = observe_stmts(s, fns, field, binds, ts, depth, then, 0, th[k].0.clone());
                let ghost o0 = out@;
                extend(&mut out, sub);
                proof {
                    assert(ov(out@) + if_thens(*s, fns_view(*fns), sl, *pe, thv, k + 1)
                        =~= ov(o0) + if_thens(*s, fns_view(*fns), sl, *pe, thv, k as int));
                }
                k = k + 1;
            }
            proof {
                assert(ov(out@) =~= ov(out@) + if_thens(*s, fns_view(*fns), sl, *pe, thv, th@.len() as int));
            }
            let ghost tpart = ov(out@);
            match els {
                Some(x) => {
                    let mut k: usize = 0;
                    while k < el.len()
                        invariant
                            k <= el@.len(),
                            depth <= FOLLOW_DEPTH,
                            sl == slot_view(field, *binds, ts, depth),
                            *pe == Ex::If(*c, *then, Some(*x)),
                            elv == arms_view(el@),
                            no_wire(out@),
                            ov(out@) + if_elses(*s, fns_view(*fns), sl, *pe, elv, k as int) == tpart + if_elses(*s, fns_view(*fns), sl, *pe, elv, 0),
                        decreases el.len() - k,
                    {
                        let sub = observe(s, fns, field, binds, ts, depth, x, el[k].0.clone());
                        let ghost o0 = out@;
                        extend(&mut out, sub);
                        proof {
                            assert(ov(out@) + if_elses(*s, fns_view(*fns), sl, *pe, elv, k + 1)
                                =~= ov(o0) + if_elses(*s, fns_view(*fns), sl, *pe, elv, k as int));
                        }
                        k = k + 1;
                    }
                    proof {
                        assert(ov(out@) =~= ov(out@) + if_elses(*s, fns_view(*fns), sl, *pe, elv, el@.len() as int));
                    }
                },
                None => {
                    let mut k: usize = 0;
                    while k < el.len()
                        invariant
                            k <= el@.len(),
                            elv == arms_view(el@),
                            no_wire(out@),
                            ov(out@) == tpart + elv.take(k as int).map_values(|a: (CtxV, Seq<char>)| (a.0, AbsValV::Unknown)),
                        decreases el.len() - k,
                    {
                        let sub = one(el[k].0.clone(), Fact::Unknown);
                        let ghost o0 = out@;
                        extend(&mut out, sub);
                        proof {
                            assert(elv.take(k + 1).map_values(|a: (CtxV, Seq<char>)| (a.0, AbsValV::Unknown))
                                =~= elv.take(k as int).map_values(|a: (CtxV, Seq<char>)| (a.0, AbsValV::Unknown)).push((elv[k as int].0, AbsValV::Unknown)));
                            assert(ov(out@) =~= tpart + elv.take(k + 1).map_values(|a: (CtxV, Seq<char>)| (a.0, AbsValV::Unknown)));
                        }
                        k = k + 1;
                    }
                    proof {
                        assert(elv.take(el@.len() as int) =~= elv);
                    }
                },
            }
            out
        },
        _ => Vec::new(),
    }
}

fn observe_stmts(
    s: &Schema,
    fns: &Fns,
    field: &str,
    binds: &StrMap<String>,
    ts: Option<&str>,
    depth: usize,
    stmts: &Vec<St>,
    i: usize,
    ctx: ValueCtx,
) -> (r: Vec<(ValueCtx, Fact)>)
    requires
        depth <= FOLLOW_DEPTH,
    ensures
        ov(r@) == obs_stmts(*s, fns_view(*fns), slot_view(field, *binds, ts, depth), *stmts, i as int, ctx@),
        no_wire(r@),
    decreases FOLLOW_DEPTH - depth, *stmts, stmts@.len() - i, 1int, 0int,
{
    let ghost sl = slot_view(field, *binds, ts, depth);
    if i >= stmts.len() {
        return one(ctx, Fact::Unknown);
    }
    proof {
        assert(decreases_to!(*stmts => stmts@[i as int]));
        lemma_if_return(stmts@[i as int]);
    }
    match if_return_of(&stmts[i]) {
        Some((c, b)) => {
            let (th, el) = slot_split_of(s, field, binds, ts, depth, c, &ctx);
            let ghost thv = arms_view(th@);
            let ghost elv = arms_view(el@);
            let mut out: Vec<(ValueCtx, Fact)> = Vec::new();
            let mut k: usize = 0;
            while k < th.len()
                invariant
                    k <= th@.len(),
                    i < stmts@.len(),
                    depth <= FOLLOW_DEPTH,
                    sl == slot_view(field, *binds, ts, depth),
                    if_return(stmts@[i as int]) == Some((*c, *b)),
                    decreases_to!(*stmts => *b),
                    thv == arms_view(th@),
                    no_wire(out@),
                    ov(out@) + stmt_thens(*s, fns_view(*fns), sl, *stmts, i as int, thv, k as int)
                        == stmt_thens(*s, fns_view(*fns), sl, *stmts, i as int, thv, 0),
                decreases th.len() - k,
            {
                let sub = observe_stmts(s, fns, field, binds, ts, depth, b, 0, th[k].0.clone());
                let ghost o0 = out@;
                extend(&mut out, sub);
                proof {
                    assert(ov(out@) + stmt_thens(*s, fns_view(*fns), sl, *stmts, i as int, thv, k + 1)
                        =~= ov(o0) + stmt_thens(*s, fns_view(*fns), sl, *stmts, i as int, thv, k as int));
                }
                k = k + 1;
            }
            proof {
                assert(ov(out@) =~= ov(out@) + stmt_thens(*s, fns_view(*fns), sl, *stmts, i as int, thv, th@.len() as int));
            }
            let ghost tpart = ov(out@);
            let next = i + 1;
            let mut k: usize = 0;
            while k < el.len()
                invariant
                    k <= el@.len(),
                    i < stmts@.len(),
                    next == i + 1,
                    depth <= FOLLOW_DEPTH,
                    sl == slot_view(field, *binds, ts, depth),
                    elv == arms_view(el@),
                    no_wire(out@),
                    ov(out@) + stmt_elses(*s, fns_view(*fns), sl, *stmts, i as int, elv, k as int)
                        == tpart + stmt_elses(*s, fns_view(*fns), sl, *stmts, i as int, elv, 0),
                decreases el.len() - k,
            {
                let sub = observe_stmts(s, fns, field, binds, ts, depth, stmts, next, el[k].0.clone());
                let ghost o0 = out@;
                extend(&mut out, sub);
                proof {
                    assert(ov(out@) + stmt_elses(*s, fns_view(*fns), sl, *stmts, i as int, elv, k + 1)
                        =~= ov(o0) + stmt_elses(*s, fns_view(*fns), sl, *stmts, i as int, elv, k as int));
                }
                k = k + 1;
            }
            proof {
                assert(ov(out@) =~= ov(out@) + stmt_elses(*s, fns_view(*fns), sl, *stmts, i as int, elv, el@.len() as int));
            }
            out
        },
        None => {
            let is_local = match &stmts[i] {
                St::Local(_, _) => true,
                _ => false,
            };
            if i + 1 < stmts.len() && is_local {
                observe_stmts(s, fns, field, binds, ts, depth, stmts, i + 1, ctx)
            } else {
                match &stmts[i] {
                    St::Expr(x, _) => observe(s, fns, field, binds, ts, depth, x, ctx),
                    _ => one(ctx, Fact::Unknown),
                }
            }
        },
    }
}

} // verus!
