//! What holds of the language as a whole: facts that span its functions.
use vstd::prelude::*;
use crate::absval::{AbsValV, ErrView};
use crate::derive::{
    inv_m, lemma_invs_m_index, or_absent_m, schema_is, FieldM,
    attr_step, attrs_fold, fields_fold, fields_plan, is_leaf, is_opt_ty, lift_schema, nests, parse_when,
    plan_fold, plan_spec, required_if_plan, schema_spec, ty_last, FieldPlanM, InvM, PropM, RwM,
};
use crate::check::{
    all_sited, all_under, lemma_prefix_placed, lemma_push_placed, lemma_sited_concat, lemma_sited_wire,
    lemma_under_concat, lemma_push_under, lemma_under_extend,
    expanded_spec, field_spec, fields_spec, prefix_spec, record_ctx, walk_arr_spec, walk_val_spec, prop_spec, props_spec, push_spec, spans_from, tiling_spec,
    wire_spec,
    all_spec, shape_spec, unique_arr_spec, one_of_arr_spec, one_of_set_spec, one_of_val_spec, arm_ctx, arms_spec, at_spec, oneof_pred_field, tick, width_spec, findings_result, walk_result_spec, and_spec, any_spec, excluded_spec, or_spec, fails_of, first_of, in_span, inv_spec, overlaps_before,
    painted_before, paints, pred_spec, rewrite_spec, tile_spec, val_of, walk_spec, FindingKind,
    FindingV,
};
use crate::ir::{exclude_spec, write_spec, CtxV, Invariant, Predicate, Rewrite, Schema};
use crate::absval::AbsValV as AbsV;
use crate::observe::{concat_spec, empty_frag, seat_spec, shift_spans, FragV};
use crate::ir::excluded_of;
use crate::slot::{follow_def, obs, FnsV, SlotV, FOLLOW_DEPTH};
use crate::sites::{collect_spec, def_of, file_fns, fn_list};
use crate::strmap::{lemma_sorted_set_members, sorted_set};
use crate::syntax::{is_ident_spec, is_subject, AttrAst, Ex, FieldAst, FileAst, ItemAst};
use crate::unfold::{exclude_all, split_spec, CondV};
use crate::walk::{assign_w, follow_w, EngV};

verus! {

/// No `Any` inside the invariant is empty (an empty `Any` fails on any state).
pub open spec fn no_empty_any(p: Invariant) -> bool
    decreases p, 0int,
{
    match p {
        Invariant::When { then, .. } => no_empty_any(*then),
        Invariant::All(ps) => all_no_empty_any(ps, 0),
        Invariant::Any(ps) => ps@.len() > 0 && all_no_empty_any(ps, 0),
        _ => true,
    }
}

pub open spec fn all_no_empty_any(ps: Vec<Invariant>, i: int) -> bool
    decreases ps, ps@.len() - i,
{
    if i < 0 || i >= ps@.len() {
        true
    } else {
        no_empty_any(ps@[i]) && all_no_empty_any(ps, i + 1)
    }
}

/// The field has neither a value nor wire geometry in the state.
pub open spec fn unobserved(c: CtxV, f: Seq<char>) -> bool {
    !c.values.contains_key(f) && !c.wire.contains_key(f)
}

pub open spec fn is_fail(r: Result<(), ErrView>) -> bool {
    r matches Err(ErrView::Fail(_))
}

/// Unobserved is not Absent: an invariant on a field that was never written
/// is never a Fail (at most Undecidable), whatever else the state holds.
pub proof fn law_unobserved_never_fails(c: CtxV, f: Seq<char>, p: Invariant)
    requires
        unobserved(c, f),
        no_empty_any(p),
    ensures
        !is_fail(inv_spec(c, f, p)),
    decreases p, 0int,
{
    match p {
        Invariant::When { pred: pr, then: th } => {
            lemma_pred_never_fails(c, pr);
            law_unobserved_never_fails(c, f, *th);
        },
        Invariant::All(ps) => {
            lemma_unobserved_all(c, f, ps, 0);
        },
        Invariant::Any(ps) => {
            lemma_unobserved_any(c, f, ps, 0, ErrView::Fail("Invariant any: empty"@), None);
        },
        Invariant::Nested(inner) => {
            let fs = walk_spec(c, f, *inner, None);
            assert(fs.len() == 1 && fs[0].kind == FindingKind::Undecidable);
            assert(first_of(fs, FindingKind::Fail, 1) is None);
            assert(first_of(fs, FindingKind::Fail, 0) is None);
            assert(walk_result_spec(c, f, *inner) == findings_result(fs));
        },
        _ => {},
    }
}


proof fn lemma_unobserved_all(c: CtxV, f: Seq<char>, ps: Vec<Invariant>, i: int)
    requires
        unobserved(c, f),
        all_no_empty_any(ps, i),
        0 <= i,
    ensures
        !is_fail(all_spec(c, f, ps, i)),
    decreases ps, ps@.len() - i,
{
    if i < ps@.len() {
        law_unobserved_never_fails(c, f, ps@[i]);
        lemma_unobserved_all(c, f, ps, i + 1);
    }
}

proof fn lemma_unobserved_any(c: CtxV, f: Seq<char>, ps: Vec<Invariant>, i: int, last_fail: ErrView, und: Option<ErrView>)
    requires
        unobserved(c, f),
        all_no_empty_any(ps, i),
        0 <= i,
        i < ps@.len() || und matches Some(ErrView::Undecidable(_)),
        und is None || und matches Some(ErrView::Undecidable(_)),
    ensures
        !is_fail(any_spec(c, f, ps, i, last_fail, und)),
    decreases ps, ps@.len() - i,
{
    if i < ps@.len() {
        law_unobserved_never_fails(c, f, ps@[i]);
        match inv_spec(c, f, ps@[i]) {
            Ok(()) => {},
            Err(ErrView::Undecidable(m)) => {
                lemma_unobserved_any(c, f, ps, i + 1, last_fail, Some(ErrView::Undecidable(m)));
            },
            Err(e) => {},
        }
    }
}

/// `or_absent(I)` passes on an explicit `None`, whatever `I` is.
pub proof fn law_or_absent_passes_on_absent(c: CtxV, f: Seq<char>, inv: Invariant, ps: Vec<Invariant>)
    requires
        ps@ == seq![inv, Invariant::Absent],
        val_of(c, f) == Some(AbsValV::Absent),
    ensures
        inv_spec(c, f, Invariant::Any(ps)) == Ok::<(), ErrView>(()),
{
    let lf = ErrView::Fail("Invariant any: empty"@);
    assert(ps@[1] == Invariant::Absent);
    assert(inv_spec(c, f, ps@[1]) == Ok::<(), ErrView>(()));
    assert(inv_spec(c, f, Invariant::Any(ps)) == any_spec(c, f, ps, 0, lf, None));
    match inv_spec(c, f, ps@[0]) {
        Ok(()) => {
            assert(any_spec(c, f, ps, 0, lf, None) == Ok::<(), ErrView>(()));
        },
        Err(ErrView::Undecidable(m)) => {
            assert(any_spec(c, f, ps, 1, lf, Some(ErrView::Undecidable(m))) == Ok::<(), ErrView>(()));
            assert(any_spec(c, f, ps, 0, lf, None) == any_spec(c, f, ps, 1, lf, Some(ErrView::Undecidable(m))));
        },
        Err(e) => {
            assert(any_spec(c, f, ps, 1, e, None) == Ok::<(), ErrView>(()));
            assert(any_spec(c, f, ps, 0, lf, None) == any_spec(c, f, ps, 1, e, None));
        },
    }
}

/// A `when` whose predicate is false passes, whatever it guards.
pub proof fn law_when_false_passes(c: CtxV, f: Seq<char>, pred: Predicate, then: Box<Invariant>)
    requires
        pred_spec(c, pred) == Ok::<bool, ErrView>(false),
    ensures
        inv_spec(c, f, Invariant::When { pred, then }) == Ok::<(), ErrView>(()),
{
}

/// Negating twice gives the predicate back.
pub proof fn law_not_not(c: CtxV, p: Predicate, inner: Box<Predicate>)
    requires
        *inner == Predicate::Not(Box::new(p)),
    ensures
        pred_spec(c, Predicate::Not(inner)) == pred_spec(c, p),
{
    assert(pred_spec(c, *inner) == match pred_spec(c, p) {
        Ok(b) => Ok::<bool, ErrView>(!b),
        Err(e) => Err(e),
    });
}

/// The `else` of `field == lit`: an unobserved field that excludes `lit`
/// reads as not equal, so a `when` on it is skipped.
pub proof fn law_excluded_is_not_equal(c: CtxV, field: String, lit: String, then: Box<Invariant>, f: Seq<char>)
    requires
        val_of(c, field@) is None,
        excluded_spec(c, field@, lit@),
    ensures
        pred_spec(c, Predicate::Eq { field, lit }) == Ok::<bool, ErrView>(false),
        inv_spec(c, f, Invariant::When { pred: Predicate::Eq { field, lit }, then }) == Ok::<(), ErrView>(()),
{
}

/// Last write wins: a second value write to a field replaces the first.
pub proof fn law_last_write_wins(c: CtxV, f: Seq<char>, a: AbsValV, b: AbsValV)
    ensures
        write_spec(write_spec(c, f, a), f, b) == write_spec(c, f, b),
{
    assert(write_spec(write_spec(c, f, a), f, b).values =~= write_spec(c, f, b).values);
    assert(write_spec(write_spec(c, f, a), f, b).excluded =~= write_spec(c, f, b).excluded);
}

/// A later value write to a field drops the literals excluded for it.
pub proof fn law_write_drops_exclusions(c: CtxV, f: Seq<char>, lit: Seq<char>, v: AbsValV)
    ensures
        write_spec(exclude_spec(c, f, lit), f, v) == write_spec(c, f, v),
{
    assert(write_spec(exclude_spec(c, f, lit), f, v).excluded =~= write_spec(c, f, v).excluded);
}

/// A rewrite whose predicate is false on the pre state leaves no finding.
pub proof fn law_rewrite_needs_pred(sname: Seq<char>, rw: Rewrite, pre: CtxV, write: crate::observe::Fact, site: Option<Seq<char>>)
    requires
        pred_spec(pre, rw.pred) == Ok::<bool, ErrView>(false),
    ensures
        rewrite_spec(sname, rw, pre, write, site).len() == 0,
{
}

/// The failing findings of two reports together are those of each.
pub proof fn law_fails_of_concat(a: Seq<FindingV>, b: Seq<FindingV>)
    ensures
        fails_of(a + b) == fails_of(a) + fails_of(b),
    decreases b.len(),
{
    if b.len() == 0 {
        assert(a + b =~= a);
        assert(fails_of(a) + fails_of(b) =~= fails_of(a));
    } else {
        assert((a + b).drop_last() =~= a + b.drop_last());
        assert((a + b).last() == b.last());
        law_fails_of_concat(a, b.drop_last());
        if b.last().kind == FindingKind::Fail {
            assert(fails_of(a) + fails_of(b) =~= (fails_of(a) + fails_of(b.drop_last())).push(b.last()));
        } else {
            assert(fails_of(a) + fails_of(b) =~= fails_of(a) + fails_of(b.drop_last()));
        }
    }
}

/// A merged report is ok exactly when both parts are.
pub proof fn law_merge_ok(a: Seq<FindingV>, b: Seq<FindingV>)
    ensures
        (fails_of(a + b).len() == 0) == (fails_of(a).len() == 0 && fails_of(b).len() == 0),
{
    law_fails_of_concat(a, b);
}

/// The empty fragment is a left and right identity of composition.
pub proof fn law_fragment_identity(a: FragV)
    ensures
        concat_spec(empty_frag(), a) == a,
        concat_spec(a, empty_frag()) == a,
{
    assert(shift_spans(a.spans, 0) =~= a.spans);
    assert(concat_spec(empty_frag(), a).spans =~= a.spans);
    assert(concat_spec(a, empty_frag()).spans =~= a.spans);
}

/// Composition of fragments is associative, and extents add.
pub proof fn law_fragment_assoc(a: FragV, b: FragV, c: FragV)
    ensures
        concat_spec(concat_spec(a, b), c) == concat_spec(a, concat_spec(b, c)),
        concat_spec(a, b).extent == a.extent + b.extent,
{
    let l = concat_spec(concat_spec(a, b), c);
    let r = concat_spec(a, concat_spec(b, c));
    assert(l.spans =~= r.spans);
}

/// Observing a composed fragment seats the left part at the origin and the
/// right part where the left ends.
pub proof fn law_observe_concat(ctx: CtxV, a: FragV, b: FragV, origin: nat)
    ensures
        seat_spec(ctx, concat_spec(a, b).spans, origin) == seat_spec(
            seat_spec(ctx, a.spans, origin),
            b.spans,
            origin + a.extent,
        ),
    decreases b.spans.len(),
{
    let ab = concat_spec(a, b).spans;
    if b.spans.len() == 0 {
        assert(ab =~= a.spans);
    } else {
        let b2 = FragV { extent: b.extent, spans: b.spans.drop_last() };
        law_observe_concat(ctx, a, b2, origin);
        assert(ab.drop_last() =~= concat_spec(a, b2).spans);
        assert(ab.last() == (b.spans.last().0, b.spans.last().1 + a.extent, b.spans.last().2));
        assert(origin + (b.spans.last().1 + a.extent) == (origin + a.extent) + b.spans.last().1);
    }
}

/// Spans that sit on the tape without overlapping pass the tiling check,
/// whatever holes lie between them.
pub proof fn law_holes_are_padding(sp: Seq<(Seq<char>, nat, nat)>, n: nat)
    requires
        forall|k: int| 0 <= k < sp.len() ==> #[trigger] sp[k].1 >= 1 && sp[k].1 - 1 + sp[k].2 <= n,
        forall|j: int, k: int, p: int| 0 <= j < k < sp.len() ==> !(#[trigger] paints(sp, j, p) && #[trigger] paints(sp, k, p)),
    ensures
        tile_spec(sp, n, 0) == Ok::<(), ErrView>(()),
{
    lemma_tiles_from(sp, n, 0);
}

proof fn lemma_tiles_from(sp: Seq<(Seq<char>, nat, nat)>, n: nat, k: int)
    requires
        0 <= k,
        forall|k: int| 0 <= k < sp.len() ==> #[trigger] sp[k].1 >= 1 && sp[k].1 - 1 + sp[k].2 <= n,
        forall|j: int, k: int, p: int| 0 <= j < k < sp.len() ==> !(#[trigger] paints(sp, j, p) && #[trigger] paints(sp, k, p)),
    ensures
        tile_spec(sp, n, k) == Ok::<(), ErrView>(()),
    decreases sp.len() - k,
{
    if k < sp.len() {
        assert(sp[k].1 >= 1 && sp[k].1 - 1 + sp[k].2 <= n);
        assert(!overlaps_before(sp, k)) by {
            reveal(overlaps_before);
            reveal(painted_before);
            assert forall|p: int| in_span(sp, k, p) implies !#[trigger] painted_before(sp, k, p) by {
                assert(paints(sp, k, p));
            }
        }
        lemma_tiles_from(sp, n, k + 1);
    }
}


/// A predicate is true, false or Undecidable: it never Fails.
pub proof fn lemma_pred_never_fails(c: CtxV, p: Predicate)
    ensures
        !(pred_spec(c, p) matches Err(ErrView::Fail(_))),
    decreases p, 0int,
{
    match p {
        Predicate::And(xs) => lemma_and_never_fails(c, xs, 0),
        Predicate::Or(xs) => lemma_or_never_fails(c, xs, 0),
        Predicate::Not(x) => lemma_pred_never_fails(c, *x),
        _ => {},
    }
}

proof fn lemma_and_never_fails(c: CtxV, xs: Vec<Predicate>, i: int)
    ensures
        !(and_spec(c, xs, i) matches Err(ErrView::Fail(_))),
    decreases xs, xs@.len() - i,
{
    if 0 <= i < xs@.len() {
        lemma_pred_never_fails(c, xs@[i]);
        lemma_and_never_fails(c, xs, i + 1);
    }
}

proof fn lemma_or_never_fails(c: CtxV, xs: Vec<Predicate>, i: int)
    ensures
        !(or_spec(c, xs, i) matches Err(ErrView::Fail(_))),
    decreases xs, xs@.len() - i,
{
    if 0 <= i < xs@.len() {
        lemma_pred_never_fails(c, xs@[i]);
        lemma_or_never_fails(c, xs, i + 1);
    }
}


/// Path split on `field == lit`: the `then` state knows the literal; the
/// `else` state keeps the values and excludes the literal.
pub proof fn law_split_eq(f: Seq<char>, l: Seq<char>, ctx: CtxV, label: Seq<char>)
    ensures
        ({
            let (th, el) = split_spec(CondV::Eq(f, l), ctx, label);
            &&& th.len() == 1 && el.len() == 1
            &&& th[0].0.values.contains_key(f) && th[0].0.values[f] == AbsValV::Known(l)
            &&& el[0].0.values == ctx.values
            &&& excluded_of(el[0].0, f).contains(l)
        }),
{
    lemma_sorted_set_members(excluded_of(ctx, f).push(l));
    assert(excluded_of(ctx, f).push(l).contains(l) == true) by {
        assert(excluded_of(ctx, f).push(l)[excluded_of(ctx, f).len() as int] == l);
    }
}

proof fn lemma_exclude_all(c: CtxV, f: Seq<char>, ls: Seq<Seq<char>>)
    ensures
        exclude_all(c, f, ls).values == c.values,
        forall|q: Seq<char>| #[trigger] ls.contains(q) ==> excluded_of(exclude_all(c, f, ls), f).contains(q),
    decreases ls.len(),
{
    if ls.len() > 0 {
        let init = ls.drop_last();
        lemma_exclude_all(c, f, init);
        let before = exclude_all(c, f, init);
        lemma_sorted_set_members(excluded_of(before, f).push(ls.last()));
        assert forall|q: Seq<char>| #[trigger] ls.contains(q) implies excluded_of(exclude_all(c, f, ls), f).contains(q) by {
            let xs = excluded_of(before, f).push(ls.last());
            if q == ls.last() {
                assert(xs[xs.len() - 1] == q);
            } else {
                let k = choose|k: int| 0 <= k < ls.len() && ls[k] == q;
                assert(init[k] == q);
                assert(init.contains(q));
                let j = choose|j: int| 0 <= j < excluded_of(before, f).len() && excluded_of(before, f)[j] == q;
                assert(xs[j] == q);
            }
        }
    }
}

/// Path split on `matches!(field, "a" | "b" …)`: the `then` state holds one
/// of exactly those literals; the `else` state keeps the values and
/// excludes each of them.
pub proof fn law_split_in(f: Seq<char>, ls: Seq<Seq<char>>, ctx: CtxV, label: Seq<char>)
    ensures
        ({
            let (th, el) = split_spec(CondV::In(f, ls), ctx, label);
            &&& th.len() == 1 && el.len() == 1
            &&& th[0].0.values.contains_key(f) && th[0].0.values[f] == AbsValV::OneOf(sorted_set(ls))
            &&& forall|q: Seq<char>| #[trigger] sorted_set(ls).contains(q) == ls.contains(q)
            &&& el[0].0.values == ctx.values
            &&& forall|q: Seq<char>| #[trigger] ls.contains(q) ==> excluded_of(el[0].0, f).contains(q)
        }),
{
    lemma_sorted_set_members(ls);
    lemma_exclude_all(ctx, f, ls);
}

/// Every function of a file stays in the map that calls are followed
/// through, `#[except]` or not: muting a site does not stop a follow into it.
pub proof fn law_every_fn_is_followed(s: Schema, file: FileAst, i: int)
    requires
        0 <= i < fn_list(file.items@).len(),
    ensures
        ({
            let fl = fn_list(file.items@);
            let d = def_of(fl[i].0, fl[i].1, s.name@);
            file_fns(s, file).contains_key(d.name) && file_fns(s, file)[d.name].contains(d)
        }),
{
    lemma_collect_keeps(fn_list(file.items@), s.name@, i);
}

proof fn lemma_collect_keeps(fl: Seq<(crate::syntax::FnAst, Option<Seq<char>>)>, sn: Seq<char>, i: int)
    requires
        0 <= i < fl.len(),
    ensures
        ({
            let d = def_of(fl[i].0, fl[i].1, sn);
            collect_spec(fl, sn).contains_key(d.name) && collect_spec(fl, sn)[d.name].contains(d)
        }),
    decreases fl.len(),
{
    let init = fl.drop_last();
    let m = collect_spec(init, sn);
    let last = def_of(fl.last().0, fl.last().1, sn);
    let before = if m.contains_key(last.name) {
        m[last.name]
    } else {
        Seq::empty()
    };
    if i == fl.len() - 1 {
        assert(before.push(last)[before.len() as int] == last);
    } else {
        lemma_collect_keeps(init, sn, i);
        assert(init[i] == fl[i]);
        let d = def_of(fl[i].0, fl[i].1, sn);
        if d.name == last.name {
            let k = choose|k: int| 0 <= k < m[d.name].len() && m[d.name][k] == d;
            assert(before.push(last)[k] == d);
        }
    }
}

/// Follows stop at the follow depth: there no call is entered.
pub proof fn law_follow_depth(fns: FnsV, en: EngV, sl: SlotV, pe: Ex)
    requires
        en.depth >= FOLLOW_DEPTH,
        sl.depth >= FOLLOW_DEPTH,
    ensures
        follow_w(fns, en, pe) is None,
        follow_def(fns, sl, pe) is None,
{
}

/// The law of `=`: after `subject.field = rhs`, each path holds at that
/// field what observing the right-hand side gave on its state.
pub proof fn law_assign_observes(s: Schema, fns: FnsV, en: EngV, base: Ex, m: String, r: Ex, ctx: CtxV, label: Seq<char>)
    requires
        is_subject(base, en.subject),
        crate::slot::has_field(s, m@),
    ensures
        ({
            let e = Ex::Assign(Box::new(Ex::Field(Box::new(base), m)), Box::new(r));
            let ws = obs(s, fns, SlotV { field: m@, binds: Map::empty(), ts: Some(en.subject), depth: en.depth }, r, ctx);
            let ps = assign_w(s, fns, en, e, ctx, label);
            &&& ps.len() == ws.len()
            &&& forall|i: int| 0 <= i < ps.len() ==> (#[trigger] ps[i]).ctx.values.contains_key(m@) && ps[i].ctx.values[m@] == ws[i].1
        }),
{
}



// ---------------------------------------------------------------------------
// `#[derive(Schema)]`: the generated schema and the IR agree.
// ---------------------------------------------------------------------------

/// The invariants among generated properties, in order.
pub open spec fn inv_props(ps: Seq<PropM>) -> Seq<InvM>
    decreases ps.len(),
{
    if ps.len() == 0 {
        Seq::empty()
    } else {
        match ps.last() {
            PropM::Inv(i) => inv_props(ps.drop_last()).push(i),
            _ => inv_props(ps.drop_last()),
        }
    }
}

proof fn lemma_inv_props_push(ps: Seq<PropM>, p: PropM)
    ensures
        inv_props(ps.push(p)) == match p {
            PropM::Inv(i) => inv_props(ps).push(i),
            _ => inv_props(ps),
        },
{
    assert(ps.push(p).drop_last() =~= ps);
}

proof fn lemma_reveal_attr_names()
    ensures
        "enum_"@ != "required_if"@, "enum_"@ != "when"@, "enum_"@ != "shape"@, "enum_"@ != "pos"@,
        "enum_"@ != "len"@, "enum_"@ != "nested"@, "enum_"@ != "refine"@,
        "required_if"@ != "when"@, "required_if"@ != "shape"@, "required_if"@ != "pos"@,
        "required_if"@ != "len"@, "required_if"@ != "nested"@, "required_if"@ != "refine"@,
        "when"@ != "shape"@, "when"@ != "pos"@, "when"@ != "len"@, "when"@ != "nested"@, "when"@ != "refine"@,
        "shape"@ != "pos"@, "shape"@ != "len"@, "shape"@ != "nested"@, "shape"@ != "refine"@,
        "pos"@ != "len"@, "pos"@ != "nested"@, "pos"@ != "refine"@,
        "len"@ != "nested"@, "len"@ != "refine"@, "nested"@ != "refine"@,
{
    reveal_strlit("enum_");
    reveal_strlit("required_if");
    reveal_strlit("when");
    reveal_strlit("shape");
    reveal_strlit("pos");
    reveal_strlit("len");
    reveal_strlit("nested");
    reveal_strlit("refine");
    assert("enum_"@[0] != "required_if"@[0]);
    assert("enum_"@[0] != "when"@[0]);
    assert("enum_"@[0] != "shape"@[0]);
    assert("enum_"@[0] != "pos"@[0]);
    assert("enum_"@[0] != "len"@[0]);
    assert("enum_"@[0] != "nested"@[0]);
    assert("enum_"@[0] != "refine"@[0]);
    assert("required_if"@[0] != "when"@[0]);
    assert("required_if"@[0] != "shape"@[0]);
    assert("required_if"@[0] != "pos"@[0]);
    assert("required_if"@[0] != "len"@[0]);
    assert("required_if"@[0] != "nested"@[0]);
    assert("required_if"@[2] != "refine"@[2]);
    assert("when"@[0] != "shape"@[0]);
    assert("when"@[0] != "pos"@[0]);
    assert("when"@[0] != "len"@[0]);
    assert("when"@[0] != "nested"@[0]);
    assert("when"@[0] != "refine"@[0]);
    assert("shape"@[0] != "pos"@[0]);
    assert("shape"@[0] != "len"@[0]);
    assert("shape"@[0] != "nested"@[0]);
    assert("shape"@[0] != "refine"@[0]);
    assert("pos"@[0] != "len"@[0]);
    assert("pos"@[0] != "nested"@[0]);
    assert("pos"@[0] != "refine"@[0]);
    assert("len"@[0] != "nested"@[0]);
    assert("len"@[0] != "refine"@[0]);
    assert("nested"@[0] != "refine"@[0]);
}

/// One attribute adds the same invariants whatever came before.
proof fn lemma_attr_step_delta(fname: Seq<char>, opt: bool, a: AttrAst, invs: Seq<InvM>, rws: Seq<RwM>)
    ensures
        attr_step(fname, opt, a, invs, rws) == match attr_step(fname, opt, a, Seq::empty(), rws) {
            Ok((d, r2)) => Ok::<(Seq<InvM>, Seq<RwM>), Seq<char>>((invs + d, r2)),
            Err(e) => Err(e),
        },
        attr_step(fname, opt, a, Seq::empty(), rws) matches Ok((d, _)) ==> d.len() <= 1,
{
    assert(invs + Seq::<InvM>::empty() =~= invs);
    assert forall|x: InvM| invs.push(x) =~= invs + Seq::<InvM>::empty().push(x) by {}
}

/// Attribute by attribute, the generated properties hold the IR's
/// invariants, and both write the same rewrites.
proof fn lemma_plan_attrs(f: FieldAst, k: int, rws: Seq<RwM>)
    requires
        0 <= k <= f.attrs@.len(),
        plan_fold(f, k, rws) is Ok,
        attrs_fold(f, k, rws) is Ok,
    ensures
        inv_props(plan_fold(f, k, rws)->Ok_0.0) == attrs_fold(f, k, rws)->Ok_0.0,
        plan_fold(f, k, rws)->Ok_0.1 == attrs_fold(f, k, rws)->Ok_0.1,
    decreases k,
{
    if k == 0 {
        assert(inv_props(Seq::<PropM>::empty()) =~= Seq::<InvM>::empty());
    } else {
        lemma_plan_attrs(f, k - 1, rws);
        let (ps, r1, n1) = plan_fold(f, k - 1, rws)->Ok_0;
        let (is, r2) = attrs_fold(f, k - 1, rws)->Ok_0;
        let a = f.attrs@[k - 1];
        let opt = is_opt_ty(f.ty);
        lemma_reveal_attr_names();
        lemma_attr_step_delta(f.name@, opt, a, is, r2);
        if is_ident_spec(a.path, "required_if"@) {
            let p = required_if_plan(a)->Ok_0;
            lemma_inv_props_push(ps, PropM::Inv(InvM::When(p, Box::new(InvM::Defined))));
        } else if is_ident_spec(a.path, "nested"@) {
            lemma_inv_props_push(ps, PropM::Nested(ty_last(lift_schema(f.ty)), opt));
        } else if is_ident_spec(a.path, "refine"@) {
            let p = crate::derive::refine_sugar(a)->Ok_0;
            lemma_inv_props_push(ps, PropM::Refine(p, ty_last(crate::derive::lift_inner(f.ty)) == Some("String"@), opt));
        } else {
            let (d, r3) = attr_step(f.name@, opt, a, Seq::empty(), r1)->Ok_0;
            let dm = d.map_values(|i: InvM| PropM::Inv(i));
            if d.len() == 0 {
                assert(ps + dm =~= ps);
            } else {
                assert(ps + dm =~= ps.push(PropM::Inv(d[0])));
                lemma_inv_props_push(ps, PropM::Inv(d[0]));
                assert(is + d =~= is.push(d[0]));
            }
        }
    }
}

/// Field by field, the generated fields and the IR's.
proof fn lemma_plan_fields(fs: Seq<FieldAst>, files: Seq<FileAst>, n: int)
    requires
        0 <= n <= fs.len(),
        fields_plan(fs, files, n) is Ok,
        fields_fold(fs, n) is Ok,
    ensures
        ({
            let (fps, r1) = fields_plan(fs, files, n)->Ok_0;
            let m = fields_fold(fs, n)->Ok_0;
            &&& fps.len() == n
            &&& m.fields.len() == n
            &&& r1 == m.rewrites
            &&& forall|k: int| 0 <= k < n ==> {
                &&& (#[trigger] fps[k]).name == fs[k].name@
                &&& m.fields[k].name == fs[k].name@
                &&& fps[k].locator == m.fields[k].locator
                &&& inv_props(fps[k].props) == m.fields[k].invs
            }
        }),
    decreases n,
{
    if n > 0 {
        lemma_plan_fields(fs, files, n - 1);
        let f = fs[n - 1];
        let (fps, r1) = fields_plan(fs, files, n - 1)->Ok_0;
        let m = fields_fold(fs, n - 1)->Ok_0;
        let len = f.attrs@.len() as int;
        lemma_plan_attrs(f, len, r1);
        let (ps, _, nested) = plan_fold(f, len, r1)->Ok_0;
        lemma_inv_props_push(ps, PropM::Nested(ty_last(lift_schema(f.ty)), is_opt_ty(f.ty)));
    }
}

/// The Schema `#[derive(Schema)]` generates and the IR it checks the crate
/// against agree: the same fields in the same order, named as the struct's
/// fields and under the same keys; the same rewrites; and the generated
/// invariants are the IR's once nested schemas and refines are left out.
pub proof fn law_derive_matches_ir(item: ItemAst, files: Seq<FileAst>)
    requires
        plan_spec(item, files) is Ok,
    ensures
        ({
            let (name, fps, rws, m) = plan_spec(item, files)->Ok_0;
            let fs = item->Struct_0.fields->0@;
            &&& item is Struct && name == item->Struct_0.name@
            &&& fps.len() == fs.len() && m.fields.len() == fs.len()
            &&& rws == m.rewrites
            &&& forall|k: int| 0 <= k < fs.len() ==> {
                &&& (#[trigger] fps[k]).name == fs[k].name@
                &&& m.fields[k].name == fs[k].name@
                &&& fps[k].locator == m.fields[k].locator
                &&& inv_props(fps[k].props) == m.fields[k].invs
            }
        }),
{
    let fs = item->Struct_0.fields->0@;
    lemma_plan_fields(fs, files, fs.len() as int);
}



/// No attribute of the field is `#[nested]`.
pub open spec fn no_nested_attr(f: FieldAst) -> bool {
    forall|j: int| 0 <= j < f.attrs@.len() ==> !is_ident_spec((#[trigger] f.attrs@[j]).path, "nested"@)
}

/// No generated property is a nested schema.
pub open spec fn no_nested_prop(ps: Seq<PropM>) -> bool {
    forall|j: int| 0 <= j < ps.len() ==> !((#[trigger] ps[j]) is Nested)
}

proof fn lemma_plan_no_nested(f: FieldAst, k: int, rws: Seq<RwM>)
    requires
        0 <= k <= f.attrs@.len(),
        no_nested_attr(f),
        plan_fold(f, k, rws) is Ok,
    ensures
        !plan_fold(f, k, rws)->Ok_0.2,
        no_nested_prop(plan_fold(f, k, rws)->Ok_0.0),
    decreases k,
{
    if k > 0 {
        lemma_plan_no_nested(f, k - 1, rws);
        let (ps, r1, n1) = plan_fold(f, k - 1, rws)->Ok_0;
        let a = f.attrs@[k - 1];
        assert(!is_ident_spec(a.path, "nested"@));
        let (ps2, _, _) = plan_fold(f, k, rws)->Ok_0;
        if !is_ident_spec(a.path, "required_if"@) && !is_ident_spec(a.path, "refine"@) {
            let (d, _) = attr_step(f.name@, is_opt_ty(f.ty), a, Seq::empty(), r1)->Ok_0;
            assert(ps2 == ps + d.map_values(|i: InvM| PropM::Inv(i)));
            assert forall|j: int| 0 <= j < ps2.len() implies !((#[trigger] ps2[j]) is Nested) by {
                if j >= ps.len() {
                    assert(ps2[j] == PropM::Inv(d[j - ps.len()]));
                }
            }
        } else {
            assert forall|j: int| 0 <= j < ps2.len() implies !((#[trigger] ps2[j]) is Nested) by {
                if j < ps.len() {
                    assert(ps2[j] == ps[j]);
                }
            }
        }
    }
}

/// The generated properties of field `f` when its attributes gave `ps`.
pub open spec fn field_props(f: FieldAst, files: Seq<FileAst>, ps: Seq<PropM>, nested: bool) -> Seq<PropM> {
    if !is_leaf(f) && !nested && nests(f.ty, files) {
        ps.push(PropM::Nested(ty_last(lift_schema(f.ty)), is_opt_ty(f.ty)))
    } else {
        ps
    }
}

/// The `k`-th generated field comes from the `k`-th struct field.
pub open spec fn plan_field_from(f: FieldAst, files: Seq<FileAst>, rws: Seq<RwM>, fp: FieldPlanM) -> bool {
    plan_fold(f, f.attrs@.len() as int, rws) matches Ok((ps, _, nd)) && fp.props == field_props(f, files, ps, nd)
}

proof fn lemma_plan_field_at(fs: Seq<FieldAst>, files: Seq<FileAst>, n: int, k: int)
    requires
        0 <= k < n <= fs.len(),
        fields_plan(fs, files, n) is Ok,
    ensures
        fields_plan(fs, files, n)->Ok_0.0.len() == n,
        exists|rws: Seq<RwM>| #[trigger] plan_field_from(fs[k], files, rws, fields_plan(fs, files, n)->Ok_0.0[k]),
    decreases n,
{
    if k < n - 1 {
        lemma_plan_field_at(fs, files, n - 1, k);
        let rws = choose|rws: Seq<RwM>| #[trigger] plan_field_from(fs[k], files, rws, fields_plan(fs, files, n - 1)->Ok_0.0[k]);
        assert(plan_field_from(fs[k], files, rws, fields_plan(fs, files, n)->Ok_0.0[k]));
    } else {
        if n - 1 > 0 {
            lemma_plan_field_at(fs, files, n - 1, 0);
        }
        let r1 = fields_plan(fs, files, n - 1)->Ok_0.1;
        assert(plan_field_from(fs[k], files, r1, fields_plan(fs, files, n)->Ok_0.0[k]));
    }
}

/// `#[leaf]` opts a field out of the default nested walk: with no
/// `#[nested]` on it, none of its generated properties nests a schema.
pub proof fn law_leaf_skips_nesting(item: ItemAst, files: Seq<FileAst>, k: int)
    requires
        plan_spec(item, files) is Ok,
        item is Struct,
        0 <= k < item->Struct_0.fields->0@.len(),
        is_leaf(item->Struct_0.fields->0@[k]),
        no_nested_attr(item->Struct_0.fields->0@[k]),
    ensures
        no_nested_prop(plan_spec(item, files)->Ok_0.1[k].props),
{
    let fs = item->Struct_0.fields->0@;
    lemma_plan_field_at(fs, files, fs.len() as int, k);
    let fp = fields_plan(fs, files, fs.len() as int)->Ok_0.0[k];
    let rws = choose|rws: Seq<RwM>| #[trigger] plan_field_from(fs[k], files, rws, fp);
    lemma_plan_no_nested(fs[k], fs[k].attrs@.len() as int, rws);
}

/// A field whose schema type (`Option`, `Vec`, `Box` taken off) is a
/// `#[derive(Schema)]` struct of the crate, or a type the crate does not
/// define, is walked as a nested schema by default: its last generated
/// property nests that schema, under `or_absent` when the field is an
/// `Option`.
pub proof fn law_schema_field_nests(item: ItemAst, files: Seq<FileAst>, k: int)
    requires
        plan_spec(item, files) is Ok,
        item is Struct,
        0 <= k < item->Struct_0.fields->0@.len(),
        !is_leaf(item->Struct_0.fields->0@[k]),
        no_nested_attr(item->Struct_0.fields->0@[k]),
        nests(item->Struct_0.fields->0@[k].ty, files),
    ensures
        ({
            let f = item->Struct_0.fields->0@[k];
            let ps = plan_spec(item, files)->Ok_0.1[k].props;
            ps.len() > 0 && ps.last() == PropM::Nested(ty_last(lift_schema(f.ty)), is_opt_ty(f.ty))
        }),
{
    let fs = item->Struct_0.fields->0@;
    lemma_plan_field_at(fs, files, fs.len() as int, k);
    let fp = fields_plan(fs, files, fs.len() as int)->Ok_0.0[k];
    let rws = choose|rws: Seq<RwM>| #[trigger] plan_field_from(fs[k], files, rws, fp);
    lemma_plan_no_nested(fs[k], fs[k].attrs@.len() as int, rws);
}



/// The attribute is `#[when(P, rewrite I)]` on the field `fname`, and reads.
pub open spec fn is_rewrite_attr(fname: Seq<char>, a: AttrAst) -> bool {
    is_ident_spec(a.path, "when"@) && (a.list matches Some(ts) && (parse_when(ts@, fname) matches Ok(w) && w.rewrite))
}

/// How many of the first `k` attributes of a field are rewrites.
pub open spec fn rewrite_attrs(f: FieldAst, k: int) -> nat
    decreases k,
{
    if k <= 0 {
        0
    } else {
        rewrite_attrs(f, k - 1) + if is_rewrite_attr(f.name@, f.attrs@[k - 1]) {
            1nat
        } else {
            0nat
        }
    }
}

/// How many rewrite attributes the first `n` fields carry.
pub open spec fn rewrite_fields(fs: Seq<FieldAst>, n: int) -> nat
    decreases n,
{
    if n <= 0 {
        0
    } else {
        rewrite_fields(fs, n - 1) + rewrite_attrs(fs[n - 1], fs[n - 1].attrs@.len() as int)
    }
}

proof fn lemma_attrs_rewrites(f: FieldAst, k: int, rws: Seq<RwM>)
    requires
        0 <= k <= f.attrs@.len(),
        attrs_fold(f, k, rws) is Ok,
    ensures
        attrs_fold(f, k, rws)->Ok_0.1.len() == rws.len() + rewrite_attrs(f, k),
    decreases k,
{
    if k > 0 {
        lemma_attrs_rewrites(f, k - 1, rws);
        lemma_reveal_attr_names();
    }
}

proof fn lemma_fields_rewrites(fs: Seq<FieldAst>, n: int)
    requires
        0 <= n <= fs.len(),
        fields_fold(fs, n) is Ok,
    ensures
        fields_fold(fs, n)->Ok_0.rewrites.len() == rewrite_fields(fs, n),
    decreases n,
{
    if n > 0 {
        lemma_fields_rewrites(fs, n - 1);
        let f = fs[n - 1];
        lemma_attrs_rewrites(f, f.attrs@.len() as int, fields_fold(fs, n - 1)->Ok_0.rewrites);
    }
}

/// Every rewrite of a derived schema comes from one `#[when(P, rewrite I)]`:
/// the schema has exactly as many rewrites as the struct has such
/// attributes, and a `#[when(P, I)]` without `rewrite` writes none.
pub proof fn law_rewrites_come_from_when(fs: Seq<FieldAst>)
    requires
        schema_spec(fs) is Ok,
    ensures
        schema_spec(fs)->Ok_0.rewrites.len() == rewrite_fields(fs, fs.len() as int),
{
    lemma_fields_rewrites(fs, fs.len() as int);
}



/// The attribute is none of those that make an `Option` field required or
/// pin its form or place (`#[required_if]`, `#[shape]`, `#[pos]`, `#[len]`).
pub open spec fn leaves_optional(a: AttrAst) -> bool {
    !is_ident_spec(a.path, "required_if"@) && !is_ident_spec(a.path, "shape"@) && !is_ident_spec(a.path, "pos"@)
        && !is_ident_spec(a.path, "len"@)
}

/// `I ∨ Absent`, or `when(P, I ∨ Absent)`.
pub open spec fn absent_allowed(x: InvM) -> bool {
    ||| x matches InvM::Any(v) && v.len() == 2 && v[1] == InvM::Absent
    ||| x matches InvM::When(_, b) && (*b matches InvM::Any(v) && v.len() == 2 && v[1] == InvM::Absent)
}

proof fn lemma_optional_attrs(f: FieldAst, k: int, rws: Seq<RwM>)
    requires
        0 <= k <= f.attrs@.len(),
        is_opt_ty(f.ty),
        forall|j: int| 0 <= j < k ==> leaves_optional(#[trigger] f.attrs@[j]),
        attrs_fold(f, k, rws) is Ok,
    ensures
        forall|j: int| 0 <= j < attrs_fold(f, k, rws)->Ok_0.0.len() ==> absent_allowed(#[trigger] attrs_fold(f, k, rws)->Ok_0.0[j]),
    decreases k,
{
    if k > 0 {
        lemma_optional_attrs(f, k - 1, rws);
        lemma_reveal_attr_names();
        assert(leaves_optional(f.attrs@[k - 1]));
        let (is, _) = attrs_fold(f, k - 1, rws)->Ok_0;
        let (is2, _) = attrs_fold(f, k, rws)->Ok_0;
        assert forall|j: int| 0 <= j < is2.len() implies absent_allowed(#[trigger] is2[j]) by {
            if j < is.len() {
                assert(is2[j] == is[j]);
            }
        }
    }
}

/// The `k`-th field of the schema comes from the `k`-th struct field.
pub open spec fn field_invs_from(f: FieldAst, rws: Seq<RwM>, fm: FieldM) -> bool {
    attrs_fold(f, f.attrs@.len() as int, rws) matches Ok((invs, _)) && fm.invs == invs
}

proof fn lemma_field_at(fs: Seq<FieldAst>, n: int, k: int)
    requires
        0 <= k < n <= fs.len(),
        fields_fold(fs, n) is Ok,
    ensures
        fields_fold(fs, n)->Ok_0.fields.len() == n,
        exists|rws: Seq<RwM>| #[trigger] field_invs_from(fs[k], rws, fields_fold(fs, n)->Ok_0.fields[k]),
    decreases n,
{
    if k < n - 1 {
        lemma_field_at(fs, n - 1, k);
        let rws = choose|rws: Seq<RwM>| #[trigger] field_invs_from(fs[k], rws, fields_fold(fs, n - 1)->Ok_0.fields[k]);
        assert(field_invs_from(fs[k], rws, fields_fold(fs, n)->Ok_0.fields[k]));
    } else {
        if n - 1 > 0 {
            lemma_field_at(fs, n - 1, 0);
        }
        let r = fields_fold(fs, n - 1)->Ok_0.rewrites;
        assert(field_invs_from(fs[k], r, fields_fold(fs, n)->Ok_0.fields[k]));
    }
}

/// An invariant of the form `I ∨ Absent` or `when(P, I ∨ Absent)` never
/// Fails on an absent field.
proof fn lemma_absent_allowed_passes(c: CtxV, f: Seq<char>, i: Invariant)
    requires
        absent_allowed(inv_m(i)),
        val_of(c, f) == Some(AbsV::Absent),
    ensures
        !is_fail(inv_spec(c, f, i)),
{
    match i {
        Invariant::Any(ps) => {
            lemma_invs_m_index(ps@);
            assert(inv_m(ps@[1]) == InvM::Absent);
            assert(ps@[1] == Invariant::Absent) by {
                match ps@[1] {
                    Invariant::Absent => {},
                    _ => {},
                }
            }
            assert(ps@ =~= seq![ps@[0], Invariant::Absent]);
            law_or_absent_passes_on_absent(c, f, ps@[0], ps);
        },
        Invariant::When { pred, then } => {
            lemma_pred_never_fails(c, pred);
            assert(inv_m(i) == InvM::When(crate::derive::pred_m(pred), Box::new(inv_m(*then))));
            match *then {
                Invariant::Any(ps) => {
                    assert(inv_m(*then) == InvM::Any(crate::derive::invs_m(ps@)));
                    lemma_invs_m_index(ps@);
                    assert(inv_m(ps@[1]) == InvM::Absent);
                    assert(ps@[1] == Invariant::Absent) by {
                        match ps@[1] {
                            Invariant::Absent => {},
                            _ => {},
                        }
                    }
                    assert(ps@ =~= seq![ps@[0], Invariant::Absent]);
                    law_or_absent_passes_on_absent(c, f, ps@[0], ps);
                },
                _ => {},
            }
        },
        _ => {},
    }
}

/// `Option<T>` may be missing unless `#[required_if(…)]` says otherwise: on
/// a derived schema, every invariant of a field that is an `Option` and
/// carries no `#[required_if]` (nor `#[shape]`, `#[pos]`, `#[len]`, which
/// pin its form or place) passes or is Undecidable when the field is
/// absent; it never Fails.
pub proof fn law_option_may_be_missing(fs: Seq<FieldAst>, s: Schema, name: Seq<char>, k: int, j: int, c: CtxV, f: Seq<char>)
    requires
        schema_spec(fs) is Ok,
        schema_is(s, name, schema_spec(fs)->Ok_0),
        0 <= k < fs.len(),
        is_opt_ty(fs[k].ty),
        forall|x: int| 0 <= x < fs[k].attrs@.len() ==> leaves_optional(#[trigger] fs[k].attrs@[x]),
        0 <= j < s.fields@[k].invariants@.len(),
        val_of(c, f) == Some(AbsV::Absent),
    ensures
        !is_fail(inv_spec(c, f, s.fields@[k].invariants@[j])),
{
    let m = schema_spec(fs)->Ok_0;
    lemma_field_at(fs, fs.len() as int, k);
    let rws = choose|rws: Seq<RwM>| #[trigger] field_invs_from(fs[k], rws, m.fields[k]);
    lemma_optional_attrs(fs[k], fs[k].attrs@.len() as int, rws);
    let fld = s.fields@[k];
    assert(s.fields@.map_values(|x: crate::ir::Field| crate::derive::field_m(x))[k] == crate::derive::field_m(fld));
    lemma_invs_m_index(fld.invariants@);
    assert(inv_m(fld.invariants@[j]) == m.fields[k].invs[j]);
    lemma_absent_allowed_passes(c, f, fld.invariants@[j]);
}



// ---------------------------------------------------------------------------
// Nothing observed, nothing failed.
// ---------------------------------------------------------------------------

/// No field of the state is observed, neither its value nor its geometry.
pub open spec fn nothing_observed(c: CtxV) -> bool {
    forall|f: Seq<char>| #[trigger] unobserved(c, f)
}

/// No invariant of the schema's fields holds an empty `Any`.
pub open spec fn schema_no_empty_any(s: Schema) -> bool {
    forall|i: int, j: int|
        0 <= i < s.fields@.len() && 0 <= j < s.fields@[i].invariants@.len() ==> no_empty_any(
            #[trigger] s.fields@[i].invariants@[j],
        )
}

proof fn lemma_push_not_fail(sname: Seq<char>, f: Seq<char>, site: Option<Seq<char>>, r: Result<(), ErrView>)
    requires
        !is_fail(r),
    ensures
        fails_of(push_spec(sname, f, site, r)).len() == 0,
{
    let p = push_spec(sname, f, site, r);
    match r {
        Ok(()) => {
            assert(p =~= Seq::<FindingV>::empty());
        },
        Err(ErrView::Undecidable(m)) => {
            assert(p.len() == 1);
            assert(p.last().kind == FindingKind::Undecidable);
            assert(p.drop_last() =~= Seq::<FindingV>::empty());
            assert(fails_of(p) == fails_of(p.drop_last()));
        },
        Err(ErrView::Fail(_)) => {},
    }
}

proof fn lemma_prop_unobserved(sname: Seq<char>, f: Seq<char>, p: Invariant, c: CtxV, site: Option<Seq<char>>)
    requires
        unobserved(c, f),
        nothing_observed(c),
        no_empty_any(p),
    ensures
        fails_of(prop_spec(sname, f, p, c, site)).len() == 0,
{
    law_unobserved_never_fails(c, f, p);
    match p {
        Invariant::Nested(inner) => {
            lemma_push_not_fail(inner.name@, f, site, Err(ErrView::Undecidable("nested "@ + crate::check::tick(inner.name@) + ": "@ + crate::check::tick(f) + " unobserved"@)));
        },
        Invariant::Any(xs) => {
            match crate::check::opt_nested_scan(xs@, 0, None, false) {
                Some(k) => {
                    if 0 <= k < xs@.len() {
                        match xs@[k] {
                            Invariant::Nested(inner) => {
                                lemma_push_not_fail(inner.name@, f, site, Err(ErrView::Undecidable("nested "@ + crate::check::tick(inner.name@) + ": "@ + crate::check::tick(f) + " unobserved"@)));
                            },
                            _ => {},
                        }
                    }
                },
                None => {
                    lemma_push_not_fail(sname, f, site, expanded_spec(c, f, p));
                },
            }
        },
        Invariant::When { pred, then } => {
            match pred {
                Predicate::Eq { field, .. } => {
                    assert(unobserved(c, field@));
                },
                Predicate::In { field, .. } => {
                    assert(unobserved(c, field@));
                },
                _ => {},
            }
            lemma_push_not_fail(sname, f, site, expanded_spec(c, f, p));
        },
        _ => {
            lemma_push_not_fail(sname, f, site, expanded_spec(c, f, p));
        },
    }
}

proof fn lemma_props_unobserved(s: Schema, c: CtxV, site: Option<Seq<char>>, i: int, j: int)
    requires
        0 <= i < s.fields@.len(),
        0 <= j,
        nothing_observed(c),
        schema_no_empty_any(s),
    ensures
        fails_of(props_spec(s, c, site, i, j)).len() == 0,
    decreases s.fields@[i].invariants@.len() - j,
{
    if j < s.fields@[i].invariants@.len() {
        assert(unobserved(c, s.fields@[i].name@));
        assert(no_empty_any(s.fields@[i].invariants@[j]));
        lemma_prop_unobserved(s.name@, s.fields@[i].name@, s.fields@[i].invariants@[j], c, site);
        lemma_props_unobserved(s, c, site, i, j + 1);
        law_fails_of_concat(
            prop_spec(s.name@, s.fields@[i].name@, s.fields@[i].invariants@[j], c, site),
            props_spec(s, c, site, i, j + 1),
        );
    }
}

proof fn lemma_fields_unobserved(s: Schema, c: CtxV, site: Option<Seq<char>>, i: int)
    requires
        0 <= i,
        nothing_observed(c),
        schema_no_empty_any(s),
    ensures
        fails_of(fields_spec(s, c, site, i)).len() == 0,
    decreases s.fields@.len() - i,
{
    if i < s.fields@.len() {
        let fd = s.fields@[i];
        lemma_props_unobserved(s, c, site, i, 0);
        assert(unobserved(c, fd.name@));
        let w = wire_spec(s.name@, fd, c, site);
        assert(fails_of(w).len() == 0) by {
            match fd.wire {
                None => {},
                Some(wm) => {
                    let a = match wm.pos {
                        Some(pos) => push_spec(s.name@, fd.name@, site, crate::check::at_spec(c, fd.name@, pos)),
                        None => Seq::empty(),
                    };
                    let b = match wm.len {
                        Some(len) => push_spec(s.name@, fd.name@, site, crate::check::width_spec(c, fd.name@, len)),
                        None => Seq::empty(),
                    };
                    match wm.pos {
                        Some(pos) => lemma_push_not_fail(s.name@, fd.name@, site, crate::check::at_spec(c, fd.name@, pos)),
                        None => {},
                    }
                    match wm.len {
                        Some(len) => lemma_push_not_fail(s.name@, fd.name@, site, crate::check::width_spec(c, fd.name@, len)),
                        None => {},
                    }
                    law_fails_of_concat(a, b);
                },
            }
        }
        law_fails_of_concat(props_spec(s, c, site, i, 0), w);
        lemma_fields_unobserved(s, c, site, i + 1);
        law_fails_of_concat(field_spec(s, c, site, i), fields_spec(s, c, site, i + 1));
    }
}

proof fn lemma_no_spans(fields: Seq<crate::ir::Field>, c: CtxV, i: int)
    requires
        0 <= i,
        nothing_observed(c),
    ensures
        spans_from(fields, c.wire, i).len() == 0,
    decreases fields.len() - i,
{
    if i < fields.len() {
        assert(unobserved(c, fields[i].name@));
        lemma_no_spans(fields, c, i + 1);
    }
}

/// Unobserved is not Absent, for a whole schema: on a state where nothing
/// is observed, evaluating a schema (with no empty `Any`) finds no Fail;
/// every finding is Undecidable.
pub proof fn law_nothing_observed_never_fails(s: Schema, c: CtxV, site: Option<Seq<char>>)
    requires
        nothing_observed(c),
        schema_no_empty_any(s),
    ensures
        fails_of(crate::check::schema_spec(s, c, site)).len() == 0,
{
    lemma_fields_unobserved(s, c, site, 0);
    lemma_no_spans(s.fields@, c, 0);
    lemma_push_not_fail(s.name@, "*"@, site, tiling_spec(s, c));
    law_fails_of_concat(fields_spec(s, c, site, 0), push_spec(s.name@, "*"@, site, tiling_spec(s, c)));
}



/// The span at `k` is off the tape or overlaps an earlier one.
pub open spec fn bad_span(sp: Seq<(Seq<char>, nat, nat)>, n: nat, k: int) -> bool {
    sp[k].1 == 0 || sp[k].1 - 1 + sp[k].2 > n || overlaps_before(sp, k)
}

proof fn lemma_tile_fails_from(sp: Seq<(Seq<char>, nat, nat)>, n: nat, j: int, k: int)
    requires
        0 <= j <= k < sp.len(),
        bad_span(sp, n, k),
    ensures
        tile_spec(sp, n, j) matches Err(ErrView::Fail(_)),
    decreases k - j,
{
    if !bad_span(sp, n, j) {
        lemma_tile_fails_from(sp, n, j + 1, k);
    }
}

proof fn lemma_tile_never_undecidable(sp: Seq<(Seq<char>, nat, nat)>, n: nat, j: int)
    requires
        0 <= j,
    ensures
        !(tile_spec(sp, n, j) matches Err(ErrView::Undecidable(_))),
    decreases sp.len() - j,
{
    if j < sp.len() {
        lemma_tile_never_undecidable(sp, n, j + 1);
    }
}

/// The converse of padding: a span that starts at 0, runs past the width,
/// or overlaps an earlier span fails the tiling check. The check is never
/// Undecidable.
pub proof fn law_tiling_fails_on_bad_span(sp: Seq<(Seq<char>, nat, nat)>, n: nat, k: int)
    requires
        0 <= k < sp.len(),
        bad_span(sp, n, k),
    ensures
        tile_spec(sp, n, 0) matches Err(ErrView::Fail(_)),
{
    lemma_tile_fails_from(sp, n, 0, k);
}

/// The tiling check only passes or Fails.
pub proof fn law_tiling_decides(sp: Seq<(Seq<char>, nat, nat)>, n: nat)
    ensures
        !(tile_spec(sp, n, 0) matches Err(ErrView::Undecidable(_))),
{
    lemma_tile_never_undecidable(sp, n, 0);
}



// ---------------------------------------------------------------------------
// `Any`, `All`, `when`.
// ---------------------------------------------------------------------------

proof fn lemma_any_pass_from(c: CtxV, f: Seq<char>, ps: Vec<Invariant>, i: int, k: int, lf: ErrView, und: Option<ErrView>)
    requires
        0 <= i <= k < ps@.len(),
        inv_spec(c, f, ps@[k]) == Ok::<(), ErrView>(()),
    ensures
        any_spec(c, f, ps, i, lf, und) == Ok::<(), ErrView>(()),
    decreases k - i,
{
    if i < k {
        match inv_spec(c, f, ps@[i]) {
            Ok(()) => {},
            Err(ErrView::Undecidable(m)) => lemma_any_pass_from(c, f, ps, i + 1, k, lf, Some(ErrView::Undecidable(m))),
            Err(e) => lemma_any_pass_from(c, f, ps, i + 1, k, e, und),
        }
    }
}

/// `Any` passes when one of its arms passes.
pub proof fn law_any_passes_with_one(c: CtxV, f: Seq<char>, ps: Vec<Invariant>, k: int)
    requires
        0 <= k < ps@.len(),
        inv_spec(c, f, ps@[k]) == Ok::<(), ErrView>(()),
    ensures
        inv_spec(c, f, Invariant::Any(ps)) == Ok::<(), ErrView>(()),
{
    lemma_any_pass_from(c, f, ps, 0, k, ErrView::Fail("Invariant any: empty"@), None);
}

proof fn lemma_any_und_from(c: CtxV, f: Seq<char>, ps: Vec<Invariant>, i: int, lf: ErrView, und: Option<ErrView>)
    requires
        0 <= i <= ps@.len(),
        forall|k: int| i <= k < ps@.len() ==> (#[trigger] inv_spec(c, f, ps@[k])) is Err,
        (und matches Some(ErrView::Undecidable(_))) || exists|k: int| i <= k < ps@.len() && (#[trigger] inv_spec(c, f, ps@[k])) matches Err(ErrView::Undecidable(_)),
        und is None || (und matches Some(ErrView::Undecidable(_))),
    ensures
        any_spec(c, f, ps, i, lf, und) matches Err(ErrView::Undecidable(_)),
    decreases ps@.len() - i,
{
    if i < ps@.len() {
        assert(inv_spec(c, f, ps@[i]) is Err);
        match inv_spec(c, f, ps@[i]) {
            Ok(()) => {},
            Err(ErrView::Undecidable(m)) => lemma_any_und_from(c, f, ps, i + 1, lf, Some(ErrView::Undecidable(m))),
            Err(e) => {
                if !(und matches Some(ErrView::Undecidable(_))) {
                    let k = choose|k: int| i <= k < ps@.len() && (#[trigger] inv_spec(c, f, ps@[k])) matches Err(ErrView::Undecidable(_));
                    assert(k != i);
                }
                lemma_any_und_from(c, f, ps, i + 1, e, und);
            },
        }
    }
}

/// A Fail arm never masks an Undecidable arm: when no arm of `Any` passes
/// and some arm is Undecidable, `Any` is Undecidable.
pub proof fn law_any_undecidable_not_masked(c: CtxV, f: Seq<char>, ps: Vec<Invariant>, k: int)
    requires
        0 <= k < ps@.len(),
        forall|j: int| 0 <= j < ps@.len() ==> (#[trigger] inv_spec(c, f, ps@[j])) is Err,
        inv_spec(c, f, ps@[k]) matches Err(ErrView::Undecidable(_)),
    ensures
        inv_spec(c, f, Invariant::Any(ps)) matches Err(ErrView::Undecidable(_)),
{
    lemma_any_und_from(c, f, ps, 0, ErrView::Fail("Invariant any: empty"@), None);
}

proof fn lemma_any_fail_from(c: CtxV, f: Seq<char>, ps: Vec<Invariant>, i: int, lf: ErrView)
    requires
        0 <= i <= ps@.len(),
        lf is Fail,
        forall|k: int| i <= k < ps@.len() ==> (#[trigger] inv_spec(c, f, ps@[k])) matches Err(ErrView::Fail(_)),
    ensures
        any_spec(c, f, ps, i, lf, None) matches Err(ErrView::Fail(_)),
    decreases ps@.len() - i,
{
    if i < ps@.len() {
        assert(inv_spec(c, f, ps@[i]) matches Err(ErrView::Fail(_)));
        lemma_any_fail_from(c, f, ps, i + 1, inv_spec(c, f, ps@[i])->Err_0);
    }
}

/// `Any` Fails when every arm Fails (and when it has no arm).
pub proof fn law_any_fails_when_all_fail(c: CtxV, f: Seq<char>, ps: Vec<Invariant>)
    requires
        forall|k: int| 0 <= k < ps@.len() ==> (#[trigger] inv_spec(c, f, ps@[k])) matches Err(ErrView::Fail(_)),
    ensures
        inv_spec(c, f, Invariant::Any(ps)) matches Err(ErrView::Fail(_)),
{
    lemma_any_fail_from(c, f, ps, 0, ErrView::Fail("Invariant any: empty"@));
}

proof fn lemma_all_from(c: CtxV, f: Seq<char>, ps: Vec<Invariant>, i: int)
    requires
        0 <= i <= ps@.len(),
    ensures
        (forall|k: int| i <= k < ps@.len() ==> (#[trigger] inv_spec(c, f, ps@[k])) is Ok) ==> all_spec(c, f, ps, i) is Ok,
        forall|k: int| i <= k < ps@.len() && (#[trigger] inv_spec(c, f, ps@[k])) is Err
            && (forall|j: int| i <= j < k ==> inv_spec(c, f, ps@[j]) is Ok) ==> all_spec(c, f, ps, i) == inv_spec(c, f, ps@[k]),
    decreases ps@.len() - i,
{
    if i < ps@.len() {
        lemma_all_from(c, f, ps, i + 1);
        assert forall|k: int| i <= k < ps@.len() && (#[trigger] inv_spec(c, f, ps@[k])) is Err
            && (forall|j: int| i <= j < k ==> inv_spec(c, f, ps@[j]) is Ok) implies all_spec(c, f, ps, i) == inv_spec(c, f, ps@[k]) by {
            if k > i {
                assert(inv_spec(c, f, ps@[i]) is Ok);
            }
        }
    }
}

/// `All` passes when every part passes (an empty `All` passes); otherwise
/// it gives the error of the first part in order that errs.
pub proof fn law_all_first_error(c: CtxV, f: Seq<char>, ps: Vec<Invariant>)
    ensures
        (forall|k: int| 0 <= k < ps@.len() ==> (#[trigger] inv_spec(c, f, ps@[k])) is Ok) ==> inv_spec(c, f, Invariant::All(ps)) is Ok,
        forall|k: int| 0 <= k < ps@.len() && (#[trigger] inv_spec(c, f, ps@[k])) is Err
            && (forall|j: int| 0 <= j < k ==> inv_spec(c, f, ps@[j]) is Ok) ==> inv_spec(c, f, Invariant::All(ps)) == inv_spec(c, f, ps@[k]),
{
    lemma_all_from(c, f, ps, 0);
}

/// `when(P, I)`: a false gate passes, a true gate gives `I`, an undecided
/// gate is Undecidable (never Pass, never Fail).
pub proof fn law_when_gate(c: CtxV, f: Seq<char>, pred: Predicate, then: Box<Invariant>)
    ensures
        inv_spec(c, f, Invariant::When { pred, then }) == match pred_spec(c, pred) {
            Ok(false) => Ok(()),
            Ok(true) => inv_spec(c, f, *then),
            Err(e) => Err(e),
        },
        pred_spec(c, pred) is Err ==> inv_spec(c, f, Invariant::When { pred, then }) matches Err(ErrView::Undecidable(_)),
{
    lemma_pred_never_fails(c, pred);
}



// ---------------------------------------------------------------------------
// Where findings are put.
// ---------------------------------------------------------------------------

proof fn lemma_sited_schema(s: Schema, c: CtxV, site: Option<Seq<char>>)
    ensures
        all_sited(crate::check::schema_spec(s, c, site), site),
    decreases s, 7nat, AbsV::Unknown, 0int,
{
    lemma_sited_fields(s, c, site, 0);
    lemma_push_placed(s.name@, "*"@, site, tiling_spec(s, c));
    lemma_sited_concat(fields_spec(s, c, site, 0), push_spec(s.name@, "*"@, site, tiling_spec(s, c)), site);
}

proof fn lemma_sited_fields(s: Schema, c: CtxV, site: Option<Seq<char>>, i: int)
    ensures
        all_sited(fields_spec(s, c, site, i), site),
    decreases s, 6nat, AbsV::Unknown, s.fields@.len() - i,
{
    if 0 <= i < s.fields@.len() {
        lemma_sited_field(s, c, site, i);
        lemma_sited_fields(s, c, site, i + 1);
        lemma_sited_concat(field_spec(s, c, site, i), fields_spec(s, c, site, i + 1), site);
    }
}

proof fn lemma_sited_field(s: Schema, c: CtxV, site: Option<Seq<char>>, i: int)
    requires
        0 <= i < s.fields@.len(),
    ensures
        all_sited(field_spec(s, c, site, i), site),
        all_under(field_spec(s, c, site, i), s.fields@[i].name@),
    decreases s, 5nat, AbsV::Unknown, 0int,
{
    lemma_sited_props(s, c, site, i, 0);
    let fd = s.fields@[i];
    lemma_sited_wire(s.name@, fd, c, site);
    let w = wire_spec(s.name@, fd, c, site);
    assert(all_under(w, fd.name@)) by {
        assert forall|k: int| 0 <= k < w.len() implies fd.name@.is_prefix_of((#[trigger] w[k]).field) by {
            assert(w[k].field == fd.name@);
            assert(fd.name@.subrange(0, fd.name@.len() as int) =~= fd.name@);
        }
    }
    lemma_sited_concat(props_spec(s, c, site, i, 0), w, site);
    lemma_under_concat(props_spec(s, c, site, i, 0), w, fd.name@);
}

proof fn lemma_sited_props(s: Schema, c: CtxV, site: Option<Seq<char>>, i: int, j: int)
    requires
        0 <= i < s.fields@.len(),
    ensures
        all_sited(props_spec(s, c, site, i, j), site),
        all_under(props_spec(s, c, site, i, j), s.fields@[i].name@),
    decreases s, 4nat, AbsV::Unknown, s.fields@[i].invariants@.len() - j,
{
    if 0 <= j < s.fields@[i].invariants@.len() {
        assert(decreases_to!(s => s.fields));
        assert(decreases_to!(s.fields@ => s.fields@[i]));
        assert(decreases_to!(s.fields@[i] => s.fields@[i].invariants));
        assert(decreases_to!(s.fields@[i].invariants@ => s.fields@[i].invariants@[j]));
        let p = s.fields@[i].invariants@[j];
        lemma_sited_prop(s.name@, s.fields@[i].name@, p, c, site);
        lemma_sited_props(s, c, site, i, j + 1);
        lemma_sited_concat(prop_spec(s.name@, s.fields@[i].name@, p, c, site), props_spec(s, c, site, i, j + 1), site);
        lemma_under_concat(prop_spec(s.name@, s.fields@[i].name@, p, c, site), props_spec(s, c, site, i, j + 1), s.fields@[i].name@);
    }
}

proof fn lemma_sited_prop(sname: Seq<char>, f: Seq<char>, p: Invariant, c: CtxV, site: Option<Seq<char>>)
    ensures
        all_sited(prop_spec(sname, f, p, c, site), site),
        all_under(prop_spec(sname, f, p, c, site), f),
    decreases p, 3nat, AbsV::Unknown, 0int,
{
    match p {
        Invariant::Any(xs) => match crate::check::opt_nested_scan(xs@, 0, None, false) {
            Some(k) => if 0 <= k < xs@.len() {
                match xs@[k] {
                    Invariant::Nested(inner) => {
                        assert(decreases_to!(p => xs));
                        assert(decreases_to!(xs@ => xs@[k]));
                        if crate::check::val_of(c, f) != Some(AbsV::Absent) {
                            lemma_sited_walk(c, f, *inner, site);
                        }
                    },
                    _ => {},
                }
            },
            None => {
                lemma_push_placed(sname, f, site, expanded_spec(c, f, p));
                lemma_push_under(sname, f, site, expanded_spec(c, f, p));
            },
        },
        Invariant::Nested(inner) => {
            lemma_sited_walk(c, f, *inner, site);
        },
        _ => {
            lemma_push_placed(sname, f, site, expanded_spec(c, f, p));
            lemma_push_under(sname, f, site, expanded_spec(c, f, p));
        },
    }
}

proof fn lemma_sited_walk(c: CtxV, f: Seq<char>, inner: Schema, site: Option<Seq<char>>)
    ensures
        all_sited(walk_spec(c, f, inner, site), site),
        all_under(walk_spec(c, f, inner, site), f),
    decreases inner, 9nat, AbsV::Unknown, 0int,
{
    match crate::check::val_of(c, f) {
        None => {
            let r = Err(ErrView::Undecidable("nested "@ + crate::check::tick(inner.name@) + ": "@ + crate::check::tick(f) + " unobserved"@));
            lemma_push_placed(inner.name@, f, site, r);
            lemma_push_under(inner.name@, f, site, r);
        },
        Some(v) => lemma_sited_walk_val(f, v, inner, site),
    }
}

proof fn lemma_sited_walk_val(path: Seq<char>, v: AbsV, inner: Schema, site: Option<Seq<char>>)
    ensures
        all_sited(walk_val_spec(path, v, inner, site), site),
        all_under(walk_val_spec(path, v, inner, site), path),
    decreases inner, 8nat, v, (match v { AbsV::Array(xs) => xs.len() + 1, _ => 0 }),
{
    match v {
        AbsV::Record(m) => {
            lemma_sited_schema(inner, record_ctx(m), site);
            lemma_prefix_placed(path, crate::check::schema_spec(inner, record_ctx(m), site), site);
        },
        AbsV::Array(xs) => {
            lemma_sited_walk_arr(path, v, 0, inner, site);
        },
        AbsV::Absent => {
            let r = Err(ErrView::Fail("nested "@ + crate::check::tick(inner.name@) + " failed: "@ + crate::check::tick(path) + " is absent"@));
            lemma_push_placed(inner.name@, path, site, r);
            lemma_push_under(inner.name@, path, site, r);
        },
        AbsV::Unknown => {
            let r = Err(ErrView::Undecidable("nested "@ + crate::check::tick(inner.name@) + " on "@ + crate::check::tick(path) + ": Unknown"@));
            lemma_push_placed(inner.name@, path, site, r);
            lemma_push_under(inner.name@, path, site, r);
        },
        _ => {
            let r = Err(ErrView::Fail("nested "@ + crate::check::tick(inner.name@) + " failed: "@ + crate::check::tick(path) + " is not a record"@));
            lemma_push_placed(inner.name@, path, site, r);
            lemma_push_under(inner.name@, path, site, r);
        },
    }
}

proof fn lemma_sited_walk_arr(path: Seq<char>, v: AbsV, i: int, inner: Schema, site: Option<Seq<char>>)
    ensures
        all_sited(walk_arr_spec(path, v, i, inner, site), site),
        all_under(walk_arr_spec(path, v, i, inner, site), path),
    decreases inner, 8nat, v, (match v { AbsV::Array(xs) => xs.len() - i, _ => 0 }),
{
    match v {
        AbsV::Array(xs) => if 0 <= i < xs.len() {
            let sub = path + "["@ + crate::text::dec_text(i as nat) + "]"@;
            assert(decreases_to!(v => xs));
            assert(decreases_to!(xs => xs[i]));
            lemma_sited_walk_val(sub, xs[i], inner, site);
            assert(sub == path + ("["@ + crate::text::dec_text(i as nat) + "]"@));
            lemma_under_extend(walk_val_spec(sub, xs[i], inner, site), path, "["@ + crate::text::dec_text(i as nat) + "]"@);
            lemma_sited_walk_arr(path, v, i + 1, inner, site);
            lemma_sited_concat(walk_val_spec(sub, xs[i], inner, site), walk_arr_spec(path, v, i + 1, inner, site), site);
            lemma_under_concat(walk_val_spec(sub, xs[i], inner, site), walk_arr_spec(path, v, i + 1, inner, site), path);
        },
        _ => {},
    }
}

/// Where a schema's findings are put: every finding carries the site label
/// it was evaluated under, and names either the whole record (`*`) or a
/// path that starts with the name of one of the schema's fields.
pub proof fn law_findings_sited_and_under_fields(s: Schema, c: CtxV, site: Option<Seq<char>>)
    ensures
        all_sited(crate::check::schema_spec(s, c, site), site),
        forall|k: int| 0 <= k < crate::check::schema_spec(s, c, site).len() ==> {
            let fd = (#[trigger] crate::check::schema_spec(s, c, site)[k]).field;
            fd == "*"@ || exists|i: int| 0 <= i < s.fields@.len() && (#[trigger] s.fields@[i]).name@.is_prefix_of(fd)
        },
{
    lemma_sited_schema(s, c, site);
    lemma_under_fields(s, c, site, 0);
    let a = fields_spec(s, c, site, 0);
    let b = push_spec(s.name@, "*"@, site, tiling_spec(s, c));
    lemma_push_placed(s.name@, "*"@, site, tiling_spec(s, c));
    let all = crate::check::schema_spec(s, c, site);
    assert(all == a + b);
    assert forall|k: int| 0 <= k < all.len() implies {
        let fd = (#[trigger] all[k]).field;
        fd == "*"@ || exists|i: int| 0 <= i < s.fields@.len() && (#[trigger] s.fields@[i]).name@.is_prefix_of(fd)
    } by {
        if k < a.len() {
            assert(all[k] == a[k]);
        } else {
            assert(all[k] == b[k - a.len()]);
        }
    }
}

/// The findings of fields `i` on each lie under one of those fields.
proof fn lemma_under_fields(s: Schema, c: CtxV, site: Option<Seq<char>>, i: int)
    requires
        0 <= i,
    ensures
        forall|k: int| 0 <= k < fields_spec(s, c, site, i).len() ==> exists|x: int|
            0 <= x < s.fields@.len() && (#[trigger] s.fields@[x]).name@.is_prefix_of((#[trigger] fields_spec(s, c, site, i)[k]).field),
    decreases s.fields@.len() - i,
{
    if i < s.fields@.len() {
        lemma_sited_field(s, c, site, i);
        lemma_under_fields(s, c, site, i + 1);
        let a = field_spec(s, c, site, i);
        let b = fields_spec(s, c, site, i + 1);
        let all = fields_spec(s, c, site, i);
        assert(all == a + b);
        assert forall|k: int| 0 <= k < all.len() implies exists|x: int|
            0 <= x < s.fields@.len() && (#[trigger] s.fields@[x]).name@.is_prefix_of((#[trigger] all[k]).field) by {
            if k < a.len() {
                assert(all[k] == a[k]);
                assert(s.fields@[i].name@.is_prefix_of(a[k].field));
            } else {
                assert(all[k] == b[k - a.len()]);
            }
        }
    }
}

} // verus!

verus! {

// ---------------------------------------------------------------------------
// Closed forms of the combinators.
// ---------------------------------------------------------------------------

proof fn lemma_any_tail_fails(c: CtxV, f: Seq<char>, ps: Vec<Invariant>, i: int, lf: ErrView, und: Option<ErrView>)
    requires
        0 <= i <= ps@.len(),
        forall|k: int| i <= k < ps@.len() ==> (#[trigger] inv_spec(c, f, ps@[k])) matches Err(ErrView::Fail(_)),
    ensures
        any_spec(c, f, ps, i, lf, und) == match und {
            Some(e) => Err::<(), ErrView>(e),
            None => if i < ps@.len() {
                inv_spec(c, f, ps@[ps@.len() - 1])
            } else {
                Err::<(), ErrView>(lf)
            },
        },
    decreases ps@.len() - i,
{
    if i < ps@.len() {
        assert(inv_spec(c, f, ps@[i]) matches Err(ErrView::Fail(_)));
        lemma_any_tail_fails(c, f, ps, i + 1, inv_spec(c, f, ps@[i])->Err_0, und);
    }
}

proof fn lemma_any_last_und(c: CtxV, f: Seq<char>, ps: Vec<Invariant>, i: int, lf: ErrView, und: Option<ErrView>, k: int)
    requires
        0 <= i <= k < ps@.len(),
        forall|j: int| i <= j < ps@.len() ==> (#[trigger] inv_spec(c, f, ps@[j])) is Err,
        inv_spec(c, f, ps@[k]) matches Err(ErrView::Undecidable(_)),
        forall|j: int| k < j < ps@.len() ==> (#[trigger] inv_spec(c, f, ps@[j])) matches Err(ErrView::Fail(_)),
    ensures
        any_spec(c, f, ps, i, lf, und) == inv_spec(c, f, ps@[k]),
    decreases k - i,
{
    assert(inv_spec(c, f, ps@[i]) is Err);
    if i < k {
        match inv_spec(c, f, ps@[i]) {
            Ok(()) => {},
            Err(ErrView::Undecidable(m)) => lemma_any_last_und(c, f, ps, i + 1, lf, Some(ErrView::Undecidable(m)), k),
            Err(e) => lemma_any_last_und(c, f, ps, i + 1, e, und, k),
        }
    } else {
        let m = inv_spec(c, f, ps@[k])->Err_0->Undecidable_0;
        lemma_any_tail_fails(c, f, ps, k + 1, lf, Some(ErrView::Undecidable(m)));
    }
}

/// `Any`, in closed form: when no arm passes, the result is the last
/// Undecidable arm's, if some arm is Undecidable (a Fail never masks it);
/// otherwise the last arm's Fail, or `Invariant any: empty` for no arm.
pub proof fn law_any_closed_form(c: CtxV, f: Seq<char>, ps: Vec<Invariant>)
    ensures
        forall|k: int| 0 <= k < ps@.len() && (#[trigger] inv_spec(c, f, ps@[k])) == Ok::<(), ErrView>(())
            ==> inv_spec(c, f, Invariant::Any(ps)) == Ok::<(), ErrView>(()),
        forall|k: int|
            0 <= k < ps@.len() && (forall|j: int| 0 <= j < ps@.len() ==> (#[trigger] inv_spec(c, f, ps@[j])) is Err)
                && ((#[trigger] inv_spec(c, f, ps@[k])) matches Err(ErrView::Undecidable(_)))
                && (forall|j: int| k < j < ps@.len() ==> (#[trigger] inv_spec(c, f, ps@[j])) matches Err(ErrView::Fail(_)))
            ==> inv_spec(c, f, Invariant::Any(ps)) == inv_spec(c, f, ps@[k]),
        ps@.len() > 0 && (forall|j: int| 0 <= j < ps@.len() ==> (#[trigger] inv_spec(c, f, ps@[j])) matches Err(ErrView::Fail(_)))
            ==> inv_spec(c, f, Invariant::Any(ps)) == inv_spec(c, f, ps@[ps@.len() - 1]),
        ps@.len() == 0 ==> inv_spec(c, f, Invariant::Any(ps)) == Err::<(), ErrView>(ErrView::Fail("Invariant any: empty"@)),
{
    let lf = ErrView::Fail("Invariant any: empty"@);
    assert forall|k: int| 0 <= k < ps@.len() && (#[trigger] inv_spec(c, f, ps@[k])) == Ok::<(), ErrView>(())
        implies inv_spec(c, f, Invariant::Any(ps)) == Ok::<(), ErrView>(()) by {
        law_any_passes_with_one(c, f, ps, k);
    }
    assert forall|k: int|
        0 <= k < ps@.len() && (forall|j: int| 0 <= j < ps@.len() ==> (#[trigger] inv_spec(c, f, ps@[j])) is Err)
            && ((#[trigger] inv_spec(c, f, ps@[k])) matches Err(ErrView::Undecidable(_)))
            && (forall|j: int| k < j < ps@.len() ==> (#[trigger] inv_spec(c, f, ps@[j])) matches Err(ErrView::Fail(_)))
        implies inv_spec(c, f, Invariant::Any(ps)) == inv_spec(c, f, ps@[k]) by {
        lemma_any_last_und(c, f, ps, 0, lf, None, k);
    }
    if ps@.len() > 0 && (forall|j: int| 0 <= j < ps@.len() ==> (#[trigger] inv_spec(c, f, ps@[j])) matches Err(ErrView::Fail(_))) {
        lemma_any_tail_fails(c, f, ps, 0, lf, None);
    }
}

proof fn lemma_and_from(c: CtxV, xs: Vec<Predicate>, i: int)
    requires
        0 <= i <= xs@.len(),
    ensures
        (forall|k: int| i <= k < xs@.len() ==> (#[trigger] pred_spec(c, xs@[k])) == Ok::<bool, ErrView>(true))
            ==> and_spec(c, xs, i) == Ok::<bool, ErrView>(true),
        forall|k: int| i <= k < xs@.len() && (#[trigger] pred_spec(c, xs@[k])) != Ok::<bool, ErrView>(true)
            && (forall|j: int| i <= j < k ==> pred_spec(c, xs@[j]) == Ok::<bool, ErrView>(true))
            ==> and_spec(c, xs, i) == pred_spec(c, xs@[k]),
    decreases xs@.len() - i,
{
    if i < xs@.len() {
        lemma_and_from(c, xs, i + 1);
        assert forall|k: int| i <= k < xs@.len() && (#[trigger] pred_spec(c, xs@[k])) != Ok::<bool, ErrView>(true)
            && (forall|j: int| i <= j < k ==> pred_spec(c, xs@[j]) == Ok::<bool, ErrView>(true))
            implies and_spec(c, xs, i) == pred_spec(c, xs@[k]) by {
            if k > i {
                assert(pred_spec(c, xs@[i]) == Ok::<bool, ErrView>(true));
            }
        }
    }
}

proof fn lemma_or_from(c: CtxV, xs: Vec<Predicate>, i: int)
    requires
        0 <= i <= xs@.len(),
    ensures
        (forall|k: int| i <= k < xs@.len() ==> (#[trigger] pred_spec(c, xs@[k])) == Ok::<bool, ErrView>(false))
            ==> or_spec(c, xs, i) == Ok::<bool, ErrView>(false),
        forall|k: int| i <= k < xs@.len() && (#[trigger] pred_spec(c, xs@[k])) != Ok::<bool, ErrView>(false)
            && (forall|j: int| i <= j < k ==> pred_spec(c, xs@[j]) == Ok::<bool, ErrView>(false))
            ==> or_spec(c, xs, i) == pred_spec(c, xs@[k]),
    decreases xs@.len() - i,
{
    if i < xs@.len() {
        lemma_or_from(c, xs, i + 1);
        assert forall|k: int| i <= k < xs@.len() && (#[trigger] pred_spec(c, xs@[k])) != Ok::<bool, ErrView>(false)
            && (forall|j: int| i <= j < k ==> pred_spec(c, xs@[j]) == Ok::<bool, ErrView>(false))
            implies or_spec(c, xs, i) == pred_spec(c, xs@[k]) by {
            if k > i {
                assert(pred_spec(c, xs@[i]) == Ok::<bool, ErrView>(false));
            }
        }
    }
}

/// `And` and `Or`, in closed form. `And` is true when every part is true
/// (an empty `And` is true); otherwise it is the first part, in order, that
/// is not true: its `false` or its error. `Or` is false when every part is
/// false (an empty `Or` is false); otherwise it is the first part that is
/// not false: its `true` or its error.
pub proof fn law_and_or_closed_form(c: CtxV, xs: Vec<Predicate>)
    ensures
        (forall|k: int| 0 <= k < xs@.len() ==> (#[trigger] pred_spec(c, xs@[k])) == Ok::<bool, ErrView>(true))
            ==> pred_spec(c, Predicate::And(xs)) == Ok::<bool, ErrView>(true),
        forall|k: int| 0 <= k < xs@.len() && (#[trigger] pred_spec(c, xs@[k])) != Ok::<bool, ErrView>(true)
            && (forall|j: int| 0 <= j < k ==> pred_spec(c, xs@[j]) == Ok::<bool, ErrView>(true))
            ==> pred_spec(c, Predicate::And(xs)) == pred_spec(c, xs@[k]),
        (forall|k: int| 0 <= k < xs@.len() ==> (#[trigger] pred_spec(c, xs@[k])) == Ok::<bool, ErrView>(false))
            ==> pred_spec(c, Predicate::Or(xs)) == Ok::<bool, ErrView>(false),
        forall|k: int| 0 <= k < xs@.len() && (#[trigger] pred_spec(c, xs@[k])) != Ok::<bool, ErrView>(false)
            && (forall|j: int| 0 <= j < k ==> pred_spec(c, xs@[j]) == Ok::<bool, ErrView>(false))
            ==> pred_spec(c, Predicate::Or(xs)) == pred_spec(c, xs@[k]),
{
    lemma_and_from(c, xs, 0);
    lemma_or_from(c, xs, 0);
}

/// `defined` and `not` as predicates: an unobserved field is undecided, an
/// explicit Absent is `false`, any other photo `true`; `not` flips a
/// decided answer and passes an error on.
pub proof fn law_pred_defined_not(c: CtxV, field: String, x: Box<Predicate>)
    ensures
        pred_spec(c, Predicate::Defined { field }) == match val_of(c, field@) {
            None => Err::<bool, ErrView>(ErrView::Undecidable("Predicate "@ + field@ + " defined: unobserved"@)),
            Some(AbsValV::Absent) => Ok(false),
            Some(_) => Ok(true),
        },
        pred_spec(c, Predicate::Not(x)) == match pred_spec(c, *x) {
            Ok(b) => Ok::<bool, ErrView>(!b),
            Err(e) => Err(e),
        },
{
}

/// The geometry invariants read the wire geometry alone: with no observed
/// position (width) they are undecided, with the expected one they pass, and
/// with another they fail naming the expected and the observed numbers and
/// the field. The observed values are not consulted.
pub proof fn law_at_width(c: CtxV, d: CtxV, f: Seq<char>, n: usize)
    requires
        c.wire == d.wire,
    ensures
        at_spec(c, f, n) == at_spec(d, f, n),
        width_spec(c, f, n) == width_spec(d, f, n),
        !(c.wire.contains_key(f) && c.wire[f].pos is Some) ==> at_spec(c, f, n) matches Err(ErrView::Undecidable(_)),
        c.wire.contains_key(f) && c.wire[f].pos == Some(n) ==> at_spec(c, f, n) is Ok,
        c.wire.contains_key(f) ==> (c.wire[f].pos matches Some(got) ==> got != n ==> at_spec(c, f, n) == Err::<(), ErrView>(
            ErrView::Fail("Invariant at("@ + crate::text::dec_text(n as nat) + ")"@ + " failed: observed pos "@ + crate::text::dec_text(got as nat) + " for "@ + tick(f)),
        )),
        !(c.wire.contains_key(f) && c.wire[f].len is Some) ==> width_spec(c, f, n) matches Err(ErrView::Undecidable(_)),
        c.wire.contains_key(f) && c.wire[f].len == Some(n) ==> width_spec(c, f, n) is Ok,
        c.wire.contains_key(f) ==> (c.wire[f].len matches Some(got) ==> got != n ==> width_spec(c, f, n) == Err::<(), ErrView>(
            ErrView::Fail("Invariant width("@ + crate::text::dec_text(n as nat) + ")"@ + " failed: observed len "@ + crate::text::dec_text(got as nat) + " for "@ + tick(f)),
        )),
{
}

proof fn lemma_arms_from(c: CtxV, f: Seq<char>, pred: Predicate, then: Invariant, pf: Seq<char>, ms: Seq<Seq<char>>, i: int)
    requires
        0 <= i <= ms.len(),
    ensures
        (forall|k: int| i <= k < ms.len() ==> (#[trigger] arm_result(c, f, pred, then, pf, ms[k])) is Ok)
            ==> arms_spec(c, f, pred, then, pf, ms, i) is Ok,
        forall|k: int| i <= k < ms.len() && (#[trigger] arm_result(c, f, pred, then, pf, ms[k])) is Err
            && (forall|j: int| i <= j < k ==> arm_result(c, f, pred, then, pf, ms[j]) is Ok)
            ==> arms_spec(c, f, pred, then, pf, ms, i) == arm_result(c, f, pred, then, pf, ms[k]),
    decreases ms.len() - i,
{
    if i < ms.len() {
        lemma_arms_from(c, f, pred, then, pf, ms, i + 1);
        assert forall|k: int| i <= k < ms.len() && (#[trigger] arm_result(c, f, pred, then, pf, ms[k])) is Err
            && (forall|j: int| i <= j < k ==> arm_result(c, f, pred, then, pf, ms[j]) is Ok)
            implies arms_spec(c, f, pred, then, pf, ms, i) == arm_result(c, f, pred, then, pf, ms[k]) by {
            if k > i {
                assert(arm_result(c, f, pred, then, pf, ms[i]) is Ok);
            }
        }
    }
}

/// The score of a `when` with its OneOf field set to the value `m`: the
/// predicate first, then (where it holds) the invariant.
pub open spec fn arm_result(c: CtxV, f: Seq<char>, pred: Predicate, then: Invariant, pf: Seq<char>, m: Seq<char>) -> Result<(), ErrView> {
    let arm = arm_ctx(c, pf, m);
    match pred_spec(arm, pred) {
        Err(e) => Err(e),
        Ok(true) => inv_spec(arm, f, then),
        Ok(false) => Ok(()),
    }
}

/// A `when` whose gate reads a OneOf field is checked once per candidate,
/// in the order of the candidates: it passes when every candidate passes
/// (no candidate: it passes), and otherwise gives the first candidate's
/// error.
pub proof fn law_when_expands_oneof(c: CtxV, f: Seq<char>, pred: Predicate, then: Box<Invariant>)
    ensures
        oneof_pred_field(c, pred) matches Some((pf, ms)) ==> {
            &&& (forall|k: int| 0 <= k < ms.len() ==> (#[trigger] arm_result(c, f, pred, *then, pf, ms[k])) is Ok)
                ==> expanded_spec(c, f, Invariant::When { pred, then }) is Ok
            &&& forall|k: int| 0 <= k < ms.len() && (#[trigger] arm_result(c, f, pred, *then, pf, ms[k])) is Err
                && (forall|j: int| 0 <= j < k ==> arm_result(c, f, pred, *then, pf, ms[j]) is Ok)
                ==> expanded_spec(c, f, Invariant::When { pred, then }) == arm_result(c, f, pred, *then, pf, ms[k])
        },
        oneof_pred_field(c, pred) is None ==> expanded_spec(c, f, Invariant::When { pred, then })
            == inv_spec(c, f, Invariant::When { pred, then }),
{
    match oneof_pred_field(c, pred) {
        Some((pf, ms)) => {
            lemma_arms_from(c, f, pred, *then, pf, ms, 0);
        },
        None => {},
    }
}

} // verus!

verus! {

proof fn lemma_one_of_set(f: Seq<char>, allowed: Seq<Seq<char>>, ms: Seq<Seq<char>>, i: int)
    requires
        0 <= i <= ms.len(),
    ensures
        (forall|k: int| i <= k < ms.len() ==> allowed.contains(#[trigger] ms[k]))
            ==> one_of_set_spec(f, allowed, ms, i) == Ok::<(), ErrView>(()),
        (exists|k: int| i <= k < ms.len() && !allowed.contains(#[trigger] ms[k]))
            ==> one_of_set_spec(f, allowed, ms, i) matches Err(ErrView::Fail(_)),
    decreases ms.len() - i,
{
    if i < ms.len() {
        lemma_one_of_set(f, allowed, ms, i + 1);
        if exists|k: int| i <= k < ms.len() && !allowed.contains(#[trigger] ms[k]) {
            let k = choose|k: int| i <= k < ms.len() && !allowed.contains(#[trigger] ms[k]);
            if k > i && allowed.contains(ms[i]) {
                assert(i + 1 <= k < ms.len() && !allowed.contains(ms[k]));
            }
        }
    }
}

proof fn lemma_one_of_arr(f: Seq<char>, allowed: Seq<Seq<char>>, xs: Seq<AbsValV>, i: int, und: Option<ErrView>)
    requires
        0 <= i <= xs.len(),
        und is None || (und matches Some(ErrView::Undecidable(_))),
    ensures
        (exists|k: int| i <= k < xs.len() && (#[trigger] one_of_val_spec(f, allowed, xs[k])) matches Err(ErrView::Fail(_)))
            ==> one_of_arr_spec(f, allowed, xs, i, und) matches Err(ErrView::Fail(_)),
        (forall|k: int| i <= k < xs.len() ==> !((#[trigger] one_of_val_spec(f, allowed, xs[k])) matches Err(ErrView::Fail(_))))
            && ((und is Some) || exists|k: int| i <= k < xs.len() && (#[trigger] one_of_val_spec(f, allowed, xs[k])) matches Err(ErrView::Undecidable(_)))
            ==> one_of_arr_spec(f, allowed, xs, i, und) matches Err(ErrView::Undecidable(_)),
        (forall|k: int| i <= k < xs.len() ==> (#[trigger] one_of_val_spec(f, allowed, xs[k])) == Ok::<(), ErrView>(()))
            && und is None ==> one_of_arr_spec(f, allowed, xs, i, und) == Ok::<(), ErrView>(()),
    decreases xs.len() - i,
{
    if i < xs.len() {
        let r = one_of_val_spec(f, allowed, xs[i]);
        let und2 = match r {
            Err(ErrView::Undecidable(m)) => Some(ErrView::Undecidable(m)),
            _ => und,
        };
        lemma_one_of_arr(f, allowed, xs, i + 1, und2);
        if exists|k: int| i <= k < xs.len() && (#[trigger] one_of_val_spec(f, allowed, xs[k])) matches Err(ErrView::Fail(_)) {
            let k = choose|k: int| i <= k < xs.len() && (#[trigger] one_of_val_spec(f, allowed, xs[k])) matches Err(ErrView::Fail(_));
            if k > i {
                assert(i + 1 <= k < xs.len() && one_of_val_spec(f, allowed, xs[k]) matches Err(ErrView::Fail(_)));
            }
        }
        if exists|k: int| i <= k < xs.len() && (#[trigger] one_of_val_spec(f, allowed, xs[k])) matches Err(ErrView::Undecidable(_)) {
            let k = choose|k: int| i <= k < xs.len() && (#[trigger] one_of_val_spec(f, allowed, xs[k])) matches Err(ErrView::Undecidable(_));
            if k > i {
                assert(i + 1 <= k < xs.len() && one_of_val_spec(f, allowed, xs[k]) matches Err(ErrView::Undecidable(_)));
            }
        }
        if forall|k: int| i <= k < xs.len() ==> (#[trigger] one_of_val_spec(f, allowed, xs[k])) == Ok::<(), ErrView>(()) {
            assert(one_of_val_spec(f, allowed, xs[i]) == Ok::<(), ErrView>(()));
        }
    }
}

/// `one_of` on one photo, in closed form: a known string passes exactly when
/// it is allowed; a OneOf passes when every candidate is allowed and fails
/// otherwise; Absent and a record fail; Unknown is undecided; a list fails
/// when some element fails, is otherwise undecided when some element is
/// undecided, and passes when every element passes (an empty list passes).
pub proof fn law_one_of_val_closed_form(f: Seq<char>, allowed: Seq<Seq<char>>, v: AbsValV)
    ensures
        v matches AbsValV::Known(s) ==> (one_of_val_spec(f, allowed, v) == Ok::<(), ErrView>(()) <==> allowed.contains(s))
            && (one_of_val_spec(f, allowed, v) is Err ==> one_of_val_spec(f, allowed, v) matches Err(ErrView::Fail(_))),
        v matches AbsValV::OneOf(ms) ==> ((forall|k: int| 0 <= k < ms.len() ==> allowed.contains(#[trigger] ms[k]))
            ==> one_of_val_spec(f, allowed, v) == Ok::<(), ErrView>(()))
            && ((exists|k: int| 0 <= k < ms.len() && !allowed.contains(#[trigger] ms[k]))
            ==> one_of_val_spec(f, allowed, v) matches Err(ErrView::Fail(_))),
        (v is Absent || v is Record) ==> one_of_val_spec(f, allowed, v) matches Err(ErrView::Fail(_)),
        v is Unknown ==> one_of_val_spec(f, allowed, v) matches Err(ErrView::Undecidable(_)),
        v matches AbsValV::Array(xs) ==> {
            &&& (exists|k: int| 0 <= k < xs.len() && (#[trigger] one_of_val_spec(f, allowed, xs[k])) matches Err(ErrView::Fail(_)))
                ==> (one_of_val_spec(f, allowed, v) matches Err(ErrView::Fail(_)))
            &&& (forall|k: int| 0 <= k < xs.len() ==> !((#[trigger] one_of_val_spec(f, allowed, xs[k])) matches Err(ErrView::Fail(_))))
                && (exists|k: int| 0 <= k < xs.len() && (#[trigger] one_of_val_spec(f, allowed, xs[k])) matches Err(ErrView::Undecidable(_)))
                ==> (one_of_val_spec(f, allowed, v) matches Err(ErrView::Undecidable(_)))
            &&& (forall|k: int| 0 <= k < xs.len() ==> (#[trigger] one_of_val_spec(f, allowed, xs[k])) == Ok::<(), ErrView>(()))
                ==> one_of_val_spec(f, allowed, v) == Ok::<(), ErrView>(())
        },
{
    match v {
        AbsValV::OneOf(ms) => lemma_one_of_set(f, allowed, ms, 0),
        AbsValV::Array(xs) => lemma_one_of_arr(f, allowed, xs, 0, None),
        _ => {},
    }
}

} // verus!

verus! {

/// The findings of each element of a list walked as `path[i]`.
pub open spec fn element_walks(path: Seq<char>, xs: Seq<AbsV>, inner: Schema, site: Option<Seq<char>>, i: int) -> Seq<Seq<FindingV>> {
    Seq::new(
        (xs.len() - i) as nat,
        |k: int| walk_val_spec(path + "["@ + crate::text::dec_text((i + k) as nat) + "]"@, xs[i + k], inner, site),
    )
}

proof fn lemma_walk_arr_flat(path: Seq<char>, xs: Seq<AbsV>, i: int, inner: Schema, site: Option<Seq<char>>)
    requires
        0 <= i <= xs.len(),
    ensures
        walk_arr_spec(path, AbsV::Array(xs), i, inner, site) == element_walks(path, xs, inner, site, i).flatten(),
    decreases xs.len() - i,
{
    let es = element_walks(path, xs, inner, site, i);
    if i < xs.len() {
        lemma_walk_arr_flat(path, xs, i + 1, inner, site);
        assert(es.drop_first() =~= element_walks(path, xs, inner, site, i + 1));
        assert(es.first() == walk_val_spec(path + "["@ + crate::text::dec_text(i as nat) + "]"@, xs[i], inner, site));
    } else {
        assert(es.len() == 0);
    }
}

/// Walking an inner schema on one photo, in closed form: Absent, a known
/// string or a OneOf leave one Fail at `path`; Unknown leaves one
/// Undecidable at `path`; a record is evaluated as a state of its own,
/// each finding renamed `path.field`; a list walks each element `i` as
/// `path[i]`, and its findings are those, in order.
pub proof fn law_walk_val_closed_form(path: Seq<char>, v: AbsV, inner: Schema, site: Option<Seq<char>>)
    ensures
        (v is Absent || v is Known || v is OneOf) ==> walk_val_spec(path, v, inner, site).len() == 1
            && walk_val_spec(path, v, inner, site)[0].kind == FindingKind::Fail
            && walk_val_spec(path, v, inner, site)[0].field == path
            && walk_val_spec(path, v, inner, site)[0].site == site,
        v is Unknown ==> walk_val_spec(path, v, inner, site).len() == 1
            && walk_val_spec(path, v, inner, site)[0].kind == FindingKind::Undecidable
            && walk_val_spec(path, v, inner, site)[0].field == path
            && walk_val_spec(path, v, inner, site)[0].site == site,
        v matches AbsV::Record(m) ==> walk_val_spec(path, v, inner, site)
            == prefix_spec(path, crate::check::schema_spec(inner, record_ctx(m), site)),
        v matches AbsV::Array(xs) ==> walk_val_spec(path, v, inner, site) == element_walks(path, xs, inner, site, 0).flatten(),
{
    match v {
        AbsV::Array(xs) => lemma_walk_arr_flat(path, xs, 0, inner, site),
        _ => {},
    }
}

} // verus!

verus! {

/// An emitted field, observed at `origin`, sits on the wire at `origin`
/// with its length, and nothing else is observed.
pub proof fn law_emit_observed(f: Seq<char>, len: nat, origin: nat)
    requires
        origin + len <= usize::MAX,
    ensures
        seat_spec(crate::ir::empty_ctx(), seq![(f, 0nat, len)], origin).wire
            == map![f => crate::ir::WireMeta { pos: Some(origin as usize), len: Some(len as usize) }],
        seat_spec(crate::ir::empty_ctx(), seq![(f, 0nat, len)], origin).values == crate::ir::empty_ctx().values,
        seat_spec(crate::ir::empty_ctx(), seq![(f, 0nat, len)], origin).excluded == crate::ir::empty_ctx().excluded,
{
    let sp = seq![(f, 0nat, len)];
    assert(sp.drop_last() =~= Seq::<(Seq<char>, nat, nat)>::empty());
    assert(seat_spec(crate::ir::empty_ctx(), sp.drop_last(), origin) == crate::ir::empty_ctx());
    assert(sp.last() == (f, 0nat, len));
    assert(origin + 0nat == origin);
    assert(crate::ir::empty_ctx().wire =~= Map::<Seq<char>, crate::ir::WireMeta>::empty());
    assert(seat_spec(crate::ir::empty_ctx(), sp, origin).wire
        =~= map![f => crate::ir::WireMeta { pos: Some(origin as usize), len: Some(len as usize) }]);
}

} // verus!

verus! {

/// Putting a fact is the matching builder: a string is `lit`, `None` is
/// `absent`, an unreadable write is `unknown`, a set of strings is
/// `one_of_strings`, a list is `array_of` over the facts' photos (a nested
/// wire fact reads as Unknown), a struct is `record`, and geometry is
/// `with_wire`. Each drops the exclusions of the field, except geometry.
pub proof fn law_put_is_builder(c: CtxV, f: Seq<char>, fact: crate::observe::Fact)
    ensures
        crate::observe::put_spec(c, f, fact) == match fact {
            crate::observe::Fact::Lit(s) => write_spec(c, f, AbsV::Known(s@)),
            crate::observe::Fact::Absent => write_spec(c, f, AbsV::Absent),
            crate::observe::Fact::Unknown => write_spec(c, f, AbsV::Unknown),
            crate::observe::Fact::OneOf(vs) => write_spec(c, f, AbsV::OneOf(sorted_set(crate::text::views(vs@)))),
            crate::observe::Fact::Array(xs) => write_spec(c, f, AbsV::Array(crate::observe::facts_abs_spec(xs@))),
            crate::observe::Fact::Record(m) => write_spec(c, f, AbsV::Record(crate::observe::fact_entries_spec(m.pairs()))),
            crate::observe::Fact::Wire { pos, len } => CtxV {
                wire: c.wire.insert(f, crate::ir::WireMeta { pos: Some(pos), len: Some(len) }),
                ..c
            },
        },
{
}

} // verus!

verus! {

/// Observing a schema rules nothing out: the state holds no exclusions.
pub proof fn law_observe_excludes_nothing(fields: Seq<crate::ir::Field>, facts: Seq<crate::observe::Fact>)
    ensures
        crate::observe::observe_spec(fields, facts).excluded == Map::<Seq<char>, Seq<Seq<char>>>::empty(),
    decreases facts.len(),
{
    if facts.len() > 0 && fields.len() > 0 {
        law_observe_excludes_nothing(fields.drop_last(), facts.drop_last());
        let prev = crate::observe::observe_spec(fields.drop_last(), facts.drop_last());
        assert(prev.excluded.remove(fields.last().name@) =~= prev.excluded);
    }
}

} // verus!

verus! {

// ---------------------------------------------------------------------------
// What the single checks decide.
// ---------------------------------------------------------------------------

proof fn lemma_thens_after_has(b: CondV, items: crate::unfold::Arms, j: int, i: int, k: int)
    requires
        0 <= j <= i < items.len(),
        0 <= k < split_spec(b, items[i].0, items[i].1).0.len(),
    ensures
        crate::unfold::thens_after(b, items, j).contains(split_spec(b, items[i].0, items[i].1).0[k]),
    decreases i - j,
{
    let here = split_spec(b, items[j].0, items[j].1).0;
    let rest = crate::unfold::thens_after(b, items, j + 1);
    assert(crate::unfold::thens_after(b, items, j) == here + rest);
    if j == i {
        assert((here + rest)[k] == here[k]);
    } else {
        lemma_thens_after_has(b, items, j + 1, i, k);
        let x = split_spec(b, items[i].0, items[i].1).0[k];
        let p = choose|p: int| 0 <= p < rest.len() && rest[p] == x;
        assert((here + rest)[here.len() + p] == x);
    }
}

/// Splitting on `a || b`: the right operand is tried on every state where
/// the left one failed, and each state where it then holds is a `then`
/// state of the whole condition.
pub proof fn law_split_or_tries_right(a: CondV, b: CondV, ctx: CtxV, label: Seq<char>)
    ensures
        forall|i: int, k: int|
            0 <= i < split_spec(a, ctx, label).1.len()
                && 0 <= k < split_spec(b, split_spec(a, ctx, label).1[i].0, split_spec(a, ctx, label).1[i].1).0.len()
            ==> split_spec(CondV::Or(Box::new(a), Box::new(b)), ctx, label).0.contains(
                #[trigger] split_spec(b, split_spec(a, ctx, label).1[i].0, split_spec(a, ctx, label).1[i].1).0[k],
            ),
{
    let (lt, le) = split_spec(a, ctx, label);
    let whole = split_spec(CondV::Or(Box::new(a), Box::new(b)), ctx, label).0;
    assert(whole == lt + crate::unfold::thens_after(b, le, 0));
    assert forall|i: int, k: int|
        0 <= i < le.len() && 0 <= k < split_spec(b, le[i].0, le[i].1).0.len()
        implies whole.contains(#[trigger] split_spec(b, le[i].0, le[i].1).0[k]) by {
        lemma_thens_after_has(b, le, 0, i, k);
        let x = split_spec(b, le[i].0, le[i].1).0[k];
        let ta = crate::unfold::thens_after(b, le, 0);
        let p = choose|p: int| 0 <= p < ta.len() && ta[p] == x;
        assert((lt + ta)[lt.len() + p] == x);
    }
}

/// `f1 == l1 || f2 == l2`: among the `then` states is the one where the left
/// test failed (`l1` ruled out for `f1`) and `f2` is known to be `l2`.
pub proof fn law_split_or_eq(f1: Seq<char>, l1: Seq<char>, f2: Seq<char>, l2: Seq<char>, ctx: CtxV, label: Seq<char>)
    ensures
        exists|t: (CtxV, Seq<char>)|
            split_spec(
                CondV::Or(Box::new(CondV::Eq(f1, l1)), Box::new(CondV::Eq(f2, l2))),
                ctx,
                label,
            ).0.contains(t) && t.0 == write_spec(crate::ir::exclude_spec(ctx, f1, l1), f2, AbsV::Known(l2))
                && t.0.values.contains_key(f2) && t.0.values[f2] == AbsV::Known(l2),
{
    let a = CondV::Eq(f1, l1);
    let b = CondV::Eq(f2, l2);
    law_split_or_tries_right(a, b, ctx, label);
    let e = split_spec(a, ctx, label).1[0];
    let t = split_spec(b, e.0, e.1).0[0];
    assert(split_spec(CondV::Or(Box::new(a), Box::new(b)), ctx, label).0.contains(t));
}

proof fn lemma_unique_dup(f: Seq<char>, xs: Seq<AbsV>, i: int, seen: Set<Seq<char>>, und: bool, j: int, s: Seq<char>)
    requires
        0 <= i <= j < xs.len(),
        xs[j] == AbsV::Known(s),
        seen.contains(s) || exists|p: int| i <= p < j && #[trigger] xs[p] == AbsV::Known(s),
    ensures
        unique_arr_spec(f, xs, i, seen, und) matches Err(ErrView::Fail(_)),
    decreases xs.len() - i,
{
    if i < j {
        match xs[i] {
            AbsV::Known(t) => {
                if !seen.contains(t) {
                    if !seen.contains(s) {
                        let p = choose|p: int| i <= p < j && #[trigger] xs[p] == AbsV::Known(s);
                        if p > i {
                            assert(i + 1 <= p < j && xs[p] == AbsV::Known(s));
                        }
                    }
                    lemma_unique_dup(f, xs, i + 1, seen.insert(t), und, j, s);
                }
            },
            AbsV::Unknown => {
                if !seen.contains(s) {
                    let p = choose|p: int| i <= p < j && #[trigger] xs[p] == AbsV::Known(s);
                    assert(p != i);
                    assert(i + 1 <= p < j && xs[p] == AbsV::Known(s));
                }
                lemma_unique_dup(f, xs, i + 1, seen, true, j, s);
            },
            _ => {
                if !seen.contains(s) {
                    let p = choose|p: int| i <= p < j && #[trigger] xs[p] == AbsV::Known(s);
                    assert(p != i);
                    assert(i + 1 <= p < j && xs[p] == AbsV::Known(s));
                }
                lemma_unique_dup(f, xs, i + 1, seen, und, j, s);
            },
        }
    } else {
        if !seen.contains(s) {
            let p = choose|p: int| i <= p < j && #[trigger] xs[p] == AbsV::Known(s);
        }
    }
}

/// `unique` on a list fails whenever two elements at different places are
/// the same known string, wherever they stand in the list.
pub proof fn law_unique_fails_on_duplicate(c: CtxV, f: Seq<char>, i: int, j: int, s: Seq<char>)
    requires
        val_of(c, f) matches Some(AbsV::Array(xs)) && 0 <= i < j < xs.len() && xs[i] == AbsV::Known(s) && xs[j] == AbsV::Known(s),
    ensures
        crate::check::unique_spec(c, f) matches Err(ErrView::Fail(_)),
{
    let xs = val_of(c, f)->Some_0->Array_0;
    assert(xs[i] == AbsV::Known(s));
    lemma_unique_dup(f, xs, 0, Set::empty(), false, j, s);
}

/// `shape`: `scalar` passes exactly on a known string or a set of
/// candidates, `array` exactly on a list; any other observed photo fails,
/// and an unobserved or unreadable one is undecided.
pub proof fn law_shape_decides(c: CtxV, f: Seq<char>)
    ensures
        val_of(c, f) matches Some(v) && (v is Known || v is OneOf) ==> shape_spec(c, f, crate::ir::Form::Scalar) == Ok::<(), ErrView>(())
            && shape_spec(c, f, crate::ir::Form::Array) matches Err(ErrView::Fail(_)),
        val_of(c, f) matches Some(v) && v is Array ==> shape_spec(c, f, crate::ir::Form::Array) == Ok::<(), ErrView>(())
            && shape_spec(c, f, crate::ir::Form::Scalar) matches Err(ErrView::Fail(_)),
        val_of(c, f) matches Some(v) && (v is Record || v is Absent) ==> (shape_spec(c, f, crate::ir::Form::Scalar) matches Err(ErrView::Fail(_)))
            && (shape_spec(c, f, crate::ir::Form::Array) matches Err(ErrView::Fail(_))),
        (val_of(c, f) is None || val_of(c, f) == Some(AbsV::Unknown)) ==> (shape_spec(c, f, crate::ir::Form::Scalar) matches Err(ErrView::Undecidable(_)))
            && (shape_spec(c, f, crate::ir::Form::Array) matches Err(ErrView::Undecidable(_))),
{
}

/// `field in [l0, l1, …]` on a known string is membership in the whole
/// list: true for every listed literal, false for any other string.
pub proof fn law_pred_in_is_membership(c: CtxV, field: String, lits: Vec<String>, s: Seq<char>)
    requires
        val_of(c, field@) == Some(AbsV::Known(s)),
    ensures
        pred_spec(c, Predicate::In { field, lits }) == Ok::<bool, ErrView>(exists|k: int| 0 <= k < lits@.len() && (#[trigger] lits@[k])@ == s),
{
    let vs = crate::text::views(lits@);
    if exists|k: int| 0 <= k < lits@.len() && (#[trigger] lits@[k])@ == s {
        let k = choose|k: int| 0 <= k < lits@.len() && (#[trigger] lits@[k])@ == s;
        assert(vs[k] == s);
    }
    if vs.contains(s) {
        let k = choose|k: int| 0 <= k < vs.len() && vs[k] == s;
        assert(lits@[k]@ == s);
    }
}

/// A field's declared geometry is checked like `at` / `width`: when the
/// observed position or length differs from the declared one, the field's
/// findings hold a Fail on that field.
pub proof fn law_declared_geometry_checked(s: Schema, c: CtxV, site: Option<Seq<char>>, i: int)
    requires
        0 <= i < s.fields@.len(),
        s.fields@[i].wire is Some,
        c.wire.contains_key(s.fields@[i].name@),
    ensures
        ({
            let w = s.fields@[i].wire->Some_0;
            let got = c.wire[s.fields@[i].name@];
            ((w.len matches Some(n) && got.len matches Some(m) && m != n)
                || (w.pos matches Some(n) && got.pos matches Some(m) && m != n))
            ==> exists|k: int| 0 <= k < field_spec(s, c, site, i).len()
                && (#[trigger] field_spec(s, c, site, i)[k]).kind == FindingKind::Fail
                && field_spec(s, c, site, i)[k].field == s.fields@[i].name@
        }),
{
    let fd = s.fields@[i];
    let w = fd.wire->Some_0;
    let got = c.wire[fd.name@];
    let ps = props_spec(s, c, site, i, 0);
    let a = match w.pos {
        Some(pos) => push_spec(s.name@, fd.name@, site, at_spec(c, fd.name@, pos)),
        None => Seq::empty(),
    };
    let b = match w.len {
        Some(len) => push_spec(s.name@, fd.name@, site, width_spec(c, fd.name@, len)),
        None => Seq::empty(),
    };
    let all = field_spec(s, c, site, i);
    assert(all == ps + (a + b));
    if w.len matches Some(n) && got.len matches Some(m) && m != n {
        assert(b.len() == 1 && b[0].kind == FindingKind::Fail && b[0].field == fd.name@);
        assert(all[(ps.len() + a.len()) as int] == b[0]);
    } else if w.pos matches Some(n) && got.pos matches Some(m) && m != n {
        assert(a.len() == 1 && a[0].kind == FindingKind::Fail && a[0].field == fd.name@);
        assert(all[ps.len() as int] == a[0]);
    }
}

} // verus!

verus! {

/// Splitting on `a && b`: every state where `a` failed is an `else` state of
/// the whole condition, and `b` is tried on every state where `a` held, each
/// state where it then holds being a `then` state of the whole.
pub proof fn law_split_and_tries_right(a: CondV, b: CondV, ctx: CtxV, label: Seq<char>)
    ensures
        forall|i: int| 0 <= i < split_spec(a, ctx, label).1.len()
            ==> split_spec(CondV::And(Box::new(a), Box::new(b)), ctx, label).1.contains(#[trigger] split_spec(a, ctx, label).1[i]),
        forall|i: int, k: int|
            0 <= i < split_spec(a, ctx, label).0.len()
                && 0 <= k < split_spec(b, split_spec(a, ctx, label).0[i].0, split_spec(a, ctx, label).0[i].1).0.len()
            ==> split_spec(CondV::And(Box::new(a), Box::new(b)), ctx, label).0.contains(
                #[trigger] split_spec(b, split_spec(a, ctx, label).0[i].0, split_spec(a, ctx, label).0[i].1).0[k],
            ),
{
    let (lt, le) = split_spec(a, ctx, label);
    let whole = split_spec(CondV::And(Box::new(a), Box::new(b)), ctx, label);
    assert(whole.0 == crate::unfold::thens_after(b, lt, 0));
    assert(whole.1 == le + crate::unfold::elses_after(b, lt, 0));
    assert forall|i: int| 0 <= i < le.len() implies whole.1.contains(#[trigger] le[i]) by {
        assert(whole.1[i] == le[i]);
    }
    assert forall|i: int, k: int|
        0 <= i < lt.len() && 0 <= k < split_spec(b, lt[i].0, lt[i].1).0.len()
        implies whole.0.contains(#[trigger] split_spec(b, lt[i].0, lt[i].1).0[k]) by {
        lemma_thens_after_has(b, lt, 0, i, k);
    }
}

/// `field == lit` on a known string is string equality; on a set of
/// candidates it is membership; an explicit Absent is `false`.
pub proof fn law_pred_eq_decides(c: CtxV, field: String, lit: String)
    ensures
        val_of(c, field@) matches Some(AbsV::Known(s)) ==> pred_spec(c, Predicate::Eq { field, lit }) == Ok::<bool, ErrView>(s == lit@),
        val_of(c, field@) matches Some(AbsV::OneOf(ms)) ==> pred_spec(c, Predicate::Eq { field, lit }) == Ok::<bool, ErrView>(ms.contains(lit@)),
        val_of(c, field@) == Some(AbsV::Absent) ==> pred_spec(c, Predicate::Eq { field, lit }) == Ok::<bool, ErrView>(false),
{
}

proof fn lemma_unique_distinct(f: Seq<char>, xs: Seq<AbsV>, i: int, seen: Set<Seq<char>>)
    requires
        0 <= i <= xs.len(),
        forall|p: int| 0 <= p < xs.len() ==> !(#[trigger] xs[p] is Unknown),
        forall|p: int, q: int| i <= p < q < xs.len() && #[trigger] xs[p] is Known && #[trigger] xs[q] is Known ==> xs[p] != xs[q],
        forall|p: int| i <= p < xs.len() && (#[trigger] xs[p]) is Known ==> !seen.contains(xs[p]->Known_0),
    ensures
        unique_arr_spec(f, xs, i, seen, false) == Ok::<(), ErrView>(()),
    decreases xs.len() - i,
{
    if i < xs.len() {
        match xs[i] {
            AbsV::Known(t) => {
                assert forall|p: int| i + 1 <= p < xs.len() && (#[trigger] xs[p]) is Known implies !seen.insert(t).contains(xs[p]->Known_0) by {
                    assert(xs[i] is Known);
                    assert(xs[i] != xs[p]);
                }
                lemma_unique_distinct(f, xs, i + 1, seen.insert(t));
            },
            _ => {
                lemma_unique_distinct(f, xs, i + 1, seen);
            },
        }
    }
}

/// `unique` on a list with no Unknown element passes when no two elements
/// are the same known string.
pub proof fn law_unique_passes_when_distinct(c: CtxV, f: Seq<char>)
    requires
        val_of(c, f) matches Some(AbsV::Array(xs)) && (forall|p: int| 0 <= p < xs.len() ==> !(#[trigger] xs[p] is Unknown))
            && (forall|p: int, q: int| 0 <= p < q < xs.len() && #[trigger] xs[p] is Known && #[trigger] xs[q] is Known ==> xs[p] != xs[q]),
    ensures
        crate::check::unique_spec(c, f) == Ok::<(), ErrView>(()),
{
    let xs = val_of(c, f)->Some_0->Array_0;
    lemma_unique_distinct(f, xs, 0, Set::empty());
}

} // verus!
