//! Abstract values at a site: Known / OneOf / Array / Record / Absent / Unknown.
use vstd::prelude::*;
use crate::strmap::{keys_of, lookup, sorted_keys, StrMap, StrSet};
use crate::text::{debug_str, debug_text};

verus! {

/// The mathematical form of an [`AbsVal`].
pub enum AbsValV {
    Known(Seq<char>),
    OneOf(Seq<Seq<char>>),
    Array(Seq<AbsValV>),
    Record(Map<Seq<char>, AbsValV>),
    Absent,
    Unknown,
}

/// What was observed of one slot.
#[derive(Debug, PartialEq, Eq)]
pub enum AbsVal {
    /// This string.
    Known(String),
    /// One of these strings (a set, kept ascending).
    OneOf(StrSet),
    /// Observed a sequence (`vec![…]` / `Multiple`), with children.
    Array(Vec<AbsVal>),
    /// Observed a struct. Names are the inner Schema fields.
    Record(StrMap<AbsVal>),
    /// Explicitly missing (None / not emitted).
    Absent,
    /// Dynamic: a check at build time cannot decide.
    Unknown,
}

/// The mathematical form of a value.
pub open spec fn absval_view(v: AbsVal) -> AbsValV
    decreases v, 0nat,
{
    match v {
        AbsVal::Known(s) => AbsValV::Known(s@),
        AbsVal::OneOf(set) => AbsValV::OneOf(set.members()),
        AbsVal::Array(xs) => AbsValV::Array(vals_view(xs@)),
        AbsVal::Record(m) => {
            proof {
                m.lemma_pairs_decrease();
            }
            AbsValV::Record(entries_view(m.pairs()))
        },
        AbsVal::Absent => AbsValV::Absent,
        AbsVal::Unknown => AbsValV::Unknown,
    }
}

/// The forms of a sequence of values.
pub open spec fn vals_view(s: Seq<AbsVal>) -> Seq<AbsValV>
    decreases s, 0nat,
{
    if s.len() == 0 {
        Seq::empty()
    } else {
        vals_view(s.subrange(0, s.len() - 1)).push(absval_view(s[s.len() - 1]))
    }
}

/// The map of a list of named values; the first entry for a name wins.
pub open spec fn entries_view(es: Seq<(String, AbsVal)>) -> Map<Seq<char>, AbsValV>
    decreases es, 0nat,
{
    if es.len() == 0 {
        Map::empty()
    } else {
        entries_view(es.subrange(1, es.len() as int)).insert(es[0].0@, absval_view(es[0].1))
    }
}

/// The mathematical form of a map of values.
pub open spec fn record_view(m: StrMap<AbsVal>) -> Map<Seq<char>, AbsValV> {
    entries_view(m.pairs())
}

impl View for AbsVal {
    type V = AbsValV;

    open spec fn view(&self) -> AbsValV {
        absval_view(*self)
    }
}

pub proof fn lemma_vals_view(s: Seq<AbsVal>)
    ensures
        vals_view(s).len() == s.len(),
        forall|i: int| 0 <= i < s.len() ==> #[trigger] vals_view(s)[i] == absval_view(s[i]),
    decreases s.len(),
{
    if s.len() > 0 {
        lemma_vals_view(s.subrange(0, s.len() - 1));
    }
}

pub proof fn lemma_entries_view(es: Seq<(String, AbsVal)>, k: Seq<char>)
    ensures
        entries_view(es).contains_key(k) == (lookup(es, k) is Some),
        lookup(es, k) matches Some(v) ==> entries_view(es)[k] == absval_view(v),
    decreases es.len(),
{
    if es.len() > 0 {
        assert(es.subrange(1, es.len() as int) =~= es.drop_first());
        lemma_entries_view(es.drop_first(), k);
    }
}

/// Two lists with the same keys and values of the same forms have the same map.
pub proof fn lemma_entries_view_same(a: Seq<(String, AbsVal)>, b: Seq<(String, AbsVal)>)
    requires
        a.len() == b.len(),
        forall|i: int| 0 <= i < a.len() ==> #[trigger] a[i].0@ == b[i].0@,
        forall|i: int| 0 <= i < a.len() ==> absval_view(#[trigger] a[i].1) == absval_view(b[i].1),
    ensures
        entries_view(a) == entries_view(b),
    decreases a.len(),
{
    if a.len() > 0 {
        let ra = a.subrange(1, a.len() as int);
        let rb = b.subrange(1, b.len() as int);
        assert forall|i: int| 0 <= i < ra.len() implies #[trigger] ra[i].0@ == rb[i].0@ by {
            assert(ra[i] == a[i + 1] && rb[i] == b[i + 1]);
        }
        assert forall|i: int| 0 <= i < ra.len() implies absval_view(#[trigger] ra[i].1) == absval_view(rb[i].1) by {
            assert(ra[i] == a[i + 1] && rb[i] == b[i + 1]);
        }
        lemma_entries_view_same(ra, rb);
    }
}

/// The value stored under `k`, with its form.
pub fn record_get<'a>(m: &'a StrMap<AbsVal>, k: &str) -> (r: Option<&'a AbsVal>)
    ensures
        r is None <==> !record_view(*m).contains_key(k@),
        r matches Some(v) ==> record_view(*m)[k@] == absval_view(*v),
{
    proof {
        lemma_entries_view(m.pairs(), k@);
    }
    m.get(k)
}


/// The map of a list of named values; a later entry for a name wins.
pub open spec fn pairs_view(es: Seq<(String, AbsVal)>) -> Map<Seq<char>, AbsValV>
    decreases es.len(),
{
    if es.len() == 0 {
        Map::empty()
    } else {
        pairs_view(es.drop_last()).insert(es.last().0@, absval_view(es.last().1))
    }
}

/// The value map of a record after one insert.
pub proof fn lemma_record_insert(old: StrMap<AbsVal>, new: StrMap<AbsVal>, k: Seq<char>, v: AbsVal)
    requires
        new.get_spec(k) == Some(v),
        forall|q: Seq<char>| q != k ==> #[trigger] new.get_spec(q) == old.get_spec(q),
    ensures
        record_view(new) == record_view(old).insert(k, absval_view(v)),
{
    assert forall|q: Seq<char>| #[trigger] record_view(new).contains_key(q) == record_view(old).insert(k, absval_view(v)).contains_key(q)
        && (record_view(new).contains_key(q) ==> record_view(new)[q] == record_view(old).insert(k, absval_view(v))[q]) by {
        lemma_entries_view(new.pairs(), q);
        lemma_entries_view(old.pairs(), q);
        if q == k {
            assert(lookup(new.pairs(), q) == Some(v));
        } else {
            assert(new.get_spec(q) == old.get_spec(q));
            assert(lookup(new.pairs(), q) == lookup(old.pairs(), q));
        }
    }
    assert(record_view(new) =~= record_view(old).insert(k, absval_view(v)));
}

/// The empty map has the empty record view.
pub proof fn lemma_record_empty(m: StrMap<AbsVal>)
    requires
        forall|q: Seq<char>| #[trigger] m.get_spec(q) is None,
    ensures
        record_view(m) == Map::<Seq<char>, AbsValV>::empty(),
{
    assert forall|q: Seq<char>| !#[trigger] record_view(m).contains_key(q) by {
        lemma_entries_view(m.pairs(), q);
        assert(m.get_spec(q) is None);
        assert(lookup(m.pairs(), q) is None);
        assert(!entries_view(m.pairs()).contains_key(q));
    }
    assert(record_view(m) =~= Map::empty());
}

/// The record of a list of named values; a later entry for a name wins.
pub fn record_of(fields: Vec<(String, AbsVal)>) -> (m: StrMap<AbsVal>)
    ensures
        record_view(m) == pairs_view(fields@),
{
    let mut m: StrMap<AbsVal> = StrMap::new();
    proof {
        lemma_record_empty(m);
    }
    let mut rest = fields;
    let ghost all = rest@;
    proof {
        assert(all.take(0) =~= Seq::<(String, AbsVal)>::empty());
        assert(all.skip(0) =~= all);
    }
    while rest.len() > 0
        invariant
            rest@.len() <= all.len(),
            rest@ == all.skip(all.len() - rest@.len()),
            record_view(m) == pairs_view(all.take(all.len() - rest@.len())),
        decreases rest.len(),
    {
        let ghost n = all.len() - rest@.len();
        let (k, v) = rest.remove(0);
        let ghost kv = k@;
        let ghost m0 = m;
        let ghost vv = v;
        assert((k, v) == all[n]);
        m.insert(k, v);
        proof {
            lemma_record_insert(m0, m, kv, vv);
            assert(all.take(n + 1).drop_last() =~= all.take(n));
            assert(all.take(n + 1).last() == all[n]);
            assert(rest@ =~= all.skip(n + 1));
        }
    }
    proof {
        assert(all.take(all.len() as int) =~= all);
    }
    m
}

impl AbsVal {
    pub fn known(s: &str) -> (r: Self)
        ensures
            r matches AbsVal::Known(t) && t@ == s@,
    {
        AbsVal::Known(s.to_owned())
    }
}

impl Clone for AbsVal {
    fn clone(&self) -> (r: Self)
        ensures
            absval_view(r) == absval_view(*self),
    {
        copy_absval(self)
    }
}

/// A copy of a value, of the same form.
pub fn copy_absval(v: &AbsVal) -> (r: AbsVal)
    ensures
        absval_view(r) == absval_view(*v),
    decreases v, 0nat,
{
        match v {
            AbsVal::Known(s) => AbsVal::Known(s.clone()),
            AbsVal::OneOf(set) => AbsVal::OneOf(set.clone()),
            AbsVal::Array(xs) => {
                proof {
                    assert forall|j: int| 0 <= j < xs.len() implies #[trigger] decreases_to!(*v => xs@[j]) by {
                        assert(decreases_to!(*xs => xs@[j]));
                    }
                }
                let mut out: Vec<AbsVal> = Vec::new();
                let mut i: usize = 0;
                while i < xs.len()
                    invariant
                        forall|j: int| 0 <= j < xs.len() ==> #[trigger] decreases_to!(*v => xs@[j]),
                        i <= xs@.len(),
                        out@.len() == i,
                        forall|j: int| 0 <= j < i ==> absval_view(#[trigger] out@[j]) == absval_view(xs@[j]),
                    decreases xs.len() - i,
                {
                    let c = copy_absval(&xs[i]);
                    out.push(c);
                    i = i + 1;
                }
                proof {
                    lemma_vals_view(out@);
                    lemma_vals_view(xs@);
                    assert(vals_view(out@) =~= vals_view(xs@));
                }
                AbsVal::Array(out)
            },
            AbsVal::Record(m) => {
                proof {
                    assert(decreases_to!(*v => *m));
                }
                AbsVal::Record(copy_record(m))
            },
            AbsVal::Absent => AbsVal::Absent,
            AbsVal::Unknown => AbsVal::Unknown,
        }
}

/// A copy of a map of values, with the same keys and values of the same forms.
pub fn copy_record(m: &StrMap<AbsVal>) -> (r: StrMap<AbsVal>)
    ensures
        record_view(r) == record_view(*m),
    decreases m, 0nat,
{
    let es = m.entries();
    proof {
        m.lemma_pairs_decrease();
        assert forall|j: int| 0 <= j < es@.len() implies #[trigger] decreases_to!(*m => es@[j].1) by {
            assert(decreases_to!(es@ => es@[j]));
        }
    }
    let mut out: Vec<(String, AbsVal)> = Vec::new();
    let mut i: usize = 0;
    while i < es.len()
        invariant
            forall|j: int| 0 <= j < es@.len() ==> #[trigger] decreases_to!(*m => es@[j].1),
            i <= es@.len(),
            es@ == m.pairs(),
            sorted_keys(keys_of(es@)),
            out@.len() == i,
            forall|j: int| 0 <= j < i ==> #[trigger] out@[j].0 == es@[j].0,
            forall|j: int| 0 <= j < i ==> absval_view(#[trigger] out@[j].1) == absval_view(es@[j].1),
        decreases es.len() - i,
    {
        let k = es[i].0.clone();
        let x = copy_absval(&es[i].1);
        out.push((k, x));
        i = i + 1;
    }
    proof {
        assert(keys_of(out@) =~= keys_of(es@));
        lemma_entries_view_same(out@, es@);
    }
    StrMap::from_sorted(out)
}

/// The mathematical form of an error: its kind and its message.
pub enum ErrView {
    Fail(Seq<char>),
    Undecidable(Seq<char>),
}

/// `apply` could not read this photo as `A`.
#[derive(Debug, Clone, PartialEq, Eq)]
pub enum ApplyErr {
    Fail(String),
    Undecidable(String),
}

impl View for ApplyErr {
    type V = ErrView;

    open spec fn view(&self) -> ErrView {
        match self {
            ApplyErr::Fail(m) => ErrView::Fail(m@),
            ApplyErr::Undecidable(m) => ErrView::Undecidable(m@),
        }
    }
}

pub open spec fn apply_view(r: Result<(), ApplyErr>) -> Result<(), ErrView> {
    match r {
        Ok(()) => Ok(()),
        Err(e) => Err(e@),
    }
}

/// A check on a string, supplied by the user of the library.
pub trait StrCheck {
    /// `b` is an answer the check may give on `s`.
    spec fn answers(&self, s: Seq<char>, b: bool) -> bool;

    fn check(&self, s: &str) -> (r: bool)
        ensures
            self.answers(s@, r),
    ;
}

/// A closure used as a [`StrCheck`].
pub struct Closure<F: Fn(&str) -> bool> {
    f: F,
}

impl<F: Fn(&str) -> bool> Closure<F> {
    #[verifier::type_invariant]
    spec fn callable(self) -> bool {
        forall|x: &str| call_requires(self.f, (x,))
    }

    /// The closure it wraps.
    pub closed spec fn func(self) -> F {
        self.f
    }

    pub fn new(f: F) -> (c: Self)
        requires
            forall|x: &str| call_requires(f, (x,)),
        ensures
            c.func() == f,
    {
        Closure { f }
    }
}

impl<F: Fn(&str) -> bool> StrCheck for Closure<F> {
    closed spec fn answers(&self, s: Seq<char>, b: bool) -> bool {
        exists|x: &str| x@ == s && call_ensures(self.f, (x,), b)
    }

    fn check(&self, s: &str) -> (r: bool) {
        proof {
            use_type_invariant(self);
        }
        (self.f)(s)
    }
}

/// A closure check answers `b` on `s` exactly when the closure may return
/// `b` on a string whose view is `s`.
pub proof fn lemma_closure_answers<F: Fn(&str) -> bool>(c: &Closure<F>, s: Seq<char>, b: bool)
    ensures
        c.answers(s, b) <==> exists|x: &str| x@ == s && call_ensures(c.func(), (x,), b),
{
}

/// The check accepts `s`.
pub open spec fn accepts<C: StrCheck + ?Sized>(c: &C, s: Seq<char>) -> bool {
    c.answers(s, true)
}

/// The check gives one answer per string.
pub open spec fn functional<C: StrCheck + ?Sized>(c: &C) -> bool {
    forall|s: Seq<char>, a: bool, b: bool|
        #[trigger] c.answers(s, a) && #[trigger] c.answers(s, b) ==> a == b
}

/// The message for a known string that the check refused.
pub open spec fn refused_msg(s: Seq<char>) -> Seq<char> {
    "= "@ + debug_text(s)
}

fn refused_text(s: &str) -> (m: String)
    ensures
        m@ == refused_msg(s@),
{
    let mut m = String::new();
    m.append("= ");
    let d = debug_str(s);
    m.append(d.as_str());
    assert(m@ =~= refused_msg(s@));
    m
}

/// How a string check scores one photo.
pub open spec fn apply_str_spec<C: StrCheck + ?Sized>(v: AbsValV, c: &C) -> Result<(), ErrView> {
    match v {
        AbsValV::Known(s) => if accepts(c, s) {
            Ok(())
        } else {
            Err(ErrView::Fail(refused_msg(s)))
        },
        AbsValV::Unknown => Err(ErrView::Undecidable("value Unknown"@)),
        AbsValV::Absent => Err(ErrView::Fail("is absent"@)),
        AbsValV::Array(xs) => apply_each_spec(xs, 0, None, c),
        AbsValV::Record(_) => Err(ErrView::Fail("is a record"@)),
        AbsValV::OneOf(_) => Err(ErrView::Undecidable("OneOf, not a single value"@)),
    }
}

/// Each element of a list from index `i` on, `und` the last undecided so far:
/// the first Fail stops; otherwise the last Undecidable, if any, is the result.
pub open spec fn apply_each_spec<C: StrCheck + ?Sized>(
    xs: Seq<AbsValV>,
    i: int,
    und: Option<ErrView>,
    c: &C,
) -> Result<(), ErrView>
    decreases xs, xs.len() - i,
{
    if i < 0 || i >= xs.len() {
        match und {
            Some(e) => Err(e),
            None => Ok(()),
        }
    } else {
        match xs[i] {
            AbsValV::Known(s) => if !accepts(c, s) {
                Err(ErrView::Fail(refused_msg(s)))
            } else {
                apply_each_spec(xs, i + 1, und, c)
            },
            AbsValV::Unknown => apply_each_spec(
                xs,
                i + 1,
                Some(ErrView::Undecidable("value Unknown"@)),
                c,
            ),
            AbsValV::Array(inner) => match apply_each_spec(inner, 0, None, c) {
                Ok(()) => apply_each_spec(xs, i + 1, und, c),
                Err(ErrView::Fail(m)) => Err(ErrView::Fail(m)),
                Err(e) => apply_each_spec(xs, i + 1, Some(e), c),
            },
            AbsValV::Absent => Err(ErrView::Fail("is absent"@)),
            AbsValV::Record(_) => Err(ErrView::Fail("is a record"@)),
            AbsValV::OneOf(_) => apply_each_spec(
                xs,
                i + 1,
                Some(ErrView::Undecidable("OneOf, not a single value"@)),
                c,
            ),
        }
    }
}

/// The answers of a check, as a relation.
pub open spec fn answers_of<C: StrCheck + ?Sized>(c: &C) -> spec_fn(Seq<char>, bool) -> bool {
    |s: Seq<char>, b: bool| c.answers(s, b)
}

/// The outcomes once an undecided `e` is carried past the rest: where the
/// rest passes, `e` is the result.
pub open spec fn carry_und(rest: Set<Result<(), ErrView>>, e: ErrView) -> Set<Result<(), ErrView>> {
    Set::new(
        |o: Result<(), ErrView>|
            (o == Err::<(), ErrView>(e) && exists|p: Result<(), ErrView>| p is Ok && #[trigger] rest.contains(p)) || (o is Err
                && rest.contains(o)),
    )
}

/// The possible scores of a photo by a check whose possible answers are
/// `ans`: a known string passes on an answer `true` and fails on an answer
/// `false`; the other forms do not consult the check.
pub open spec fn apply_outs(v: AbsValV, ans: spec_fn(Seq<char>, bool) -> bool) -> Set<Result<(), ErrView>> {
    match v {
        AbsValV::Known(s) => Set::new(|o: Result<(), ErrView>| (ans(s, true) && o == Ok::<(), ErrView>(()))
            || (ans(s, false) && o == Err::<(), ErrView>(ErrView::Fail(refused_msg(s))))),
        AbsValV::Unknown => set![Err(ErrView::Undecidable("value Unknown"@))],
        AbsValV::Absent => set![Err(ErrView::Fail("is absent"@))],
        AbsValV::Array(xs) => each_outs(xs, 0, ans),
        AbsValV::Record(_) => set![Err(ErrView::Fail("is a record"@))],
        AbsValV::OneOf(_) => set![Err(ErrView::Undecidable("OneOf, not a single value"@))],
    }
}

/// The possible scores of the elements from index `i` on: the first Fail
/// stops; otherwise the last Undecidable, if any, is the result.
pub open spec fn each_outs(xs: Seq<AbsValV>, i: int, ans: spec_fn(Seq<char>, bool) -> bool) -> Set<Result<(), ErrView>>
    decreases xs, xs.len() - i,
{
    if i < 0 || i >= xs.len() {
        set![Ok(())]
    } else {
        let rest = each_outs(xs, i + 1, ans);
        match xs[i] {
            AbsValV::Known(s) => Set::new(|o: Result<(), ErrView>| (ans(s, false) && o == Err::<(), ErrView>(ErrView::Fail(refused_msg(s))))
                || (ans(s, true) && rest.contains(o))),
            AbsValV::Unknown => carry_und(rest, ErrView::Undecidable("value Unknown"@)),
            AbsValV::Array(inner) => {
                let ins = each_outs(inner, 0, ans);
                Set::new(|o: Result<(), ErrView>| (ins.contains(Ok(())) && rest.contains(o))
                    || (o matches Err(ErrView::Fail(_)) && ins.contains(o))
                    || exists|m: Seq<char>| #[trigger] ins.contains(Err(ErrView::Undecidable(m)))
                        && carry_und(rest, ErrView::Undecidable(m)).contains(o))
            },
            AbsValV::Absent => set![Err(ErrView::Fail("is absent"@))],
            AbsValV::Record(_) => set![Err(ErrView::Fail("is a record"@))],
            AbsValV::OneOf(_) => carry_und(rest, ErrView::Undecidable("OneOf, not a single value"@)),
        }
    }
}

/// `o` with an undecided `und` carried in: a pass becomes `und`.
pub open spec fn with_und(o: Result<(), ErrView>, und: Option<ErrView>) -> Result<(), ErrView> {
    match (o, und) {
        (Ok(()), Some(e)) => Err(e),
        _ => o,
    }
}

/// How an `AbsVal` becomes `A`: lift picks `A`; a refine is a check on it.
///
/// The photo of a slot is still a string; other `A`s wait on a richer photo.
pub trait Photo {
    fn apply<C: StrCheck + ?Sized>(val: &AbsVal, check: &C) -> Result<(), ApplyErr>;
}

/// The `x` in `refine(|x|)`: lift maps a field to this.
pub trait PhotoArg {
    type Photo: Photo;
}

impl PhotoArg for str {
    type Photo = String;
}

impl Photo for String {
    fn apply<C: StrCheck + ?Sized>(val: &AbsVal, check: &C) -> (r: Result<(), ApplyErr>)
        ensures
            apply_outs(absval_view(*val), answers_of(check)).contains(apply_view(r)),
            functional(check) ==> apply_view(r) == apply_str_spec(absval_view(*val), check),
    {
        apply_str(val, check)
    }
}

/// Scores one photo with a string check.
pub fn apply_str<C: StrCheck + ?Sized>(val: &AbsVal, check: &C) -> (r: Result<(), ApplyErr>)
    ensures
        apply_outs(absval_view(*val), answers_of(check)).contains(apply_view(r)),
        functional(check) ==> apply_view(r) == apply_str_spec(absval_view(*val), check),
{
        match val {
            AbsVal::Known(s) => {
                let b = check.check(s.as_str());
                proof {
                    assert(absval_view(*val) == AbsValV::Known(s@));
                    assert(check.answers(s@, b));
                    if functional(check) && !b {
                        assert(!accepts(check, s@));
                    }
                    if b {
                        assert(accepts(check, s@));
                    }
                }
                if b {
                    Ok(())
                } else {
                    let m = refused_text(s.as_str());
                    Err(ApplyErr::Fail(m))
                }
            },
            AbsVal::Unknown => Err(ApplyErr::Undecidable("value Unknown".to_owned())),
            AbsVal::Absent => Err(ApplyErr::Fail("is absent".to_owned())),
            AbsVal::Array(xs) => {
                proof {
                    lemma_vals_view(xs@);
                }
                apply_str_each(xs, check)
            },
            AbsVal::Record(_) => Err(ApplyErr::Fail("is a record".to_owned())),
            AbsVal::OneOf(_) => Err(ApplyErr::Undecidable("OneOf, not a single value".to_owned())),
        }
}

pub open spec fn opt_err_view(o: Option<ApplyErr>) -> Option<ErrView> {
    match o {
        Some(e) => Some(e@),
        None => None,
    }
}

/// Scores each element of a list with the check.
pub fn apply_str_each<C: StrCheck + ?Sized>(xs: &Vec<AbsVal>, check: &C) -> (r: Result<(), ApplyErr>)
    ensures
        each_outs(vals_view(xs@), 0, answers_of(check)).contains(apply_view(r)),
        functional(check) ==> apply_view(r) == apply_each_spec(vals_view(xs@), 0, None, check),
    decreases xs,
{
    let ghost vs = vals_view(xs@);
    let ghost ans = answers_of(check);
    proof {
        lemma_vals_view(xs@);
    }
    let mut und: Option<ApplyErr> = None;
    let mut i: usize = 0;
    proof {
        assert forall|j: int| 0 <= j < xs.len() implies #[trigger] decreases_to!(*xs => xs@[j]) by {}
    }
    while i < xs.len()
        invariant
            forall|j: int| 0 <= j < xs.len() ==> #[trigger] decreases_to!(*xs => xs@[j]),
            i <= xs@.len(),
            vs == vals_view(xs@),
            vs.len() == xs@.len(),
            ans == answers_of(check),
            forall|j: int| 0 <= j < xs@.len() ==> #[trigger] vs[j] == absval_view(xs@[j]),
            functional(check) ==> apply_each_spec(vs, 0, None, check) == apply_each_spec(
                vs,
                i as int,
                opt_err_view(und),
                check,
            ),
            forall|o: Result<(), ErrView>| #[trigger] each_outs(vs, i as int, ans).contains(o)
                ==> each_outs(vs, 0, ans).contains(with_und(o, opt_err_view(und))),
        decreases xs.len() - i,
    {
        let ghost u0 = opt_err_view(und);
        match &xs[i] {
            AbsVal::Known(s) => {
                let b = check.check(s.as_str());
                if !b {
                    let m = refused_text(s.as_str());
                    proof {
                        assert(each_outs(vs, i as int, ans).contains(Err(ErrView::Fail(m@))));
                    }
                    return Err(ApplyErr::Fail(m));
                }
                proof {
                    assert forall|o: Result<(), ErrView>| #[trigger] each_outs(vs, i + 1, ans).contains(o)
                        implies each_outs(vs, 0, ans).contains(with_und(o, u0)) by {
                        assert(each_outs(vs, i as int, ans).contains(o));
                    }
                }
            },
            AbsVal::Unknown => {
                und = Some(ApplyErr::Undecidable("value Unknown".to_owned()));
                proof {
                    assert(vs[i as int] == AbsValV::Unknown);
                    assert forall|o: Result<(), ErrView>| #[trigger] each_outs(vs, i + 1, ans).contains(o)
                        implies each_outs(vs, 0, ans).contains(with_und(o, opt_err_view(und))) by {
                        let ev = ErrView::Undecidable("value Unknown"@);
                        assert(opt_err_view(und) == Some(ev));
                        if o is Ok {
                            assert(with_und(o, Some(ev)) == Err::<(), ErrView>(ev));
                        } else {
                            assert(with_und(o, Some(ev)) == o);
                        }
                        assert(carry_und(each_outs(vs, i + 1, ans), ev).contains(with_und(o, Some(ev))));
                        assert(each_outs(vs, i as int, ans).contains(with_und(o, opt_err_view(und))));
                    }
                }
            },
            AbsVal::Array(inner) => {
                proof {
                    assert(decreases_to!(*xs => xs@[i as int]));
                }
                let ri = apply_str_each(inner, check);
                let ghost oi = apply_view(ri);
                let ghost ins = each_outs(vals_view(inner@), 0, ans);
                proof {
                    assert(vs[i as int] == AbsValV::Array(vals_view(inner@)));
                    assert(ins.contains(oi));
                }
                match ri {
                    Ok(()) => {
                        proof {
                            assert forall|o: Result<(), ErrView>| #[trigger] each_outs(vs, i + 1, ans).contains(o)
                                implies each_outs(vs, 0, ans).contains(with_und(o, u0)) by {
                                assert(each_outs(vs, i as int, ans).contains(o));
                            }
                        }
                    },
                    Err(ApplyErr::Fail(m)) => {
                        proof {
                            assert(each_outs(vs, i as int, ans).contains(Err(ErrView::Fail(m@))));
                        }
                        return Err(ApplyErr::Fail(m));
                    },
                    Err(e) => {
                        let ghost ev = e@;
                        und = Some(e);
                        proof {
                            let um = ev->Undecidable_0;
                            assert(ev == ErrView::Undecidable(um));
                            assert(ins.contains(Err(ErrView::Undecidable(um))));
                            assert forall|o: Result<(), ErrView>| #[trigger] each_outs(vs, i + 1, ans).contains(o)
                                implies each_outs(vs, 0, ans).contains(with_und(o, opt_err_view(und))) by {
                                if o is Ok {
                                    assert(with_und(o, Some(ev)) == Err::<(), ErrView>(ev));
                                        } else {
                                    assert(with_und(o, Some(ev)) == o);
                                }
                                assert(carry_und(each_outs(vs, i + 1, ans), ev).contains(with_und(o, Some(ev))));
                                assert(each_outs(vs, i as int, ans).contains(with_und(o, opt_err_view(und))));
                            }
                        }
                    },
                }
            },
            AbsVal::Absent => {
                let m = "is absent".to_owned();
                proof {
                    assert(each_outs(vs, i as int, ans).contains(Err(ErrView::Fail(m@))));
                }
                return Err(ApplyErr::Fail(m));
            },
            AbsVal::Record(_) => {
                let m = "is a record".to_owned();
                proof {
                    assert(each_outs(vs, i as int, ans).contains(Err(ErrView::Fail(m@))));
                }
                return Err(ApplyErr::Fail(m));
            },
            AbsVal::OneOf(_) => {
                und = Some(ApplyErr::Undecidable("OneOf, not a single value".to_owned()));
                proof {
                    assert forall|o: Result<(), ErrView>| #[trigger] each_outs(vs, i + 1, ans).contains(o)
                        implies each_outs(vs, 0, ans).contains(with_und(o, opt_err_view(und))) by {
                        assert(each_outs(vs, i as int, ans).contains(with_und(o, opt_err_view(und))));
                    }
                }
            },
        }
        i = i + 1;
    }
    let ghost uf = opt_err_view(und);
    proof {
        assert(each_outs(vs, i as int, ans).contains(Ok(())));
    }
    match und {
        Some(e) => Err(e),
        None => Ok(()),
    }
}

} // verus!
