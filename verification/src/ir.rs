//! Core IR: Schema · Field · Invariant · Predicate · Compose, and the
//! observed state (`ValueCtx`) that Eval scores.
use std::sync::Arc;
use vstd::prelude::*;
use crate::absval::{
    absval_view, answers_of, apply_outs, apply_str, apply_str_spec, apply_view, functional, record_view, AbsVal,
    AbsValV, ApplyErr, Closure, ErrView, StrCheck, lemma_entries_view, lemma_record_insert,
};
use crate::strmap::{keys_of, lookup, sorted_set, StrMap, StrSet};

verus! {

/// Type-erased `Refine a`: a check on the photo of one slot.
pub struct RefineFn {
    check: Arc<Box<dyn StrCheck>>,
}

impl RefineFn {
    /// The check gives one answer per string.
    pub closed spec fn is_functional(self) -> bool {
        functional(&**self.check)
    }

    /// `b` is an answer the check may give on `s`.
    pub closed spec fn gives(self, s: Seq<char>, b: bool) -> bool {
        self.check.answers(s, b)
    }

    /// How the check scores a photo: by its answers.
    pub proof fn lemma_scores(self, v: AbsValV)
        ensures
            self.scores(v) == match v {
                AbsValV::Known(s) => if self.gives(s, true) {
                    Ok(())
                } else {
                    Err(ErrView::Fail(crate::absval::refused_msg(s)))
                },
                _ => self.scores(v),
            },
    {
    }

    /// How the check scores a photo.
    pub closed spec fn scores(self, v: AbsValV) -> Result<(), ErrView> {
        apply_str_spec(v, &**self.check)
    }

    /// Wraps a string check. What the closure answers is the closure's own
    /// business: the library promises only how those answers are used.
    pub fn new<F: Fn(&str) -> bool + 'static>(check: F) -> (r: Self)
        requires
            forall|x: &str| call_requires(check, (x,)),
        ensures
            forall|s: Seq<char>, b: bool| #[trigger] r.gives(s, b) <==> exists|x: &str| x@ == s && call_ensures(check, (x,), b),
    {
        let cl = Closure::new(check);
        let ghost gc = cl;
        let c: Box<dyn StrCheck> = Box::new(cl);
        let ghost g = c;
        let a = Arc::new(c);
        assert(a == g);
        let r = RefineFn { check: a };
        proof {
            assert forall|s: Seq<char>, b: bool| #[trigger] r.gives(s, b) <==> exists|x: &str| x@ == s && call_ensures(check, (x,), b) by {
                assert(g.answers(s, b) == gc.answers(s, b));
                crate::absval::lemma_closure_answers(&gc, s, b);
            }
        }
        r
    }

    /// Wraps a check of the library's own: it answers as that check does.
    pub fn from_check(c: Box<dyn StrCheck>) -> (r: Self)
        ensures
            r.is_functional() == functional(&*c),
            forall|v: AbsValV| #[trigger] r.scores(v) == apply_str_spec(v, &*c),
            forall|s: Seq<char>, b: bool| #[trigger] r.gives(s, b) == c.answers(s, b),
    {
        let ghost g = c;
        let a = Arc::new(c);
        assert(a == g);
        let r = RefineFn { check: a };
        assert(r.check == g);
        r
    }

    /// Wraps a compiled regex matcher: it answers as the matcher does.
    pub fn from_matcher(m: crate::stdlib::Matcher) -> (r: Self)
        ensures
            r.is_functional() == functional(&m),
            forall|s: Seq<char>, b: bool| #[trigger] r.gives(s, b) == m.answers(s, b),
    {
        let ghost gm = m;
        let c: Box<dyn StrCheck> = Box::new(m);
        assert(forall|s: Seq<char>, b: bool| #[trigger] c.answers(s, b) == gm.answers(s, b));
        assert(functional(&*c) == functional(&gm)) by {
            if functional(&gm) {
                assert forall|s: Seq<char>, x: bool, y: bool| #[trigger] c.answers(s, x) && #[trigger] c.answers(s, y) implies x == y by {
                    assert(c.answers(s, x) == gm.answers(s, x));
                    assert(c.answers(s, y) == gm.answers(s, y));
                }
            }
            if functional(&*c) {
                assert forall|s: Seq<char>, x: bool, y: bool| #[trigger] gm.answers(s, x) && #[trigger] gm.answers(s, y) implies x == y by {
                    assert(c.answers(s, x) == gm.answers(s, x));
                    assert(c.answers(s, y) == gm.answers(s, y));
                }
            }
        }
        let ghost g = c;
        let a = Arc::new(c);
        assert(a == g);
        let r = RefineFn { check: a };
        assert(r.check == g);
        r
    }

    /// Scores one photo: whatever the check answers, the score is one the
    /// answers it gave allow; a check that answers once per string scores
    /// exactly.
    pub fn run(&self, val: &AbsVal) -> (r: Result<(), ApplyErr>)
        ensures
            apply_outs(absval_view(*val), |s: Seq<char>, b: bool| self.gives(s, b)).contains(apply_view(r)),
            self.is_functional() ==> apply_view(r) == self.scores(absval_view(*val)),
    {
        let r = apply_str(val, &**self.check);
        proof {
            assert(answers_of(&**self.check) =~= (|s: Seq<char>, b: bool| self.gives(s, b)));
        }
        r
    }
}

impl Clone for RefineFn {
    fn clone(&self) -> (r: Self)
        ensures
            r == *self,
    {
        RefineFn { check: self.check.clone() }
    }
}

/// Typed `Refine a`. Erased to `Invariant` only at the Schema boundary.
pub struct Refine<A: ?Sized> {
    inv: Invariant,
    _a: std::marker::PhantomData<A>,
}

impl<A: ?Sized> Refine<A> {
    /// The invariant this refine erases to.
    pub closed spec fn erased(self) -> Invariant {
        self.inv
    }

    pub(crate) fn pack(inv: Invariant) -> (r: Self)
        ensures
            r.erased() == inv,
    {
        Refine { inv, _a: std::marker::PhantomData }
    }

    /// Erases the type.
    pub fn erase(self) -> (r: Invariant)
        ensures
            r == self.erased(),
    {
        self.inv
    }
}

impl<A: ?Sized> From<Refine<A>> for Invariant {
    fn from(r: Refine<A>) -> (i: Self) {
        r.erase()
    }
}

impl<A: ?Sized> vstd::std_specs::convert::FromSpecImpl<Refine<A>> for Invariant {
    open spec fn obeys_from_spec() -> bool {
        true
    }

    open spec fn from_spec(v: Refine<A>) -> Self {
        v.erased()
    }
}

/// Parent type under check (`Msg`, `E1`, …).
pub struct Schema {
    pub name: String,
    /// Optional fixed-width record length.
    pub width: Option<usize>,
    pub fields: Vec<Field>,
    /// `when(P, rewrite I)`: only these open pre/write. Empty = one photo.
    pub rewrites: Vec<Rewrite>,
}

/// `when(P, rewrite I)` at a field `=`: `pred` reads **pre**, `then` reads
/// **write** as `field`.
pub struct Rewrite {
    pub field: String,
    pub pred: Predicate,
    pub then: Invariant,
}

/// Named slot inside a Schema.
pub struct Field {
    pub name: String,
    pub locator: Locator,
    pub invariants: Vec<Invariant>,
    /// Optional geometry declared on the field.
    pub wire: Option<WireMeta>,
}

/// Wire geometry: 1-based start and width.
#[derive(Debug, Clone, Copy, PartialEq, Eq)]
pub struct WireMeta {
    pub pos: Option<usize>,
    pub len: Option<usize>,
}

/// How to find the field on the value / wire.
#[derive(Debug, Clone)]
pub enum Locator {
    Path(String),
    Wire(String),
    Tag(String),
}

impl Locator {
    pub open spec fn key_spec(&self) -> Seq<char> {
        match self {
            Locator::Path(s) => s@,
            Locator::Wire(s) => s@,
            Locator::Tag(s) => s@,
        }
    }

    /// The name the locator reads.
    pub fn key(&self) -> (r: &str)
        ensures
            r@ == self.key_spec(),
    {
        match self {
            Locator::Path(s) => s.as_str(),
            Locator::Wire(s) => s.as_str(),
            Locator::Tag(s) => s.as_str(),
        }
    }
}

/// `(ctx, field) → Pass | Fail`, evaluated as data.
pub enum Invariant {
    /// Value ∈ set (empty string counts as a value; use Defined separately).
    OneOf(Vec<String>),
    /// Field is present: observed, not Absent, and not the empty string.
    Defined,
    /// Field is absent.
    Absent,
    /// Observed form (scalar string vs array).
    Shape(Form),
    /// List elements are pairwise distinct (`Known` strings).
    Unique,
    /// Domain `Refine a`.
    Refine(RefineFn),
    /// Walk an inner Schema on a record photo (and each record in an array).
    Nested(Box<Schema>),
    /// Geometry: 1-based start.
    At(usize),
    /// Geometry: width in characters.
    Width(usize),
    /// Compose: if Predicate then Invariant else skip.
    When { pred: Predicate, then: Box<Invariant> },
    /// Compose: all must Pass.
    All(Vec<Invariant>),
    /// Compose: any may Pass.
    Any(Vec<Invariant>),
}

#[derive(Debug, Clone, Copy, PartialEq, Eq)]
pub enum Form {
    Scalar,
    Array,
}

/// `ctx → Bool`
#[derive(Debug)]
pub enum Predicate {
    Eq { field: String, lit: String },
    In { field: String, lits: Vec<String> },
    /// Field is present (not Absent). Unobserved is Undecidable.
    Defined { field: String },
    And(Vec<Predicate>),
    Or(Vec<Predicate>),
    Not(Box<Predicate>),
}

/// Names for the composition forms (All / Any / When live on Invariant).
#[derive(Debug, Clone, Copy)]
pub enum Compose {
    All,
    Any,
    When,
}

/// The mathematical form of an observed state.
pub struct CtxV {
    pub values: Map<Seq<char>, AbsValV>,
    pub wire: Map<Seq<char>, WireMeta>,
    pub excluded: Map<Seq<char>, Seq<Seq<char>>>,
}

/// Observed values of one state (after a transition, or a hand-built ctx).
///
/// A missing key is **unobserved**, not Absent. Absent is an explicit fact.
#[derive(Debug)]
pub struct ValueCtx {
    /// field name → abstract value
    pub values: StrMap<AbsVal>,
    /// field name → observed wire geometry
    pub wire: StrMap<WireMeta>,
    /// field name → literals this path has ruled out (`else` of `==` / `matches!`)
    pub excluded: StrMap<StrSet>,
}

/// The member lists of a map of sets.
pub open spec fn sets_view(m: StrMap<StrSet>) -> Map<Seq<char>, Seq<Seq<char>>> {
    Map::new(|k: Seq<char>| m.get_spec(k) is Some, |k: Seq<char>| m.get_spec(k).unwrap().members())
}

impl View for ValueCtx {
    type V = CtxV;

    open spec fn view(&self) -> CtxV {
        CtxV {
            values: record_view(self.values),
            wire: self.wire.as_map(),
            excluded: sets_view(self.excluded),
        }
    }
}

/// The empty state, with nothing observed.
pub open spec fn empty_ctx() -> CtxV {
    CtxV { values: Map::empty(), wire: Map::empty(), excluded: Map::empty() }
}

/// The literals ruled out for `field` so far.
pub open spec fn excluded_of(c: CtxV, field: Seq<char>) -> Seq<Seq<char>> {
    if c.excluded.contains_key(field) {
        c.excluded[field]
    } else {
        Seq::empty()
    }
}

/// `M` for an exclusion: `lit` joins the literals ruled out for `field`.
pub open spec fn exclude_spec(c: CtxV, field: Seq<char>, lit: Seq<char>) -> CtxV {
    CtxV {
        excluded: c.excluded.insert(field, sorted_set(excluded_of(c, field).push(lit))),
        ..c
    }
}

/// `M` for a value write: last write wins, and it drops the field's exclusions.
pub open spec fn write_spec(c: CtxV, field: Seq<char>, v: AbsValV) -> CtxV {
    CtxV {
        values: c.values.insert(field, v),
        wire: c.wire,
        excluded: c.excluded.remove(field),
    }
}

impl Default for ValueCtx {
    fn default() -> (r: Self)
        ensures
            r@ == empty_ctx(),
    {
        let r = ValueCtx { values: StrMap::new(), wire: StrMap::new(), excluded: StrMap::new() };
        proof {
            assert forall|q: Seq<char>| !#[trigger] record_view(r.values).contains_key(q) by {
                lemma_entries_view(r.values.pairs(), q);
            }
            assert(record_view(r.values) =~= Map::empty());
            assert(r.wire.as_map() =~= Map::empty());
            assert(sets_view(r.excluded) =~= Map::empty());
        }
        r
    }
}

impl Clone for ValueCtx {
    fn clone(&self) -> (r: Self)
        ensures
            r@ == self@,
    {
        let values = crate::absval::copy_record(&self.values);
        let wire = self.wire.copied();
        let excluded = self.excluded.copied_sets();
        proof {
            assert(wire.as_map() =~= self.wire.as_map());
            assert forall|k: Seq<char>| #[trigger] excluded.get_spec(k) is Some == self.excluded.get_spec(k) is Some
                && (excluded.get_spec(k) is Some ==> excluded.get_spec(k).unwrap().members() == self.excluded.get_spec(k).unwrap().members()) by {
                crate::strmap::lemma_lookup_pairwise(excluded.pairs(), self.excluded.pairs(), k);
                if excluded.get_spec(k) is Some {
                    let i = choose|i: int| 0 <= i < excluded.pairs().len() && #[trigger] excluded.pairs()[i].0@ == k
                        && lookup(excluded.pairs(), k) == Some(excluded.pairs()[i].1)
                        && lookup(self.excluded.pairs(), k) == Some(self.excluded.pairs()[i].1);
                    assert(keys_of(excluded.pairs()).len() == excluded.pairs().len());
                    assert(keys_of(self.excluded.pairs()).len() == self.excluded.pairs().len());
                    assert(excluded.pairs()[i].1.members() == self.excluded.pairs()[i].1.members());
                }
            }
            assert(sets_view(excluded) =~= sets_view(self.excluded));
        }
        ValueCtx { values, wire, excluded }
    }
}

impl ValueCtx {
    pub(crate) fn write_value(self, field: &str, val: AbsVal) -> (r: Self)
        ensures
            r@ == write_spec(self@, field@, absval_view(val)),
    {
        let mut c = self;
        let ghost vals0 = c.values;
        let ghost ex0 = c.excluded;
        let _ = c.excluded.remove(field);
        let ghost v = val;
        c.values.insert(field.to_owned(), val);
        proof {
            lemma_record_insert(vals0, c.values, field@, v);
            assert(sets_view(c.excluded) =~= sets_view(ex0).remove(field@));
        }
        c
    }

    /// The state with `field` bound to `val`, its exclusions kept.
    pub(crate) fn set_value(self, field: &str, val: AbsVal) -> (r: Self)
        ensures
            r@ == (CtxV { values: self@.values.insert(field@, absval_view(val)), ..self@ }),
    {
        let mut c = self;
        let ghost vals0 = c.values;
        let ghost v = val;
        c.values.insert(field.to_owned(), val);
        proof {
            lemma_record_insert(vals0, c.values, field@, v);
        }
        c
    }

    /// A known string.
    pub fn lit(self, field: &str, value: &str) -> (r: Self)
        ensures
            r@ == write_spec(self@, field@, AbsValV::Known(value@)),
    {
        self.write_value(field, AbsVal::Known(value.to_owned()))
    }

    /// An explicit `None`.
    pub fn absent(self, field: &str) -> (r: Self)
        ensures
            r@ == write_spec(self@, field@, AbsValV::Absent),
    {
        self.write_value(field, AbsVal::Absent)
    }

    /// A write that cannot be read.
    pub fn unknown(self, field: &str) -> (r: Self)
        ensures
            r@ == write_spec(self@, field@, AbsValV::Unknown),
    {
        self.write_value(field, AbsVal::Unknown)
    }

    /// An empty list.
    pub fn array(self, field: &str) -> (r: Self)
        ensures
            r@ == write_spec(self@, field@, AbsValV::Array(Seq::empty())),
    {
        let r = self.array_of(field, Vec::new());
        proof {
            crate::absval::lemma_vals_view(Seq::<AbsVal>::empty());
            assert(crate::absval::vals_view(Seq::<AbsVal>::empty()) =~= Seq::empty());
        }
        r
    }

    /// A list of values.
    pub fn array_of(self, field: &str, xs: Vec<AbsVal>) -> (r: Self)
        ensures
            r@ == write_spec(self@, field@, AbsValV::Array(crate::absval::vals_view(xs@))),
    {
        self.write_value(field, AbsVal::Array(xs))
    }

    /// A struct value; a later entry for a name replaces an earlier one.
    pub fn record(self, field: &str, fields: Vec<(String, AbsVal)>) -> (r: Self)
        ensures
            r@ == write_spec(self@, field@, AbsValV::Record(crate::absval::pairs_view(fields@))),
    {
        let m = crate::absval::record_of(fields);
        self.write_value(field, AbsVal::Record(m))
    }

    /// One of several strings.
    pub fn one_of(self, field: &str, values: &[&str]) -> (r: Self)
        ensures
            r@ == write_spec(
                self@,
                field@,
                AbsValV::OneOf(sorted_set(values@.map_values(|s: &str| s@))),
            ),
    {
        let set = StrSet::from_strs(values);
        self.write_value(field, AbsVal::OneOf(set))
    }

    /// One of several strings, owned.
    pub fn one_of_strings(self, field: &str, values: &Vec<String>) -> (r: Self)
        ensures
            r@ == write_spec(self@, field@, AbsValV::OneOf(sorted_set(crate::text::views(values@)))),
    {
        let set = StrSet::from_strings(values);
        self.write_value(field, AbsVal::OneOf(set))
    }

    /// Observed wire geometry.
    pub fn with_wire(self, field: &str, pos: usize, len: usize) -> (r: Self)
        ensures
            r@ == (CtxV {
                wire: self@.wire.insert(field@, WireMeta { pos: Some(pos), len: Some(len) }),
                ..self@
            }),
    {
        let mut c = self;
        let ghost w0 = c.wire;
        c.wire.insert(field.to_owned(), WireMeta { pos: Some(pos), len: Some(len) });
        proof {
            assert(c.wire.as_map() =~= w0.as_map().insert(field@, WireMeta { pos: Some(pos), len: Some(len) }));
        }
        c
    }

    /// This path has ruled out `lit` for `field`.
    pub fn exclude(self, field: &str, lit: &str) -> (r: Self)
        ensures
            r@ == exclude_spec(self@, field@, lit@),
    {
        let mut c = self;
        let ghost e0 = c.excluded;
        let mut set = match c.excluded.get(field) {
            Some(s) => s.clone(),
            None => StrSet::new(),
        };
        let ghost set0 = set;
        proof {
            if sets_view(e0).contains_key(field@) {
                assert(set0.members() == sets_view(e0)[field@]);
            } else {
                assert(set0.members().len() == 0);
            }
        }
        let _ = set.insert(lit.to_owned());
        proof {
            use_type_invariant(&set.map);
        }
        let ghost sv = set;
        c.excluded.insert(field.to_owned(), set);
        proof {
            assert(sets_view(c.excluded).dom() =~= sets_view(e0).dom().insert(field@));
            assert(sets_view(c.excluded)[field@] == sv.members());
            let prior = excluded_of(self@, field@);
            assert forall|t: Seq<char>| #[trigger] sv.members().contains(t) == prior.push(lit@).contains(t) by {
                assert(sv.has(t) == (set0.has(t) || t == lit@));
                if prior.push(lit@).contains(t) && t != lit@ {
                    let j = choose|j: int| 0 <= j < prior.push(lit@).len() && prior.push(lit@)[j] == t;
                    assert(prior[j] == t);
                }
                if prior.contains(t) {
                    let j = choose|j: int| 0 <= j < prior.len() && prior[j] == t;
                    assert(prior.push(lit@)[j] == t);
                }
                if t == lit@ {
                    assert(prior.push(lit@)[prior.len() as int] == t);
                }
            }
            crate::strmap::lemma_sorted_set(sv.members(), prior.push(lit@));
            assert(sets_view(c.excluded) =~= sets_view(e0).insert(field@, sorted_set(prior.push(lit@))));
        }
        c
    }
}

impl Clone for Predicate {
    fn clone(&self) -> Self {
        copy_pred(self)
    }
}

impl Clone for Invariant {
    fn clone(&self) -> Self {
        copy_inv(self)
    }
}

impl Clone for Schema {
    fn clone(&self) -> Self {
        copy_schema(self)
    }
}

impl Clone for Field {
    fn clone(&self) -> Self {
        copy_field(self)
    }
}

impl Clone for Rewrite {
    fn clone(&self) -> Self {
        copy_rewrite(self)
    }
}

impl<A: ?Sized> Clone for Refine<A> {
    fn clone(&self) -> Self {
        Refine { inv: copy_inv(&self.inv), _a: std::marker::PhantomData }
    }
}

/// A copy of a predicate, part by part.
fn copy_pred(p: &Predicate) -> Predicate
    decreases p,
{
    match p {
        Predicate::Eq { field, lit } => Predicate::Eq { field: field.clone(), lit: lit.clone() },
        Predicate::In { field, lits } => Predicate::In { field: field.clone(), lits: lits.clone() },
        Predicate::Defined { field } => Predicate::Defined { field: field.clone() },
        Predicate::And(xs) => {
            proof {
                assert forall|j: int| 0 <= j < xs@.len() implies #[trigger] decreases_to!(*p => xs@[j]) by {
                    assert(decreases_to!(*xs => xs@[j]));
                }
            }
            let mut out: Vec<Predicate> = Vec::new();
            let mut i: usize = 0;
            while i < xs.len()
                invariant
                    i <= xs@.len(),
                    forall|j: int| 0 <= j < xs@.len() ==> #[trigger] decreases_to!(*p => xs@[j]),
                decreases xs.len() - i,
            {
                out.push(copy_pred(&xs[i]));
                i = i + 1;
            }
            Predicate::And(out)
        },
        Predicate::Or(xs) => {
            proof {
                assert forall|j: int| 0 <= j < xs@.len() implies #[trigger] decreases_to!(*p => xs@[j]) by {
                    assert(decreases_to!(*xs => xs@[j]));
                }
            }
            let mut out: Vec<Predicate> = Vec::new();
            let mut i: usize = 0;
            while i < xs.len()
                invariant
                    i <= xs@.len(),
                    forall|j: int| 0 <= j < xs@.len() ==> #[trigger] decreases_to!(*p => xs@[j]),
                decreases xs.len() - i,
            {
                out.push(copy_pred(&xs[i]));
                i = i + 1;
            }
            Predicate::Or(out)
        },
        Predicate::Not(x) => Predicate::Not(Box::new(copy_pred(x))),
    }
}

/// A copy of a list of invariants, each part by part.
fn copy_invs(ps: &Vec<Invariant>) -> Vec<Invariant>
    decreases ps, 1nat,
{
    proof {
        assert forall|j: int| 0 <= j < ps@.len() implies #[trigger] decreases_to!(*ps => ps@[j]) by {}
    }
    let mut out: Vec<Invariant> = Vec::new();
    let mut i: usize = 0;
    while i < ps.len()
        invariant
            i <= ps@.len(),
            forall|j: int| 0 <= j < ps@.len() ==> #[trigger] decreases_to!(*ps => ps@[j]),
        decreases ps.len() - i,
    {
        out.push(copy_inv(&ps[i]));
        i = i + 1;
    }
    out
}

/// A copy of an invariant, part by part.
fn copy_inv(p: &Invariant) -> Invariant
    decreases p, 0nat,
{
    match p {
        Invariant::OneOf(v) => Invariant::OneOf(v.clone()),
        Invariant::Defined => Invariant::Defined,
        Invariant::Absent => Invariant::Absent,
        Invariant::Shape(f) => Invariant::Shape(*f),
        Invariant::Unique => Invariant::Unique,
        Invariant::Refine(r) => Invariant::Refine(r.clone()),
        Invariant::Nested(s) => Invariant::Nested(Box::new(copy_schema(s))),
        Invariant::At(n) => Invariant::At(*n),
        Invariant::Width(n) => Invariant::Width(*n),
        Invariant::When { pred, then: body } => {
            let g = copy_pred(pred);
            let b = copy_inv(body);
            Invariant::When { pred: g, then: Box::new(b) }
        },
        Invariant::All(ps) => Invariant::All(copy_invs(ps)),
        Invariant::Any(ps) => Invariant::Any(copy_invs(ps)),
    }
}

/// A copy of a schema, part by part.
fn copy_schema(s: &Schema) -> Schema
    decreases s, 0nat,
{
    proof {
        assert forall|j: int| 0 <= j < s.fields@.len() implies #[trigger] decreases_to!(*s => s.fields@[j]) by {
            assert(decreases_to!(s.fields => s.fields@[j]));
        }
        assert forall|j: int| 0 <= j < s.rewrites@.len() implies #[trigger] decreases_to!(*s => s.rewrites@[j]) by {
            assert(decreases_to!(s.rewrites => s.rewrites@[j]));
        }
    }
    let mut fields: Vec<Field> = Vec::new();
    let mut i: usize = 0;
    while i < s.fields.len()
        invariant
            i <= s.fields@.len(),
            forall|j: int| 0 <= j < s.fields@.len() ==> #[trigger] decreases_to!(*s => s.fields@[j]),
        decreases s.fields.len() - i,
    {
        fields.push(copy_field(&s.fields[i]));
        i = i + 1;
    }
    let mut rewrites: Vec<Rewrite> = Vec::new();
    let mut k: usize = 0;
    while k < s.rewrites.len()
        invariant
            k <= s.rewrites@.len(),
            forall|j: int| 0 <= j < s.rewrites@.len() ==> #[trigger] decreases_to!(*s => s.rewrites@[j]),
        decreases s.rewrites.len() - k,
    {
        rewrites.push(copy_rewrite(&s.rewrites[k]));
        k = k + 1;
    }
    Schema { name: s.name.clone(), width: s.width, fields, rewrites }
}

/// A copy of a field, part by part.
fn copy_field(f: &Field) -> Field
    decreases f, 0nat,
{
    proof {
        assert(decreases_to!(*f => f.invariants));
    }
    Field { name: f.name.clone(), locator: f.locator.clone(), invariants: copy_invs(&f.invariants), wire: f.wire }
}

/// A copy of a rewrite, part by part.
fn copy_rewrite(rw: &Rewrite) -> Rewrite
    decreases rw, 0nat,
{
    let Rewrite { field, pred, then: body } = rw;
    let g = copy_pred(pred);
    let b = copy_inv(body);
    Rewrite { field: field.clone(), pred: g, then: b }
}

} // verus!
