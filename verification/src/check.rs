//! Evaluate the Invariants of a Schema against one observed state (`ValueCtx`).
use vstd::prelude::*;
use crate::absval::{absval_view, lemma_vals_view, record_get, vals_view, AbsVal, AbsValV, ErrView};
use crate::ir::{CtxV, Field, Form, Invariant, Predicate, Rewrite, Schema, ValueCtx, WireMeta, excluded_of, empty_ctx, sets_view};
use crate::strmap::StrSet;
use crate::observe::{put_spec, Fact};
use crate::text::{debug_list, debug_str, debug_strings, debug_text, dec_text, num_text, str_same, views};

verus! {

#[derive(Debug, Clone, Copy, PartialEq, Eq)]
pub enum FindingKind {
    Fail,
    Undecidable,
}

#[derive(Debug, Clone)]
pub struct Finding {
    pub kind: FindingKind,
    pub schema: String,
    pub field: String,
    pub message: String,
    pub site: Option<String>,
}

/// The mathematical form of a finding.
pub struct FindingV {
    pub kind: FindingKind,
    pub schema: Seq<char>,
    pub field: Seq<char>,
    pub message: Seq<char>,
    pub site: Option<Seq<char>>,
}

pub open spec fn opt_view(o: Option<String>) -> Option<Seq<char>> {
    match o {
        Some(s) => Some(s@),
        None => None,
    }
}

impl View for Finding {
    type V = FindingV;

    open spec fn view(&self) -> FindingV {
        FindingV {
            kind: self.kind,
            schema: self.schema@,
            field: self.field@,
            message: self.message@,
            site: opt_view(self.site),
        }
    }
}

/// A site muted by `#[except("…")]`. Not a Fail. Follow into that fn still runs.
#[derive(Debug, Clone)]
pub struct Skip {
    pub site: String,
    pub reason: String,
}

pub struct SkipV {
    pub site: Seq<char>,
    pub reason: Seq<char>,
}

impl View for Skip {
    type V = SkipV;

    open spec fn view(&self) -> SkipV {
        SkipV { site: self.site@, reason: self.reason@ }
    }
}

#[derive(Debug, Clone)]
pub struct CheckReport {
    pub findings: Vec<Finding>,
    pub skipped: Vec<Skip>,
}

/// The mathematical form of a report.
pub struct ReportV {
    pub findings: Seq<FindingV>,
    pub skipped: Seq<SkipV>,
}

pub open spec fn fviews(fs: Seq<Finding>) -> Seq<FindingV> {
    fs.map_values(|f: Finding| f@)
}

pub open spec fn sviews(ss: Seq<Skip>) -> Seq<SkipV> {
    ss.map_values(|s: Skip| s@)
}

impl View for CheckReport {
    type V = ReportV;

    open spec fn view(&self) -> ReportV {
        ReportV { findings: fviews(self.findings@), skipped: sviews(self.skipped@) }
    }
}

#[derive(Debug)]
pub enum EvalError {
    Fail(String),
    Undecidable(String),
}

impl View for EvalError {
    type V = ErrView;

    open spec fn view(&self) -> ErrView {
        match self {
            EvalError::Fail(m) => ErrView::Fail(m@),
            EvalError::Undecidable(m) => ErrView::Undecidable(m@),
        }
    }
}

pub open spec fn eval_view(r: Result<(), EvalError>) -> Result<(), ErrView> {
    match r {
        Ok(()) => Ok(()),
        Err(e) => Err(e@),
    }
}

// ---------------------------------------------------------------------------
// The model of Eval.
// ---------------------------------------------------------------------------

/// The value observed for `f`, if any.
/// No value is observed (wire geometry and exclusions may be).
pub open spec fn no_values(c: CtxV) -> bool {
    forall|f: Seq<char>| !#[trigger] c.values.contains_key(f)
}

pub open spec fn val_of(c: CtxV, f: Seq<char>) -> Option<AbsValV> {
    if c.values.contains_key(f) {
        Some(c.values[f])
    } else {
        None
    }
}

/// The finding that one failed or undecided check leaves, if any.
pub open spec fn push_spec(
    schema: Seq<char>,
    field: Seq<char>,
    site: Option<Seq<char>>,
    r: Result<(), ErrView>,
) -> Seq<FindingV> {
    match r {
        Ok(()) => Seq::empty(),
        Err(ErrView::Fail(m)) => seq![
            FindingV { kind: FindingKind::Fail, schema, field, message: m, site },
        ],
        Err(ErrView::Undecidable(m)) => seq![
            FindingV { kind: FindingKind::Undecidable, schema, field, message: m, site },
        ],
    }
}

/// `` `f` `` as the messages quote a name.
pub open spec fn tick(f: Seq<char>) -> Seq<char> {
    "`"@ + f + "`"@
}

pub open spec fn defined_spec(c: CtxV, f: Seq<char>) -> Result<(), ErrView> {
    match val_of(c, f) {
        None => Err(ErrView::Undecidable("Invariant defined: "@ + tick(f) + " unobserved"@)),
        Some(AbsValV::Absent) => Err(
            ErrView::Fail("Invariant defined failed: field "@ + tick(f) + " is absent"@),
        ),
        Some(AbsValV::Unknown) => Err(ErrView::Undecidable("Invariant defined: "@ + tick(f) + " Unknown"@)),
        Some(AbsValV::Known(s)) => if s.len() == 0 {
            Err(ErrView::Fail("Invariant defined failed: field "@ + tick(f) + " is empty"@))
        } else {
            Ok(())
        },
        Some(_) => Ok(()),
    }
}

pub open spec fn absent_spec(c: CtxV, f: Seq<char>) -> Result<(), ErrView> {
    match val_of(c, f) {
        None => Err(ErrView::Undecidable("Invariant absent: "@ + tick(f) + " unobserved"@)),
        Some(AbsValV::Absent) => Ok(()),
        Some(_) => Err(ErrView::Fail("Invariant absent failed: field "@ + tick(f) + " is present"@)),
    }
}

pub open spec fn shape_spec(c: CtxV, f: Seq<char>, form: Form) -> Result<(), ErrView> {
    match val_of(c, f) {
        None => Err(ErrView::Undecidable("Invariant shape: "@ + tick(f) + " unobserved"@)),
        Some(AbsValV::Unknown) => Err(ErrView::Undecidable("Invariant shape: "@ + tick(f) + " Unknown"@)),
        Some(AbsValV::Absent) => Err(ErrView::Fail("Invariant shape failed: "@ + tick(f) + " is absent"@)),
        Some(AbsValV::Known(_)) | Some(AbsValV::OneOf(_)) => match form {
            Form::Scalar => Ok(()),
            Form::Array => Err(ErrView::Fail("Invariant shape failed: "@ + tick(f) + " is not array"@)),
        },
        Some(AbsValV::Array(_)) => match form {
            Form::Scalar => Err(ErrView::Fail("Invariant shape failed: "@ + tick(f) + " is not scalar"@)),
            Form::Array => Ok(()),
        },
        Some(AbsValV::Record(_)) => match form {
            Form::Scalar => Err(ErrView::Fail("Invariant shape failed: "@ + tick(f) + " is not scalar"@)),
            Form::Array => Err(ErrView::Fail("Invariant shape failed: "@ + tick(f) + " is not array"@)),
        },
    }
}

/// Geometry: the observed 1-based start of `f` is `expected`.
pub open spec fn at_spec(c: CtxV, f: Seq<char>, expected: usize) -> Result<(), ErrView> {
    let head = "Invariant at("@ + dec_text(expected as nat) + ")"@;
    if c.wire.contains_key(f) && c.wire[f].pos is Some {
        let got = c.wire[f].pos->Some_0;
        if got == expected {
            Ok(())
        } else {
            Err(ErrView::Fail(head + " failed: observed pos "@ + dec_text(got as nat) + " for "@ + tick(f)))
        }
    } else {
        Err(ErrView::Undecidable(head + ": no observed pos for "@ + tick(f)))
    }
}

/// Geometry: the observed width of `f` is `expected`.
pub open spec fn width_spec(c: CtxV, f: Seq<char>, expected: usize) -> Result<(), ErrView> {
    let head = "Invariant width("@ + dec_text(expected as nat) + ")"@;
    if c.wire.contains_key(f) && c.wire[f].len is Some {
        let got = c.wire[f].len->Some_0;
        if got == expected {
            Ok(())
        } else {
            Err(ErrView::Fail(head + " failed: observed len "@ + dec_text(got as nat) + " for "@ + tick(f)))
        }
    } else {
        Err(ErrView::Undecidable(head + ": no observed len for "@ + tick(f)))
    }
}

/// A string set's members checked against `allowed`, from index `i`: the first
/// member not allowed fails.
pub open spec fn one_of_set_spec(f: Seq<char>, allowed: Seq<Seq<char>>, ms: Seq<Seq<char>>, i: int) -> Result<(), ErrView>
    decreases ms.len() - i,
{
    if i < 0 || i >= ms.len() {
        Ok(())
    } else if !allowed.contains(ms[i]) {
        Err(ErrView::Fail(
            "Invariant oneOf failed: "@ + tick(f) + " can be "@ + debug_text(ms[i]) + " not in "@ + debug_list(allowed),
        ))
    } else {
        one_of_set_spec(f, allowed, ms, i + 1)
    }
}

/// `one_of` on one photo: each of a list, every member of a set.
pub open spec fn one_of_val_spec(f: Seq<char>, allowed: Seq<Seq<char>>, v: AbsValV) -> Result<(), ErrView>
    decreases v, 0int,
{
    match v {
        AbsValV::Absent => Err(ErrView::Fail(
            "Invariant oneOf failed: "@ + tick(f) + " is absent (not in "@ + debug_list(allowed) + ")"@,
        )),
        AbsValV::Unknown => Err(ErrView::Undecidable("Invariant oneOf on "@ + tick(f) + ": value Unknown"@)),
        AbsValV::Record(_) => Err(ErrView::Fail("Invariant oneOf failed: "@ + tick(f) + " is a record"@)),
        AbsValV::Array(xs) => one_of_arr_spec(f, allowed, xs, 0, None),
        AbsValV::Known(s) => if allowed.contains(s) {
            Ok(())
        } else {
            Err(ErrView::Fail(
                "Invariant oneOf failed: "@ + tick(f) + " = "@ + debug_text(s) + " not in "@ + debug_list(allowed),
            ))
        },
        AbsValV::OneOf(ms) => one_of_set_spec(f, allowed, ms, 0),
    }
}

/// `one_of` on each element of a list from index `i`, `und` the last
/// undecided so far: the first Fail stops; else the last Undecidable stands.
pub open spec fn one_of_arr_spec(
    f: Seq<char>,
    allowed: Seq<Seq<char>>,
    xs: Seq<AbsValV>,
    i: int,
    und: Option<ErrView>,
) -> Result<(), ErrView>
    decreases xs, xs.len() - i,
{
    if i < 0 || i >= xs.len() {
        match und {
            Some(e) => Err(e),
            None => Ok(()),
        }
    } else {
        match one_of_val_spec(f, allowed, xs[i]) {
            Ok(()) => one_of_arr_spec(f, allowed, xs, i + 1, und),
            Err(ErrView::Fail(m)) => Err(ErrView::Fail(m)),
            Err(e) => one_of_arr_spec(f, allowed, xs, i + 1, Some(e)),
        }
    }
}

pub open spec fn one_of_spec(c: CtxV, f: Seq<char>, allowed: Seq<Seq<char>>) -> Result<(), ErrView> {
    match val_of(c, f) {
        None => Err(ErrView::Undecidable("Invariant oneOf: "@ + tick(f) + " unobserved"@)),
        Some(v) => one_of_val_spec(f, allowed, v),
    }
}

/// `unique` over a list from index `i`: `seen` the known strings so far,
/// `und` whether an element was Unknown.
pub open spec fn unique_arr_spec(f: Seq<char>, xs: Seq<AbsValV>, i: int, seen: Set<Seq<char>>, und: bool) -> Result<(), ErrView>
    decreases xs.len() - i,
{
    if i < 0 || i >= xs.len() {
        if und {
            Err(ErrView::Undecidable("Invariant unique on "@ + tick(f) + ": element Unknown"@))
        } else {
            Ok(())
        }
    } else {
        match xs[i] {
            AbsValV::Known(s) => if seen.contains(s) {
                Err(ErrView::Fail("Invariant unique failed: "@ + tick(f) + " duplicates "@ + debug_text(s)))
            } else {
                unique_arr_spec(f, xs, i + 1, seen.insert(s), und)
            },
            AbsValV::Unknown => unique_arr_spec(f, xs, i + 1, seen, true),
            _ => unique_arr_spec(f, xs, i + 1, seen, und),
        }
    }
}

pub open spec fn unique_spec(c: CtxV, f: Seq<char>) -> Result<(), ErrView> {
    match val_of(c, f) {
        None => Err(ErrView::Undecidable("Invariant unique: "@ + tick(f) + " unobserved"@)),
        Some(AbsValV::Unknown) => Err(ErrView::Undecidable("Invariant unique on "@ + tick(f) + ": value Unknown"@)),
        Some(AbsValV::Absent) => Err(ErrView::Fail("Invariant unique failed: "@ + tick(f) + " is absent"@)),
        Some(AbsValV::Array(xs)) => unique_arr_spec(f, xs, 0, Set::empty(), false),
        Some(_) => Ok(()),
    }
}

/// This path has ruled out `lit` for `f`.
pub open spec fn excluded_spec(c: CtxV, f: Seq<char>, lit: Seq<char>) -> bool {
    excluded_of(c, f).contains(lit)
}

/// A value that a predicate cannot read as one string.
pub open spec fn not_scalar(v: AbsValV) -> bool {
    v is Unknown || v is Array || v is Record
}


pub open spec fn pred_eq_spec(c: CtxV, field: Seq<char>, lit: Seq<char>) -> Result<bool, ErrView> {
    match val_of(c, field) {
            None => if excluded_spec(c, field, lit) {
                Ok(false)
            } else {
                Err(ErrView::Undecidable("Predicate "@ + field + "=="@ + debug_text(lit) + ": unobserved"@))
            },
            Some(AbsValV::Absent) => Ok(false),
            Some(AbsValV::Known(s)) => Ok(s == lit),
            Some(AbsValV::OneOf(ms)) => Ok(ms.contains(lit)),
            Some(_) => Err(ErrView::Undecidable(
                "Predicate "@ + field + "=="@ + debug_text(lit) + ": not a known scalar"@,
            )),
        }
}

pub open spec fn pred_in_spec(c: CtxV, field: Seq<char>, lits: Seq<String>) -> Result<bool, ErrView> {
    match val_of(c, field) {
            None => if forall|k: int| 0 <= k < lits.len() ==> excluded_spec(c, field, #[trigger] lits[k]@) {
                Ok(false)
            } else {
                Err(ErrView::Undecidable(
                    "Predicate "@ + field + " in "@ + debug_list(views(lits)) + ": unobserved"@,
                ))
            },
            Some(AbsValV::Absent) => Ok(false),
            Some(AbsValV::Known(s)) => Ok(views(lits).contains(s)),
            Some(AbsValV::OneOf(ms)) => Ok(exists|k: int| 0 <= k < ms.len() && views(lits).contains(#[trigger] ms[k])),
            Some(_) => Err(ErrView::Undecidable(
                "Predicate "@ + field + " in "@ + debug_list(views(lits)) + ": not a known scalar"@,
            )),
        }
}

pub open spec fn pred_defined_spec(c: CtxV, field: Seq<char>) -> Result<bool, ErrView> {
    match val_of(c, field) {
            None => Err(ErrView::Undecidable("Predicate "@ + field + " defined: unobserved"@)),
            Some(AbsValV::Absent) => Ok(false),
            Some(_) => Ok(true),
        }
}

/// `ctx → Bool`, or Undecidable.
pub open spec fn pred_spec(c: CtxV, p: Predicate) -> Result<bool, ErrView>
    decreases p,
{
    match p {
        Predicate::Eq { field, lit } => pred_eq_spec(c, field@, lit@),
        Predicate::In { field, lits } => pred_in_spec(c, field@, lits@),
        Predicate::Defined { field } => pred_defined_spec(c, field@),
        Predicate::And(xs) => and_spec(c, xs, 0),
        Predicate::Or(xs) => or_spec(c, xs, 0),
        Predicate::Not(x) => match pred_spec(c, *x) {
            Ok(b) => Ok(!b),
            Err(e) => Err(e),
        },
    }
}

/// Conjunction from index `i`: stops at the first error or false.
pub open spec fn and_spec(c: CtxV, xs: Vec<Predicate>, i: int) -> Result<bool, ErrView>
    decreases xs, xs@.len() - i,
{
    if i < 0 || i >= xs@.len() {
        Ok(true)
    } else {
        match pred_spec(c, xs@[i]) {
            Err(e) => Err(e),
            Ok(false) => Ok(false),
            Ok(true) => and_spec(c, xs, i + 1),
        }
    }
}

/// Disjunction from index `i`: stops at the first error or true.
pub open spec fn or_spec(c: CtxV, xs: Vec<Predicate>, i: int) -> Result<bool, ErrView>
    decreases xs, xs@.len() - i,
{
    if i < 0 || i >= xs@.len() {
        Ok(false)
    } else {
        match pred_spec(c, xs@[i]) {
            Err(e) => Err(e),
            Ok(true) => Ok(true),
            Ok(false) => or_spec(c, xs, i + 1),
        }
    }
}


/// The inner schema of `or_absent(nested(S))`: an `Any` whose arms are all
/// `Nested` or `Absent`, with at least one `Absent`; the last `Nested` wins.
/// Gives the index of that arm.
pub open spec fn opt_nested_scan(xs: Seq<Invariant>, i: int, inner: Option<int>, absent: bool) -> Option<int>
    decreases xs.len() - i,
{
    if i < 0 || i >= xs.len() {
        if absent {
            inner
        } else {
            None
        }
    } else {
        match xs[i] {
            Invariant::Nested(_) => opt_nested_scan(xs, i + 1, Some(i), absent),
            Invariant::Absent => opt_nested_scan(xs, i + 1, inner, true),
            _ => None,
        }
    }
}

pub open spec fn opt_nested_spec(p: Invariant) -> Option<int> {
    match p {
        Invariant::Any(xs) => opt_nested_scan(xs@, 0, None, false),
        _ => None,
    }
}

/// Each finding's field under `parent.`.
pub open spec fn prefix_spec(parent: Seq<char>, fs: Seq<FindingV>) -> Seq<FindingV> {
    fs.map_values(|x: FindingV| FindingV { field: parent + "."@ + x.field, ..x })
}

/// The state of a record photo: its values only.
pub open spec fn record_ctx(m: Map<Seq<char>, AbsValV>) -> CtxV {
    CtxV { values: m, ..empty_ctx() }
}

/// The index of the first finding of `kind` from `i` on, if any.
pub open spec fn first_of(fs: Seq<FindingV>, kind: FindingKind, i: int) -> Option<int>
    decreases fs.len() - i,
{
    if i < 0 || i >= fs.len() {
        None
    } else if fs[i].kind == kind {
        Some(i)
    } else {
        first_of(fs, kind, i + 1)
    }
}

/// A walk's findings as one result: the first Fail, else the first Undecidable.
pub open spec fn findings_result(fs: Seq<FindingV>) -> Result<(), ErrView> {
    match first_of(fs, FindingKind::Fail, 0) {
        Some(i) => Err(ErrView::Fail(fs[i].message)),
        None => match first_of(fs, FindingKind::Undecidable, 0) {
            Some(i) => Err(ErrView::Undecidable(fs[i].message)),
            None => Ok(()),
        },
    }
}

/// Eval of a Schema on one state: each field's invariants and declared
/// geometry, in field order, then the tiling of the record.
pub open spec fn schema_spec(s: Schema, c: CtxV, site: Option<Seq<char>>) -> Seq<FindingV>
    decreases s, 7nat, AbsValV::Unknown, 0int,
{
    fields_spec(s, c, site, 0) + push_spec(s.name@, "*"@, site, tiling_spec(s, c))
}

pub open spec fn fields_spec(s: Schema, c: CtxV, site: Option<Seq<char>>, i: int) -> Seq<FindingV>
    decreases s, 6nat, AbsValV::Unknown, s.fields@.len() - i,
{
    if i < 0 || i >= s.fields@.len() {
        Seq::empty()
    } else {
        field_spec(s, c, site, i) + fields_spec(s, c, site, i + 1)
    }
}

pub open spec fn field_spec(s: Schema, c: CtxV, site: Option<Seq<char>>, i: int) -> Seq<FindingV>
    decreases s, 5nat, AbsValV::Unknown, 0int,
{
    if i < 0 || i >= s.fields@.len() {
        Seq::empty()
    } else {
        props_spec(s, c, site, i, 0) + wire_spec(s.name@, s.fields@[i], c, site)
    }
}

/// The geometry a field declares, checked like `at` / `width`.
pub open spec fn wire_spec(sname: Seq<char>, f: Field, c: CtxV, site: Option<Seq<char>>) -> Seq<FindingV> {
    match f.wire {
        None => Seq::empty(),
        Some(w) => (match w.pos {
            Some(pos) => push_spec(sname, f.name@, site, at_spec(c, f.name@, pos)),
            None => Seq::empty(),
        }) + (match w.len {
            Some(len) => push_spec(sname, f.name@, site, width_spec(c, f.name@, len)),
            None => Seq::empty(),
        }),
    }
}

pub open spec fn props_spec(s: Schema, c: CtxV, site: Option<Seq<char>>, i: int, j: int) -> Seq<FindingV>
    decreases s, 4nat, AbsValV::Unknown, (if 0 <= i < s.fields@.len() { s.fields@[i].invariants@.len() } else { 0 }) - j,
{
    if i < 0 || i >= s.fields@.len() || j < 0 || j >= s.fields@[i].invariants@.len() {
        Seq::empty()
    } else {
        proof {
            assert(decreases_to!(s => s.fields));
            assert(decreases_to!(s.fields@ => s.fields@[i]));
            assert(decreases_to!(s.fields@[i] => s.fields@[i].invariants));
            assert(decreases_to!(s.fields@[i].invariants@ => s.fields@[i].invariants@[j]));
        }
        prop_spec(s.name@, s.fields@[i].name@, s.fields@[i].invariants@[j], c, site)
            + props_spec(s, c, site, i, j + 1)
    }
}

/// One invariant of a field: a nested walk reports the inner schema's
/// findings; any other invariant leaves at most one finding.
pub open spec fn prop_spec(sname: Seq<char>, f: Seq<char>, p: Invariant, c: CtxV, site: Option<Seq<char>>) -> Seq<FindingV>
    decreases p, 3nat, AbsValV::Unknown, 0int,
{
    match p {
        Invariant::Any(xs) => match opt_nested_scan(xs@, 0, None, false) {
            Some(k) => if 0 <= k < xs@.len() {
                match xs@[k] {
                    Invariant::Nested(inner) => if val_of(c, f) == Some(AbsValV::Absent) {
                        Seq::empty()
                    } else {
                        walk_spec(c, f, *inner, site)
                    },
                    _ => Seq::empty(),
                }
            } else {
                Seq::empty()
            },
            None => push_spec(sname, f, site, expanded_spec(c, f, p)),
        },
        Invariant::Nested(inner) => walk_spec(c, f, *inner, site),
        _ => push_spec(sname, f, site, expanded_spec(c, f, p)),
    }
}

/// Walk an inner schema on the photo of `f`.
pub open spec fn walk_spec(c: CtxV, f: Seq<char>, inner: Schema, site: Option<Seq<char>>) -> Seq<FindingV>
    decreases inner, 9nat, AbsValV::Unknown, 0int,
{
    match val_of(c, f) {
        None => push_spec(
            inner.name@,
            f,
            site,
            Err(ErrView::Undecidable("nested "@ + tick(inner.name@) + ": "@ + tick(f) + " unobserved"@)),
        ),
        Some(v) => walk_val_spec(f, v, inner, site),
    }
}

/// Walk an inner schema on one photo: a record is evaluated, a list walks
/// each element as `path[i]`.
pub open spec fn walk_val_spec(path: Seq<char>, v: AbsValV, inner: Schema, site: Option<Seq<char>>) -> Seq<FindingV>
    decreases inner, 8nat, v, (match v { AbsValV::Array(xs) => xs.len() + 1, _ => 0 }),
{
    match v {
        AbsValV::Absent => push_spec(
            inner.name@,
            path,
            site,
            Err(ErrView::Fail("nested "@ + tick(inner.name@) + " failed: "@ + tick(path) + " is absent"@)),
        ),
        AbsValV::Unknown => push_spec(
            inner.name@,
            path,
            site,
            Err(ErrView::Undecidable("nested "@ + tick(inner.name@) + " on "@ + tick(path) + ": Unknown"@)),
        ),
        AbsValV::Record(m) => prefix_spec(path, schema_spec(inner, record_ctx(m), site)),
        AbsValV::Array(xs) => walk_arr_spec(path, v, 0, inner, site),
        _ => push_spec(
            inner.name@,
            path,
            site,
            Err(ErrView::Fail("nested "@ + tick(inner.name@) + " failed: "@ + tick(path) + " is not a record"@)),
        ),
    }
}

/// Walk each element of a list photo `v` from index `i`.
pub open spec fn walk_arr_spec(path: Seq<char>, v: AbsValV, i: int, inner: Schema, site: Option<Seq<char>>) -> Seq<FindingV>
    decreases inner, 8nat, v, (match v { AbsValV::Array(xs) => xs.len() - i, _ => 0 }),
{
    match v {
        AbsValV::Array(xs) => if i < 0 || i >= xs.len() {
            Seq::empty()
        } else {
            walk_val_spec(path + "["@ + dec_text(i as nat) + "]"@, xs[i], inner, site)
                + walk_arr_spec(path, v, i + 1, inner, site)
        },
        _ => Seq::empty(),
    }
}

/// A nested walk as one invariant result.
pub open spec fn walk_result_spec(c: CtxV, f: Seq<char>, inner: Schema) -> Result<(), ErrView>
    decreases inner, 10nat, AbsValV::Unknown, 0int,
{
    findings_result(walk_spec(c, f, inner, None))
}

/// An invariant, with a `when` on a OneOf-valued field split into one arm
/// per candidate value.
pub open spec fn expanded_spec(c: CtxV, f: Seq<char>, p: Invariant) -> Result<(), ErrView>
    decreases p, 2nat, AbsValV::Unknown, 0int,
{
    match p {
        Invariant::When { pred, then } => match oneof_pred_field(c, pred) {
            Some((pf, ms)) => arms_spec(c, f, pred, *then, pf, ms, 0),
            None => inv_spec(c, f, p),
        },
        _ => inv_spec(c, f, p),
    }
}

/// The field of an `Eq` / `In` predicate whose photo is a OneOf, with its members.
pub open spec fn oneof_pred_field(c: CtxV, pred: Predicate) -> Option<(Seq<char>, Seq<Seq<char>>)> {
    let pf = match pred {
        Predicate::Eq { field, .. } => Some(field@),
        Predicate::In { field, .. } => Some(field@),
        _ => None,
    };
    match pf {
        Some(f) => match val_of(c, f) {
            Some(AbsValV::OneOf(ms)) => Some((f, ms)),
            _ => None,
        },
        None => None,
    }
}

/// The state with `pf` bound to one of its candidates.
pub open spec fn arm_ctx(c: CtxV, pf: Seq<char>, v: Seq<char>) -> CtxV {
    CtxV { values: c.values.insert(pf, AbsValV::Known(v)), ..c }
}

pub open spec fn arms_spec(
    c: CtxV,
    f: Seq<char>,
    pred: Predicate,
    then: Invariant,
    pf: Seq<char>,
    ms: Seq<Seq<char>>,
    i: int,
) -> Result<(), ErrView>
    decreases then, 1nat, AbsValV::Unknown, ms.len() - i,
{
    if i < 0 || i >= ms.len() {
        Ok(())
    } else {
        let arm = arm_ctx(c, pf, ms[i]);
        match pred_spec(arm, pred) {
            Err(e) => Err(e),
            Ok(true) => match inv_spec(arm, f, then) {
                Err(e) => Err(e),
                Ok(()) => arms_spec(c, f, pred, then, pf, ms, i + 1),
            },
            Ok(false) => arms_spec(c, f, pred, then, pf, ms, i + 1),
        }
    }
}

/// `(ctx, field) → Pass | Fail | Undecidable` for one invariant.
pub open spec fn inv_spec(c: CtxV, f: Seq<char>, p: Invariant) -> Result<(), ErrView>
    decreases p, 0nat, AbsValV::Unknown, 0int,
{
    match p {
        Invariant::Defined => defined_spec(c, f),
        Invariant::Absent => absent_spec(c, f),
        Invariant::OneOf(allowed) => one_of_spec(c, f, views(allowed@)),
        Invariant::Refine(r) => match val_of(c, f) {
            None => Err(ErrView::Undecidable("Invariant refine: "@ + tick(f) + " unobserved"@)),
            Some(v) => match r.scores(v) {
                Ok(()) => Ok(()),
                Err(ErrView::Fail(m)) => Err(ErrView::Fail("Invariant refine failed: "@ + tick(f) + " "@ + m)),
                Err(ErrView::Undecidable(m)) => Err(ErrView::Undecidable("Invariant refine on "@ + tick(f) + ": "@ + m)),
            },
        },
        Invariant::Nested(inner) => walk_result_spec(c, f, *inner),
        Invariant::Unique => unique_spec(c, f),
        Invariant::Shape(form) => shape_spec(c, f, form),
        Invariant::At(expected) => at_spec(c, f, expected),
        Invariant::Width(expected) => width_spec(c, f, expected),
        Invariant::When { pred, then } => match pred_spec(c, pred) {
            Err(e) => Err(e),
            Ok(true) => inv_spec(c, f, *then),
            Ok(false) => Ok(()),
        },
        Invariant::All(ps) => all_spec(c, f, ps, 0),
        Invariant::Any(ps) => any_spec(c, f, ps, 0, ErrView::Fail("Invariant any: empty"@), None),
    }
}

/// All must pass, from index `i`: the first error stops.
pub open spec fn all_spec(c: CtxV, f: Seq<char>, ps: Vec<Invariant>, i: int) -> Result<(), ErrView>
    decreases ps, 0nat, AbsValV::Unknown, ps@.len() - i,
{
    if i < 0 || i >= ps@.len() {
        Ok(())
    } else {
        match inv_spec(c, f, ps@[i]) {
            Err(e) => Err(e),
            Ok(()) => all_spec(c, f, ps, i + 1),
        }
    }
}

/// Any may pass, from index `i`: the first pass stops; otherwise the last
/// Undecidable, else the last Fail.
pub open spec fn any_spec(c: CtxV, f: Seq<char>, ps: Vec<Invariant>, i: int, last_fail: ErrView, und: Option<ErrView>) -> Result<(), ErrView>
    decreases ps, 0nat, AbsValV::Unknown, ps@.len() - i,
{
    if i < 0 || i >= ps@.len() {
        match und {
            Some(e) => Err(e),
            None => Err(last_fail),
        }
    } else {
        match inv_spec(c, f, ps@[i]) {
            Ok(()) => Ok(()),
            Err(ErrView::Undecidable(m)) => any_spec(c, f, ps, i + 1, last_fail, Some(ErrView::Undecidable(m))),
            Err(e) => any_spec(c, f, ps, i + 1, e, und),
        }
    }
}


/// What a rewrite demands of the write.
pub open spec fn rewrite_body(rw: Rewrite) -> Invariant {
    let Rewrite { then, .. } = rw;
    then
}

/// Every refine inside the invariant gives one answer per string.
pub open spec fn inv_ok(p: Invariant) -> bool
    decreases p, 0nat, 0int,
{
    match p {
        Invariant::Refine(r) => r.is_functional(),
        Invariant::Nested(inner) => schema_ok(*inner),
        Invariant::When { then, .. } => inv_ok(*then),
        Invariant::All(ps) => invs_ok(ps, 0),
        Invariant::Any(ps) => invs_ok(ps, 0),
        _ => true,
    }
}

/// `inv_ok` of each invariant from index `i` on.
pub open spec fn invs_ok(ps: Vec<Invariant>, i: int) -> bool
    decreases ps, 0nat, ps@.len() - i,
{
    if i < 0 || i >= ps@.len() {
        true
    } else {
        inv_ok(ps@[i]) && invs_ok(ps, i + 1)
    }
}


/// `invs_ok` from `i` gives `inv_ok` of each element from `i` on.
pub proof fn lemma_invs_ok(ps: Vec<Invariant>, i: int, k: int)
    requires
        invs_ok(ps, i),
        0 <= i <= k < ps@.len(),
    ensures
        inv_ok(ps@[k]),
    decreases k - i,
{
    if i < k {
        lemma_invs_ok(ps, i + 1, k);
    }
}

/// Every refine of the schema, its nested schemas and its rewrites gives one
/// answer per string.
pub open spec fn schema_ok(s: Schema) -> bool
    decreases s, 3nat, 0int,
{
    fields_ok(s, 0) && rewrites_ok(s, 0)
}

pub open spec fn fields_ok(s: Schema, i: int) -> bool
    decreases s, 2nat, s.fields@.len() - i,
{
    if i < 0 || i >= s.fields@.len() {
        true
    } else {
        props_ok(s, i, 0) && fields_ok(s, i + 1)
    }
}

pub open spec fn props_ok(s: Schema, i: int, j: int) -> bool
    decreases s, 1nat, (if 0 <= i < s.fields@.len() { s.fields@[i].invariants@.len() } else { 0 }) - j,
{
    if i < 0 || i >= s.fields@.len() || j < 0 || j >= s.fields@[i].invariants@.len() {
        true
    } else {
        proof {
            assert(decreases_to!(s => s.fields));
            assert(decreases_to!(s.fields@ => s.fields@[i]));
            assert(decreases_to!(s.fields@[i] => s.fields@[i].invariants));
            assert(decreases_to!(s.fields@[i].invariants@ => s.fields@[i].invariants@[j]));
        }
        inv_ok(s.fields@[i].invariants@[j]) && props_ok(s, i, j + 1)
    }
}

pub open spec fn rewrites_ok(s: Schema, k: int) -> bool
    decreases s, 2nat, s.rewrites@.len() - k,
{
    if k < 0 || k >= s.rewrites@.len() {
        true
    } else {
        proof {
            assert(decreases_to!(s => s.rewrites));
            assert(decreases_to!(s.rewrites@ => s.rewrites@[k]));
        }
        let Rewrite { then, .. } = s.rewrites@[k];
        inv_ok(then) && rewrites_ok(s, k + 1)
    }
}

/// The painted spans of a record: each field with an observed pos and len.
pub open spec fn spans_from(fields: Seq<Field>, wire: Map<Seq<char>, WireMeta>, i: int) -> Seq<(Seq<char>, nat, nat)>
    decreases fields.len() - i,
{
    if i < 0 || i >= fields.len() {
        Seq::empty()
    } else {
        let n = fields[i].name@;
        let rest = spans_from(fields, wire, i + 1);
        if wire.contains_key(n) && wire[n].pos is Some && wire[n].len is Some {
            seq![(n, wire[n].pos->Some_0 as nat, wire[n].len->Some_0 as nat)] + rest
        } else {
            rest
        }
    }
}

/// Span `j` paints (0-based) slot `p`.
pub open spec fn paints(sp: Seq<(Seq<char>, nat, nat)>, j: int, p: int) -> bool {
    sp[j].1 >= 1 && sp[j].1 - 1 <= p < sp[j].1 - 1 + sp[j].2
}

/// Some span before `k` paints slot `p`.
#[verifier::opaque]
pub open spec fn painted_before(sp: Seq<(Seq<char>, nat, nat)>, k: int, p: int) -> bool {
    exists|j: int| 0 <= j < k && #[trigger] paints(sp, j, p)
}

/// Slot `p` lies in span `k`.
pub open spec fn in_span(sp: Seq<(Seq<char>, nat, nat)>, k: int, p: int) -> bool {
    sp[k].1 - 1 <= p < sp[k].1 - 1 + sp[k].2
}

/// Span `k` lands on a slot an earlier span painted.
#[verifier::opaque]
pub open spec fn overlaps_before(sp: Seq<(Seq<char>, nat, nat)>, k: int) -> bool {
    exists|p: int| in_span(sp, k, p) && #[trigger] painted_before(sp, k, p)
}

/// The first slot of span `k` that an earlier span painted.
#[verifier::opaque]
pub open spec fn first_overlap(sp: Seq<(Seq<char>, nat, nat)>, k: int) -> int {
    choose|p: int| in_span(sp, k, p) && #[trigger] painted_before(sp, k, p)
        && forall|q: int| in_span(sp, k, q) && q < p ==> !#[trigger] painted_before(sp, k, q)
}

/// The earlier span that painted slot `p`.
#[verifier::opaque]
pub open spec fn painter(sp: Seq<(Seq<char>, nat, nat)>, k: int, p: int) -> int {
    choose|j: int| 0 <= j < k && #[trigger] paints(sp, j, p)
}

/// Spans from `k` on against a tape of `n` slots, those before `k` painted:
/// the first span at pos 0, past the end, or over a painted slot fails.
pub open spec fn tile_spec(sp: Seq<(Seq<char>, nat, nat)>, n: nat, k: int) -> Result<(), ErrView>
    decreases sp.len() - k,
{
    if k < 0 || k >= sp.len() {
        Ok(())
    } else {
        let (name, pos, len) = sp[k];
        if pos == 0 {
            Err(ErrView::Fail("tiling: "@ + tick(name) + " pos is 0 (positions are 1-based)"@))
        } else if pos - 1 + len > n {
            Err(ErrView::Fail(
                "tiling: "@ + tick(name) + " ["@ + dec_text(pos) + ".."@ + dec_text(pos + len) + ") past width "@ + dec_text(n),
            ))
        } else if overlaps_before(sp, k) {
            let p = first_overlap(sp, k);
            Err(ErrView::Fail(
                "tiling: "@ + tick(name) + " overlaps "@ + tick(sp[painter(sp, k, p)].0) + " at pos "@ + dec_text((p + 1) as nat),
            ))
        } else {
            tile_spec(sp, n, k + 1)
        }
    }
}

/// Painted spans must sit on the tape and not overlap. Holes are padding.
pub open spec fn tiling_spec(s: Schema, c: CtxV) -> Result<(), ErrView> {
    match s.width {
        None => Ok(()),
        Some(n) => tile_spec(spans_from(s.fields@, c.wire, 0), n as nat, 0),
    }
}


// ---------------------------------------------------------------------------
// Eval.
// ---------------------------------------------------------------------------

/// Appends `` `f` ``.
fn push_tick(m: &mut String, f: &str)
    ensures
        final(m)@ == old(m)@ + tick(f@),
{
    m.append("`");
    m.append(f);
    m.append("`");
    assert(m@ =~= old(m)@ + tick(f@));
}

/// `head` + `` `f` `` + `tail`.
fn msg3(head: &str, f: &str, tail: &str) -> (m: String)
    ensures
        m@ == head@ + tick(f@) + tail@,
{
    let mut m = String::new();
    m.append(head);
    push_tick(&mut m, f);
    m.append(tail);
    assert(m@ =~= head@ + tick(f@) + tail@);
    m
}

fn fail3(head: &str, f: &str, tail: &str) -> (r: Result<(), EvalError>)
    ensures
        eval_view(r) == Err::<(), ErrView>(ErrView::Fail(head@ + tick(f@) + tail@)),
{
    Err(EvalError::Fail(msg3(head, f, tail)))
}

fn und3(head: &str, f: &str, tail: &str) -> (r: Result<(), EvalError>)
    ensures
        eval_view(r) == Err::<(), ErrView>(ErrView::Undecidable(head@ + tick(f@) + tail@)),
{
    Err(EvalError::Undecidable(msg3(head, f, tail)))
}

/// The value observed for `f`, if any.
pub fn val_at<'a>(ctx: &'a ValueCtx, f: &str) -> (r: Option<&'a AbsVal>)
    ensures
        r is None <==> val_of(ctx@, f@) is None,
        r matches Some(v) ==> val_of(ctx@, f@) == Some(absval_view(*v)),
{
    record_get(&ctx.values, f)
}

fn eval_defined(ctx: &ValueCtx, f: &str) -> (r: Result<(), EvalError>)
    ensures
        eval_view(r) == defined_spec(ctx@, f@),
{
    match val_at(ctx, f) {
        None => und3("Invariant defined: ", f, " unobserved"),
        Some(AbsVal::Absent) => fail3("Invariant defined failed: field ", f, " is absent"),
        Some(AbsVal::Unknown) => und3("Invariant defined: ", f, " Unknown"),
        Some(AbsVal::Known(s)) => {
            if s.as_str().is_empty() {
                fail3("Invariant defined failed: field ", f, " is empty")
            } else {
                Ok(())
            }
        },
        Some(_) => Ok(()),
    }
}

fn eval_absent(ctx: &ValueCtx, f: &str) -> (r: Result<(), EvalError>)
    ensures
        eval_view(r) == absent_spec(ctx@, f@),
{
    match val_at(ctx, f) {
        None => und3("Invariant absent: ", f, " unobserved"),
        Some(AbsVal::Absent) => Ok(()),
        Some(_) => fail3("Invariant absent failed: field ", f, " is present"),
    }
}

fn eval_shape(ctx: &ValueCtx, f: &str, form: Form) -> (r: Result<(), EvalError>)
    ensures
        eval_view(r) == shape_spec(ctx@, f@, form),
{
    match val_at(ctx, f) {
        None => und3("Invariant shape: ", f, " unobserved"),
        Some(AbsVal::Unknown) => und3("Invariant shape: ", f, " Unknown"),
        Some(AbsVal::Absent) => fail3("Invariant shape failed: ", f, " is absent"),
        Some(AbsVal::Known(_)) | Some(AbsVal::OneOf(_)) => match form {
            Form::Scalar => Ok(()),
            Form::Array => fail3("Invariant shape failed: ", f, " is not array"),
        },
        Some(AbsVal::Array(_)) => match form {
            Form::Scalar => fail3("Invariant shape failed: ", f, " is not scalar"),
            Form::Array => Ok(()),
        },
        Some(AbsVal::Record(_)) => match form {
            Form::Scalar => fail3("Invariant shape failed: ", f, " is not scalar"),
            Form::Array => fail3("Invariant shape failed: ", f, " is not array"),
        },
    }
}

/// The wire geometry observed for `f`, if any.
fn wire_at(ctx: &ValueCtx, f: &str) -> (r: Option<WireMeta>)
    ensures
        r is None <==> !ctx@.wire.contains_key(f@),
        r matches Some(w) ==> ctx@.wire[f@] == w,
{
    match ctx.wire.get(f) {
        Some(w) => Some(*w),
        None => None,
    }
}

fn eval_at(ctx: &ValueCtx, f: &str, expected: usize) -> (r: Result<(), EvalError>)
    ensures
        eval_view(r) == at_spec(ctx@, f@, expected),
{
    let mut head = String::new();
    head.append("Invariant at(");
    let e = num_text(expected as u128);
    head.append(e.as_str());
    head.append(")");
    let ghost hv = "Invariant at("@ + dec_text(expected as nat) + ")"@;
    assert(head@ =~= hv);
    let got = match wire_at(ctx, f) {
        Some(w) => w.pos,
        None => None,
    };
    match got {
        None => {
            let mut m = head;
            m.append(": no observed pos for ");
            push_tick(&mut m, f);
            assert(m@ =~= hv + ": no observed pos for "@ + tick(f@));
            Err(EvalError::Undecidable(m))
        },
        Some(g) => if g == expected {
            Ok(())
        } else {
            let mut m = head;
            m.append(" failed: observed pos ");
            let gs = num_text(g as u128);
            m.append(gs.as_str());
            m.append(" for ");
            push_tick(&mut m, f);
            assert(m@ =~= hv + " failed: observed pos "@ + dec_text(g as nat) + " for "@ + tick(f@));
            Err(EvalError::Fail(m))
        },
    }
}

fn eval_width(ctx: &ValueCtx, f: &str, expected: usize) -> (r: Result<(), EvalError>)
    ensures
        eval_view(r) == width_spec(ctx@, f@, expected),
{
    let mut head = String::new();
    head.append("Invariant width(");
    let e = num_text(expected as u128);
    head.append(e.as_str());
    head.append(")");
    let ghost hv = "Invariant width("@ + dec_text(expected as nat) + ")"@;
    assert(head@ =~= hv);
    let got = match wire_at(ctx, f) {
        Some(w) => w.len,
        None => None,
    };
    match got {
        None => {
            let mut m = head;
            m.append(": no observed len for ");
            push_tick(&mut m, f);
            assert(m@ =~= hv + ": no observed len for "@ + tick(f@));
            Err(EvalError::Undecidable(m))
        },
        Some(g) => if g == expected {
            Ok(())
        } else {
            let mut m = head;
            m.append(" failed: observed len ");
            let gs = num_text(g as u128);
            m.append(gs.as_str());
            m.append(" for ");
            push_tick(&mut m, f);
            assert(m@ =~= hv + " failed: observed len "@ + dec_text(g as nat) + " for "@ + tick(f@));
            Err(EvalError::Fail(m))
        },
    }
}

/// Whether `s` is one of `xs`.
pub fn contains_str(xs: &Vec<String>, s: &str) -> (r: bool)
    ensures
        r == views(xs@).contains(s@),
{
    let mut i: usize = 0;
    while i < xs.len()
        invariant
            i <= xs@.len(),
            forall|j: int| 0 <= j < i ==> xs@[j]@ != s@,
        decreases xs.len() - i,
    {
        if str_same(xs[i].as_str(), s) {
            assert(views(xs@)[i as int] == s@);
            return true;
        }
        i = i + 1;
    }
    proof {
        if views(xs@).contains(s@) {
            let j = choose|j: int| 0 <= j < views(xs@).len() && views(xs@)[j] == s@;
            assert(xs@[j]@ == s@);
        }
    }
    false
}

/// The message of a value `one_of` refuses: `` `f` `` + `mid` + `{s:?} not in {allowed:?}`.
fn one_of_refused(f: &str, mid: &str, s: &str, allowed: &Vec<String>) -> (m: String)
    ensures
        m@ == "Invariant oneOf failed: "@ + tick(f@) + mid@ + debug_text(s@) + " not in "@ + debug_list(views(allowed@)),
{
    let mut m = String::new();
    m.append("Invariant oneOf failed: ");
    push_tick(&mut m, f);
    m.append(mid);
    let d = debug_str(s);
    m.append(d.as_str());
    m.append(" not in ");
    let l = debug_strings(allowed);
    m.append(l.as_str());
    assert(m@ =~= "Invariant oneOf failed: "@ + tick(f@) + mid@ + debug_text(s@) + " not in "@ + debug_list(views(allowed@)));
    m
}

fn one_of_set(f: &str, allowed: &Vec<String>, set: &StrSet) -> (r: Result<(), EvalError>)
    ensures
        eval_view(r) == one_of_set_spec(f@, views(allowed@), set.members(), 0),
{
    let ms = set.members_vec();
    let ghost mv = views(ms@);
    let mut i: usize = 0;
    while i < ms.len()
        invariant
            i <= ms@.len(),
            mv == views(ms@),
            mv == set.members(),
            one_of_set_spec(f@, views(allowed@), mv, 0) == one_of_set_spec(f@, views(allowed@), mv, i as int),
        decreases ms.len() - i,
    {
        if !contains_str(allowed, ms[i].as_str()) {
            let m = one_of_refused(f, " can be ", ms[i].as_str(), allowed);
            return Err(EvalError::Fail(m));
        }
        i = i + 1;
    }
    Ok(())
}

fn eval_one_of_val(f: &str, allowed: &Vec<String>, v: &AbsVal) -> (r: Result<(), EvalError>)
    ensures
        eval_view(r) == one_of_val_spec(f@, views(allowed@), absval_view(*v)),
    decreases v,
{
    match v {
        AbsVal::Absent => {
            let mut m = String::new();
            m.append("Invariant oneOf failed: ");
            push_tick(&mut m, f);
            m.append(" is absent (not in ");
            let l = debug_strings(allowed);
            m.append(l.as_str());
            m.append(")");
            assert(m@ =~= "Invariant oneOf failed: "@ + tick(f@) + " is absent (not in "@ + debug_list(views(allowed@)) + ")"@);
            Err(EvalError::Fail(m))
        },
        AbsVal::Unknown => und3("Invariant oneOf on ", f, ": value Unknown"),
        AbsVal::Record(_) => fail3("Invariant oneOf failed: ", f, " is a record"),
        AbsVal::Array(xs) => {
            let ghost vs = vals_view(xs@);
            proof {
                lemma_vals_view(xs@);
                assert forall|j: int| 0 <= j < xs.len() implies #[trigger] decreases_to!(*v => xs@[j]) by {
                    assert(decreases_to!(*xs => xs@[j]));
                }
            }
            let mut und: Option<EvalError> = None;
            let mut i: usize = 0;
            while i < xs.len()
                invariant
                    forall|j: int| 0 <= j < xs.len() ==> #[trigger] decreases_to!(*v => xs@[j]),
                    i <= xs@.len(),
                    absval_view(*v) == AbsValV::Array(vs),
                    vs == vals_view(xs@),
                    vs.len() == xs@.len(),
                    forall|j: int| 0 <= j < xs@.len() ==> #[trigger] vs[j] == absval_view(xs@[j]),
                    one_of_arr_spec(f@, views(allowed@), vs, 0, None) == one_of_arr_spec(
                        f@,
                        views(allowed@),
                        vs,
                        i as int,
                        opt_eval_view(und),
                    ),
                decreases xs.len() - i,
            {
                match eval_one_of_val(f, allowed, &xs[i]) {
                    Ok(()) => {},
                    Err(EvalError::Fail(m)) => {
                        assert(vs[i as int] == absval_view(xs@[i as int]));
                        assert(one_of_arr_spec(f@, views(allowed@), vs, i as int, opt_eval_view(und)) == Err::<(), ErrView>(ErrView::Fail(m@)));
                        return Err(EvalError::Fail(m));
                    },
                    Err(e) => {
                        und = Some(e);
                    },
                }
                i = i + 1;
            }
            match und {
                Some(e) => Err(e),
                None => Ok(()),
            }
        },
        AbsVal::Known(s) => if contains_str(allowed, s.as_str()) {
            Ok(())
        } else {
            Err(EvalError::Fail(one_of_refused(f, " = ", s.as_str(), allowed)))
        },
        AbsVal::OneOf(set) => one_of_set(f, allowed, set),
    }
}

pub open spec fn opt_eval_view(o: Option<EvalError>) -> Option<ErrView> {
    match o {
        Some(e) => Some(e@),
        None => None,
    }
}

fn eval_one_of(ctx: &ValueCtx, f: &str, allowed: &Vec<String>) -> (r: Result<(), EvalError>)
    ensures
        eval_view(r) == one_of_spec(ctx@, f@, views(allowed@)),
{
    match val_at(ctx, f) {
        None => und3("Invariant oneOf: ", f, " unobserved"),
        Some(v) => eval_one_of_val(f, allowed, v),
    }
}

fn eval_unique(ctx: &ValueCtx, f: &str) -> (r: Result<(), EvalError>)
    ensures
        eval_view(r) == unique_spec(ctx@, f@),
{
    match val_at(ctx, f) {
        None => und3("Invariant unique: ", f, " unobserved"),
        Some(AbsVal::Unknown) => und3("Invariant unique on ", f, ": value Unknown"),
        Some(AbsVal::Absent) => fail3("Invariant unique failed: ", f, " is absent"),
        Some(AbsVal::Array(xs)) => {
            let ghost vs = vals_view(xs@);
            proof {
                lemma_vals_view(xs@);
            }
            let mut seen = StrSet::new();
            let ghost mut sset: Set<Seq<char>> = Set::empty();
            let mut und = false;
            let mut i: usize = 0;
            while i < xs.len()
                invariant
                    i <= xs@.len(),
                    val_of(ctx@, f@) == Some(AbsValV::Array(vs)),
                    vs == vals_view(xs@),
                    vs.len() == xs@.len(),
                    forall|j: int| 0 <= j < xs@.len() ==> #[trigger] vs[j] == absval_view(xs@[j]),
                    forall|q: Seq<char>| #[trigger] seen.has(q) == sset.contains(q),
                    unique_arr_spec(f@, vs, 0, Set::empty(), false) == unique_arr_spec(f@, vs, i as int, sset, und),
                decreases xs.len() - i,
            {
                match &xs[i] {
                    AbsVal::Known(s) => {
                        if seen.contains(s.as_str()) {
                            let mut m = String::new();
                            m.append("Invariant unique failed: ");
                            push_tick(&mut m, f);
                            m.append(" duplicates ");
                            let d = debug_str(s.as_str());
                            m.append(d.as_str());
                            assert(m@ =~= "Invariant unique failed: "@ + tick(f@) + " duplicates "@ + debug_text(s@));
                            assert(vs[i as int] == absval_view(xs@[i as int]));
                            assert(sset.contains(s@));
                            assert(unique_arr_spec(f@, vs, i as int, sset, und) == Err::<(), ErrView>(ErrView::Fail(m@)));
                            return Err(EvalError::Fail(m));
                        }
                        let _ = seen.insert(s.clone());
                        proof {
                            sset = sset.insert(s@);
                        }
                    },
                    AbsVal::Unknown => {
                        und = true;
                    },
                    _ => {},
                }
                i = i + 1;
            }
            if und {
                und3("Invariant unique on ", f, ": element Unknown")
            } else {
                Ok(())
            }
        },
        Some(_) => Ok(()),
    }
}


/// This path has ruled out `lit` for `f`.
fn is_excluded(ctx: &ValueCtx, f: &str, lit: &str) -> (r: bool)
    ensures
        r == excluded_spec(ctx@, f@, lit@),
{
    match ctx.excluded.get(f) {
        Some(set) => {
            assert(sets_view(ctx.excluded)[f@] == set.members());
            set.contains(lit)
        },
        None => false,
    }
}

/// `Predicate {field}{op}: {tail}` messages.
fn pred_msg(field: &str, op: &str, shown: &str, tail: &str) -> (m: String)
    ensures
        m@ == "Predicate "@ + field@ + op@ + shown@ + tail@,
{
    let mut m = String::new();
    m.append("Predicate ");
    m.append(field);
    m.append(op);
    m.append(shown);
    m.append(tail);
    assert(m@ =~= "Predicate "@ + field@ + op@ + shown@ + tail@);
    m
}

pub open spec fn pred_view(r: Result<bool, EvalError>) -> Result<bool, ErrView> {
    match r {
        Ok(b) => Ok(b),
        Err(e) => Err(e@),
    }
}


fn eval_pred_eq(ctx: &ValueCtx, field: &str, lit: &str) -> (r: Result<bool, EvalError>)
    ensures
        pred_view(r) == pred_eq_spec(ctx@, field@, lit@),
{
    match val_at(ctx, field) {
            None => if is_excluded(ctx, field, lit) {
                Ok(false)
            } else {
                let d = debug_str(lit);
                Err(EvalError::Undecidable(pred_msg(field, "==", d.as_str(), ": unobserved")))
            },
            Some(AbsVal::Absent) => Ok(false),
            Some(AbsVal::Known(s)) => Ok(str_same(s.as_str(), lit)),
            Some(AbsVal::OneOf(set)) => Ok(set.contains(lit)),
            Some(_) => {
                let d = debug_str(lit);
                Err(EvalError::Undecidable(pred_msg(field, "==", d.as_str(), ": not a known scalar")))
            },
        }
}

fn eval_pred_in(ctx: &ValueCtx, field: &str, lits: &Vec<String>) -> (r: Result<bool, EvalError>)
    ensures
        pred_view(r) == pred_in_spec(ctx@, field@, lits@),
{
    match val_at(ctx, field) {
            None => {
                let mut all = true;
                let mut i: usize = 0;
                while i < lits.len()
                    invariant
                        i <= lits@.len(),
                        all == forall|k: int| 0 <= k < i ==> excluded_spec(ctx@, field@, #[trigger] lits@[k]@),
                    decreases lits.len() - i,
                {
                    if !is_excluded(ctx, field, lits[i].as_str()) {
                        all = false;
                    }
                    i = i + 1;
                }
                if all {
                    Ok(false)
                } else {
                    let d = debug_strings(lits);
                    Err(EvalError::Undecidable(pred_msg(field, " in ", d.as_str(), ": unobserved")))
                }
            },
            Some(AbsVal::Absent) => Ok(false),
            Some(AbsVal::Known(s)) => Ok(contains_str(lits, s.as_str())),
            Some(AbsVal::OneOf(set)) => {
                let ms = set.members_vec();
                let mut any = false;
                let mut i: usize = 0;
                while i < ms.len()
                    invariant
                        i <= ms@.len(),
                        views(ms@) == set.members(),
                        any == exists|k: int| 0 <= k < i && views(lits@).contains(#[trigger] set.members()[k]),
                    decreases ms.len() - i,
                {
                    let hit = contains_str(lits, ms[i].as_str());
                    proof {
                        assert(views(ms@)[i as int] == ms@[i as int]@);
                        assert(set.members()[i as int] == ms@[i as int]@);
                        if !hit && !any {
                            assert forall|k: int| 0 <= k < i + 1 implies !views(lits@).contains(#[trigger] set.members()[k]) by {}
                        }
                    }
                    if hit {
                        any = true;
                    }
                    i = i + 1;
                }
                assert(views(ms@).len() == ms@.len());
                assert(any == exists|k: int| 0 <= k < set.members().len() && views(lits@).contains(#[trigger] set.members()[k]));
                assert(val_of(ctx@, field@) == Some(AbsValV::OneOf(set.members())));
                assert(pred_in_spec(ctx@, field@, lits@) == Ok::<bool, ErrView>(exists|k: int| 0 <= k < set.members().len() && views(lits@).contains(#[trigger] set.members()[k])));
                Ok(any)
            },
            Some(_) => {
                let d = debug_strings(lits);
                Err(EvalError::Undecidable(pred_msg(field, " in ", d.as_str(), ": not a known scalar")))
            },
        }
}

fn eval_pred_defined(ctx: &ValueCtx, field: &str) -> (r: Result<bool, EvalError>)
    ensures
        pred_view(r) == pred_defined_spec(ctx@, field@),
{
    match val_at(ctx, field) {
            None => {
                let mut m = String::new();
                m.append("Predicate ");
                m.append(field);
                m.append(" defined: unobserved");
                Err(EvalError::Undecidable(m))
            },
            Some(AbsVal::Absent) => Ok(false),
            Some(_) => Ok(true),
        }
}

/// `ctx → Bool`, or Undecidable.
pub fn eval_predicate(ctx: &ValueCtx, pred: &Predicate) -> (r: Result<bool, EvalError>)
    ensures
        pred_view(r) == pred_spec(ctx@, *pred),
    decreases pred,
{
    match pred {
        Predicate::Eq { field, lit } => eval_pred_eq(ctx, field.as_str(), lit.as_str()),
        Predicate::In { field, lits } => eval_pred_in(ctx, field.as_str(), lits),
        Predicate::Defined { field } => eval_pred_defined(ctx, field.as_str()),
        Predicate::And(xs) => {
            let mut i: usize = 0;
            while i < xs.len()
                invariant
                    i <= xs@.len(),
                    forall|j: int| 0 <= j < xs@.len() ==> #[trigger] decreases_to!(*pred => xs@[j]),
                    and_spec(ctx@, *xs, 0) == and_spec(ctx@, *xs, i as int),
                    pred_spec(ctx@, *pred) == and_spec(ctx@, *xs, 0),
                decreases xs.len() - i,
            {
                match eval_predicate(ctx, &xs[i]) {
                    Err(e) => return Err(e),
                    Ok(false) => return Ok(false),
                    Ok(true) => {},
                }
                i = i + 1;
            }
            Ok(true)
        },
        Predicate::Or(xs) => {
            let mut i: usize = 0;
            while i < xs.len()
                invariant
                    i <= xs@.len(),
                    forall|j: int| 0 <= j < xs@.len() ==> #[trigger] decreases_to!(*pred => xs@[j]),
                    or_spec(ctx@, *xs, 0) == or_spec(ctx@, *xs, i as int),
                    pred_spec(ctx@, *pred) == or_spec(ctx@, *xs, 0),
                decreases xs.len() - i,
            {
                match eval_predicate(ctx, &xs[i]) {
                    Err(e) => return Err(e),
                    Ok(true) => return Ok(true),
                    Ok(false) => {},
                }
                i = i + 1;
            }
            Ok(false)
        },
        Predicate::Not(x) => match eval_predicate(ctx, x) {
            Ok(b) => Ok(!b),
            Err(e) => Err(e),
        },
    }
}


pub open spec fn site_view(o: Option<&str>) -> Option<Seq<char>> {
    match o {
        Some(s) => Some(s@),
        None => None,
    }
}

fn opt_owned(o: Option<&str>) -> (r: Option<String>)
    ensures
        opt_view(r) == site_view(o),
{
    match o {
        Some(s) => Some(s.to_owned()),
        None => None,
    }
}

pub(crate) fn opt_copy(o: &Option<String>) -> (r: Option<String>)
    ensures
        opt_view(r) == opt_view(*o),
{
    match o {
        Some(s) => Some(s.clone()),
        None => None,
    }
}

/// A copy of a finding.
pub fn copy_finding(f: &Finding) -> (r: Finding)
    ensures
        r@ == f@,
{
    Finding {
        kind: f.kind,
        schema: f.schema.clone(),
        field: f.field.clone(),
        message: f.message.clone(),
        site: opt_copy(&f.site),
    }
}

/// A copy of a list of findings.
pub fn copy_findings(v: &Vec<Finding>) -> (r: Vec<Finding>)
    ensures
        fviews(r@) == fviews(v@),
{
    let mut out: Vec<Finding> = Vec::new();
    let mut i: usize = 0;
    while i < v.len()
        invariant
            i <= v@.len(),
            fviews(out@) =~= fviews(v@).take(i as int),
        decreases v.len() - i,
    {
        let ghost before = out@;
        out.push(copy_finding(&v[i]));
        proof {
            assert(fviews(out@) =~= fviews(before).push(v@[i as int]@));
            assert(fviews(v@).take(i + 1) =~= fviews(v@).take(i as int).push(v@[i as int]@));
        }
        i = i + 1;
    }
    assert(fviews(v@).take(v@.len() as int) =~= fviews(v@));
    out
}

impl Default for CheckReport {
    fn default() -> (r: Self)
        ensures
            r@.findings.len() == 0,
            r@.skipped.len() == 0,
    {
        CheckReport { findings: Vec::new(), skipped: Vec::new() }
    }
}

/// Records one check result: a Fail or Undecidable becomes a finding.
fn push_eval(
    report: &mut CheckReport,
    schema: &str,
    field: &str,
    site: Option<&str>,
    result: Result<(), EvalError>,
)
    ensures
        final(report)@.findings == old(report)@.findings + push_spec(schema@, field@, site_view(site), eval_view(result)),
        final(report)@.skipped == old(report)@.skipped,
{
    let ghost before = report.findings@;
    match result {
        Ok(()) => {
            assert(fviews(report.findings@) =~= fviews(before) + Seq::<FindingV>::empty());
        },
        Err(EvalError::Fail(message)) => {
            let f = Finding {
                kind: FindingKind::Fail,
                schema: schema.to_owned(),
                field: field.to_owned(),
                message,
                site: opt_owned(site),
            };
            report.findings.push(f);
            assert(fviews(report.findings@) =~= fviews(before) + push_spec(schema@, field@, site_view(site), eval_view(result)));
        },
        Err(EvalError::Undecidable(message)) => {
            let f = Finding {
                kind: FindingKind::Undecidable,
                schema: schema.to_owned(),
                field: field.to_owned(),
                message,
                site: opt_owned(site),
            };
            report.findings.push(f);
            assert(fviews(report.findings@) =~= fviews(before) + push_spec(schema@, field@, site_view(site), eval_view(result)));
        },
    }
}

impl CheckReport {
    /// Appends `other`'s findings and skips.
    pub fn merge(&mut self, other: CheckReport)
        ensures
            final(self)@.findings == old(self)@.findings + other@.findings,
            final(self)@.skipped == old(self)@.skipped + other@.skipped,
    {
        let mut o = other;
        let ghost f0 = self.findings@;
        let ghost s0 = self.skipped@;
        let ghost fo = o.findings@;
        let ghost so = o.skipped@;
        self.findings.append(&mut o.findings);
        self.skipped.append(&mut o.skipped);
        assert(fviews(self.findings@) =~= fviews(f0) + fviews(fo));
        assert(sviews(self.skipped@) =~= sviews(s0) + sviews(so));
    }
}

/// Each finding's field under `parent.`.
fn prefix_report(parent: &str, report: CheckReport) -> (r: CheckReport)
    ensures
        r@.findings == prefix_spec(parent@, report@.findings),
        r@.skipped == report@.skipped,
{
    let mut out: Vec<Finding> = Vec::new();
    let mut i: usize = 0;
    while i < report.findings.len()
        invariant
            i <= report.findings@.len(),
            fviews(out@) =~= prefix_spec(parent@, fviews(report.findings@)).take(i as int),
        decreases report.findings.len() - i,
    {
        let f = &report.findings[i];
        let mut name = String::new();
        name.append(parent);
        name.append(".");
        name.append(f.field.as_str());
        let g = Finding {
            kind: f.kind,
            schema: f.schema.clone(),
            field: name,
            message: f.message.clone(),
            site: opt_copy(&f.site),
        };
        let ghost before = out@;
        out.push(g);
        proof {
            assert(fviews(out@) =~= fviews(before).push(g@));
            assert(prefix_spec(parent@, fviews(report.findings@)).take(i + 1) =~= prefix_spec(parent@, fviews(report.findings@)).take(i as int).push(g@));
        }
        i = i + 1;
    }
    assert(prefix_spec(parent@, fviews(report.findings@)).take(report.findings@.len() as int) =~= prefix_spec(parent@, fviews(report.findings@)));
    CheckReport { findings: out, skipped: report.skipped }
}

/// The index of the first finding of `kind`, if any.
fn first_kind(fs: &Vec<Finding>, kind: FindingKind) -> (r: Option<usize>)
    ensures
        r matches Some(i) ==> first_of(fviews(fs@), kind, 0) == Some(i as int) && i < fs@.len(),
        r is None ==> first_of(fviews(fs@), kind, 0) is None,
{
    let ghost vs = fviews(fs@);
    let mut i: usize = 0;
    while i < fs.len()
        invariant
            i <= fs@.len(),
            vs == fviews(fs@),
            first_of(vs, kind, 0) == first_of(vs, kind, i as int),
        decreases fs.len() - i,
    {
        let same = match (fs[i].kind, kind) {
            (FindingKind::Fail, FindingKind::Fail) => true,
            (FindingKind::Undecidable, FindingKind::Undecidable) => true,
            _ => false,
        };
        if same {
            return Some(i);
        }
        i = i + 1;
    }
    None
}

/// A walk's findings as one result: the first Fail, else the first Undecidable.
fn report_result(fs: &Vec<Finding>) -> (r: Result<(), EvalError>)
    ensures
        eval_view(r) == findings_result(fviews(fs@)),
{
    match first_kind(fs, FindingKind::Fail) {
        Some(i) => {
            assert(fviews(fs@)[i as int] == fs@[i as int]@);
            Err(EvalError::Fail(fs[i].message.clone()))
        },
        None => match first_kind(fs, FindingKind::Undecidable) {
            Some(i) => {
                assert(fviews(fs@)[i as int] == fs@[i as int]@);
                Err(EvalError::Undecidable(fs[i].message.clone()))
            },
            None => Ok(()),
        },
    }
}


pub open spec fn span_views(v: Seq<(String, usize, usize)>) -> Seq<(Seq<char>, nat, nat)> {
    v.map_values(|t: (String, usize, usize)| (t.0@, t.1 as nat, t.2 as nat))
}

/// The painted spans of a record, in field order.
fn spans_of(schema: &Schema, ctx: &ValueCtx) -> (r: Vec<(String, usize, usize)>)
    ensures
        span_views(r@) == spans_from(schema.fields@, ctx@.wire, 0),
{
    let mut out: Vec<(String, usize, usize)> = Vec::new();
    let mut i: usize = 0;
    while i < schema.fields.len()
        invariant
            i <= schema.fields@.len(),
            span_views(out@) + spans_from(schema.fields@, ctx@.wire, i as int) == spans_from(schema.fields@, ctx@.wire, 0),
        decreases schema.fields.len() - i,
    {
        let name = schema.fields[i].name.as_str();
        let ghost before = out@;
        match wire_at(ctx, name) {
            Some(w) => match (w.pos, w.len) {
                (Some(pos), Some(len)) => {
                    out.push((name.to_owned(), pos, len));
                    proof {
                        assert(span_views(out@) =~= span_views(before).push((name@, pos as nat, len as nat)));
                        assert(span_views(out@) + spans_from(schema.fields@, ctx@.wire, i + 1) =~= span_views(before) + spans_from(schema.fields@, ctx@.wire, i as int));
                    }
                },
                _ => {},
            },
            None => {},
        }
        i = i + 1;
    }
    assert(span_views(out@) =~= span_views(out@) + spans_from(schema.fields@, ctx@.wire, schema.fields@.len() as int));
    out
}

/// The message of a span that overlaps an earlier one.
fn overlap_msg(name: &str, other: &str, at: usize) -> (m: String)
    ensures
        m@ == "tiling: "@ + tick(name@) + " overlaps "@ + tick(other@) + " at pos "@ + dec_text(at as nat),
{
    let mut m = String::new();
    m.append("tiling: ");
    push_tick(&mut m, name);
    m.append(" overlaps ");
    push_tick(&mut m, other);
    m.append(" at pos ");
    let t = num_text(at as u128);
    m.append(t.as_str());
    assert(m@ =~= "tiling: "@ + tick(name@) + " overlaps "@ + tick(other@) + " at pos "@ + dec_text(at as nat));
    m
}

/// The message of a span that runs past the end of the record.
fn past_msg(name: &str, pos: usize, len: usize, n: usize) -> (m: String)
    ensures
        m@ == "tiling: "@ + tick(name@) + " ["@ + dec_text(pos as nat) + ".."@ + dec_text((pos + len) as nat) + ") past width "@ + dec_text(n as nat),
{
    let mut m = String::new();
    m.append("tiling: ");
    push_tick(&mut m, name);
    m.append(" [");
    let a = num_text(pos as u128);
    m.append(a.as_str());
    m.append("..");
    let b = num_text(pos as u128 + len as u128);
    m.append(b.as_str());
    m.append(") past width ");
    let c = num_text(n as u128);
    m.append(c.as_str());
    assert(m@ =~= "tiling: "@ + tick(name@) + " ["@ + dec_text(pos as nat) + ".."@ + dec_text((pos + len) as nat) + ") past width "@ + dec_text(n as nat));
    m
}


/// Every painted slot records its painter, and only spans before `k` painted.
#[verifier::opaque]
pub open spec fn cover_ok(cover: Seq<Option<usize>>, sp: Seq<(Seq<char>, nat, nat)>, k: int) -> bool {
    &&& forall|p: int| 0 <= p < cover.len() ==> (#[trigger] cover[p] matches Some(j) ==> j < k && paints(sp, j as int, p))
    &&& forall|j: int, p: int| 0 <= j < k && 0 <= p < cover.len() && #[trigger] paints(sp, j, p) ==> cover[p] == Some(j as usize)
    &&& forall|j: int, p: int| 0 <= j < k && #[trigger] paints(sp, j, p) ==> 0 <= p < cover.len()
}

/// Paints span `k` over `[start, start + len)`; stops at the first slot an
/// earlier span painted and gives it with its painter.
fn paint_span(
    cover: &mut Vec<Option<usize>>,
    Ghost(sp): Ghost<Seq<(Seq<char>, nat, nat)>>,
    k: usize,
    start: usize,
    len: usize,
) -> (r: Option<(usize, usize)>)
    requires
        0 <= k < sp.len(),
        sp[k as int].1 >= 1,
        start == sp[k as int].1 - 1,
        len == sp[k as int].2,
        start + len <= old(cover)@.len(),
        start + len <= usize::MAX,
        cover_ok(old(cover)@, sp, k as int),
    ensures
        final(cover)@.len() == old(cover)@.len(),
        match r {
            Some((p, j)) => overlaps_before(sp, k as int) && p as int == first_overlap(sp, k as int)
                && j as int == painter(sp, k as int, p as int) && j < k && start <= p < start + len,
            None => !overlaps_before(sp, k as int) && cover_ok(final(cover)@, sp, k + 1),
        },
{
    let ghost cover0 = cover@;
    let ghost n = cover@.len();
    proof {
        reveal(cover_ok);
        reveal(painted_before);
        reveal(overlaps_before);
        reveal(first_overlap);
        reveal(painter);
    }
    let mut o: usize = 0;
    while o < len
        invariant
            n == old(cover)@.len(),
            start + len <= usize::MAX,
            0 <= k < sp.len(),
            sp[k as int].1 >= 1,
            start == sp[k as int].1 - 1,
            len == sp[k as int].2,
            start + len <= n,
            n == cover0.len(),
            o <= len,
            cover@.len() == n,
            cover_ok(cover0, sp, k as int),
            forall|q: int| start <= q < start + o ==> #[trigger] cover@[q] == Some(k),
            forall|q: int| start <= q < start + o ==> !#[trigger] painted_before(sp, k as int, q),
            forall|p: int| 0 <= p < n && !(start <= p < start + o) ==> #[trigger] cover@[p] == cover0[p],
        decreases len - o,
    {
        let p = start + o;
        match cover[p] {
            Some(j) => {
                proof {
                    reveal(cover_ok);
        reveal(painted_before);
        reveal(overlaps_before);
        reveal(first_overlap);
        reveal(painter);
                    assert(cover@[p as int] == cover0[p as int]);
                    assert(paints(sp, j as int, p as int));
                    assert(painted_before(sp, k as int, p as int));
                    assert(in_span(sp, k as int, p as int));
                    assert(overlaps_before(sp, k as int));
                    let pp = first_overlap(sp, k as int);
                    if pp < p {
                        assert(!painted_before(sp, k as int, pp));
                    }
                    if pp > p {
                        assert(!painted_before(sp, k as int, p as int));
                    }
                    assert(pp == p);
                    let jj = painter(sp, k as int, p as int);
                    assert(cover0[p as int] == Some(jj as usize));
                }
                return Some((p, j));
            },
            None => {
                proof {
                    reveal(cover_ok);
        reveal(painted_before);
        reveal(overlaps_before);
        reveal(first_overlap);
        reveal(painter);
                    assert(cover@[p as int] == cover0[p as int]);
                    if painted_before(sp, k as int, p as int) {
                        let jj = choose|jj: int| 0 <= jj < k && #[trigger] paints(sp, jj, p as int);
                        assert(cover0[p as int] == Some(jj as usize));
                    }
                    assert(!painted_before(sp, k as int, p as int));
                }
                let ghost before = cover@;
                cover.set(p, Some(k));
                proof {
                    assert forall|q: int| start <= q < start + o + 1 implies #[trigger] cover@[q] == Some(k) by {
                        if q < p {
                            assert(before[q] == Some(k));
                        }
                    }
                    assert forall|q: int| 0 <= q < n && !(start <= q < start + o + 1) implies #[trigger] cover@[q] == cover0[q] by {
                        assert(before[q] == cover0[q]);
                    }
                }
            },
        }
        o = o + 1;
    }
    proof {
        reveal(cover_ok);
        reveal(painted_before);
        reveal(overlaps_before);
        reveal(first_overlap);
        reveal(painter);
        assert(!overlaps_before(sp, k as int));
        assert forall|p: int| 0 <= p < n implies (#[trigger] cover@[p] matches Some(j) ==> j < k + 1 && paints(sp, j as int, p)) by {
            if start <= p < start + len {
                assert(cover@[p] == Some(k));
                assert(paints(sp, k as int, p));
            } else {
                assert(cover@[p] == cover0[p]);
            }
        }
        assert forall|j: int, p: int| 0 <= j < k + 1 && 0 <= p < n && #[trigger] paints(sp, j, p) implies cover@[p] == Some(j as usize) by {
            if j == k {
                assert(cover@[p] == Some(k));
            } else if start <= p < start + len {
                assert(painted_before(sp, k as int, p));
                assert(false);
            } else {
                assert(cover@[p] == cover0[p]);
            }
        }
    }
    None
}

/// Painted spans must sit on the tape and not overlap. Holes are padding.
fn eval_tiling(schema: &Schema, ctx: &ValueCtx) -> (r: Result<(), EvalError>)
    ensures
        eval_view(r) == tiling_spec(*schema, ctx@),
{
    let n = match schema.width {
        None => {
            return Ok(());
        },
        Some(n) => n,
    };
    let spans = spans_of(schema, ctx);
    if spans.len() == 0 {
        return Ok(());
    }
    tile(&spans, n)
}

/// Lays the spans on a tape of `n` slots in order.
fn tile(spans: &Vec<(String, usize, usize)>, n: usize) -> (r: Result<(), EvalError>)
    ensures
        eval_view(r) == tile_spec(span_views(spans@), n as nat, 0),
{
    let ghost sp = span_views(spans@);
    let mut cover: Vec<Option<usize>> = Vec::new();
    while cover.len() < n
        invariant
            cover@.len() <= n,
            forall|p: int| 0 <= p < cover@.len() ==> cover@[p] is None,
        decreases n - cover.len(),
    {
        cover.push(None);
    }
    proof {
        reveal(cover_ok);
    }
    let ghost total = tile_spec(sp, n as nat, 0);
    let mut k: usize = 0;
    while k < spans.len()
        invariant
            sp == span_views(spans@),
            sp.len() == spans@.len(),
            k <= spans@.len(),
            cover@.len() == n,
            total == tile_spec(sp, n as nat, k as int),
            total == tile_spec(span_views(spans@), n as nat, 0),
            cover_ok(cover@, sp, k as int),
        decreases spans.len() - k,
    {
        let name = spans[k].0.as_str();
        let pos = spans[k].1;
        let len = spans[k].2;
        assert(sp[k as int] == (name@, pos as nat, len as nat));
        if pos == 0 {
            assert(tile_spec(sp, n as nat, k as int) == Err::<(), ErrView>(ErrView::Fail("tiling: "@ + tick(name@) + " pos is 0 (positions are 1-based)"@)));
            return fail3("tiling: ", name, " pos is 0 (positions are 1-based)");
        }
        let start = pos - 1;
        if len > n || start > n - len {
            let m = past_msg(name, pos, len, n);
            assert(tile_spec(sp, n as nat, k as int) == Err::<(), ErrView>(ErrView::Fail(m@)));
            return Err(EvalError::Fail(m));
        }
        match paint_span(&mut cover, Ghost(sp), k, start, len) {
            Some((p, j)) => {
                proof {
                    assert(sp[j as int].0 == spans@[j as int].0@);
                }
                let other = spans[j].0.as_str();
                let m = overlap_msg(name, other, p + 1);
                assert(tile_spec(sp, n as nat, k as int) == Err::<(), ErrView>(ErrView::Fail(m@)));
                return Err(EvalError::Fail(m));
            },
            None => {},
        }
        k = k + 1;
    }
    Ok(())
}


/// The index of the inner schema of `or_absent(nested(S))`, if `xs` is one.
fn opt_nested_idx(xs: &Vec<Invariant>) -> (r: Option<usize>)
    ensures
        r matches Some(k) ==> opt_nested_scan(xs@, 0, None, false) == Some(k as int) && k < xs@.len(),
        r is None ==> opt_nested_scan(xs@, 0, None, false) is None,
{
    let mut inner: Option<usize> = None;
    let mut absent = false;
    let mut i: usize = 0;
    while i < xs.len()
        invariant
            i <= xs@.len(),
            inner matches Some(k) ==> k < i,
            opt_nested_scan(xs@, 0, None, false) == opt_nested_scan(
                xs@,
                i as int,
                match inner { Some(k) => Some(k as int), None => None },
                absent,
            ),
        decreases xs.len() - i,
    {
        match &xs[i] {
            Invariant::Nested(_) => {
                inner = Some(i);
            },
            Invariant::Absent => {
                absent = true;
            },
            _ => {
                return None;
            },
        }
        i = i + 1;
    }
    if absent {
        inner
    } else {
        None
    }
}

/// The field of an `Eq` / `In` predicate whose photo is a OneOf, with its members.
fn oneof_field<'a>(ctx: &ValueCtx, pred: &'a Predicate) -> (r: Option<(&'a str, Vec<String>)>)
    ensures
        match oneof_pred_field(ctx@, *pred) {
            Some((pf, ms)) => r matches Some((f, v)) && f@ == pf && views(v@) == ms,
            None => r is None,
        },
{
    let f: &str = match pred {
        Predicate::Eq { field, .. } => field.as_str(),
        Predicate::In { field, .. } => field.as_str(),
        _ => {
            return None;
        },
    };
    match val_at(ctx, f) {
        Some(AbsVal::OneOf(set)) => Some((f, set.members_vec())),
        _ => None,
    }
}

/// Walk an inner schema on the photo of `f`.
fn eval_walk(ctx: &ValueCtx, f: &str, inner: &Schema, site: Option<&str>) -> (r: CheckReport)
    ensures
        schema_ok(*inner) || val_of(ctx@, f@) is None ==> r@.findings == walk_spec(ctx@, f@, *inner, site_view(site)),
        all_sited(r@.findings, site_view(site)),
        all_under(r@.findings, f@),
        r@.skipped.len() == 0,
    decreases *inner, 9nat, AbsVal::Unknown, 0int,
{
    match val_at(ctx, f) {
        None => {
            let mut r = CheckReport::default();
            let mut m = String::new();
            m.append("nested ");
            push_tick(&mut m, inner.name.as_str());
            m.append(": ");
            push_tick(&mut m, f);
            m.append(" unobserved");
            assert(m@ =~= "nested "@ + tick(inner.name@) + ": "@ + tick(f@) + " unobserved"@);
            let ghost mv = m@;
            push_eval(&mut r, inner.name.as_str(), f, site, Err(EvalError::Undecidable(m)));
            assert(r@.findings =~= walk_spec(ctx@, f@, *inner, site_view(site)));
            proof {
                lemma_push_placed(inner.name@, f@, site_view(site), Err(ErrView::Undecidable(mv)));
                lemma_push_under(inner.name@, f@, site_view(site), Err(ErrView::Undecidable(mv)));
            }
            r
        },
        Some(v) => eval_walk_val(f, v, inner, site),
    }
}

fn nested_msg(inner: &str, mid: &str, path: &str, tail: &str) -> (m: String)
    ensures
        m@ == "nested "@ + tick(inner@) + mid@ + tick(path@) + tail@,
{
    let mut m = String::new();
    m.append("nested ");
    push_tick(&mut m, inner);
    m.append(mid);
    push_tick(&mut m, path);
    m.append(tail);
    assert(m@ =~= "nested "@ + tick(inner@) + mid@ + tick(path@) + tail@);
    m
}

/// `path[i]`.
fn index_path(path: &str, i: usize) -> (r: String)
    ensures
        r@ == path@ + "["@ + dec_text(i as nat) + "]"@,
{
    let mut r = String::new();
    r.append(path);
    r.append("[");
    let t = num_text(i as u128);
    r.append(t.as_str());
    r.append("]");
    assert(r@ =~= path@ + "["@ + dec_text(i as nat) + "]"@);
    r
}

/// Walk an inner schema on one photo: a record is evaluated, a list walks
/// each element as `path[i]`.
fn eval_walk_val(path: &str, v: &AbsVal, inner: &Schema, site: Option<&str>) -> (r: CheckReport)
    ensures
        schema_ok(*inner) ==> r@.findings == walk_val_spec(path@, absval_view(*v), *inner, site_view(site)),
        all_sited(r@.findings, site_view(site)),
        all_under(r@.findings, path@),
        r@.skipped.len() == 0,
    decreases *inner, 8nat, *v, (match *v { AbsVal::Array(xs) => xs@.len() + 1, _ => 0 }),
{
    match v {
        AbsVal::Absent => {
            let mut r = CheckReport::default();
            let m = nested_msg(inner.name.as_str(), " failed: ", path, " is absent");
            let ghost mv = m@;
            push_eval(&mut r, inner.name.as_str(), path, site, Err(EvalError::Fail(m)));
            assert(r@.findings =~= walk_val_spec(path@, absval_view(*v), *inner, site_view(site)));
            proof {
                lemma_push_placed(inner.name@, path@, site_view(site), Err(ErrView::Fail(mv)));
                lemma_push_under(inner.name@, path@, site_view(site), Err(ErrView::Fail(mv)));
            }
            r
        },
        AbsVal::Unknown => {
            let mut r = CheckReport::default();
            let m = nested_msg(inner.name.as_str(), " on ", path, ": Unknown");
            let ghost mv = m@;
            push_eval(&mut r, inner.name.as_str(), path, site, Err(EvalError::Undecidable(m)));
            assert(r@.findings =~= walk_val_spec(path@, absval_view(*v), *inner, site_view(site)));
            proof {
                lemma_push_placed(inner.name@, path@, site_view(site), Err(ErrView::Undecidable(mv)));
                lemma_push_under(inner.name@, path@, site_view(site), Err(ErrView::Undecidable(mv)));
            }
            r
        },
        AbsVal::Record(m) => {
            let sub = ValueCtx {
                values: crate::absval::copy_record(m),
                wire: crate::strmap::StrMap::new(),
                excluded: crate::strmap::StrMap::new(),
            };
            proof {
                assert(sub@.wire =~= Map::empty());
                assert(sets_view(sub.excluded) =~= Map::empty());
                assert(sub@ == record_ctx(crate::absval::record_view(*m)));
            }
            let inner_report = eval_schema(inner, &sub, site);
            proof {
                lemma_prefix_placed(path@, inner_report@.findings, site_view(site));
            }
            prefix_report(path, inner_report)
        },
        AbsVal::Array(xs) => {
            let ghost vs = vals_view(xs@);
            proof {
                lemma_vals_view(xs@);
                assert forall|j: int| 0 <= j < xs.len() implies #[trigger] decreases_to!(*v => xs@[j]) by {
                    assert(decreases_to!(*xs => xs@[j]));
                }
            }
            let ghost whole = absval_view(*v);
            let mut out = CheckReport::default();
            let mut i: usize = 0;
            while i < xs.len()
                invariant
                    forall|j: int| 0 <= j < xs.len() ==> #[trigger] decreases_to!(*v => xs@[j]),
                    i <= xs@.len(),
                    whole == AbsValV::Array(vs),
                    vs == vals_view(xs@),
                    vs.len() == xs@.len(),
                    forall|j: int| 0 <= j < xs@.len() ==> #[trigger] vs[j] == absval_view(xs@[j]),
                    out@.skipped.len() == 0,
                    all_sited(out@.findings, site_view(site)),
                    all_under(out@.findings, path@),
                    schema_ok(*inner) ==> out@.findings + walk_arr_spec(path@, whole, i as int, *inner, site_view(site))
                        == walk_arr_spec(path@, whole, 0, *inner, site_view(site)),
                decreases xs.len() - i,
            {
                let child = index_path(path, i);
                let sub = eval_walk_val(child.as_str(), &xs[i], inner, site);
                let ghost before = out@.findings;
                let ghost subf = sub@.findings;
                out.merge(sub);
                proof {
                    assert(child@ == path@ + ("["@ + dec_text(i as nat) + "]"@));
                    lemma_under_extend(subf, path@, "["@ + dec_text(i as nat) + "]"@);
                    lemma_sited_concat(before, subf, site_view(site));
                    lemma_under_concat(before, subf, path@);
                    if schema_ok(*inner) {
                        assert(vs[i as int] == absval_view(xs@[i as int]));
                        assert(out@.findings + walk_arr_spec(path@, whole, i + 1, *inner, site_view(site))
                            =~= before + walk_arr_spec(path@, whole, i as int, *inner, site_view(site)));
                    }
                }
                i = i + 1;
            }
            proof {
                assert(out@.findings =~= out@.findings + walk_arr_spec(path@, whole, xs@.len() as int, *inner, site_view(site)));
            }
            out
        },
        _ => {
            let mut r = CheckReport::default();
            let m = nested_msg(inner.name.as_str(), " failed: ", path, " is not a record");
            let ghost mv = m@;
            push_eval(&mut r, inner.name.as_str(), path, site, Err(EvalError::Fail(m)));
            assert(r@.findings =~= walk_val_spec(path@, absval_view(*v), *inner, site_view(site)));
            proof {
                lemma_push_placed(inner.name@, path@, site_view(site), Err(ErrView::Fail(mv)));
                lemma_push_under(inner.name@, path@, site_view(site), Err(ErrView::Fail(mv)));
            }
            r
        },
    }
}

/// A nested walk as one invariant result.
fn eval_walk_result(ctx: &ValueCtx, f: &str, inner: &Schema) -> (r: Result<(), EvalError>)
    ensures
        schema_ok(*inner) || val_of(ctx@, f@) is None ==> eval_view(r) == walk_result_spec(ctx@, f@, *inner),
    decreases *inner, 10nat, AbsVal::Unknown, 0int,
{
    let report = eval_walk(ctx, f, inner, None);
    report_result(&report.findings)
}

/// One invariant of a field, as findings.
fn eval_prop(sname: &str, f: &str, p: &Invariant, ctx: &ValueCtx, site: Option<&str>) -> (r: CheckReport)
    ensures
        inv_ok(*p) || val_of(ctx@, f@) is None ==> r@.findings == prop_spec(sname@, f@, *p, ctx@, site_view(site)),
        all_sited(r@.findings, site_view(site)),
        all_under(r@.findings, f@),
        r@.skipped.len() == 0,
    decreases *p, 3nat, AbsVal::Unknown, 0int,
{
    match p {
        Invariant::Any(xs) => match opt_nested_idx(xs) {
            Some(k) => {
                proof {
                    assert(decreases_to!(*p => xs@[k as int]));
                }
                match &xs[k] {
                    Invariant::Nested(inner) => {
                        let absent = match val_at(ctx, f) {
                            Some(AbsVal::Absent) => true,
                            _ => false,
                        };
                        if absent {
                            CheckReport::default()
                        } else {
                            proof {
                                if inv_ok(*p) {
                                    lemma_invs_ok(*xs, 0, k as int);
                                }
                            }
                            eval_walk(ctx, f, inner, site)
                        }
                    },
                    _ => CheckReport::default(),
                }
            },
            None => {
                let mut r = CheckReport::default();
                let e = eval_expanded(ctx, f, p);
                let ghost ev = eval_view(e);
                push_eval(&mut r, sname, f, site, e);
                proof {
                    lemma_push_placed(sname@, f@, site_view(site), ev);
                    lemma_push_under(sname@, f@, site_view(site), ev);
                }
            proof {
                lemma_push_placed(sname@, f@, site_view(site), eval_view(e));
                lemma_push_under(sname@, f@, site_view(site), eval_view(e));
            }
                assert(inv_ok(*p) || val_of(ctx@, f@) is None ==> r@.findings =~= prop_spec(sname@, f@, *p, ctx@, site_view(site)));
                r
            },
        },
        Invariant::Nested(inner) => eval_walk(ctx, f, inner, site),
        _ => {
            let mut r = CheckReport::default();
            let e = eval_expanded(ctx, f, p);
            let ghost ev = eval_view(e);
            push_eval(&mut r, sname, f, site, e);
            proof {
                lemma_push_placed(sname@, f@, site_view(site), ev);
                lemma_push_under(sname@, f@, site_view(site), ev);
            }
            assert(inv_ok(*p) || val_of(ctx@, f@) is None ==> r@.findings =~= prop_spec(sname@, f@, *p, ctx@, site_view(site)));
            r
        },
    }
}


/// A `when` checked once per candidate value of its OneOf field.
fn eval_arms(ctx: &ValueCtx, f: &str, pred: &Predicate, then: &Invariant, pf: &str, ms: &Vec<String>) -> (r: Result<(), EvalError>)
    ensures
        inv_ok(*then) || (val_of(ctx@, f@) is None && pf@ != f@) ==> eval_view(r) == arms_spec(ctx@, f@, *pred, *then, pf@, views(ms@), 0),
    decreases *then, 1nat, AbsVal::Unknown, 0int,
{
    let ghost mv = views(ms@);
    let mut i: usize = 0;
    while i < ms.len()
        invariant
            i <= ms@.len(),
            mv == views(ms@),
            mv.len() == ms@.len(),
            inv_ok(*then) || (val_of(ctx@, f@) is None && pf@ != f@) ==> arms_spec(ctx@, f@, *pred, *then, pf@, mv, 0) == arms_spec(ctx@, f@, *pred, *then, pf@, mv, i as int),
        decreases ms.len() - i,
    {
        let arm = ctx.clone().set_value(pf, AbsVal::Known(ms[i].clone()));
        assert(arm@ == arm_ctx(ctx@, pf@, mv[i as int]));
        match eval_predicate(&arm, pred) {
            Err(e) => {
                return Err(e);
            },
            Ok(true) => {
                match eval_inv(&arm, f, then) {
                    Err(e) => {
                        return Err(e);
                    },
                    Ok(()) => {},
                }
            },
            Ok(false) => {},
        }
        i = i + 1;
    }
    Ok(())
}

/// An invariant, with a `when` on a OneOf-valued field split into one arm
/// per candidate value.
fn eval_expanded(ctx: &ValueCtx, f: &str, p: &Invariant) -> (r: Result<(), EvalError>)
    ensures
        inv_ok(*p) || val_of(ctx@, f@) is None ==> eval_view(r) == expanded_spec(ctx@, f@, *p),
    decreases *p, 2nat, AbsVal::Unknown, 0int,
{
    match p {
        Invariant::When { pred, then } => match oneof_field(ctx, pred) {
            Some((pf, ms)) => {
                proof {
                    assert(decreases_to!(*p => **then));
                }
                eval_arms(ctx, f, pred, then, pf, &ms)
            },
            None => eval_inv(ctx, f, p),
        },
        _ => eval_inv(ctx, f, p),
    }
}

/// `(ctx, field) → Pass | Fail | Undecidable` for one invariant, by field name.
fn eval_inv(ctx: &ValueCtx, f: &str, p: &Invariant) -> (r: Result<(), EvalError>)
    ensures
        inv_ok(*p) || val_of(ctx@, f@) is None ==> eval_view(r) == inv_spec(ctx@, f@, *p),
    decreases *p, 0nat, AbsVal::Unknown, 0int,
{
    match p {
        Invariant::Defined => eval_defined(ctx, f),
        Invariant::Absent => eval_absent(ctx, f),
        Invariant::OneOf(allowed) => eval_one_of(ctx, f, allowed),
        Invariant::Refine(rf) => match val_at(ctx, f) {
            None => und3("Invariant refine: ", f, " unobserved"),
            Some(v) => match rf.run(v) {
                Ok(()) => Ok(()),
                Err(crate::absval::ApplyErr::Fail(m)) => {
                    let mut s = msg3("Invariant refine failed: ", f, " ");
                    s.append(m.as_str());
                    Err(EvalError::Fail(s))
                },
                Err(crate::absval::ApplyErr::Undecidable(m)) => {
                    let mut s = msg3("Invariant refine on ", f, ": ");
                    s.append(m.as_str());
                    Err(EvalError::Undecidable(s))
                },
            },
        },
        Invariant::Nested(inner) => eval_walk_result(ctx, f, inner),
        Invariant::Unique => eval_unique(ctx, f),
        Invariant::Shape(form) => eval_shape(ctx, f, *form),
        Invariant::At(expected) => eval_at(ctx, f, *expected),
        Invariant::Width(expected) => eval_width(ctx, f, *expected),
        Invariant::When { pred, then } => match eval_predicate(ctx, pred) {
            Err(e) => Err(e),
            Ok(true) => eval_inv(ctx, f, then),
            Ok(false) => Ok(()),
        },
        Invariant::All(ps) => {
            let mut i: usize = 0;
            while i < ps.len()
                invariant
                    i <= ps@.len(),
                    forall|j: int| 0 <= j < ps@.len() ==> #[trigger] decreases_to!(*p => ps@[j]),
                    inv_ok(*p) ==> invs_ok(*ps, i as int),
                    inv_ok(*p) || val_of(ctx@, f@) is None ==> inv_spec(ctx@, f@, *p) == all_spec(ctx@, f@, *ps, i as int),
                decreases ps.len() - i,
            {
                match eval_inv(ctx, f, &ps[i]) {
                    Err(e) => {
                        return Err(e);
                    },
                    Ok(()) => {},
                }
                i = i + 1;
            }
            Ok(())
        },
        Invariant::Any(ps) => {
            let mut last_fail = EvalError::Fail("Invariant any: empty".to_owned());
            let mut und: Option<EvalError> = None;
            let mut i: usize = 0;
            while i < ps.len()
                invariant
                    i <= ps@.len(),
                    forall|j: int| 0 <= j < ps@.len() ==> #[trigger] decreases_to!(*p => ps@[j]),
                    inv_ok(*p) ==> invs_ok(*ps, i as int),
                    inv_ok(*p) || val_of(ctx@, f@) is None ==> inv_spec(ctx@, f@, *p) == any_spec(ctx@, f@, *ps, i as int, last_fail@, opt_eval_view(und)),
                decreases ps.len() - i,
            {
                match eval_inv(ctx, f, &ps[i]) {
                    Ok(()) => {
                        return Ok(());
                    },
                    Err(EvalError::Undecidable(m)) => {
                        und = Some(EvalError::Undecidable(m));
                    },
                    Err(e) => {
                        last_fail = e;
                    },
                }
                i = i + 1;
            }
            match und {
                Some(e) => Err(e),
                None => Err(last_fail),
            }
        },
    }
}

/// `(ctx, field) → Pass | Fail | Undecidable` for one invariant.
pub fn eval_invariant(ctx: &ValueCtx, field: &Field, prop: &Invariant) -> (r: Result<(), EvalError>)
    ensures
        inv_ok(*prop) || val_of(ctx@, field.name@) is None ==> eval_view(r) == inv_spec(ctx@, field.name@, *prop),
{
    eval_inv(ctx, field.name.as_str(), prop)
}

/// The geometry a field declares, checked like `at` / `width`.
fn eval_field_wire(report: &mut CheckReport, sname: &str, field: &Field, ctx: &ValueCtx, site: Option<&str>)
    ensures
        final(report)@.findings == old(report)@.findings + wire_spec(sname@, *field, ctx@, site_view(site)),
        final(report)@.skipped == old(report)@.skipped,
{
    let ghost before = report@.findings;
    match field.wire {
        Some(w) => {
            match w.pos {
                Some(pos) => {
                    let e = eval_at(ctx, field.name.as_str(), pos);
                    push_eval(report, sname, field.name.as_str(), site, e);
                },
                None => {},
            }
            let ghost mid = report@.findings;
            match w.len {
                Some(len) => {
                    let e = eval_width(ctx, field.name.as_str(), len);
                    push_eval(report, sname, field.name.as_str(), site, e);
                },
                None => {},
            }
            assert(report@.findings =~= before + wire_spec(sname@, *field, ctx@, site_view(site)));
        },
        None => {
            assert(report@.findings =~= before + wire_spec(sname@, *field, ctx@, site_view(site)));
        },
    }
}

// ---------------------------------------------------------------------------
// Where findings are put.
// ---------------------------------------------------------------------------

/// Every finding carries the site.
pub open spec fn all_sited(fs: Seq<FindingV>, site: Option<Seq<char>>) -> bool {
    forall|k: int| 0 <= k < fs.len() ==> (#[trigger] fs[k]).site == site
}

/// Every finding is under the path `p`: its field starts with `p`.
pub open spec fn all_under(fs: Seq<FindingV>, p: Seq<char>) -> bool {
    forall|k: int| 0 <= k < fs.len() ==> p.is_prefix_of((#[trigger] fs[k]).field)
}

pub proof fn lemma_sited_concat(a: Seq<FindingV>, b: Seq<FindingV>, site: Option<Seq<char>>)
    requires
        all_sited(a, site),
        all_sited(b, site),
    ensures
        all_sited(a + b, site),
{
    assert forall|k: int| 0 <= k < (a + b).len() implies (#[trigger] (a + b)[k]).site == site by {
        if k < a.len() {
            assert((a + b)[k] == a[k]);
        } else {
            assert((a + b)[k] == b[k - a.len()]);
        }
    }
}

pub proof fn lemma_under_concat(a: Seq<FindingV>, b: Seq<FindingV>, p: Seq<char>)
    requires
        all_under(a, p),
        all_under(b, p),
    ensures
        all_under(a + b, p),
{
    assert forall|k: int| 0 <= k < (a + b).len() implies p.is_prefix_of((#[trigger] (a + b)[k]).field) by {
        if k < a.len() {
            assert((a + b)[k] == a[k]);
        } else {
            assert((a + b)[k] == b[k - a.len()]);
        }
    }
}

pub proof fn lemma_push_placed(sname: Seq<char>, f: Seq<char>, site: Option<Seq<char>>, r: Result<(), ErrView>)
    ensures
        all_sited(push_spec(sname, f, site, r), site),
        forall|k: int| 0 <= k < push_spec(sname, f, site, r).len() ==> (#[trigger] push_spec(sname, f, site, r)[k]).field == f,
{
}

pub proof fn lemma_prefix_placed(path: Seq<char>, fs: Seq<FindingV>, site: Option<Seq<char>>)
    requires
        all_sited(fs, site),
    ensures
        all_sited(prefix_spec(path, fs), site),
        all_under(prefix_spec(path, fs), path),
{
    let q = prefix_spec(path, fs);
    assert forall|k: int| 0 <= k < q.len() implies path.is_prefix_of((#[trigger] q[k]).field) by {
        assert(q[k].field == path + "."@ + fs[k].field);
        assert((path + "."@ + fs[k].field).subrange(0, path.len() as int) =~= path);
    }
}


pub proof fn lemma_sited_wire(sname: Seq<char>, fd: crate::ir::Field, c: CtxV, site: Option<Seq<char>>)
    ensures
        all_sited(wire_spec(sname, fd, c, site), site),
        forall|k: int| 0 <= k < wire_spec(sname, fd, c, site).len() ==> (#[trigger] wire_spec(sname, fd, c, site)[k]).field == fd.name@,
{
    match fd.wire {
        None => {},
        Some(wm) => {
            let a = match wm.pos {
                Some(pos) => push_spec(sname, fd.name@, site, at_spec(c, fd.name@, pos)),
                None => Seq::empty(),
            };
            let b = match wm.len {
                Some(len) => push_spec(sname, fd.name@, site, width_spec(c, fd.name@, len)),
                None => Seq::empty(),
            };
            match wm.pos {
                Some(pos) => lemma_push_placed(sname, fd.name@, site, at_spec(c, fd.name@, pos)),
                None => {},
            }
            match wm.len {
                Some(len) => lemma_push_placed(sname, fd.name@, site, width_spec(c, fd.name@, len)),
                None => {},
            }
            lemma_sited_concat(a, b, site);
            assert forall|k: int| 0 <= k < (a + b).len() implies (#[trigger] (a + b)[k]).field == fd.name@ by {
                if k < a.len() {
                    assert((a + b)[k] == a[k]);
                } else {
                    assert((a + b)[k] == b[k - a.len()]);
                }
            }
        },
    }
}


pub proof fn lemma_push_under(sname: Seq<char>, f: Seq<char>, site: Option<Seq<char>>, r: Result<(), ErrView>)
    ensures
        all_under(push_spec(sname, f, site, r), f),
{
    lemma_push_placed(sname, f, site, r);
    assert(f.subrange(0, f.len() as int) =~= f);
}

pub proof fn lemma_under_extend(fs: Seq<FindingV>, p: Seq<char>, q: Seq<char>)
    requires
        all_under(fs, p + q),
    ensures
        all_under(fs, p),
{
    assert forall|k: int| 0 <= k < fs.len() implies p.is_prefix_of((#[trigger] fs[k]).field) by {
        assert((p + q).is_prefix_of(fs[k].field));
        assert(fs[k].field.subrange(0, p.len() as int) =~= (p + q).subrange(0, p.len() as int));
        assert((p + q).subrange(0, p.len() as int) =~= p);
    }
}

/// Every finding names the whole record (`*`) or a path under one of the
/// schema's fields.
pub open spec fn under_fields(fs: Seq<FindingV>, s: Schema) -> bool {
    forall|k: int| 0 <= k < fs.len() ==> {
        let fd = (#[trigger] fs[k]).field;
        fd == "*"@ || exists|x: int| 0 <= x < s.fields@.len() && (#[trigger] s.fields@[x]).name@.is_prefix_of(fd)
    }
}

/// Findings that all name `p` are under `p`.
pub proof fn lemma_named_under(fs: Seq<FindingV>, p: Seq<char>)
    requires
        forall|k: int| 0 <= k < fs.len() ==> (#[trigger] fs[k]).field == p,
    ensures
        all_under(fs, p),
{
    assert(p.subrange(0, p.len() as int) =~= p);
}

/// Appending findings under field `i`, or naming `*`, keeps a report under
/// the schema's fields.
pub proof fn lemma_under_fields_concat(a: Seq<FindingV>, b: Seq<FindingV>, s: Schema, i: int, star: bool)
    requires
        under_fields(a, s),
        !star ==> 0 <= i < s.fields@.len(),
        star ==> forall|k: int| 0 <= k < b.len() ==> (#[trigger] b[k]).field == "*"@,
        !star ==> all_under(b, s.fields@[i].name@),
    ensures
        under_fields(a + b, s),
{
    assert forall|k: int| 0 <= k < (a + b).len() implies {
        let fd = (#[trigger] (a + b)[k]).field;
        fd == "*"@ || exists|x: int| 0 <= x < s.fields@.len() && (#[trigger] s.fields@[x]).name@.is_prefix_of(fd)
    } by {
        if k < a.len() {
            assert((a + b)[k] == a[k]);
        } else {
            assert((a + b)[k] == b[k - a.len()]);
            if !star {
                assert(s.fields@[i].name@.is_prefix_of(b[k - a.len()].field));
            }
        }
    }
}

/// A schema's findings, field by field: `segs[i]` is what field `i` left,
/// then the tiling finding. A field whose invariants hold no refine that
/// answers twice differently, or whose value is not observed (so no refine
/// on it runs), leaves exactly its `field_spec`.
pub open spec fn schema_parts(s: Schema, c: CtxV, site: Option<Seq<char>>, segs: Seq<Seq<FindingV>>, fs: Seq<FindingV>) -> bool {
    &&& segs.len() == s.fields@.len()
    &&& fs == segs.flatten_alt() + push_spec(s.name@, "*"@, site, tiling_spec(s, c))
    &&& forall|i: int| 0 <= i < segs.len() && (props_ok(s, i, 0) || val_of(c, s.fields@[i].name@) is None)
        ==> #[trigger] segs[i] == field_spec(s, c, site, i)
}

/// Eval every field invariant of `schema` against one `ValueCtx`, then the
/// tiling of the record.
pub fn eval_schema(schema: &Schema, ctx: &ValueCtx, site_label: Option<&str>) -> (report: CheckReport)
    ensures
        schema_ok(*schema) || no_values(ctx@) ==> report@.findings == schema_spec(*schema, ctx@, site_view(site_label)),
        all_sited(report@.findings, site_view(site_label)),
        under_fields(report@.findings, *schema),
        exists|segs: Seq<Seq<FindingV>>| #[trigger] schema_parts(*schema, ctx@, site_view(site_label), segs, report@.findings),
        report@.skipped.len() == 0,
    decreases *schema, 7nat, AbsVal::Unknown, 0int,
{
    let ghost site = site_view(site_label);
    let ghost ok = schema_ok(*schema) || no_values(ctx@);
    let mut report = CheckReport::default();
    let sname = schema.name.as_str();
    let ghost mut segs: Seq<Seq<FindingV>> = Seq::empty();
    let mut i: usize = 0;
    while i < schema.fields.len()
        invariant
            i <= schema.fields@.len(),
            segs.len() == i,
            report@.findings == segs.flatten_alt(),
            forall|k: int| 0 <= k < i && (props_ok(*schema, k, 0) || val_of(ctx@, schema.fields@[k].name@) is None) ==> #[trigger] segs[k] == field_spec(*schema, ctx@, site, k),
            sname@ == schema.name@,
            site == site_view(site_label),
            report@.skipped.len() == 0,
            ok == (schema_ok(*schema) || no_values(ctx@)),
            all_sited(report@.findings, site),
            under_fields(report@.findings, *schema),
            schema_ok(*schema) ==> fields_ok(*schema, i as int),
            ok ==> report@.findings + fields_spec(*schema, ctx@, site, i as int)
                == fields_spec(*schema, ctx@, site, 0),
        decreases schema.fields.len() - i,
    {
        let field = &schema.fields[i];
        let ghost base = report@.findings;
        let ghost fok = props_ok(*schema, i as int, 0) || val_of(ctx@, schema.fields@[i as int].name@) is None;
        let mut j: usize = 0;
        while j < field.invariants.len()
            invariant
                i < schema.fields@.len(),
                fok == (props_ok(*schema, i as int, 0) || val_of(ctx@, schema.fields@[i as int].name@) is None),
                report@.findings.len() >= base.len(),
                report@.findings.subrange(0, base.len() as int) == base,
                props_ok(*schema, i as int, 0) ==> props_ok(*schema, i as int, j as int),
                fok ==> report@.findings + props_spec(*schema, ctx@, site, i as int, j as int)
                    == base + props_spec(*schema, ctx@, site, i as int, 0),
                *field == schema.fields@[i as int],
                j <= field.invariants@.len(),
                sname@ == schema.name@,
                site == site_view(site_label),
                report@.skipped.len() == 0,
                ok == (schema_ok(*schema) || no_values(ctx@)),
                all_sited(report@.findings, site),
                under_fields(report@.findings, *schema),
                schema_ok(*schema) ==> props_ok(*schema, i as int, j as int),
                schema_ok(*schema) ==> fields_ok(*schema, i as int + 1),
                ok ==> report@.findings + props_spec(*schema, ctx@, site, i as int, j as int)
                    == base + props_spec(*schema, ctx@, site, i as int, 0),
                ok ==> base + fields_spec(*schema, ctx@, site, i as int)
                    == fields_spec(*schema, ctx@, site, 0),
            decreases field.invariants.len() - j,
        {
            let prop = &field.invariants[j];
            proof {
                assert(decreases_to!(*schema => schema.fields));
                assert(decreases_to!(schema.fields@ => schema.fields@[i as int]));
                assert(decreases_to!(schema.fields@[i as int] => schema.fields@[i as int].invariants));
                assert(decreases_to!(schema.fields@[i as int].invariants@ => schema.fields@[i as int].invariants@[j as int]));

            }
            let sub = eval_prop(sname, field.name.as_str(), prop, ctx, site_label);
            let ghost before = report@.findings;
            let ghost subf = sub@.findings;
            report.merge(sub);
            proof {
                lemma_sited_concat(before, subf, site);
                lemma_under_fields_concat(before, subf, *schema, i as int, false);
                assert(report@.findings.subrange(0, base.len() as int) =~= before.subrange(0, base.len() as int));
                if ok || fok {
                    assert(report@.findings + props_spec(*schema, ctx@, site, i as int, j + 1)
                        =~= before + props_spec(*schema, ctx@, site, i as int, j as int));
                }
            }
            j = j + 1;
        }
        let ghost before_wire = report@.findings;
        eval_field_wire(&mut report, sname, field, ctx, site_label);
        proof {
            lemma_sited_wire(schema.name@, *field, ctx@, site);
            lemma_named_under(wire_spec(schema.name@, *field, ctx@, site), field.name@);
            lemma_sited_concat(before_wire, wire_spec(schema.name@, *field, ctx@, site), site);
            lemma_under_fields_concat(before_wire, wire_spec(schema.name@, *field, ctx@, site), *schema, i as int, false);
            if ok {
                assert(props_spec(*schema, ctx@, site, i as int, field.invariants@.len() as int) =~= Seq::<FindingV>::empty());
                assert(fields_spec(*schema, ctx@, site, i as int) == field_spec(*schema, ctx@, site, i as int) + fields_spec(*schema, ctx@, site, i + 1));
                assert(field_spec(*schema, ctx@, site, i as int) == props_spec(*schema, ctx@, site, i as int, 0) + wire_spec(schema.name@, schema.fields@[i as int], ctx@, site));
                assert(report@.findings + fields_spec(*schema, ctx@, site, i + 1)
                    =~= base + fields_spec(*schema, ctx@, site, i as int));
            }
            assert(report@.findings.subrange(0, base.len() as int) =~= before_wire.subrange(0, base.len() as int));
            let seg = report@.findings.subrange(base.len() as int, report@.findings.len() as int);
            assert(report@.findings =~= base + seg);
            let segs2 = segs.push(seg);
            assert(segs2.drop_last() =~= segs);
            assert(segs2.flatten_alt() == segs.flatten_alt() + seg);
            if fok {
                assert(props_spec(*schema, ctx@, site, i as int, field.invariants@.len() as int) =~= Seq::<FindingV>::empty());
                assert(field_spec(*schema, ctx@, site, i as int) == props_spec(*schema, ctx@, site, i as int, 0) + wire_spec(schema.name@, schema.fields@[i as int], ctx@, site));
                assert(seg =~= field_spec(*schema, ctx@, site, i as int));
            }
            assert forall|k: int| 0 <= k < i + 1 && (props_ok(*schema, k, 0) || val_of(ctx@, schema.fields@[k].name@) is None) implies #[trigger] segs2[k] == field_spec(*schema, ctx@, site, k) by {
                if k < i {
                    assert(segs2[k] == segs[k]);
                }
            }
            segs = segs2;
        }
        i = i + 1;
    }
    let t = eval_tiling(schema, ctx);
    let ghost before = report@.findings;
    let ghost tv = eval_view(t);
    push_eval(&mut report, sname, "*", site_label, t);
    proof {
        reveal_strlit("*");
        lemma_push_placed(schema.name@, "*"@, site, tv);
        lemma_sited_concat(before, push_spec(schema.name@, "*"@, site, tv), site);
        lemma_under_fields_concat(before, push_spec(schema.name@, "*"@, site, tv), *schema, 0, true);
        if ok {
            assert(fields_spec(*schema, ctx@, site, schema.fields@.len() as int) =~= Seq::<FindingV>::empty());
            assert(report@.findings =~= schema_spec(*schema, ctx@, site));
        }
        assert(tv == tiling_spec(*schema, ctx@));
        assert(schema_parts(*schema, ctx@, site, segs, report@.findings));
    }
    report
}


/// The failing findings, in order.
pub open spec fn fails_of(fs: Seq<FindingV>) -> Seq<FindingV>
    decreases fs.len(),
{
    if fs.len() == 0 {
        Seq::empty()
    } else if fs.last().kind == FindingKind::Fail {
        fails_of(fs.drop_last()).push(fs.last())
    } else {
        fails_of(fs.drop_last())
    }
}

/// One line of the failure summary.
pub open spec fn fail_line(f: FindingV) -> Seq<char> {
    match f.site {
        Some(site) => "  "@ + f.field + " @ "@ + site + ": "@ + f.message,
        None => "  "@ + f.field + ": "@ + f.message,
    }
}

/// The lines joined by newlines.
pub open spec fn summary_of(fs: Seq<FindingV>) -> Seq<char>
    decreases fs.len(),
{
    if fs.len() == 0 {
        Seq::empty()
    } else if fs.len() == 1 {
        fail_line(fs[0])
    } else {
        summary_of(fs.drop_last()) + "\n"@ + fail_line(fs.last())
    }
}

impl CheckReport {
    /// The failing findings, in order.
    pub fn fails(&self) -> (r: std::vec::IntoIter<&Finding>)
        ensures
            vstd::std_specs::iter::IteratorSpec::remaining(&r).map_values(|f: &Finding| f@) == fails_of(self@.findings),
    {
        broadcast use vstd::std_specs::vec::axiom_spec_into_iter;
        let mut out: Vec<&Finding> = Vec::new();
        let mut i: usize = 0;
        while i < self.findings.len()
            invariant
                i <= self.findings@.len(),
                out@.map_values(|f: &Finding| f@) == fails_of(fviews(self.findings@).take(i as int)),
            decreases self.findings.len() - i,
        {
            let f = &self.findings[i];
            let ghost before = out@;
            let ghost now = fviews(self.findings@).take(i + 1);
            assert(now.drop_last() =~= fviews(self.findings@).take(i as int));
            assert(now.last() == f@);
            match f.kind {
                FindingKind::Fail => {
                    out.push(f);
                    assert(out@.map_values(|f: &Finding| f@) =~= before.map_values(|f: &Finding| f@).push(f@));
                },
                FindingKind::Undecidable => {},
            }
            i = i + 1;
        }
        assert(fviews(self.findings@).take(self.findings@.len() as int) =~= fviews(self.findings@));
        out.into_iter()
    }

    /// No finding fails.
    pub fn ok(&self) -> (r: bool)
        ensures
            r == (fails_of(self@.findings).len() == 0),
    {
        let mut i: usize = 0;
        while i < self.findings.len()
            invariant
                i <= self.findings@.len(),
                fails_of(fviews(self.findings@).take(i as int)).len() == 0,
            decreases self.findings.len() - i,
        {
            let ghost now = fviews(self.findings@).take(i + 1);
            assert(now.drop_last() =~= fviews(self.findings@).take(i as int));
            match self.findings[i].kind {
                FindingKind::Fail => {
                    assert(fails_of(now).len() > 0);
                    proof {
                        lemma_fails_grow(fviews(self.findings@), i + 1);
                    }
                    assert(fviews(self.findings@).take(self.findings@.len() as int) =~= fviews(self.findings@));
                    return false;
                },
                FindingKind::Undecidable => {},
            }
            i = i + 1;
        }
        assert(fviews(self.findings@).take(self.findings@.len() as int) =~= fviews(self.findings@));
        true
    }

    /// One line per failing finding: `  field @ site: message`, or
    /// `  field: message` without a site.
    pub fn fail_summary(&self) -> (r: String)
        ensures
            r@ == summary_of(fails_of(self@.findings)),
    {
        let mut out = String::new();
        let mut none_yet = true;
        let mut i: usize = 0;
        while i < self.findings.len()
            invariant
                i <= self.findings@.len(),
                none_yet == (fails_of(fviews(self.findings@).take(i as int)).len() == 0),
                out@ == summary_of(fails_of(fviews(self.findings@).take(i as int))),
            decreases self.findings.len() - i,
        {
            let f = &self.findings[i];
            let ghost now = fviews(self.findings@).take(i + 1);
            let ghost prev = fails_of(fviews(self.findings@).take(i as int));
            assert(now.drop_last() =~= fviews(self.findings@).take(i as int));
            assert(now.last() == f@);
            match f.kind {
                FindingKind::Fail => {
                    if !none_yet {
                        out.append("\n");
                    }
                    out.append("  ");
                    out.append(f.field.as_str());
                    match &f.site {
                        Some(site) => {
                            out.append(" @ ");
                            out.append(site.as_str());
                        },
                        None => {},
                    }
                    out.append(": ");
                    out.append(f.message.as_str());
                    proof {
                        let cur = prev.push(f@);
                        assert(fails_of(now) == cur);
                        assert(cur.drop_last() =~= prev);
                        if none_yet {
                            assert(out@ =~= summary_of(cur));
                        } else {
                            assert(out@ =~= summary_of(cur));
                        }
                    }
                    none_yet = false;
                },
                FindingKind::Undecidable => {},
            }
            i = i + 1;
        }
        assert(fviews(self.findings@).take(self.findings@.len() as int) =~= fviews(self.findings@));
        out
    }
}

/// Once a prefix has a failure, every longer prefix has one.
proof fn lemma_fails_grow(fs: Seq<FindingV>, i: int)
    requires
        0 <= i <= fs.len(),
        fails_of(fs.take(i)).len() > 0,
    ensures
        fails_of(fs).len() > 0,
    decreases fs.len() - i,
{
    if i < fs.len() {
        let next = fs.take(i + 1);
        assert(next.drop_last() =~= fs.take(i));
        lemma_fails_grow(fs, i + 1);
    } else {
        assert(fs.take(i) =~= fs);
    }
}

impl EvalError {
    /// The error as text: the message, marked when undecidable.
    pub fn text(&self) -> (r: String)
        ensures
            r@ == match self@ {
                ErrView::Fail(m) => m,
                ErrView::Undecidable(m) => "undecidable: "@ + m,
            },
    {
        match self {
            EvalError::Fail(m) => m.clone(),
            EvalError::Undecidable(m) => {
                let mut r = String::new();
                r.append("undecidable: ");
                r.append(m.as_str());
                r
            },
        }
    }
}

/// `when(P, rewrite I)`: P on `pre`, I on `write` as the rewrite's field.
pub open spec fn rewrite_spec(sname: Seq<char>, rw: Rewrite, pre: CtxV, write: Fact, site: Option<Seq<char>>) -> Seq<FindingV> {
    let Rewrite { field, pred, then } = rw;
    match pred_spec(pre, pred) {
        Ok(false) => Seq::empty(),
        Ok(true) => push_spec(sname, field@, site, inv_spec(put_spec(empty_ctx(), field@, write), field@, then)),
        Err(e) => push_spec(sname, field@, site, Err(e)),
    }
}

/// The rewrite's result is fixed by its predicate and invariant: its gate is
/// not `true` on the pre state, or its invariant holds no refine that
/// answers twice differently.
pub open spec fn rewrite_decided(rw: Rewrite, pre: CtxV) -> bool {
    inv_ok(rewrite_body(rw)) || pred_spec(pre, rw.pred) != Ok::<bool, ErrView>(true)
}

/// The rewrites' findings, rewrite by rewrite: `segs[k]` is what rewrite
/// `k` left; a rewrite on another field leaves nothing, and a decided one
/// leaves exactly its `rewrite_spec`.
pub open spec fn rewrites_parts(
    s: Schema,
    pre: CtxV,
    field: Seq<char>,
    write: Fact,
    site: Option<Seq<char>>,
    segs: Seq<Seq<FindingV>>,
    fs: Seq<FindingV>,
) -> bool {
    &&& segs.len() == s.rewrites@.len()
    &&& fs == segs.flatten_alt()
    &&& forall|k: int| 0 <= k < segs.len() && s.rewrites@[k].field@ != field ==> (#[trigger] segs[k]).len() == 0
    &&& forall|k: int| 0 <= k < segs.len() && s.rewrites@[k].field@ == field && rewrite_decided(s.rewrites@[k], pre)
        ==> #[trigger] segs[k] == rewrite_spec(s.name@, s.rewrites@[k], pre, write, site)
}

/// The rewrites of the schema at `field`, from index `k` on.
pub open spec fn rewrites_spec(s: Schema, pre: CtxV, field: Seq<char>, write: Fact, site: Option<Seq<char>>, k: int) -> Seq<FindingV>
    decreases s.rewrites@.len() - k,
{
    if k < 0 || k >= s.rewrites@.len() {
        Seq::empty()
    } else {
        (if s.rewrites@[k].field@ == field {
            rewrite_spec(s.name@, s.rewrites@[k], pre, write, site)
        } else {
            Seq::empty()
        }) + rewrites_spec(s, pre, field, write, site, k + 1)
    }
}

/// `when(P, rewrite I)`: P on `pre`, I on `write` as `rw.field`.
pub fn eval_rewrite(schema: &Schema, rw: &Rewrite, pre: &ValueCtx, write: &Fact, site_label: Option<&str>) -> (report: CheckReport)
    ensures
        rewrite_decided(*rw, pre@) ==> report@.findings == rewrite_spec(schema.name@, *rw, pre@, *write, site_view(site_label)),
        report@.findings.len() <= 1,
        all_sited(report@.findings, site_view(site_label)),
        all_under(report@.findings, rw.field@),
        report@.skipped.len() == 0,
{
    let Rewrite { field, pred, then } = rw;
    let mut report = CheckReport::default();
    match eval_predicate(pre, pred) {
        Ok(false) => {},
        Ok(true) => {
            let ctx = ValueCtx::default().put_ref(field.as_str(), write);
            let r = eval_inv(&ctx, field.as_str(), then);
            let ghost rv = eval_view(r);
            push_eval(&mut report, schema.name.as_str(), field.as_str(), site_label, r);
            proof {
                lemma_push_placed(schema.name@, field@, site_view(site_label), rv);
                lemma_push_under(schema.name@, field@, site_view(site_label), rv);
            }
        },
        Err(e) => {
            let ghost ev = e@;
            push_eval(&mut report, schema.name.as_str(), field.as_str(), site_label, Err(e));
            proof {
                lemma_push_placed(schema.name@, field@, site_view(site_label), Err(ev));
                lemma_push_under(schema.name@, field@, site_view(site_label), Err(ev));
            }
        },
    }
    assert(rewrite_decided(*rw, pre@) ==> report@.findings =~= rewrite_spec(schema.name@, *rw, pre@, *write, site_view(site_label)));
    report
}

/// Every rewrite of the schema at `field`, on this pre state and write.
pub fn eval_rewrites(schema: &Schema, pre: &ValueCtx, field: &str, write: &Fact, site_label: Option<&str>) -> (report: CheckReport)
    ensures
        schema_ok(*schema) ==> report@.findings == rewrites_spec(*schema, pre@, field@, *write, site_view(site_label), 0),
        exists|segs: Seq<Seq<FindingV>>| #[trigger] rewrites_parts(*schema, pre@, field@, *write, site_view(site_label), segs, report@.findings),
        report@.skipped.len() == 0,
{
    let mut report = CheckReport::default();
    let ghost mut segs: Seq<Seq<FindingV>> = Seq::empty();
    let mut k: usize = 0;
    while k < schema.rewrites.len()
        invariant
            k <= schema.rewrites@.len(),
            segs.len() == k,
            report@.findings == segs.flatten_alt(),
            forall|j: int| 0 <= j < k && schema.rewrites@[j].field@ != field@ ==> (#[trigger] segs[j]).len() == 0,
            forall|j: int| 0 <= j < k && schema.rewrites@[j].field@ == field@ && rewrite_decided(schema.rewrites@[j], pre@)
                ==> #[trigger] segs[j] == rewrite_spec(schema.name@, schema.rewrites@[j], pre@, *write, site_view(site_label)),
            report@.skipped.len() == 0,
            schema_ok(*schema) ==> rewrites_ok(*schema, k as int),
            schema_ok(*schema) ==> report@.findings + rewrites_spec(*schema, pre@, field@, *write, site_view(site_label), k as int)
                == rewrites_spec(*schema, pre@, field@, *write, site_view(site_label), 0),
        decreases schema.rewrites.len() - k,
    {
        let rw = &schema.rewrites[k];
        let ghost before = report@.findings;
        let ghost mut seg: Seq<FindingV> = Seq::empty();
        if str_same(rw.field.as_str(), field) {
            let sub = eval_rewrite(schema, rw, pre, write, site_label);
            proof {
                seg = sub@.findings;
            }
            report.merge(sub);
        }
        proof {
            assert(report@.findings =~= before + seg);
            let segs2 = segs.push(seg);
            assert(segs2.drop_last() =~= segs);
            assert(segs2.flatten_alt() == segs.flatten_alt() + seg);
            assert forall|j: int| 0 <= j < k + 1 && schema.rewrites@[j].field@ != field@ implies (#[trigger] segs2[j]).len() == 0 by {
                if j < k {
                    assert(segs2[j] == segs[j]);
                }
            }
            assert forall|j: int| 0 <= j < k + 1 && schema.rewrites@[j].field@ == field@ && rewrite_decided(schema.rewrites@[j], pre@)
                implies #[trigger] segs2[j] == rewrite_spec(schema.name@, schema.rewrites@[j], pre@, *write, site_view(site_label)) by {
                if j < k {
                    assert(segs2[j] == segs[j]);
                }
            }
            segs = segs2;
            if schema_ok(*schema) {
                assert(report@.findings + rewrites_spec(*schema, pre@, field@, *write, site_view(site_label), k + 1)
                    =~= before + rewrites_spec(*schema, pre@, field@, *write, site_view(site_label), k as int));
            }
        }
        k = k + 1;
    }
    assert(report@.findings =~= report@.findings + rewrites_spec(*schema, pre@, field@, *write, site_view(site_label), schema.rewrites@.len() as int));
    assert(rewrites_parts(*schema, pre@, field@, *write, site_view(site_label), segs, report@.findings));
    report
}

} // verus!
