//! Stdlib invariants: sugar that writes the IR, not new primitives.
use vstd::prelude::*;
use crate::absval::{PhotoArg, StrCheck};
use crate::ir::{Form, Invariant, Predicate, Refine, RefineFn, Rewrite, Schema};
use crate::text::views;

verus! {

pub open spec fn strs_view(xs: Seq<&str>) -> Seq<Seq<char>> {
    xs.map_values(|s: &str| s@)
}

/// An owned copy of each string.
fn owned_all(values: &[&str]) -> (r: Vec<String>)
    ensures
        views(r@) == strs_view(values@),
{
    let mut out: Vec<String> = Vec::new();
    let mut i: usize = 0;
    while i < values.len()
        invariant
            i <= values@.len(),
            views(out@) =~= strs_view(values@).take(i as int),
        decreases values.len() - i,
    {
        let ghost before = out@;
        out.push(values[i].to_owned());
        proof {
            assert(views(out@) =~= views(before).push(values@[i as int]@));
            assert(strs_view(values@).take(i + 1) =~= strs_view(values@).take(i as int).push(values@[i as int]@));
        }
        i = i + 1;
    }
    assert(strs_view(values@).take(values@.len() as int) =~= strs_view(values@));
    out
}

/// Value ∈ `values`.
pub fn one_of(values: &[&str]) -> (r: Invariant)
    ensures
        r matches Invariant::OneOf(v) && views(v@) == strs_view(values@),
{
    Invariant::OneOf(owned_all(values))
}

pub fn defined() -> (r: Invariant)
    ensures
        r is Defined,
{
    Invariant::Defined
}

pub fn absent() -> (r: Invariant)
    ensures
        r is Absent,
{
    Invariant::Absent
}

/// `I || None`: Option sugar.
pub fn or_absent(inv: Invariant) -> (r: Invariant)
    ensures
        r matches Invariant::Any(v) && v@ == seq![inv, Invariant::Absent],
{
    let mut v = Vec::new();
    v.push(inv);
    v.push(Invariant::Absent);
    assert(v@ =~= seq![inv, Invariant::Absent]);
    Invariant::Any(v)
}

/// `Refine a → Refine a → Refine a` (And).
pub fn all<A: ?Sized>(a: Refine<A>, b: Refine<A>) -> (r: Refine<A>)
    ensures
        r.erased() matches Invariant::All(v) && v@ == seq![a.erased(), b.erased()],
{
    let ia = a.erase();
    let ib = b.erase();
    let mut v = Vec::new();
    v.push(ia);
    v.push(ib);
    assert(v@ =~= seq![ia, ib]);
    Refine::pack(Invariant::All(v))
}

/// `Refine str` from a closure.
pub fn refine<F: Fn(&str) -> bool + 'static>(check: F) -> (r: Refine<str>)
    requires
        forall|x: &str| call_requires(check, (x,)),
    ensures
        r.erased() matches Invariant::Refine(f)
            && forall|s: Seq<char>, b: bool| #[trigger] f.gives(s, b) <==> exists|x: &str| x@ == s && call_ensures(check, (x,), b),
{
    refine_on::<str, F>(check)
}

/// `Refine a` when the caller names `a`.
pub fn refine_on<A: PhotoArg + ?Sized, F: Fn(&str) -> bool + 'static>(check: F) -> (r: Refine<A>)
    requires
        forall|x: &str| call_requires(check, (x,)),
    ensures
        r.erased() matches Invariant::Refine(f)
            && forall|s: Seq<char>, b: bool| #[trigger] f.gives(s, b) <==> exists|x: &str| x@ == s && call_ensures(check, (x,), b),
{
    Refine::pack(Invariant::Refine(RefineFn::new(check)))
}

/// List elements are pairwise distinct.
pub fn unique() -> (r: Invariant)
    ensures
        r is Unique,
{
    Invariant::Unique
}

/// Walk an inner Schema.
pub fn nested(schema: Schema) -> (r: Invariant)
    ensures
        r matches Invariant::Nested(b) && *b == schema,
{
    Invariant::Nested(Box::new(schema))
}

pub fn shape(form: Form) -> (r: Invariant)
    ensures
        r == Invariant::Shape(form),
{
    Invariant::Shape(form)
}

/// If `pred` then `then` else skip.
pub fn when(pred: Predicate, then: Invariant) -> (r: Invariant)
    ensures
        r matches Invariant::When { pred: p, then: t } && p == pred && *t == then,
{
    Invariant::When { pred, then: Box::new(then) }
}

pub fn at(pos: usize) -> (r: Invariant)
    ensures
        r == Invariant::At(pos),
{
    Invariant::At(pos)
}

pub fn width(n: usize) -> (r: Invariant)
    ensures
        r == Invariant::Width(n),
{
    Invariant::Width(n)
}

pub fn pred_eq(field: &str, lit: &str) -> (r: Predicate)
    ensures
        r matches Predicate::Eq { field: f, lit: l } && f@ == field@ && l@ == lit@,
{
    Predicate::Eq { field: field.to_owned(), lit: lit.to_owned() }
}

pub fn pred_in(field: &str, lits: &[&str]) -> (r: Predicate)
    ensures
        r matches Predicate::In { field: f, lits: ls } && f@ == field@ && views(ls@) == strs_view(lits@),
{
    Predicate::In { field: field.to_owned(), lits: owned_all(lits) }
}

pub fn pred_not(pred: Predicate) -> (r: Predicate)
    ensures
        r matches Predicate::Not(b) && *b == pred,
{
    Predicate::Not(Box::new(pred))
}

pub fn pred_defined(field: &str) -> (r: Predicate)
    ensures
        r matches Predicate::Defined { field: f } && f@ == field@,
{
    Predicate::Defined { field: field.to_owned() }
}

pub fn rewrite(field: &str, pred: Predicate, then: Invariant) -> (r: Rewrite)
    ensures
        r.field@ == field@,
        r.pred == pred,
        crate::check::rewrite_body(r) == then,
{
    Rewrite { field: field.to_owned(), pred, then }
}


#[verifier::external_type_specification]
#[verifier::external_body]
pub struct ExRegex(regex::Regex);

#[verifier::external_type_specification]
#[verifier::external_body]
pub struct ExRegexError(regex::Error);

/// Whether `regex::Regex::new` accepts the pattern: a valid pattern within
/// the default size limit. Deterministic in the pattern.
pub uninterp spec fn regex_compiles(pattern: Seq<char>) -> bool;

/// What `regex::Regex::is_match` answers for the regex compiled from
/// `pattern` on `haystack`: whether a match exists anywhere in it.
pub uninterp spec fn regex_finds(pattern: Seq<char>, haystack: Seq<char>) -> bool;

/// A compiled regular expression together with the pattern it came from.
pub struct Matcher {
    pattern: String,
    re: regex::Regex,
}

impl Matcher {
    /// The pattern the matcher was compiled from.
    pub closed spec fn source(self) -> Seq<char> {
        self.pattern@
    }
}

/// `regex::Regex::new`: compiles `pattern`. The contract claims that it
/// succeeds exactly when the pattern compiles, and keeps the pattern beside
/// the compiled regex.
#[verifier::external_body]
fn compile(pattern: String) -> (r: Result<Matcher, regex::Error>)
    ensures
        r is Ok == regex_compiles(pattern@),
        r matches Ok(m) ==> m.source() == pattern@,
{
    match regex::Regex::new(pattern.as_str()) {
        Ok(re) => Ok(Matcher { pattern, re }),
        Err(e) => Err(e),
    }
}

/// `regex::Regex::is_match`: the contract claims the answer is the named
/// result for the matcher's pattern and the haystack.
#[verifier::external_body]
fn matcher_is_match(m: &Matcher, s: &str) -> (r: bool)
    ensures
        r == regex_finds(m.source(), s@),
{
    m.re.is_match(s)
}

/// `regex::Error`'s `Display` text. Nothing is claimed of the text.
#[verifier::external_body]
fn regex_error_text(e: &regex::Error) -> String {
    e.to_string()
}

impl StrCheck for Matcher {
    closed spec fn answers(&self, s: Seq<char>, b: bool) -> bool {
        b == regex_finds(self.source(), s)
    }

    fn check(&self, s: &str) -> (r: bool) {
        matcher_is_match(self, s)
    }
}

impl Matcher {
    /// A matcher answers one way per string.
    pub proof fn lemma_functional(&self)
        ensures
            crate::absval::functional(self),
    {
    }
}

/// The full-string form of a pattern: `\A(?:pattern)\z`.
pub open spec fn anchored(p: Seq<char>) -> Seq<char> {
    "\\A(?:"@ + p + ")\\z"@
}

/// A pattern that did not compile.
#[derive(Debug)]
pub struct PatternError {
    pub message: String,
}

/// Full-string regular-expression sugar for `Refine str`.
///
/// The pattern is compiled once, when the Schema is built. It is wrapped in
/// `\A(?:...)\z`, so a substring match is never asked for.
pub fn matches(pattern: &str) -> (r: Result<Refine<str>, PatternError>)
    ensures
        r is Ok == regex_compiles(anchored(pattern@)),
        r matches Ok(rf) ==> (rf.erased() matches Invariant::Refine(f)
            && f.is_functional()
            && forall|s: Seq<char>, b: bool| #[trigger] f.gives(s, b) == (b == regex_finds(anchored(pattern@), s))),
{
    let mut full = String::new();
    full.append("\\A(?:");
    full.append(pattern);
    full.append(")\\z");
    assert(full@ =~= anchored(pattern@));
    let ghost fv = full@;
    match compile(full) {
        Ok(m) => {
            let ghost gm = m;
            let f = RefineFn::from_matcher(m);
            proof {
                gm.lemma_functional();
                assert(gm.source() == anchored(pattern@));
                assert forall|s: Seq<char>, x: bool| #[trigger] f.gives(s, x) == (x == regex_finds(anchored(pattern@), s)) by {
                    assert(f.gives(s, x) == gm.answers(s, x));
                }
            }
            Ok(Refine::pack(Invariant::Refine(f)))
        },
        Err(e) => Err(PatternError { message: regex_error_text(&e) }),
    }
}

} // verus!
