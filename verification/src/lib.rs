//! Tiny conformance IR.
//!
//! Primitives: **Schema · Field · Invariant · Predicate · Compose · Eval**
//!
//! Observe fills a `ValueCtx`. Eval scores it. Unfold is one Observe backend.
pub mod text;
pub mod strmap;
pub mod absval;
pub mod ir;
pub mod observe;
pub mod check;
pub mod stdlib;
pub mod laws;
pub mod syntax;
pub mod unfold;
pub mod slot;
pub mod walk;
pub mod sites;
pub mod lower;
pub mod derive;

pub use absval::{AbsVal, ApplyErr, Photo, PhotoArg};
pub use check::{
    eval_invariant, eval_rewrite, eval_rewrites, eval_schema, CheckReport, EvalError, Finding,
    FindingKind, Skip,
};
pub use ir::{
    Compose, Field, Form, Invariant, Locator, Predicate, Refine, RefineFn, Rewrite, Schema,
    ValueCtx, WireMeta,
};
pub use observe::{observe, Fact, WireFragment};
pub use stdlib::{
    absent, all, at, defined, nested, one_of, or_absent, pred_defined, pred_eq, pred_in, pred_not,
    refine, refine_on, rewrite, shape, unique, width, PatternError,
};
pub use strmap::{StrMap, StrSet};
pub use sites::Observation;
pub use unfold::{eval_sources, eval_unfold, eval_unfold_named, unfold};

use vstd::prelude::*;

verus! {

/// The Msg schema of the README: `kind ∈ {hi, bye}`; `kind = hi ⇒ name defined`.
pub fn msg_toy_schema() -> (s: Schema)
    ensures
        s.name@ == "Msg"@,
        s.width is None,
        s.rewrites@.len() == 0,
        s.fields@.len() == 2,
        s.fields@[0].name@ == "kind"@,
        s.fields@[0].locator matches Locator::Path(p) && p@ == "kind"@,
        s.fields@[0].wire is None,
        s.fields@[0].invariants@.len() == 1,
        s.fields@[0].invariants@[0] matches Invariant::OneOf(v) && crate::text::views(v@) == seq!["hi"@, "bye"@],
        s.fields@[1].name@ == "name"@,
        s.fields@[1].locator matches Locator::Path(p) && p@ == "name"@,
        s.fields@[1].wire is None,
        s.fields@[1].invariants@.len() == 1,
        s.fields@[1].invariants@[0] matches Invariant::When { pred: p, then: t }
            && (p matches Predicate::Eq { field: f, lit: l } && f@ == "kind"@ && l@ == "hi"@)
            && *t is Defined,
{
    let kinds = ["hi", "bye"];
    let kind_inv = one_of(&kinds);
    proof {
        assert(crate::stdlib::strs_view(kinds@) =~= seq!["hi"@, "bye"@]);
    }
    let mut fields: Vec<Field> = Vec::new();
    fields.push(Field {
        name: "kind".to_owned(),
        locator: Locator::Path("kind".to_owned()),
        invariants: vec![kind_inv],
        wire: None,
    });
    fields.push(Field {
        name: "name".to_owned(),
        locator: Locator::Path("name".to_owned()),
        invariants: vec![crate::stdlib::when(pred_eq("kind", "hi"), defined())],
        wire: None,
    });
    Schema { name: "Msg".to_owned(), width: None, fields, rewrites: Vec::new() }
}

} // verus!
