//! The attribute language of `#[derive(Schema)]`: field attributes read as
//! Schema IR (`#[enum_]`, `#[when]`, `#[required_if]`, `#[shape]`, `#[pos]`,
//! `#[len]`, `#[field]`). Tokens come from `proc_macro2`; the grammar is
//! this module's own.
use vstd::prelude::*;
use crate::ir::{Field, Form, Invariant, Locator, Predicate, Rewrite, Schema};
use crate::check::{fails_of, opt_view, summary_of, CheckReport, ReportV};
use crate::sites::{named_spec, report_result};
use crate::syntax::{path_is_ident, is_ident_spec, Arg, AttrAst, Delim, Ex, FieldAst, FileAst, FnAst, ItemAst, Tok, TyAst};
use crate::text::{blank, blank_spec, str_same, views};

verus! {

// ---------------------------------------------------------------------------
// The grammar.
// ---------------------------------------------------------------------------

/// The mathematical form of a predicate.
pub enum PredM {
    Eq(Seq<char>, Seq<char>),
    In(Seq<char>, Seq<Seq<char>>),
    Defined(Seq<char>),
    And(Seq<PredM>),
    Or(Seq<PredM>),
    Not(Box<PredM>),
}

/// The mathematical form of an invariant (a domain refine, whose answers
/// are the closure's, and a nested schema read as `Other`).
pub enum InvM {
    OneOf(Seq<Seq<char>>),
    Defined,
    Absent,
    Shape(Form),
    Unique,
    At(usize),
    Width(usize),
    When(PredM, Box<InvM>),
    All(Seq<InvM>),
    Any(Seq<InvM>),
    Other,
}

pub open spec fn pred_m(p: Predicate) -> PredM
    decreases p, 1int,
{
    match p {
        Predicate::Eq { field, lit } => PredM::Eq(field@, lit@),
        Predicate::In { field, lits } => PredM::In(field@, views(lits@)),
        Predicate::Defined { field } => PredM::Defined(field@),
        Predicate::And(v) => PredM::And(preds_m(v@)),
        Predicate::Or(v) => PredM::Or(preds_m(v@)),
        Predicate::Not(b) => PredM::Not(Box::new(pred_m(*b))),
    }
}

pub open spec fn preds_m(s: Seq<Predicate>) -> Seq<PredM>
    decreases s, 0int,
{
    if s.len() == 0 {
        Seq::empty()
    } else {
        preds_m(s.subrange(0, s.len() - 1)).push(pred_m(s[s.len() - 1]))
    }
}

pub open spec fn inv_m(inv: Invariant) -> InvM
    decreases inv, 1int,
{
    match inv {
        Invariant::OneOf(v) => InvM::OneOf(views(v@)),
        Invariant::Defined => InvM::Defined,
        Invariant::Absent => InvM::Absent,
        Invariant::Shape(f) => InvM::Shape(f),
        Invariant::Unique => InvM::Unique,
        Invariant::At(n) => InvM::At(n),
        Invariant::Width(n) => InvM::Width(n),
        Invariant::When { pred, then } => InvM::When(pred_m(pred), Box::new(inv_m(*then))),
        Invariant::All(v) => InvM::All(invs_m(v@)),
        Invariant::Any(v) => InvM::Any(invs_m(v@)),
        _ => InvM::Other,
    }
}

pub open spec fn invs_m(s: Seq<Invariant>) -> Seq<InvM>
    decreases s, 0int,
{
    if s.len() == 0 {
        Seq::empty()
    } else {
        invs_m(s.subrange(0, s.len() - 1)).push(inv_m(s[s.len() - 1]))
    }
}

proof fn lemma_preds_m_push(s: Seq<Predicate>, p: Predicate)
    ensures
        preds_m(s.push(p)) == preds_m(s).push(pred_m(p)),
{
    assert(s.push(p).subrange(0, s.len() as int) =~= s);
}

proof fn lemma_invs_m_push(s: Seq<Invariant>, p: Invariant)
    ensures
        invs_m(s.push(p)) == invs_m(s).push(inv_m(p)),
{
    assert(s.push(p).subrange(0, s.len() as int) =~= s);
}

pub proof fn lemma_invs_m_index(s: Seq<Invariant>)
    ensures
        invs_m(s).len() == s.len(),
        forall|k: int| 0 <= k < s.len() ==> #[trigger] invs_m(s)[k] == inv_m(s[k]),
    decreases s.len(),
{
    if s.len() > 0 {
        let p = s.subrange(0, s.len() - 1);
        lemma_invs_m_index(p);
        assert forall|k: int| 0 <= k < s.len() implies #[trigger] invs_m(s)[k] == inv_m(s[k]) by {
            if k < s.len() - 1 {
                assert(s[k] == p[k]);
            }
        }
    }
}

/// A parse: the value and where the rest starts, or the error.
pub type Parsed<T> = Result<(T, int), Seq<char>>;

pub open spec fn str_at(ts: Seq<Tok>, i: int) -> Option<Seq<char>> {
    if 0 <= i < ts.len() {
        match ts[i] {
            Tok::Str(s) => Some(s@),
            _ => None,
        }
    } else {
        None
    }
}

pub open spec fn ident_is(ts: Seq<Tok>, i: int, name: Seq<char>) -> bool {
    0 <= i < ts.len() && (ts[i] matches Tok::Ident(s) && s@ == name)
}

pub open spec fn punct_at(ts: Seq<Tok>, i: int, c: char) -> bool {
    0 <= i < ts.len() && (ts[i] matches Tok::Punct(d, _) && d == c)
}

/// A two-character operator `ab`: `a` joined to `b`.
pub open spec fn pair_at(ts: Seq<Tok>, i: int, a: char, b: char) -> bool {
    0 <= i < ts.len() && (ts[i] matches Tok::Punct(d, j) && d == a && j) && punct_at(ts, i + 1, b)
}

pub open spec fn group_at(ts: Seq<Tok>, i: int, d: Delim) -> Option<Seq<Tok>> {
    if 0 <= i < ts.len() {
        match ts[i] {
            Tok::Group(e, inner) => if e == d {
                Some(inner@)
            } else {
                None
            },
            _ => None,
        }
    } else {
        None
    }
}

pub proof fn lemma_group_at(ts: Seq<Tok>, i: int, d: Delim)
    ensures
        group_at(ts, i, d) matches Some(inner) ==> decreases_to!(ts => inner),
{
    if 0 <= i < ts.len() {
        match ts[i] {
            Tok::Group(e, inner) => {
                assert(decreases_to!(ts => ts[i]));
                assert(decreases_to!(ts[i] => inner));
                assert(decreases_to!(inner => inner@));
            },
            _ => {},
        }
    }
}

/// `"a", "b", …` to the end, a trailing comma allowed.
pub open spec fn lit_strs(ts: Seq<Tok>, i: int, acc: Seq<Seq<char>>) -> Result<Seq<Seq<char>>, Seq<char>>
    decreases ts.len() - i,
{
    if i < 0 || i >= ts.len() {
        Ok(acc)
    } else {
        match str_at(ts, i) {
            None => Err("expected string literal"@),
            Some(s) => if i + 1 >= ts.len() {
                Ok(acc.push(s))
            } else if punct_at(ts, i + 1, ',') {
                lit_strs(ts, i + 2, acc.push(s))
            } else {
                Err("expected `,`"@)
            },
        }
    }
}

/// `or "b" or "c" …` after a first literal.
pub open spec fn lit_or(ts: Seq<Tok>, j: int, acc: Seq<Seq<char>>) -> Parsed<Seq<Seq<char>>>
    decreases ts.len() - j,
{
    if ident_is(ts, j, "or"@) {
        match str_at(ts, j + 1) {
            Some(t) => lit_or(ts, j + 2, acc.push(t)),
            None => Err("expected string literal"@),
        }
    } else {
        Ok((acc, j))
    }
}

pub open spec fn term_msg() -> Seq<char> {
    "expected field != \"…\" / == / = or \"09\" or \"10\""@
}

/// A predicate: terms joined by `&&`.
pub open spec fn parse_pred(ts: Seq<Tok>, i: int, this: Seq<char>) -> Parsed<PredM>
    decreases ts, 3int, 0int,
{
    match parse_term(ts, i, this) {
        Err(e) => Err(e),
        Ok((t, j)) => if i < j <= ts.len() {
            match pred_more(ts, j, this, seq![t]) {
                Err(e) => Err(e),
                Ok((ps, k)) => Ok((if ps.len() == 1 {
                    ps[0]
                } else {
                    PredM::And(ps)
                }, k)),
            }
        } else {
            Err("unexpected token"@)
        },
    }
}

pub open spec fn pred_more(ts: Seq<Tok>, j: int, this: Seq<char>, acc: Seq<PredM>) -> Parsed<Seq<PredM>>
    decreases ts, 2int, ts.len() - j,
{
    if pair_at(ts, j, '&', '&') {
        match parse_term(ts, j + 2, this) {
            Err(e) => Err(e),
            Ok((t, k)) => if j < k <= ts.len() {
                pred_more(ts, k, this, acc.push(t))
            } else {
                Err("unexpected token"@)
            },
        }
    } else {
        Ok((acc, j))
    }
}

/// One term: `( … )`, `"09" or "10"` on this field, or `field != "…"`,
/// `field == "…"`, `field = "…"`, `field = ["…", …]`.
pub open spec fn parse_term(ts: Seq<Tok>, i: int, this: Seq<char>) -> Parsed<PredM>
    decreases ts, 1int, 0int,
{
    proof {
        lemma_group_at(ts, i, Delim::Paren);
    }
    match group_at(ts, i, Delim::Paren) {
        Some(inner) => match parse_pred(inner, 0, this) {
            Err(e) => Err(e),
            Ok((p, k)) => if k == inner.len() {
                Ok((p, i + 1))
            } else {
                Err("unexpected token"@)
            },
        },
        None => match str_at(ts, i) {
            Some(s) => match lit_or(ts, i + 1, seq![s]) {
                Err(e) => Err(e),
                Ok((ls, j)) => Ok((if ls.len() == 1 {
                    PredM::Eq(this, s)
                } else {
                    PredM::In(this, ls)
                }, j)),
            },
            None => if 0 <= i < ts.len() && ts[i] is Ident {
                let f = ts[i]->Ident_0@;
                if pair_at(ts, i + 1, '!', '=') {
                    match str_at(ts, i + 3) {
                        Some(l) => Ok((PredM::Not(Box::new(PredM::Eq(f, l))), i + 4)),
                        None => Err("expected string literal"@),
                    }
                } else if pair_at(ts, i + 1, '=', '=') {
                    match str_at(ts, i + 3) {
                        Some(l) => Ok((PredM::Eq(f, l), i + 4)),
                        None => Err("expected string literal"@),
                    }
                } else if punct_at(ts, i + 1, '=') {
                    match group_at(ts, i + 2, Delim::Bracket) {
                        Some(inner) => match lit_strs(inner, 0, Seq::empty()) {
                            Ok(ls) => Ok((PredM::In(f, ls), i + 3)),
                            Err(e) => Err(e),
                        },
                        None => match str_at(ts, i + 2) {
                            Some(l) => Ok((PredM::Eq(f, l), i + 3)),
                            None => Err("expected string literal"@),
                        },
                    }
                } else {
                    Err(term_msg())
                }
            } else {
                Err("expected identifier"@)
            },
        },
    }
}

/// One invariant atom of a `when`.
pub open spec fn parse_atom(ts: Seq<Tok>, i: int) -> Parsed<InvM> {
    if 0 <= i < ts.len() && ts[i] is Ident {
        let id = ts[i]->Ident_0@;
        if id == "None"@ || id == "absent"@ {
            Ok((InvM::Absent, i + 1))
        } else if id == "defined"@ {
            match group_at(ts, i + 1, Delim::Paren) {
                Some(inner) => if inner.len() == 0 {
                    Ok((InvM::Defined, i + 2))
                } else {
                    Err("unexpected token"@)
                },
                None => Ok((InvM::Defined, i + 1)),
            }
        } else if id == "one_of"@ {
            match group_at(ts, i + 1, Delim::Paren) {
                Some(inner) => match lit_strs(inner, 0, Seq::empty()) {
                    Ok(ls) => if ls.len() == 0 {
                        Err("expected one_of(\"…\", …)"@)
                    } else {
                        Ok((InvM::OneOf(ls), i + 2))
                    },
                    Err(e) => Err(e),
                },
                None => Err("expected parentheses"@),
            }
        } else {
            Err("expected rewrite I, or one_of / defined / absent / None"@)
        }
    } else {
        match group_at(ts, i, Delim::Bracket) {
            Some(inner) => match lit_strs(inner, 0, Seq::empty()) {
                Ok(ls) => Ok((InvM::OneOf(ls), i + 1)),
                Err(e) => Err(e),
            },
            None => match str_at(ts, i) {
                Some(l) => Ok((InvM::OneOf(seq![l]), i + 1)),
                None => Err("expected string literal"@),
            },
        }
    }
}

pub open spec fn inv_more(ts: Seq<Tok>, j: int, acc: Seq<InvM>) -> Parsed<Seq<InvM>>
    decreases ts.len() - j,
{
    if pair_at(ts, j, '&', '&') {
        match parse_atom(ts, j + 2) {
            Err(e) => Err(e),
            Ok((a, k)) => if j < k <= ts.len() {
                inv_more(ts, k, acc.push(a))
            } else {
                Err("unexpected token"@)
            },
        }
    } else {
        Ok((acc, j))
    }
}

/// An invariant: atoms joined by `&&`.
pub open spec fn parse_inv(ts: Seq<Tok>, i: int) -> Parsed<InvM> {
    match parse_atom(ts, i) {
        Err(e) => Err(e),
        Ok((a, j)) => if i < j <= ts.len() {
            match inv_more(ts, j, seq![a]) {
                Err(e) => Err(e),
                Ok((xs, k)) => Ok((if xs.len() == 1 {
                    xs[0]
                } else {
                    InvM::All(xs)
                }, k)),
            }
        } else {
            Err("unexpected token"@)
        },
    }
}

/// `#[when(P, I)]` or `#[when(P, rewrite I)]` on the field `this`.
pub struct WhenM {
    pub rewrite: bool,
    pub pred: PredM,
    pub inv: InvM,
}

pub open spec fn parse_when(ts: Seq<Tok>, this: Seq<char>) -> Result<WhenM, Seq<char>> {
    match parse_pred(ts, 0, this) {
        Err(e) => Err(e),
        Ok((p, i)) => if !punct_at(ts, i, ',') {
            Err("expected `,`"@)
        } else {
            let j = if ident_is(ts, i + 1, "then"@) {
                i + 2
            } else {
                i + 1
            };
            let rw = ident_is(ts, j, "rewrite"@);
            let k = if rw {
                j + 1
            } else {
                j
            };
            match parse_inv(ts, k) {
                Err(e) => Err(e),
                Ok((inv, m)) => if m < ts.len() {
                    Err("unexpected tokens after when"@)
                } else {
                    Ok(WhenM { rewrite: rw, pred: p, inv })
                },
            }
        },
    }
}


// ---------------------------------------------------------------------------
// The parser.
// ---------------------------------------------------------------------------

pub open spec fn res_strs(r: Result<Vec<String>, String>, s: Result<Seq<Seq<char>>, Seq<char>>) -> bool {
    match s {
        Ok(v) => r matches Ok(x) && views(x@) == v,
        Err(e) => r matches Err(m) && m@ == e,
    }
}

pub open spec fn res_pred(r: Result<(Predicate, usize), String>, s: Parsed<PredM>) -> bool {
    match s {
        Ok((m, j)) => r matches Ok((p, k)) && pred_m(p) == m && k == j,
        Err(e) => r matches Err(x) && x@ == e,
    }
}

pub open spec fn res_inv(r: Result<(Invariant, usize), String>, s: Parsed<InvM>) -> bool {
    match s {
        Ok((m, j)) => r matches Ok((p, k)) && inv_m(p) == m && k == j,
        Err(e) => r matches Err(x) && x@ == e,
    }
}

fn msg(s: &str) -> (r: String)
    ensures
        r@ == s@,
{
    s.to_owned()
}

fn str_at_of(ts: &Vec<Tok>, i: usize) -> (r: Option<&str>)
    ensures
        match str_at(ts@, i as int) {
            Some(s) => r matches Some(x) && x@ == s,
            None => r is None,
        },
{
    if i < ts.len() {
        match &ts[i] {
            Tok::Str(s) => Some(s.as_str()),
            _ => None,
        }
    } else {
        None
    }
}

fn ident_is_of(ts: &Vec<Tok>, i: usize, name: &str) -> (r: bool)
    ensures
        r == ident_is(ts@, i as int, name@),
{
    if i < ts.len() {
        match &ts[i] {
            Tok::Ident(s) => str_same(s.as_str(), name),
            _ => false,
        }
    } else {
        false
    }
}

fn punct_at_of(ts: &Vec<Tok>, i: usize, c: char) -> (r: bool)
    ensures
        r == punct_at(ts@, i as int, c),
{
    if i < ts.len() {
        match &ts[i] {
            Tok::Punct(d, _) => *d == c,
            _ => false,
        }
    } else {
        false
    }
}

fn pair_at_of(ts: &Vec<Tok>, i: usize, a: char, b: char) -> (r: bool)
    ensures
        r == pair_at(ts@, i as int, a, b),
{
    if i < ts.len() {
        match &ts[i] {
            Tok::Punct(d, j) => *d == a && *j && i + 1 < ts.len() && punct_at_of(ts, i + 1, b),
            _ => false,
        }
    } else {
        false
    }
}

fn group_at_of(ts: &Vec<Tok>, i: usize, d: Delim) -> (r: Option<&Vec<Tok>>)
    ensures
        match group_at(ts@, i as int, d) {
            Some(inner) => r matches Some(v) && v@ == inner,
            None => r is None,
        },
{
    if i < ts.len() {
        match &ts[i] {
            Tok::Group(e, inner) => if *e == d {
                Some(inner)
            } else {
                None
            },
            _ => None,
        }
    } else {
        None
    }
}

/// `"a", "b", …` to the end of `ts`, from index `i`.
fn lit_strs_of(ts: &Vec<Tok>, i: usize) -> (r: Result<Vec<String>, String>)
    ensures
        res_strs(r, lit_strs(ts@, i as int, Seq::empty())),
{
    let mut acc: Vec<String> = Vec::new();
    let mut j: usize = i;
    proof {
        assert(views(acc@) =~= Seq::<Seq<char>>::empty());
    }
    while j < ts.len()
        invariant
            lit_strs(ts@, j as int, views(acc@)) == lit_strs(ts@, i as int, Seq::empty()),
        decreases ts.len() - j,
    {
        match str_at_of(ts, j) {
            None => {
                return Err(msg("expected string literal"));
            },
            Some(s) => {
                let ghost a0 = acc@;
                acc.push(s.to_owned());
                proof {
                    assert(views(acc@) =~= views(a0).push(s@));
                }
                if j + 1 >= ts.len() {
                    return Ok(acc);
                } else if punct_at_of(ts, j + 1, ',') {
                    j = j + 2;
                } else {
                    return Err(msg("expected `,`"));
                }
            },
        }
    }
    Ok(acc)
}

/// A predicate: terms joined by `&&`.
fn parse_pred_of(ts: &Vec<Tok>, i: usize, this: &str) -> (r: Result<(Predicate, usize), String>)
    ensures
        res_pred(r, parse_pred(ts@, i as int, this@)),
    decreases ts@, 3int, 0int,
{
    let n = ts.len();
    let (t, j) = match parse_term_of(ts, i, this) {
        Err(e) => {
            return Err(e);
        },
        Ok(x) => x,
    };
    let ghost tm = match parse_term(ts@, i as int, this@) {
        Ok((m, _)) => m,
        Err(_) => PredM::And(Seq::empty()),
    };
    if !(i < j && j <= n) {
        return Err(msg("unexpected token"));
    }
    let mut acc: Vec<Predicate> = Vec::new();
    let ghost mut accm: Seq<PredM> = Seq::empty();
    proof {
        lemma_preds_m_push(acc@, t);
        assert(preds_m(acc@) =~= Seq::<PredM>::empty());
    }
    acc.push(t);
    proof {
        accm = seq![tm];
        assert(preds_m(acc@) =~= accm);
    }
    let mut k: usize = j;
    while pair_at_of(ts, k, '&', '&')
        invariant
            n == ts@.len(),
            i < j <= k <= n,
            parse_term(ts@, i as int, this@) == Ok::<(PredM, int), Seq<char>>((tm, j as int)),
            acc@.len() == accm.len(),
            accm.len() >= 1,
            preds_m(acc@) == accm,
            pred_more(ts@, k as int, this@, accm) == pred_more(ts@, j as int, this@, seq![tm]),
        decreases n - k,
    {
        let (t2, k2) = match parse_term_of(ts, k + 2, this) {
            Err(e) => {
                return Err(e);
            },
            Ok(x) => x,
        };
        if !(k < k2 && k2 <= n) {
            return Err(msg("unexpected token"));
        }
        let ghost m2 = parse_term(ts@, k + 2, this@)->Ok_0.0;
        proof {
            lemma_preds_m_push(acc@, t2);
        }
        acc.push(t2);
        proof {
            accm = accm.push(m2);
        }
        k = k2;
    }
    if acc.len() == 1 {
        let ghost a0 = acc@;
        let p = acc.pop().unwrap();
        proof {
            assert(a0 =~= Seq::<Predicate>::empty().push(p));
            lemma_preds_m_push(Seq::<Predicate>::empty(), p);
            assert(preds_m(Seq::<Predicate>::empty()) =~= Seq::<PredM>::empty());
        }
        Ok((p, k))
    } else {
        Ok((Predicate::And(acc), k))
    }
}

/// One term of a predicate.
fn parse_term_of(ts: &Vec<Tok>, i: usize, this: &str) -> (r: Result<(Predicate, usize), String>)
    ensures
        res_pred(r, parse_term(ts@, i as int, this@)),
    decreases ts@, 1int, 0int,
{
    let n = ts.len();
    proof {
        lemma_group_at(ts@, i as int, Delim::Paren);
    }
    match group_at_of(ts, i, Delim::Paren) {
        Some(inner) => {
            return match parse_pred_of(inner, 0, this) {
                Err(e) => Err(e),
                Ok((p, k)) => if k == inner.len() {
                    Ok((p, i + 1))
                } else {
                    Err(msg("unexpected token"))
                },
            };
        },
        None => {},
    }
    match str_at_of(ts, i) {
        Some(s) => {
            let mut ls: Vec<String> = Vec::new();
            ls.push(s.to_owned());
            proof {
                assert(views(ls@) =~= seq![s@]);
            }
            let mut j: usize = i + 1;
            while ident_is_of(ts, j, "or")
                invariant
                    n == ts@.len(),
                    i < n,
                    i + 1 <= j <= n,
                    group_at(ts@, i as int, Delim::Paren) is None,
                    str_at(ts@, i as int) == Some(s@),
                    views(ls@).len() >= 1,
                    views(ls@)[0] == s@,
                    lit_or(ts@, j as int, views(ls@)) == lit_or(ts@, i + 1, seq![s@]),
                decreases n - j,
            {
                match str_at_of(ts, j + 1) {
                    Some(t) => {
                        let ghost l0 = ls@;
                        ls.push(t.to_owned());
                        proof {
                            assert(views(ls@) =~= views(l0).push(t@));
                        }
                        j = j + 2;
                    },
                    None => {
                        return Err(msg("expected string literal"));
                    },
                }
            }
            if ls.len() == 1 {
                Ok((Predicate::Eq { field: this.to_owned(), lit: s.to_owned() }, j))
            } else {
                Ok((Predicate::In { field: this.to_owned(), lits: ls }, j))
            }
        },
        None => {
            let f: &str = if i < ts.len() {
                match &ts[i] {
                    Tok::Ident(f) => f.as_str(),
                    _ => {
                        return Err(msg("expected identifier"));
                    },
                }
            } else {
                return Err(msg("expected identifier"));
            };
            if pair_at_of(ts, i + 1, '!', '=') {
                match str_at_of(ts, i + 3) {
                    Some(l) => {
                        let eq = Predicate::Eq { field: f.to_owned(), lit: l.to_owned() };
                        proof {
                            assert(pred_m(eq) == PredM::Eq(f@, l@));
                        }
                        Ok((Predicate::Not(Box::new(eq)), i + 4))
                    },
                    None => Err(msg("expected string literal")),
                }
            } else if pair_at_of(ts, i + 1, '=', '=') {
                match str_at_of(ts, i + 3) {
                    Some(l) => Ok((Predicate::Eq { field: f.to_owned(), lit: l.to_owned() }, i + 4)),
                    None => Err(msg("expected string literal")),
                }
            } else if punct_at_of(ts, i + 1, '=') {
                match group_at_of(ts, i + 2, Delim::Bracket) {
                    Some(inner) => match lit_strs_of(inner, 0) {
                        Ok(ls) => Ok((Predicate::In { field: f.to_owned(), lits: ls }, i + 3)),
                        Err(e) => Err(e),
                    },
                    None => match str_at_of(ts, i + 2) {
                        Some(l) => Ok((Predicate::Eq { field: f.to_owned(), lit: l.to_owned() }, i + 3)),
                        None => Err(msg("expected string literal")),
                    },
                }
            } else {
                Err(msg("expected field != \"…\" / == / = or \"09\" or \"10\""))
            }
        },
    }
}


/// One invariant atom of a `when`.
fn parse_atom_of(ts: &Vec<Tok>, i: usize) -> (r: Result<(Invariant, usize), String>)
    ensures
        res_inv(r, parse_atom(ts@, i as int)),
{
    let n = ts.len();
    if i < n {
        match &ts[i] {
            Tok::Ident(id) => {
                let id = id.as_str();
                if str_same(id, "None") || str_same(id, "absent") {
                    return Ok((Invariant::Absent, i + 1));
                } else if str_same(id, "defined") {
                    return match group_at_of(ts, i + 1, Delim::Paren) {
                        Some(inner) => if inner.len() == 0 {
                            Ok((Invariant::Defined, i + 2))
                        } else {
                            Err(msg("unexpected token"))
                        },
                        None => Ok((Invariant::Defined, i + 1)),
                    };
                } else if str_same(id, "one_of") {
                    return match group_at_of(ts, i + 1, Delim::Paren) {
                        Some(inner) => match lit_strs_of(inner, 0) {
                            Ok(ls) => if ls.len() == 0 {
                                Err(msg("expected one_of(\"…\", …)"))
                            } else {
                                Ok((Invariant::OneOf(ls), i + 2))
                            },
                            Err(e) => Err(e),
                        },
                        None => Err(msg("expected parentheses")),
                    };
                } else {
                    return Err(msg("expected rewrite I, or one_of / defined / absent / None"));
                }
            },
            _ => {},
        }
    }
    match group_at_of(ts, i, Delim::Bracket) {
        Some(inner) => match lit_strs_of(inner, 0) {
            Ok(ls) => Ok((Invariant::OneOf(ls), i + 1)),
            Err(e) => Err(e),
        },
        None => match str_at_of(ts, i) {
            Some(l) => {
                let mut v: Vec<String> = Vec::new();
                v.push(l.to_owned());
                proof {
                    assert(views(v@) =~= seq![l@]);
                }
                Ok((Invariant::OneOf(v), i + 1))
            },
            None => Err(msg("expected string literal")),
        },
    }
}

/// An invariant: atoms joined by `&&`.
fn parse_inv_of(ts: &Vec<Tok>, i: usize) -> (r: Result<(Invariant, usize), String>)
    ensures
        res_inv(r, parse_inv(ts@, i as int)),
{
    let n = ts.len();
    let (a, j) = match parse_atom_of(ts, i) {
        Err(e) => {
            return Err(e);
        },
        Ok(x) => x,
    };
    let ghost am = parse_atom(ts@, i as int)->Ok_0.0;
    if !(i < j && j <= n) {
        return Err(msg("unexpected token"));
    }
    let mut acc: Vec<Invariant> = Vec::new();
    let ghost mut accm: Seq<InvM> = Seq::empty();
    proof {
        lemma_invs_m_push(acc@, a);
        assert(invs_m(acc@) =~= Seq::<InvM>::empty());
    }
    acc.push(a);
    proof {
        accm = seq![am];
        assert(invs_m(acc@) =~= accm);
    }
    let mut k: usize = j;
    while pair_at_of(ts, k, '&', '&')
        invariant
            n == ts@.len(),
            i < j <= k <= n,
            parse_atom(ts@, i as int) == Ok::<(InvM, int), Seq<char>>((am, j as int)),
            acc@.len() == accm.len(),
            accm.len() >= 1,
            invs_m(acc@) == accm,
            inv_more(ts@, k as int, accm) == inv_more(ts@, j as int, seq![am]),
        decreases n - k,
    {
        let (a2, k2) = match parse_atom_of(ts, k + 2) {
            Err(e) => {
                return Err(e);
            },
            Ok(x) => x,
        };
        if !(k < k2 && k2 <= n) {
            return Err(msg("unexpected token"));
        }
        let ghost m2 = parse_atom(ts@, k + 2)->Ok_0.0;
        proof {
            lemma_invs_m_push(acc@, a2);
        }
        acc.push(a2);
        proof {
            accm = accm.push(m2);
        }
        k = k2;
    }
    if acc.len() == 1 {
        let ghost a0 = acc@;
        let x = acc.pop().unwrap();
        proof {
            assert(a0 =~= Seq::<Invariant>::empty().push(x));
            lemma_invs_m_push(Seq::<Invariant>::empty(), x);
            assert(invs_m(Seq::<Invariant>::empty()) =~= Seq::<InvM>::empty());
        }
        Ok((x, k))
    } else {
        Ok((Invariant::All(acc), k))
    }
}

/// What `#[when(…)]` says: whether it is a rewrite, its predicate and its invariant.
pub struct WhenAttr {
    pub rewrite: bool,
    pub pred: Predicate,
    pub inv: Invariant,
}

/// Read the arguments of `#[when(P, I)]` / `#[when(P, rewrite I)]` on the
/// field `this_field`.
pub fn parse_when_tokens(ts: &Vec<Tok>, this_field: &str) -> (r: Result<WhenAttr, String>)
    ensures
        match parse_when(ts@, this_field@) {
            Ok(w) => r matches Ok(a) && a.rewrite == w.rewrite && pred_m(a.pred) == w.pred && inv_m(a.inv) == w.inv,
            Err(e) => r matches Err(m) && m@ == e,
        },
{
    let (p, i) = match parse_pred_of(ts, 0, this_field) {
        Err(e) => {
            return Err(e);
        },
        Ok(x) => x,
    };
    let n = ts.len();
    if !punct_at_of(ts, i, ',') {
        return Err(msg("expected `,`"));
    }
    let j = if ident_is_of(ts, i + 1, "then") {
        i + 2
    } else {
        i + 1
    };
    assert(j <= n);
    let rw = ident_is_of(ts, j, "rewrite");
    let k = if rw {
        j + 1
    } else {
        j
    };
    match parse_inv_of(ts, k) {
        Err(e) => Err(e),
        Ok((inv, m)) => if m < ts.len() {
            Err(msg("unexpected tokens after when"))
        } else {
            Ok(WhenAttr { rewrite: rw, pred: p, inv })
        },
    }
}



// ---------------------------------------------------------------------------
// Single arguments: literals, identifiers.
// ---------------------------------------------------------------------------

/// A literal at `i` as syn reads one (`Lit`): `Some(value)` for a string,
/// `None` for another literal, and where it ends.
pub open spec fn lit_at(ts: Seq<Tok>, i: int) -> Option<(Option<Seq<char>>, int)> {
    if 0 <= i < ts.len() {
        match ts[i] {
            Tok::Str(s) => Some((Some(s@), i + 1)),
            Tok::Int(_) => Some((None, i + 1)),
            Tok::Lit => Some((None, i + 1)),
            Tok::Keyword(k) => if k@ == "true"@ || k@ == "false"@ {
                Some((None, i + 1))
            } else {
                None
            },
            Tok::Punct(c, _) => if c == '-' && i + 1 < ts.len() && (ts[i + 1] is Int || ts[i + 1] is Lit) {
                Some((None, i + 2))
            } else {
                None
            },
            _ => None,
        }
    } else {
        None
    }
}

/// The tokens are exactly one literal (`syn::parse2::<Lit>`).
pub open spec fn one_lit(ts: Seq<Tok>) -> Result<Option<Seq<char>>, Seq<char>> {
    if ts.len() == 0 {
        Err("unexpected end of input, expected literal"@)
    } else {
        match lit_at(ts, 0) {
            None => Err("expected literal"@),
            Some((v, j)) => if j == ts.len() {
                Ok(v)
            } else {
                Err("unexpected token"@)
            },
        }
    }
}

/// `Punctuated::<Lit, Token![,]>::parse_terminated`, from `i`.
pub open spec fn lit_list(ts: Seq<Tok>, i: int, acc: Seq<Option<Seq<char>>>) -> Result<Seq<Option<Seq<char>>>, Seq<char>>
    decreases ts.len() - i,
{
    if i < 0 || i >= ts.len() {
        Ok(acc)
    } else {
        match lit_at(ts, i) {
            None => Err("expected literal"@),
            Some((v, j)) => if j >= ts.len() {
                Ok(acc.push(v))
            } else if punct_at(ts, j, ',') {
                lit_list(ts, j + 1, acc.push(v))
            } else {
                Err("expected `,`"@)
            },
        }
    }
}

/// Every literal is a string.
pub open spec fn all_strs(ls: Seq<Option<Seq<char>>>) -> bool {
    forall|k: int| 0 <= k < ls.len() ==> (#[trigger] ls[k]) is Some
}

/// `#[enum_("a", "b", …)]`: the strings.
pub open spec fn enum_list(ts: Seq<Tok>) -> Result<Seq<Seq<char>>, Seq<char>> {
    match lit_list(ts, 0, Seq::empty()) {
        Err(e) => Err(e),
        Ok(ls) => if all_strs(ls) {
            Ok(ls.map_values(|o: Option<Seq<char>>| o->0))
        } else {
            Err("expected string literals"@)
        },
    }
}

/// `#[shape(scalar|array)]`.
pub open spec fn shape_form(ts: Seq<Tok>) -> Result<Form, Seq<char>> {
    if ts.len() == 0 {
        Err("unexpected end of input, expected identifier"@)
    } else {
        match ts[0] {
            Tok::Ident(s) => if ts.len() > 1 {
                Err("unexpected token"@)
            } else if s@ == "scalar"@ {
                Ok(Form::Scalar)
            } else if s@ == "array"@ {
                Ok(Form::Array)
            } else {
                Err("expected scalar or array"@)
            },
            Tok::Keyword(k) => Err("expected identifier, found keyword `"@ + k@ + "`"@),
            _ => Err("expected identifier"@),
        }
    }
}

/// `#[pos(n)]` / `#[len(n)]`: the integer.
pub open spec fn usize_arg(ts: Seq<Tok>) -> Result<usize, Seq<char>> {
    match one_lit(ts) {
        Err(e) => Err(e),
        Ok(_) => match ts[0] {
            Tok::Int(Some(n)) => Ok(n),
            Tok::Int(None) => Err("number too large to fit in target type"@),
            Tok::Punct(_, _) => if ts[1] is Int {
                Err("invalid digit found in string"@)
            } else {
                Err("expected integer"@)
            },
            _ => Err("expected integer"@),
        },
    }
}

/// `#[except("why")]`: the reason.
pub open spec fn except_message(ts: Seq<Tok>) -> Result<Seq<char>, Seq<char>> {
    match one_lit(ts) {
        Err(e) => Err(e),
        Ok(None) => Err("#[except(\"why\")] needs a string"@),
        Ok(Some(v)) => if blank_spec(v) {
            Err("#[except(\"why\")] needs a non-empty reason"@)
        } else {
            Ok(v)
        },
    }
}

fn lit_at_of(ts: &Vec<Tok>, i: usize) -> (r: Option<(Option<&str>, usize)>)
    ensures
        match lit_at(ts@, i as int) {
            Some((v, j)) => r matches Some((x, k)) && k == j && match v {
                Some(s) => x matches Some(y) && y@ == s,
                None => x is None,
            },
            None => r is None,
        },
{
    if i >= ts.len() {
        return None;
    }
    match &ts[i] {
        Tok::Str(s) => Some((Some(s.as_str()), i + 1)),
        Tok::Int(_) => Some((None, i + 1)),
        Tok::Lit => Some((None, i + 1)),
        Tok::Keyword(k) => if str_same(k.as_str(), "true") || str_same(k.as_str(), "false") {
            Some((None, i + 1))
        } else {
            None
        },
        Tok::Punct(c, _) => if *c == '-' && i + 1 < ts.len() && (match &ts[i + 1] {
            Tok::Int(_) => true,
            Tok::Lit => true,
            _ => false,
        }) {
            Some((None, i + 2))
        } else {
            None
        },
        _ => None,
    }
}

fn one_lit_of(ts: &Vec<Tok>) -> (r: Result<Option<&str>, String>)
    ensures
        match one_lit(ts@) {
            Ok(v) => r matches Ok(x) && match v {
                Some(s) => x matches Some(y) && y@ == s,
                None => x is None,
            },
            Err(e) => r matches Err(m) && m@ == e,
        },
{
    if ts.len() == 0 {
        return Err(msg("unexpected end of input, expected literal"));
    }
    match lit_at_of(ts, 0) {
        None => Err(msg("expected literal")),
        Some((v, j)) => if j == ts.len() {
            Ok(v)
        } else {
            Err(msg("unexpected token"))
        },
    }
}

/// The strings of `#[enum_(…)]`.
pub fn enum_list_of(ts: &Vec<Tok>) -> (r: Result<Vec<String>, String>)
    ensures
        res_strs(r, enum_list(ts@)),
{
    let mut out: Vec<String> = Vec::new();
    let mut strs = true;
    let ghost mut acc: Seq<Option<Seq<char>>> = Seq::empty();
    let mut i: usize = 0;
    let n = ts.len();
    while i < n
        invariant
            n == ts@.len(),
            lit_list(ts@, i as int, acc) == lit_list(ts@, 0, Seq::empty()),
            strs == all_strs(acc),
            strs ==> views(out@) == acc.map_values(|o: Option<Seq<char>>| o->0),
        decreases n - i,
    {
        match lit_at_of(ts, i) {
            None => {
                return Err(msg("expected literal"));
            },
            Some((v, j)) => {
                let ghost vm = lit_at(ts@, i as int)->Some_0.0;
                let ghost a0 = acc;
                proof {
                    acc = acc.push(vm);
                }
                match v {
                    Some(s) => {
                        let ghost o0 = out@;
                        out.push(s.to_owned());
                        proof {
                            if strs {
                                assert(views(out@) =~= views(o0).push(s@));
                                assert(acc.map_values(|o: Option<Seq<char>>| o->0) =~= a0.map_values(|o: Option<Seq<char>>| o->0).push(s@));
                            }
                            assert(all_strs(acc) == all_strs(a0)) by {
                                if all_strs(a0) {
                                    assert forall|k: int| 0 <= k < acc.len() implies (#[trigger] acc[k]) is Some by {
                                        if k < a0.len() {
                                            assert(acc[k] == a0[k]);
                                        }
                                    }
                                }
                                if all_strs(acc) {
                                    assert forall|k: int| 0 <= k < a0.len() implies (#[trigger] a0[k]) is Some by {
                                        assert(acc[k] == a0[k]);
                                    }
                                }
                            }
                        }
                    },
                    None => {
                        strs = false;
                        proof {
                            assert(acc[acc.len() - 1] is None);
                        }
                    },
                }
                if j >= n {
                    i = n;
                    proof {
                        assert(lit_list(ts@, i as int, acc) == Ok::<Seq<Option<Seq<char>>>, Seq<char>>(acc));
                    }
                } else if punct_at_of(ts, j, ',') {
                    i = j + 1;
                } else {
                    return Err(msg("expected `,`"));
                }
            },
        }
    }
    if strs {
        Ok(out)
    } else {
        Err(msg("expected string literals"))
    }
}

/// `#[shape(scalar|array)]`.
pub fn shape_form_of(ts: &Vec<Tok>) -> (r: Result<Form, String>)
    ensures
        match shape_form(ts@) {
            Ok(f) => r == Ok::<Form, String>(f),
            Err(e) => r matches Err(m) && m@ == e,
        },
{
    if ts.len() == 0 {
        return Err(msg("unexpected end of input, expected identifier"));
    }
    match &ts[0] {
        Tok::Ident(s) => if ts.len() > 1 {
            Err(msg("unexpected token"))
        } else if str_same(s.as_str(), "scalar") {
            Ok(Form::Scalar)
        } else if str_same(s.as_str(), "array") {
            Ok(Form::Array)
        } else {
            Err(msg("expected scalar or array"))
        },
        Tok::Keyword(k) => {
            let mut m = msg("expected identifier, found keyword `");
            m.append(k.as_str());
            m.append("`");
            Err(m)
        },
        _ => Err(msg("expected identifier")),
    }
}

/// `#[pos(n)]` / `#[len(n)]`.
pub fn usize_arg_of(ts: &Vec<Tok>) -> (r: Result<usize, String>)
    ensures
        match usize_arg(ts@) {
            Ok(n) => r == Ok::<usize, String>(n),
            Err(e) => r matches Err(m) && m@ == e,
        },
{
    match one_lit_of(ts) {
        Err(e) => Err(e),
        Ok(_) => match &ts[0] {
            Tok::Int(Some(n)) => Ok(*n),
            Tok::Int(None) => Err(msg("number too large to fit in target type")),
            Tok::Punct(_, _) => match &ts[1] {
                Tok::Int(_) => Err(msg("invalid digit found in string")),
                _ => Err(msg("expected integer")),
            },
            _ => Err(msg("expected integer")),
        },
    }
}

/// The reason of `#[except("why")]` (the tokens between its parentheses),
/// or the error the attribute is answered with.
pub fn parse_except_message(ts: &Vec<Tok>) -> (r: Result<String, String>)
    ensures
        match except_message(ts@) {
            Ok(v) => r matches Ok(x) && x@ == v,
            Err(e) => r matches Err(m) && m@ == e,
        },
{
    match one_lit_of(ts) {
        Err(e) => Err(e),
        Ok(None) => Err(msg("#[except(\"why\")] needs a string")),
        Ok(Some(v)) => if blank(v) {
            Err(msg("#[except(\"why\")] needs a non-empty reason"))
        } else {
            Ok(v.to_owned())
        },
    }
}



// ---------------------------------------------------------------------------
// `#[required_if(…)]`.
// ---------------------------------------------------------------------------

/// The string literals of an array, if every element is one.
pub open spec fn str_lits(xs: Seq<Ex>) -> Option<Seq<Seq<char>>>
    decreases xs.len(),
{
    if xs.len() == 0 {
        Some(Seq::empty())
    } else {
        match str_lits(xs.drop_last()) {
            None => None,
            Some(ls) => match xs.last() {
                Ex::LitStr(s) => Some(ls.push(s@)),
                _ => None,
            },
        }
    }
}

/// `field = "lit"` or `field = ["a", "b"]`.
pub open spec fn pred_ir(e: Ex) -> Result<PredM, Seq<char>> {
    match e {
        Ex::Assign(l, r) => match *l {
            Ex::Path(p) => if p.plain && p.segs@.len() == 1 {
                let f = p.segs@[0]@;
                match *r {
                    Ex::LitStr(s) => Ok(PredM::Eq(f, s@)),
                    Ex::Array(xs) => match str_lits(xs@) {
                        Some(ls) => Ok(PredM::In(f, ls)),
                        None => Err("expected string literals"@),
                    },
                    _ => Err("expected string literal or [\"a\", \"b\"]"@),
                }
            } else {
                Err("expected field name"@)
            },
            _ => Err("expected field name"@),
        },
        _ => Err("expected kind = \"hi\""@),
    }
}

/// Each expression's predicate; the first error.
pub open spec fn preds_ir(xs: Seq<Ex>) -> Result<Seq<PredM>, Seq<char>>
    decreases xs.len(),
{
    if xs.len() == 0 {
        Ok(Seq::empty())
    } else {
        match preds_ir(xs.drop_last()) {
            Err(e) => Err(e),
            Ok(ps) => match pred_ir(xs.last()) {
                Err(e) => Err(e),
                Ok(p) => Ok(ps.push(p)),
            },
        }
    }
}

/// `#[required_if(a = "x", b = […])]`: one predicate, or their conjunction.
pub open spec fn required_if_pred(a: AttrAst) -> Result<PredM, Seq<char>> {
    match a.exprs {
        None => Err("expected #[required_if(...)]"@),
        Some(Err(e)) => Err(e@),
        Some(Ok(xs)) => match preds_ir(xs@) {
            Err(e) => Err(e),
            Ok(ps) => Ok(if ps.len() == 1 {
                ps[0]
            } else {
                PredM::And(ps)
            }),
        },
    }
}

pub open spec fn res_pred1(r: Result<Predicate, String>, s: Result<PredM, Seq<char>>) -> bool {
    match s {
        Ok(m) => r matches Ok(p) && pred_m(p) == m,
        Err(e) => r matches Err(x) && x@ == e,
    }
}

fn pred_ir_of(e: &Ex) -> (r: Result<Predicate, String>)
    ensures
        res_pred1(r, pred_ir(*e)),
{
    match e {
        Ex::Assign(l, r) => match &**l {
            Ex::Path(p) => if p.plain && p.segs.len() == 1 {
                let f = p.segs[0].as_str();
                match &**r {
                    Ex::LitStr(s) => Ok(Predicate::Eq { field: f.to_owned(), lit: s.clone() }),
                    Ex::Array(xs) => {
                        let mut ls: Vec<String> = Vec::new();
                        let mut i: usize = 0;
                        proof {
                            assert(xs@.take(0) =~= Seq::<Ex>::empty());
                        }
                        while i < xs.len()
                            invariant
                                i <= xs@.len(),
                                str_lits(xs@.take(i as int)) == Some(views(ls@)),
                                pred_ir(*e) == match str_lits(xs@) {
                                    Some(ls) => Ok(PredM::In(f@, ls)),
                                    None => Err("expected string literals"@),
                                },
                            decreases xs.len() - i,
                        {
                            proof {
                                assert(xs@.take(i + 1).drop_last() =~= xs@.take(i as int));
                            }
                            match &xs[i] {
                                Ex::LitStr(s) => {
                                    let ghost l0 = ls@;
                                    ls.push(s.clone());
                                    proof {
                                        assert(views(ls@) =~= views(l0).push(s@));
                                    }
                                },
                                _ => {
                                    proof {
                                        assert(xs@.take(i + 1).last() == xs@[i as int]);
                                        assert(str_lits(xs@.take(i + 1)) is None);
                                        lemma_str_lits_none(xs@, i + 1);
                                    }
                                    return Err(msg("expected string literals"));
                                },
                            }
                            i = i + 1;
                        }
                        proof {
                            assert(xs@.take(xs@.len() as int) =~= xs@);
                        }
                        Ok(Predicate::In { field: f.to_owned(), lits: ls })
                    },
                    _ => Err(msg("expected string literal or [\"a\", \"b\"]")),
                }
            } else {
                Err(msg("expected field name"))
            },
            _ => Err(msg("expected field name")),
        },
        _ => Err(msg("expected kind = \"hi\"")),
    }
}

proof fn lemma_str_lits_none(xs: Seq<Ex>, k: int)
    requires
        0 < k <= xs.len(),
        str_lits(xs.take(k)) is None,
    ensures
        str_lits(xs) is None,
    decreases xs.len() - k,
{
    if k < xs.len() {
        assert(xs.take(k + 1).drop_last() =~= xs.take(k));
        lemma_str_lits_none(xs, k + 1);
    } else {
        assert(xs.take(k) =~= xs);
    }
}

proof fn lemma_preds_ir_err(xs: Seq<Ex>, k: int)
    requires
        0 < k <= xs.len(),
        preds_ir(xs.take(k)) is Err,
    ensures
        preds_ir(xs) == preds_ir(xs.take(k)),
    decreases xs.len() - k,
{
    if k < xs.len() {
        assert(xs.take(k + 1).drop_last() =~= xs.take(k));
        lemma_preds_ir_err(xs, k + 1);
    } else {
        assert(xs.take(k) =~= xs);
    }
}

/// The predicate of `#[required_if(…)]`.
pub fn required_if_of(a: &AttrAst) -> (r: Result<Predicate, String>)
    ensures
        res_pred1(r, required_if_pred(*a)),
{
    let xs = match &a.exprs {
        None => {
            return Err(msg("expected #[required_if(...)]"));
        },
        Some(Err(e)) => {
            return Err(e.clone());
        },
        Some(Ok(xs)) => xs,
    };
    let mut ps: Vec<Predicate> = Vec::new();
    let ghost mut pm: Seq<PredM> = Seq::empty();
    let mut i: usize = 0;
    proof {
        assert(xs@.take(0) =~= Seq::<Ex>::empty());
        assert(preds_m(ps@) =~= pm);
    }
    while i < xs.len()
        invariant
            i <= xs@.len(),
            a.exprs matches Some(Ok(v)) && v == *xs,
            preds_ir(xs@.take(i as int)) == Ok::<Seq<PredM>, Seq<char>>(pm),
            preds_m(ps@) == pm,
            ps@.len() == pm.len(),
        decreases xs.len() - i,
    {
        proof {
            assert(xs@.take(i + 1).drop_last() =~= xs@.take(i as int));
            assert(xs@.take(i + 1).last() == xs@[i as int]);
        }
        match pred_ir_of(&xs[i]) {
            Err(e) => {
                proof {
                    assert(xs@.take(i + 1).last() == xs@[i as int]);
                    assert(preds_ir(xs@.take(i + 1)) == Err::<Seq<PredM>, Seq<char>>(e@));
                    lemma_preds_ir_err(xs@, i + 1);
                }
                return Err(e);
            },
            Ok(p) => {
                proof {
                    lemma_preds_m_push(ps@, p);
                    pm = pm.push(pred_m(p));
                }
                ps.push(p);
            },
        }
        i = i + 1;
    }
    proof {
        assert(xs@.take(xs@.len() as int) =~= xs@);
    }
    if ps.len() == 1 {
        let ghost a0 = ps@;
        let p = ps.pop().unwrap();
        proof {
            assert(a0 =~= Seq::<Predicate>::empty().push(p));
            lemma_preds_m_push(Seq::<Predicate>::empty(), p);
            assert(preds_m(Seq::<Predicate>::empty()) =~= Seq::<PredM>::empty());
        }
        Ok(p)
    } else {
        Ok(Predicate::And(ps))
    }
}



// ---------------------------------------------------------------------------
// A struct's fields as Schema IR.
// ---------------------------------------------------------------------------

/// The type is an `Option` (its path's last segment).
pub open spec fn is_opt_ty(t: TyAst) -> bool {
    t matches TyAst::Path(segs) && segs@.len() > 0 && segs@.last().0@ == "Option"@
}

pub fn is_option_ty(t: &TyAst) -> (r: bool)
    ensures
        r == is_opt_ty(*t),
{
    match t {
        TyAst::Path(segs) => segs.len() > 0 && str_same(segs[segs.len() - 1].0.as_str(), "Option"),
        TyAst::Other => false,
    }
}

/// The first `#[field("name")]` naming the field's key, from attribute `i` on.
pub open spec fn locator_from(attrs: Seq<AttrAst>, i: int) -> Option<Seq<char>>
    decreases attrs.len() - i,
{
    if i < 0 || i >= attrs.len() {
        None
    } else if is_ident_spec(attrs[i].path, "field"@) && (attrs[i].list matches Some(ts) && one_lit(ts@) matches Ok(Some(_))) {
        Some(one_lit(attrs[i].list->0@)->Ok_0->0)
    } else {
        locator_from(attrs, i + 1)
    }
}

/// The key a `#[field("…")]` names, if one does.
pub fn field_locator(attrs: &Vec<AttrAst>) -> (r: Option<&str>)
    ensures
        match locator_from(attrs@, 0) {
            Some(s) => r matches Some(x) && x@ == s,
            None => r is None,
        },
{
    let mut i: usize = 0;
    while i < attrs.len()
        invariant
            i <= attrs@.len(),
            locator_from(attrs@, i as int) == locator_from(attrs@, 0),
        decreases attrs.len() - i,
    {
        if path_is_ident(&attrs[i].path, "field") {
            match &attrs[i].list {
                Some(ts) => match one_lit_of(ts) {
                    Ok(Some(s)) => {
                        return Some(s);
                    },
                    _ => {},
                },
                None => {},
            }
        }
        i = i + 1;
    }
    None
}

/// `I || None` on an optional field.
pub open spec fn or_absent_m(i: InvM) -> InvM {
    InvM::Any(seq![i, InvM::Absent])
}

/// A rewrite, as values.
pub struct RwM {
    pub field: Seq<char>,
    pub pred: PredM,
    pub inv: InvM,
}

pub open spec fn rw_m(r: Rewrite) -> RwM {
    RwM { field: r.field@, pred: pred_m(r.pred), inv: inv_m(crate::check::rewrite_body(r)) }
}

pub open spec fn rws_m(s: Seq<Rewrite>) -> Seq<RwM> {
    s.map_values(|r: Rewrite| rw_m(r))
}

/// What one field attribute adds: to the field's invariants, or to the
/// schema's rewrites. Attributes of other names add nothing.
pub open spec fn attr_step(fname: Seq<char>, opt: bool, a: AttrAst, invs: Seq<InvM>, rws: Seq<RwM>) -> Result<(Seq<InvM>, Seq<RwM>), Seq<char>> {
    if is_ident_spec(a.path, "enum_"@) {
        match a.list {
            None => Err("expected #[enum_(...)]"@),
            Some(ts) => match enum_list(ts@) {
                Err(e) => Err(e),
                Ok(ls) => Ok((invs.push(if opt {
                    or_absent_m(InvM::OneOf(ls))
                } else {
                    InvM::OneOf(ls)
                }), rws)),
            },
        }
    } else if is_ident_spec(a.path, "required_if"@) {
        match required_if_pred(a) {
            Err(e) => Err(e),
            Ok(p) => Ok((invs.push(InvM::When(p, Box::new(InvM::Defined))), rws)),
        }
    } else if is_ident_spec(a.path, "when"@) {
        match a.list {
            None => Err("expected #[when(P, rewrite I)] or #[when(P, I)]"@),
            Some(ts) => match parse_when(ts@, fname) {
                Err(e) => Err(e),
                Ok(w) => if w.rewrite {
                    Ok((invs, rws.push(RwM { field: fname, pred: w.pred, inv: w.inv })))
                } else {
                    Ok((invs.push(InvM::When(w.pred, Box::new(if opt {
                        or_absent_m(w.inv)
                    } else {
                        w.inv
                    }))), rws))
                },
            },
        }
    } else if is_ident_spec(a.path, "shape"@) {
        match a.list {
            None => Err("expected #[shape(scalar|array)]"@),
            Some(ts) => match shape_form(ts@) {
                Err(e) => Err(e),
                Ok(f) => Ok((invs.push(InvM::Shape(f)), rws)),
            },
        }
    } else if is_ident_spec(a.path, "pos"@) || is_ident_spec(a.path, "len"@) {
        match a.list {
            None => Err("expected #[pos(n)] / #[len(n)]"@),
            Some(ts) => match usize_arg(ts@) {
                Err(e) => Err(e),
                Ok(n) => Ok((invs.push(if is_ident_spec(a.path, "pos"@) {
                    InvM::At(n)
                } else {
                    InvM::Width(n)
                }), rws)),
            },
        }
    } else {
        Ok((invs, rws))
    }
}

/// The first `k` attributes of a field, from the rewrites so far.
pub open spec fn attrs_fold(f: FieldAst, k: int, rws: Seq<RwM>) -> Result<(Seq<InvM>, Seq<RwM>), Seq<char>>
    decreases k,
{
    if k <= 0 {
        Ok((Seq::empty(), rws))
    } else {
        match attrs_fold(f, k - 1, rws) {
            Err(e) => Err(e),
            Ok((invs, r)) => attr_step(f.name@, is_opt_ty(f.ty), f.attrs@[k - 1], invs, r),
        }
    }
}

/// A field of the schema, as values.
pub struct FieldM {
    pub name: Seq<char>,
    pub locator: Seq<char>,
    pub invs: Seq<InvM>,
}

pub open spec fn field_m(f: Field) -> FieldM {
    FieldM { name: f.name@, locator: f.locator.key_spec(), invs: invs_m(f.invariants@) }
}

pub open spec fn fields_m(s: Seq<Field>) -> Seq<FieldM> {
    s.map_values(|f: Field| field_m(f))
}

/// A schema's fields and rewrites, as values.
pub struct SchemaM {
    pub fields: Seq<FieldM>,
    pub rewrites: Seq<RwM>,
}

/// The first `n` fields of a struct as Schema IR: one field per struct
/// field, in order, keyed by its `#[field("…")]` or its name; or the first
/// attribute error.
pub open spec fn fields_fold(fs: Seq<FieldAst>, n: int) -> Result<SchemaM, Seq<char>>
    decreases n,
{
    if n <= 0 {
        Ok(SchemaM { fields: Seq::empty(), rewrites: Seq::empty() })
    } else {
        match fields_fold(fs, n - 1) {
            Err(e) => Err(e),
            Ok(s) => {
                let f = fs[n - 1];
                match attrs_fold(f, f.attrs@.len() as int, s.rewrites) {
                    Err(e) => Err(e),
                    Ok((invs, rws)) => Ok(SchemaM {
                        fields: s.fields.push(FieldM {
                            name: f.name@,
                            locator: match locator_from(f.attrs@, 0) {
                                Some(l) => l,
                                None => f.name@,
                            },
                            invs,
                        }),
                        rewrites: rws,
                    }),
                }
            },
        }
    }
}

/// The schema a struct of these fields derives.
pub open spec fn schema_spec(fs: Seq<FieldAst>) -> Result<SchemaM, Seq<char>> {
    fields_fold(fs, fs.len() as int)
}

/// `s` is the schema `name` with these fields and rewrites: each field read
/// by path, with no wire geometry.
pub open spec fn schema_is(s: Schema, name: Seq<char>, m: SchemaM) -> bool {
    &&& s.name@ == name
    &&& s.width is None
    &&& fields_m(s.fields@) == m.fields
    &&& rws_m(s.rewrites@) == m.rewrites
    &&& forall|k: int| 0 <= k < s.fields@.len() ==> (#[trigger] s.fields@[k]).locator is Path && s.fields@[k].wire is None
}

fn or_absent_of(inv: Invariant) -> (r: Invariant)
    ensures
        inv_m(r) == or_absent_m(inv_m(inv)),
{
    let r = crate::stdlib::or_absent(inv);
    proof {
        let e = Seq::<Invariant>::empty();
        assert(invs_m(e) =~= Seq::<InvM>::empty());
        lemma_invs_m_push(e, inv);
        lemma_invs_m_push(e.push(inv), Invariant::Absent);
        assert(seq![inv, Invariant::Absent] =~= e.push(inv).push(Invariant::Absent));
        assert(invs_m(seq![inv, Invariant::Absent]) =~= seq![inv_m(inv), InvM::Absent]);
    }
    r
}

/// Apply one attribute to a field's invariants and the schema's rewrites.
fn attr_step_of(f: &FieldAst, opt: bool, a: &AttrAst, invs: &mut Vec<Invariant>, rws: &mut Vec<Rewrite>) -> (r: Result<(), String>)
    requires
        opt == is_opt_ty(f.ty),
    ensures
        match attr_step(f.name@, opt, *a, invs_m(old(invs)@), rws_m(old(rws)@)) {
            Ok((i2, r2)) => r is Ok && invs_m(final(invs)@) == i2 && rws_m(final(rws)@) == r2,
            Err(e) => r matches Err(m) && m@ == e,
        },
{
    let ghost i0 = invs@;
    let ghost r0 = rws@;
    let fname = f.name.as_str();
    if path_is_ident(&a.path, "enum_") {
        match &a.list {
            None => Err(msg("expected #[enum_(...)]")),
            Some(ts) => match enum_list_of(ts) {
                Err(e) => Err(e),
                Ok(ls) => {
                    let one = Invariant::OneOf(ls);
                    let inv = if opt {
                        or_absent_of(one)
                    } else {
                        one
                    };
                    proof {
                        lemma_invs_m_push(invs@, inv);
                    }
                    invs.push(inv);
                    Ok(())
                },
            },
        }
    } else if path_is_ident(&a.path, "required_if") {
        match required_if_of(a) {
            Err(e) => Err(e),
            Ok(p) => {
                let d = crate::stdlib::defined();
                proof {
                    assert(inv_m(d) == InvM::Defined);
                }
                let inv = crate::stdlib::when(p, d);
                proof {
                    lemma_invs_m_push(invs@, inv);
                }
                invs.push(inv);
                Ok(())
            },
        }
    } else if path_is_ident(&a.path, "when") {
        match &a.list {
            None => Err(msg("expected #[when(P, rewrite I)] or #[when(P, I)]")),
            Some(ts) => match parse_when_tokens(ts, fname) {
                Err(e) => Err(e),
                Ok(w) => {
                    let WhenAttr { rewrite, pred, inv } = w;
                    if rewrite {
                        let rw = Rewrite { field: fname.to_owned(), pred, then: inv };
                        proof {
                            assert(rws_m(rws@.push(rw)) =~= rws_m(rws@).push(rw_m(rw)));
                        }
                        rws.push(rw);
                        Ok(())
                    } else {
                        let then = if opt {
                            or_absent_of(inv)
                        } else {
                            inv
                        };
                        let x = crate::stdlib::when(pred, then);
                        proof {
                            lemma_invs_m_push(invs@, x);
                        }
                        invs.push(x);
                        Ok(())
                    }
                },
            },
        }
    } else if path_is_ident(&a.path, "shape") {
        match &a.list {
            None => Err(msg("expected #[shape(scalar|array)]")),
            Some(ts) => match shape_form_of(ts) {
                Err(e) => Err(e),
                Ok(form) => {
                    let x = crate::stdlib::shape(form);
                    proof {
                        lemma_invs_m_push(invs@, x);
                    }
                    invs.push(x);
                    Ok(())
                },
            },
        }
    } else if path_is_ident(&a.path, "pos") || path_is_ident(&a.path, "len") {
        match &a.list {
            None => Err(msg("expected #[pos(n)] / #[len(n)]")),
            Some(ts) => match usize_arg_of(ts) {
                Err(e) => Err(e),
                Ok(n) => {
                    let x = if path_is_ident(&a.path, "pos") {
                        crate::stdlib::at(n)
                    } else {
                        crate::stdlib::width(n)
                    };
                    proof {
                        lemma_invs_m_push(invs@, x);
                    }
                    invs.push(x);
                    Ok(())
                },
            },
        }
    } else {
        Ok(())
    }
}

/// Build the Schema IR of `struct name { fields }`: per field its
/// `#[enum_]`, `#[required_if]`, `#[when]` (photo), `#[shape]`, `#[pos]` and
/// `#[len]` invariants in attribute order, keyed by `#[field("…")]` or the
/// field's name; `#[when(P, rewrite I)]` becomes a rewrite of the schema.
/// Domain refines and nested schemas are left to the generated code.
pub fn schema_from_fields(name: &str, fields: &Vec<FieldAst>) -> (r: Result<Schema, String>)
    ensures
        match schema_spec(fields@) {
            Ok(m) => r matches Ok(s) && schema_is(s, name@, m),
            Err(e) => r matches Err(x) && x@ == e,
        },
{
    let mut out: Vec<Field> = Vec::new();
    let mut rws: Vec<Rewrite> = Vec::new();
    let ghost mut cur = SchemaM { fields: Seq::empty(), rewrites: Seq::empty() };
    proof {
        assert(fields_m(out@) =~= cur.fields);
        assert(rws_m(rws@) =~= cur.rewrites);
    }
    let mut i: usize = 0;
    while i < fields.len()
        invariant
            i <= fields@.len(),
            fields_fold(fields@, i as int) == Ok::<SchemaM, Seq<char>>(cur),
            fields_m(out@) == cur.fields,
            rws_m(rws@) == cur.rewrites,
            forall|k: int| 0 <= k < out@.len() ==> (#[trigger] out@[k]).locator is Path && out@[k].wire is None,
        decreases fields.len() - i,
    {
        let f = &fields[i];
        let opt = is_option_ty(&f.ty);
        let mut invs: Vec<Invariant> = Vec::new();
        proof {
            assert(invs_m(invs@) =~= Seq::<InvM>::empty());
        }
        let mut j: usize = 0;
        while j < f.attrs.len()
            invariant
                f == fields@[i as int],
                opt == is_opt_ty(f.ty),
                j <= f.attrs@.len(),
                attrs_fold(*f, j as int, cur.rewrites) == Ok::<(Seq<InvM>, Seq<RwM>), Seq<char>>((invs_m(invs@), rws_m(rws@))),
                i < fields@.len(),
                fields_fold(fields@, i as int) == Ok::<SchemaM, Seq<char>>(cur),
                fields_m(out@) == cur.fields,
                forall|k: int| 0 <= k < out@.len() ==> (#[trigger] out@[k]).locator is Path && out@[k].wire is None,
            decreases f.attrs.len() - j,
        {
            match attr_step_of(f, opt, &f.attrs[j], &mut invs, &mut rws) {
                Err(e) => {
                    proof {
                        lemma_attrs_fold_err(*f, j as int + 1, cur.rewrites);
                        lemma_fields_fold_err(fields@, i as int + 1);
                    }
                    return Err(e);
                },
                Ok(()) => {},
            }
            j = j + 1;
        }
        let loc = match field_locator(&f.attrs) {
            Some(l) => l.to_owned(),
            None => f.name.clone(),
        };
        let fd = Field { name: f.name.clone(), locator: Locator::Path(loc), invariants: invs, wire: None };
        proof {
            assert(fields_m(out@.push(fd)) =~= fields_m(out@).push(field_m(fd)));
            cur = SchemaM { fields: cur.fields.push(field_m(fd)), rewrites: rws_m(rws@) };
        }
        out.push(fd);
        i = i + 1;
    }
    Ok(Schema { name: name.to_owned(), width: None, fields: out, rewrites: rws })
}

proof fn lemma_attrs_fold_err(f: FieldAst, k: int, rws: Seq<RwM>)
    requires
        0 < k <= f.attrs@.len(),
        attrs_fold(f, k, rws) is Err,
    ensures
        attrs_fold(f, f.attrs@.len() as int, rws) == attrs_fold(f, k, rws),
    decreases f.attrs@.len() - k,
{
    if k < f.attrs@.len() {
        lemma_attrs_fold_err(f, k + 1, rws);
    }
}

proof fn lemma_fields_fold_err(fs: Seq<FieldAst>, n: int)
    requires
        0 < n <= fs.len(),
        fields_fold(fs, n) is Err,
    ensures
        fields_fold(fs, fs.len() as int) == fields_fold(fs, n),
    decreases fs.len() - n,
{
    if n < fs.len() {
        lemma_fields_fold_err(fs, n + 1);
    }
}



// ---------------------------------------------------------------------------
// `#[derive(…)]`.
// ---------------------------------------------------------------------------

/// A path segment at `i`: an identifier, or one of the keywords a path may
/// hold (`crate`, `self`, `super`, `Self`, `try`).
pub open spec fn seg_at(ts: Seq<Tok>, i: int) -> Option<Seq<char>> {
    if 0 <= i < ts.len() {
        match ts[i] {
            Tok::Ident(s) => Some(s@),
            Tok::Keyword(k) => if k@ == "crate"@ || k@ == "self"@ || k@ == "super"@ || k@ == "Self"@ || k@ == "try"@ {
                Some(k@)
            } else {
                None
            },
            _ => None,
        }
    } else {
        None
    }
}

/// `:: seg` continuations after a segment `last` that ended before `k`: the
/// path's last segment and where it ends. Generic arguments are not read.
pub open spec fn path_rest(ts: Seq<Tok>, k: int, last: Seq<char>) -> Option<(Seq<char>, int)>
    decreases ts.len() - k,
{
    if k < 0 || k >= ts.len() {
        Some((last, k))
    } else if pair_at(ts, k, ':', ':') {
        match seg_at(ts, k + 2) {
            Some(s) => path_rest(ts, k + 3, s),
            None => None,
        }
    } else if punct_at(ts, k, '<') {
        None
    } else {
        Some((last, k))
    }
}

/// A path at `i` (`[::] seg (:: seg)*`): its last segment and where it ends.
pub open spec fn path_at(ts: Seq<Tok>, i: int) -> Option<(Seq<char>, int)> {
    let j = if pair_at(ts, i, ':', ':') {
        i + 2
    } else {
        i
    };
    match seg_at(ts, j) {
        Some(s) => path_rest(ts, j + 1, s),
        None => None,
    }
}

pub proof fn lemma_path_rest_end(ts: Seq<Tok>, k: int, last: Seq<char>)
    requires
        k >= 0,
    ensures
        path_rest(ts, k, last) matches Some((_, e)) ==> e >= k && (k <= ts.len() ==> e <= ts.len()),
    decreases ts.len() - k,
{
    if k < ts.len() && pair_at(ts, k, ':', ':') {
        match seg_at(ts, k + 2) {
            Some(s) => lemma_path_rest_end(ts, k + 3, s),
            None => {},
        }
    }
}

/// `Punctuated::<Path, Token![,]>::parse_terminated` from `i`: each path's
/// last segment.
pub open spec fn derive_paths(ts: Seq<Tok>, i: int, acc: Seq<Seq<char>>) -> Option<Seq<Seq<char>>>
    decreases ts.len() - i,
{
    if i < 0 || i >= ts.len() {
        Some(acc)
    } else {
        proof {
            let j = if pair_at(ts, i, ':', ':') {
                i + 2
            } else {
                i
            };
            if seg_at(ts, j) is Some {
                lemma_path_rest_end(ts, j + 1, seg_at(ts, j)->0);
            }
        }
        match path_at(ts, i) {
            None => None,
            Some((s, j)) => if j >= ts.len() {
                Some(acc.push(s))
            } else if punct_at(ts, j, ',') {
                derive_paths(ts, j + 1, acc.push(s))
            } else {
                None
            },
        }
    }
}

/// `#[derive(…, Schema, …)]`, the `Schema` under any path.
pub open spec fn derives_schema(a: AttrAst) -> bool {
    is_ident_spec(a.path, "derive"@) && (a.list matches Some(ts) && (derive_paths(ts@, 0, Seq::empty()) matches Some(ps) && ps.contains("Schema"@)))
}

pub open spec fn has_derive(attrs: Seq<AttrAst>) -> bool {
    exists|k: int| 0 <= k < attrs.len() && derives_schema(#[trigger] attrs[k])
}

fn seg_at_of(ts: &Vec<Tok>, i: usize) -> (r: Option<&str>)
    ensures
        match seg_at(ts@, i as int) {
            Some(s) => r matches Some(x) && x@ == s,
            None => r is None,
        },
{
    if i >= ts.len() {
        return None;
    }
    match &ts[i] {
        Tok::Ident(s) => Some(s.as_str()),
        Tok::Keyword(k) => {
            let k = k.as_str();
            if str_same(k, "crate") || str_same(k, "self") || str_same(k, "super") || str_same(k, "Self") || str_same(k, "try") {
                Some(k)
            } else {
                None
            }
        },
        _ => None,
    }
}

fn path_at_of(ts: &Vec<Tok>, i: usize) -> (r: Option<(&str, usize)>)
    requires
        i < ts@.len(),
    ensures
        match path_at(ts@, i as int) {
            Some((s, e)) => r matches Some((x, k)) && x@ == s && k == e && i < k <= ts@.len(),
            None => r is None,
        },
{
    let n = ts.len();
    let j = if pair_at_of(ts, i, ':', ':') {
        i + 2
    } else {
        i
    };
    let mut last = match seg_at_of(ts, j) {
        Some(s) => s,
        None => {
            return None;
        },
    };
    assert(j < n);
    let mut k = j + 1;
    while k < ts.len() && pair_at_of(ts, k, ':', ':')
        invariant
            j + 1 <= k <= ts@.len(),
            i <= j,
            path_rest(ts@, k as int, last@) == path_at(ts@, i as int),
        decreases ts.len() - k,
    {
        match seg_at_of(ts, k + 2) {
            Some(s) => {
                last = s;
                k = k + 3;
            },
            None => {
                return None;
            },
        }
    }
    if k < ts.len() && punct_at_of(ts, k, '<') {
        return None;
    }
    Some((last, k))
}

fn derives_schema_of(a: &AttrAst) -> (r: bool)
    ensures
        r == derives_schema(*a),
{
    if !path_is_ident(&a.path, "derive") {
        return false;
    }
    let ts = match &a.list {
        Some(ts) => ts,
        None => {
            return false;
        },
    };
    let mut found = false;
    let ghost mut acc: Seq<Seq<char>> = Seq::empty();
    let mut i: usize = 0;
    while i < ts.len()
        invariant
            i <= ts@.len(),
            is_ident_spec(a.path, "derive"@),
            a.list matches Some(v) && v == *ts,
            derive_paths(ts@, i as int, acc) == derive_paths(ts@, 0, Seq::empty()),
            found == acc.contains("Schema"@),
        decreases ts.len() - i,
    {
        match path_at_of(ts, i) {
            None => {
                return false;
            },
            Some((s, j)) => {
                let ghost a0 = acc;
                proof {
                    acc = acc.push(s@);
                    assert(acc.contains("Schema"@) == (a0.contains("Schema"@) || s@ == "Schema"@)) by {
                        if a0.contains("Schema"@) {
                            let w = choose|w: int| 0 <= w < a0.len() && a0[w] == "Schema"@;
                            assert(acc[w] == "Schema"@);
                        }
                        if s@ == "Schema"@ {
                            assert(acc[a0.len() as int] == "Schema"@);
                        }
                        if acc.contains("Schema"@) {
                            let w = choose|w: int| 0 <= w < acc.len() && acc[w] == "Schema"@;
                            if w < a0.len() {
                                assert(a0[w] == "Schema"@);
                            }
                        }
                    }
                }
                found = found || str_same(s, "Schema");
                if j >= ts.len() {
                    i = j;
                    proof {
                        assert(derive_paths(ts@, i as int, acc) == Some(acc));
                    }
                } else if punct_at_of(ts, j, ',') {
                    i = j + 1;
                } else {
                    return false;
                }
            },
        }
    }
    found
}

/// A `#[derive(…)]` among the attributes names `Schema`.
pub fn has_derive_schema(attrs: &Vec<AttrAst>) -> (r: bool)
    ensures
        r == has_derive(attrs@),
{
    let mut i: usize = 0;
    while i < attrs.len()
        invariant
            i <= attrs@.len(),
            forall|k: int| 0 <= k < i ==> !derives_schema(#[trigger] attrs@[k]),
        decreases attrs.len() - i,
    {
        if derives_schema_of(&attrs[i]) {
            return true;
        }
        i = i + 1;
    }
    false
}



// ---------------------------------------------------------------------------
// Finding the schema and the `impl` of a file.
// ---------------------------------------------------------------------------

/// The items of an inline module are smaller than the items around it.
pub proof fn lemma_mod_items(items: Seq<ItemAst>, i: int)
    requires
        0 <= i < items.len(),
        items[i] matches ItemAst::Mod(Some(_)),
    ensures
        decreases_to!(items => items[i]->Mod_0->0@),
{
    let it = items[i];
    let c = it->Mod_0;
    let v = c->0;
    assert(decreases_to!(items => it));
    assert(decreases_to!(it => c));
    assert(decreases_to!(c => v));
    assert(decreases_to!(v => v@));
}

/// The first `#[derive(Schema)] struct name` with named fields, from item
/// `i` on, inline modules searched in place: its schema or its error. A
/// module whose search ends in an error counts as not holding it.
pub open spec fn find_schema(items: Seq<ItemAst>, name: Seq<char>, i: int) -> Option<Result<SchemaM, Seq<char>>>
    decreases items, items.len() - i,
{
    if i < 0 || i >= items.len() {
        None
    } else {
        match items[i] {
            ItemAst::Struct(s) => if s.name@ == name && has_derive(s.attrs@) && s.fields is Some {
                Some(schema_spec(s.fields->0@))
            } else {
                find_schema(items, name, i + 1)
            },
            ItemAst::Mod(Some(inner)) => {
                proof {
                    lemma_mod_items(items, i);
                }
                match find_schema(inner@, name, 0) {
                    Some(Ok(m)) => Some(Ok(m)),
                    _ => find_schema(items, name, i + 1),
                }
            },
            _ => find_schema(items, name, i + 1),
        }
    }
}

/// The Schema IR of `#[derive(Schema)] struct ty_name` among the items;
/// `None` when it is not there or its attributes do not read.
pub fn schema_in_items(items: &Vec<ItemAst>, ty_name: &str) -> (r: Option<Schema>)
    ensures
        match find_schema(items@, ty_name@, 0) {
            Some(Ok(m)) => r matches Some(s) && schema_is(s, ty_name@, m),
            _ => r is None,
        },
    decreases items@,
{
    let mut i: usize = 0;
    while i < items.len()
        invariant
            i <= items@.len(),
            find_schema(items@, ty_name@, i as int) == find_schema(items@, ty_name@, 0),
        decreases items.len() - i,
    {
        match &items[i] {
            ItemAst::Struct(s) => {
                if str_same(s.name.as_str(), ty_name) && has_derive_schema(&s.attrs) {
                    match &s.fields {
                        Some(fs) => {
                            return match schema_from_fields(ty_name, fs) {
                                Ok(sc) => Some(sc),
                                Err(_) => None,
                            };
                        },
                        None => {},
                    }
                }
            },
            ItemAst::Mod(Some(inner)) => {
                proof {
                    lemma_mod_items(items@, i as int);
                }
                match schema_in_items(inner, ty_name) {
                    Some(sc) => {
                        return Some(sc);
                    },
                    None => {},
                }
            },
            _ => {},
        }
        i = i + 1;
    }
    None
}

/// The message when the file holds no such schema.
pub open spec fn not_in_file_msg(name: Seq<char>) -> Seq<char> {
    "#[derive(Schema)] struct "@ + name + " not in this file"@
}

/// The Schema IR of `#[derive(Schema)] struct ty_name` in the file.
pub fn schema_in_file(file: &FileAst, ty_name: &str) -> (r: Result<Schema, String>)
    ensures
        match find_schema(file.items@, ty_name@, 0) {
            Some(Ok(m)) => r matches Ok(s) && schema_is(s, ty_name@, m),
            _ => r matches Err(e) && e@ == not_in_file_msg(ty_name@),
        },
{
    match schema_in_items(&file.items, ty_name) {
        Some(s) => Ok(s),
        None => {
            let mut m = msg("#[derive(Schema)] struct ");
            m.append(ty_name);
            m.append(" not in this file");
            Err(m)
        },
    }
}

/// The self type of the first `impl` with a method `fn_name`, from item `i`
/// on, inline modules searched in place (a module where that finds no named
/// type counts as not holding one).
pub open spec fn find_impl(items: Seq<ItemAst>, fn_name: Seq<char>, i: int) -> Option<Option<Seq<char>>>
    decreases items, items.len() - i,
{
    if i < 0 || i >= items.len() {
        None
    } else {
        match items[i] {
            ItemAst::Impl(ty, fns) => if exists|k: int| 0 <= k < fns@.len() && (#[trigger] fns@[k]).name@ == fn_name {
                Some(opt_view(ty))
            } else {
                find_impl(items, fn_name, i + 1)
            },
            ItemAst::Mod(Some(inner)) => {
                proof {
                    lemma_mod_items(items, i);
                }
                match find_impl(inner@, fn_name, 0) {
                    Some(Some(t)) => Some(Some(t)),
                    _ => find_impl(items, fn_name, i + 1),
                }
            },
            _ => find_impl(items, fn_name, i + 1),
        }
    }
}

/// The last name of the self type of the `impl` that holds the method
/// `fn_name`.
pub fn impl_type_in_items(items: &Vec<ItemAst>, fn_name: &str) -> (r: Option<String>)
    ensures
        match find_impl(items@, fn_name@, 0) {
            Some(Some(t)) => r matches Some(x) && x@ == t,
            _ => r is None,
        },
    decreases items@,
{
    let mut i: usize = 0;
    while i < items.len()
        invariant
            i <= items@.len(),
            find_impl(items@, fn_name@, i as int) == find_impl(items@, fn_name@, 0),
        decreases items.len() - i,
    {
        match &items[i] {
            ItemAst::Impl(ty, fns) => {
                let mut j: usize = 0;
                while j < fns.len()
                    invariant
                        j <= fns@.len(),
                        i < items@.len(),
                        items@[i as int] == ItemAst::Impl(*ty, *fns),
                        find_impl(items@, fn_name@, i as int) == find_impl(items@, fn_name@, 0),
                        forall|k: int| 0 <= k < j ==> (#[trigger] fns@[k]).name@ != fn_name@,
                    decreases fns.len() - j,
                {
                    if str_same(fns[j].name.as_str(), fn_name) {
                        proof {
                            assert(fns@[j as int].name@ == fn_name@);
                        }
                        return match ty {
                            Some(t) => Some(t.clone()),
                            None => None,
                        };
                    }
                    j = j + 1;
                }
            },
            ItemAst::Mod(Some(inner)) => {
                proof {
                    lemma_mod_items(items@, i as int);
                }
                match impl_type_in_items(inner, fn_name) {
                    Some(t) => {
                        return Some(t);
                    },
                    None => {},
                }
            },
            _ => {},
        }
        i = i + 1;
    }
    None
}



// ---------------------------------------------------------------------------
// `#[transition]` and what a failed check reports.
// ---------------------------------------------------------------------------

/// A parameter that makes a function a transition: a receiver; a parameter
/// of type `Self` or of the `impl`'s type; on a free function, any parameter.
pub open spec fn transition_arg(a: Arg, impl_ty: Option<Seq<char>>) -> bool {
    match a {
        Arg::Receiver => true,
        Arg::Typed(_, last) => opt_view(last) == Some("Self"@) || impl_ty is None || opt_view(last) == impl_ty,
    }
}

pub open spec fn is_transition(inputs: Seq<Arg>, impl_ty: Option<Seq<char>>) -> bool {
    exists|k: int| 0 <= k < inputs.len() && transition_arg(#[trigger] inputs[k], impl_ty)
}

/// The signature is one `#[transition]` checks.
pub fn is_transition_sig(inputs: &Vec<Arg>, impl_ty: Option<&str>) -> (r: bool)
    ensures
        r == is_transition(inputs@, crate::unfold::opt_str(impl_ty)),
{
    let ghost it = crate::unfold::opt_str(impl_ty);
    let mut i: usize = 0;
    while i < inputs.len()
        invariant
            i <= inputs@.len(),
            it == crate::unfold::opt_str(impl_ty),
            forall|k: int| 0 <= k < i ==> !transition_arg(#[trigger] inputs@[k], it),
        decreases inputs.len() - i,
    {
        match &inputs[i] {
            Arg::Receiver => {
                return true;
            },
            Arg::Typed(_, last) => {
                let l: Option<&str> = match last {
                    Some(t) => Some(t.as_str()),
                    None => None,
                };
                let is_self = match l {
                    Some(t) => str_same(t, "Self"),
                    None => false,
                };
                let same = match impl_ty {
                    None => true,
                    Some(b) => match l {
                        Some(a) => str_same(a, b),
                        None => false,
                    },
                };
                proof {
                    assert(crate::unfold::opt_str(l) == opt_view(*last));
                }
                if is_self || same {
                    return true;
                }
            },
        }
        i = i + 1;
    }
    false
}

/// The names of the first `n` methods that are transitions.
pub open spec fn transition_names(fns: Seq<FnAst>, impl_ty: Option<Seq<char>>, n: int) -> Seq<Seq<char>>
    decreases n,
{
    if n <= 0 {
        Seq::empty()
    } else if is_transition(fns[n - 1].inputs@, impl_ty) {
        transition_names(fns, impl_ty, n - 1).push(fns[n - 1].name@)
    } else {
        transition_names(fns, impl_ty, n - 1)
    }
}

/// The methods of an `impl` of `impl_ty` that `#[transition]` checks.
pub fn transition_methods(impl_ty: Option<&str>, fns: &Vec<FnAst>) -> (r: Result<Vec<String>, String>)
    ensures
        transition_names(fns@, crate::unfold::opt_str(impl_ty), fns@.len() as int).len() == 0
            ==> (r matches Err(e) && e@ == "#[conformance::transition] impl: no method with `self` or a schema-typed param"@),
        transition_names(fns@, crate::unfold::opt_str(impl_ty), fns@.len() as int).len() > 0
            ==> (r matches Ok(v) && views(v@) == transition_names(fns@, crate::unfold::opt_str(impl_ty), fns@.len() as int)),
{
    let ghost it = crate::unfold::opt_str(impl_ty);
    let mut out: Vec<String> = Vec::new();
    let mut i: usize = 0;
    while i < fns.len()
        invariant
            i <= fns@.len(),
            it == crate::unfold::opt_str(impl_ty),
            views(out@) == transition_names(fns@, it, i as int),
        decreases fns.len() - i,
    {
        if is_transition_sig(&fns[i].inputs, impl_ty) {
            let ghost o0 = out@;
            out.push(fns[i].name.clone());
            proof {
                assert(views(out@) =~= views(o0).push(fns@[i as int].name@));
            }
        }
        i = i + 1;
    }
    if out.len() == 0 {
        Err(msg("#[conformance::transition] impl: no method with `self` or a schema-typed param"))
    } else {
        Ok(out)
    }
}

/// The Schema type a `#[transition]` free function walks: its first
/// parameter's type, by last name.
pub open spec fn fn_schema_type(inputs: Seq<Arg>) -> Result<Seq<char>, Seq<char>> {
    if inputs.len() == 0 {
        Err("#[conformance::transition] needs a param of the Schema type"@)
    } else {
        match inputs[0] {
            Arg::Receiver => Err("#[conformance::transition] on `self`: put the attr on the `impl` block"@),
            Arg::Typed(_, Some(t)) => Ok(t@),
            Arg::Typed(_, None) => Err("#[conformance::transition] needs a named Schema type"@),
        }
    }
}

pub fn transition_fn_type(inputs: &Vec<Arg>) -> (r: Result<String, String>)
    ensures
        match fn_schema_type(inputs@) {
            Ok(t) => r matches Ok(x) && x@ == t,
            Err(e) => r matches Err(x) && x@ == e,
        },
{
    if inputs.len() == 0 {
        return Err(msg("#[conformance::transition] needs a param of the Schema type"));
    }
    match &inputs[0] {
        Arg::Receiver => Err(msg("#[conformance::transition] on `self`: put the attr on the `impl` block")),
        Arg::Typed(_, Some(t)) => Ok(t.clone()),
        Arg::Typed(_, None) => Err(msg("#[conformance::transition] needs a named Schema type")),
    }
}

/// What a check of `name` reports when it does not pass: its failures, or
/// its error; nothing when it passes.
pub open spec fn failure_msg(name: Seq<char>, r: Result<ReportV, Seq<char>>) -> Option<Seq<char>> {
    match r {
        Ok(rep) => if fails_of(rep.findings).len() == 0 {
            None
        } else {
            Some("conformance `"@ + name + "`:\n"@ + summary_of(fails_of(rep.findings)))
        },
        Err(e) => Some("conformance `"@ + name + "`: "@ + e),
    }
}

pub fn failure_message(name: &str, r: &Result<CheckReport, String>) -> (m: Option<String>)
    ensures
        opt_view(m) == failure_msg(name@, report_result(*r)),
{
    match r {
        Ok(rep) => if rep.ok() {
            None
        } else {
            let mut m = msg("conformance `");
            m.append(name);
            m.append("`:\n");
            let s = rep.fail_summary();
            m.append(s.as_str());
            Some(m)
        },
        Err(e) => {
            let mut m = msg("conformance `");
            m.append(name);
            m.append("`: ");
            m.append(e.as_str());
            Some(m)
        },
    }
}

/// The failure messages of the first `n` checks, in order.
pub open spec fn failures(names: Seq<Seq<char>>, rs: Seq<Result<ReportV, Seq<char>>>, n: int) -> Seq<Seq<char>>
    decreases n,
{
    if n <= 0 {
        Seq::empty()
    } else {
        match failure_msg(names[n - 1], rs[n - 1]) {
            Some(m) => failures(names, rs, n - 1).push(m),
            None => failures(names, rs, n - 1),
        }
    }
}

/// A list of messages, or an error, as values.
pub open spec fn msgs_result(r: Result<Vec<String>, String>) -> Result<Seq<Seq<char>>, Seq<char>> {
    match r {
        Ok(v) => Ok(views(v@)),
        Err(e) => Err(e@),
    }
}

/// What checking the transitions `names` of `file` against
/// `#[derive(Schema)] struct ty` of the same file gives: the schema's
/// absence, or the failure message of each transition that fails, in order,
/// each scored on `file` as [`named_spec`] says.
pub open spec fn transitions_spec(f: FileAst, ty: Seq<char>, names: Seq<Seq<char>>, r: Result<Seq<Seq<char>>, Seq<char>>) -> bool {
    match find_schema(f.items@, ty, 0) {
        Some(Ok(m)) => r matches Ok(v) && exists|s: Schema, rs: Seq<Result<ReportV, Seq<char>>>|
            #[trigger] schema_is(s, ty, m) && rs.len() == names.len()
                && (forall|k: int| 0 <= k < rs.len() ==> #[trigger] named_spec(s, f, names[k], rs[k]))
                && v == #[trigger] failures(names, rs, rs.len() as int),
        _ => r == Err::<Seq<Seq<char>>, Seq<char>>(not_in_file_msg(ty)),
    }
}

/// Check the transitions `names` of a lowered file against
/// `#[derive(Schema)] struct ty_name` of the same file: the message of each
/// that fails.
pub fn check_transitions_in(file: &FileAst, ty_name: &str, names: &Vec<String>) -> (r: Result<Vec<String>, String>)
    ensures
        transitions_spec(*file, ty_name@, views(names@), msgs_result(r)),
{
    let schema = match schema_in_file(file, ty_name) {
        Ok(s) => s,
        Err(e) => {
            return Err(e);
        },
    };
    let mut out: Vec<String> = Vec::new();
    let ghost mut rs: Seq<Result<ReportV, Seq<char>>> = Seq::empty();
    let mut i: usize = 0;
    while i < names.len()
        invariant
            i <= names@.len(),
            rs.len() == i,
            forall|k: int| 0 <= k < rs.len() ==> #[trigger] named_spec(schema, *file, views(names@)[k], rs[k]),
            views(out@) == failures(views(names@), rs, i as int),
        decreases names.len() - i,
    {
        let r = crate::sites::eval_unfold_named_file(&schema, file, names[i].as_str());
        let m = failure_message(names[i].as_str(), &r);
        let ghost rs0 = rs;
        proof {
            rs = rs.push(report_result(r));
            assert(views(names@)[i as int] == names@[i as int]@);
            assert forall|k: int| 0 <= k < rs.len() implies #[trigger] named_spec(schema, *file, views(names@)[k], rs[k]) by {
                if k < i {
                    assert(rs[k] == rs0[k]);
                }
            }
            assert(failures(views(names@), rs, i as int) == failures(views(names@), rs0, i as int)) by {
                lemma_failures_prefix(views(names@), rs0, rs, i as int);
            }
        }
        match m {
            Some(m) => {
                let ghost o0 = out@;
                out.push(m);
                proof {
                    assert(views(out@) =~= views(o0).push(m@));
                }
            },
            None => {},
        }
        i = i + 1;
    }
    proof {
        let mm = find_schema(file.items@, ty_name@, 0)->Some_0->Ok_0;
        assert(schema_is(schema, ty_name@, mm));
        assert(views(out@) == failures(views(names@), rs, rs.len() as int));
    }
    Ok(out)
}

/// Check the transitions `names` of `source` against `#[derive(Schema)]
/// struct ty_name` of the same file: the message of each that fails. The
/// source is lowered once; what follows is [`check_transitions_in`] on it.
pub fn check_transitions(source: &str, ty_name: &str, names: &Vec<String>) -> (r: Result<Vec<String>, String>)
    ensures
        !crate::lower::parses_as_file(source@) ==> r is Err,
        crate::lower::parses_as_file(source@) ==> exists|f: FileAst|
            #[trigger] transitions_spec(f, ty_name@, views(names@), msgs_result(r)),
{
    let file = match crate::lower::parse_file(source) {
        Ok(f) => f,
        Err(e) => {
            return Err(e);
        },
    };
    let r = check_transitions_in(&file, ty_name, names);
    proof {
        assert(transitions_spec(file, ty_name@, views(names@), msgs_result(r)));
    }
    r
}

proof fn lemma_failures_prefix(names: Seq<Seq<char>>, a: Seq<Result<ReportV, Seq<char>>>, b: Seq<Result<ReportV, Seq<char>>>, n: int)
    requires
        0 <= n <= a.len(),
        n <= b.len(),
        forall|k: int| 0 <= k < n ==> a[k] == b[k],
    ensures
        failures(names, a, n) == failures(names, b, n),
    decreases n,
{
    if n > 0 {
        lemma_failures_prefix(names, a, b, n - 1);
    }
}

/// The message when no `impl` holds the method.
pub open spec fn no_impl_msg() -> Seq<char> {
    "#[conformance::transition] method: could not find enclosing impl type"@
}

/// What checking the method `fn_name` of `file` against the Schema of the
/// `impl` it stands in gives: no such `impl`; no such Schema; or the
/// method's failure message, or none, scored on `file` as [`named_spec`]
/// says.
pub open spec fn method_spec(f: FileAst, fn_name: Seq<char>, r: Result<Option<Seq<char>>, Seq<char>>) -> bool {
    match find_impl(f.items@, fn_name, 0) {
        Some(Some(t)) => match find_schema(f.items@, t, 0) {
            Some(Ok(m)) => r matches Ok(mo) && exists|s: Schema, x: Result<ReportV, Seq<char>>|
                #[trigger] schema_is(s, t, m) && #[trigger] named_spec(s, f, fn_name, x) && mo == failure_msg(fn_name, x),
            _ => r == Err::<Option<Seq<char>>, Seq<char>>(not_in_file_msg(t)),
        },
        _ => r == Err::<Option<Seq<char>>, Seq<char>>(no_impl_msg()),
    }
}

/// A message, or none, or an error, as values.
pub open spec fn msg_result(r: Result<Option<String>, String>) -> Result<Option<Seq<char>>, Seq<char>> {
    match r {
        Ok(m) => Ok(opt_view(m)),
        Err(e) => Err(e@),
    }
}

/// Check the method `fn_name` of a lowered file against the Schema of the
/// `impl` it stands in: its failure message, or none.
pub fn check_method_in(file: &FileAst, fn_name: &str) -> (r: Result<Option<String>, String>)
    ensures
        method_spec(*file, fn_name@, msg_result(r)),
{
    let ty = match impl_type_in_items(&file.items, fn_name) {
        Some(t) => t,
        None => {
            let e = msg("#[conformance::transition] method: could not find enclosing impl type");
            proof {
                reveal_strlit("#[conformance::transition] method: could not find enclosing impl type");
            }
            return Err(e);
        },
    };
    let schema = match schema_in_file(file, ty.as_str()) {
        Ok(s) => s,
        Err(e) => {
            return Err(e);
        },
    };
    let r = crate::sites::eval_unfold_named_file(&schema, file, fn_name);
    let m = failure_message(fn_name, &r);
    proof {
        let mm = find_schema(file.items@, ty@, 0)->Some_0->Ok_0;
        assert(schema_is(schema, ty@, mm));
        assert(named_spec(schema, *file, fn_name@, report_result(r)));
    }
    Ok(m)
}

/// Check the method `fn_name` of `source` against the Schema of the `impl`
/// it stands in: its failure message, or none. The source is lowered once;
/// what follows is [`check_method_in`] on it.
pub fn check_method(source: &str, fn_name: &str) -> (r: Result<Option<String>, String>)
    ensures
        !crate::lower::parses_as_file(source@) ==> r is Err,
        crate::lower::parses_as_file(source@) ==> exists|f: FileAst| #[trigger] method_spec(f, fn_name@, msg_result(r)),
{
    let file = match crate::lower::parse_file(source) {
        Ok(f) => f,
        Err(e) => {
            return Err(e);
        },
    };
    let r = check_method_in(&file, fn_name);
    proof {
        assert(method_spec(file, fn_name@, msg_result(r)));
    }
    r
}


// ---------------------------------------------------------------------------
// Field types: which schema a field nests.
// ---------------------------------------------------------------------------

/// The last name of a path type.
pub open spec fn ty_last(t: TyAst) -> Option<Seq<char>> {
    match t {
        TyAst::Path(segs) => if segs@.len() > 0 {
            Some(segs@.last().0@)
        } else {
            None
        },
        TyAst::Other => None,
    }
}

pub fn type_last_ident(t: &TyAst) -> (r: Option<&str>)
    ensures
        crate::unfold::opt_str(r) == ty_last(*t),
{
    match t {
        TyAst::Path(segs) => if segs.len() > 0 {
            Some(segs[segs.len() - 1].0.as_str())
        } else {
            None
        },
        TyAst::Other => None,
    }
}

/// `name<T, …>` read as `T`; other types unchanged.
pub open spec fn peel_generic(t: TyAst, name: Seq<char>) -> TyAst {
    match t {
        TyAst::Path(segs) => if segs@.len() > 0 && segs@.last().0@ == name && segs@.last().1 is Some {
            *segs@.last().1->0
        } else {
            t
        },
        TyAst::Other => t,
    }
}

pub fn peel_one_generic<'a>(t: &'a TyAst, name: &str) -> (r: &'a TyAst)
    ensures
        *r == peel_generic(*t, name@),
{
    match t {
        TyAst::Path(segs) => {
            let n = segs.len();
            if n > 0 && str_same(segs[n - 1].0.as_str(), name) {
                match &segs[n - 1].1 {
                    Some(inner) => &**inner,
                    None => t,
                }
            } else {
                t
            }
        },
        TyAst::Other => t,
    }
}

/// The type inside an `Option`.
pub open spec fn lift_inner(t: TyAst) -> TyAst {
    peel_generic(t, "Option"@)
}

pub fn lift_inner_ty(t: &TyAst) -> (r: &TyAst)
    ensures
        *r == lift_inner(*t),
{
    peel_one_generic(t, "Option")
}

/// The schema type of a field: `Option`, then `Vec`, then `Box` taken off.
pub open spec fn lift_schema(t: TyAst) -> TyAst {
    peel_generic(peel_generic(peel_generic(t, "Option"@), "Vec"@), "Box"@)
}

pub fn lift_schema_ty(t: &TyAst) -> (r: &TyAst)
    ensures
        *r == lift_schema(*t),
{
    peel_one_generic(peel_one_generic(peel_one_generic(t, "Option"), "Vec"), "Box")
}

/// Types the derive never nests.
pub open spec fn leaf_name(n: Seq<char>) -> bool {
    n == "String"@ || n == "str"@ || n == "bool"@ || n == "char"@ || n == "u8"@ || n == "u16"@ || n == "u32"@
        || n == "u64"@ || n == "u128"@ || n == "usize"@ || n == "i8"@ || n == "i16"@ || n == "i32"@ || n == "i64"@
        || n == "i128"@ || n == "isize"@ || n == "f32"@ || n == "f64"@ || n == "HashMap"@ || n == "BTreeMap"@
        || n == "HashSet"@ || n == "BTreeSet"@
}

pub fn is_leaf_ident(name: &str) -> (r: bool)
    ensures
        r == leaf_name(name@),
{
    str_same(name, "String") || str_same(name, "str") || str_same(name, "bool") || str_same(name, "char")
        || str_same(name, "u8") || str_same(name, "u16") || str_same(name, "u32") || str_same(name, "u64")
        || str_same(name, "u128") || str_same(name, "usize") || str_same(name, "i8") || str_same(name, "i16")
        || str_same(name, "i32") || str_same(name, "i64") || str_same(name, "i128") || str_same(name, "isize")
        || str_same(name, "f32") || str_same(name, "f64") || str_same(name, "HashMap") || str_same(name, "BTreeMap")
        || str_same(name, "HashSet") || str_same(name, "BTreeSet")
}

/// What a local type of a given name is.
#[derive(Debug, Clone, Copy, PartialEq, Eq, Structural)]
pub enum LocalTy {
    SchemaStruct,
    OtherStruct,
    Enum,
}

/// The first struct or enum named `name` from item `i` on, inline modules
/// searched in place.
pub open spec fn find_local(items: Seq<ItemAst>, name: Seq<char>, i: int) -> Option<LocalTy>
    decreases items, items.len() - i,
{
    if i < 0 || i >= items.len() {
        None
    } else {
        match items[i] {
            ItemAst::Struct(s) => if s.name@ == name {
                Some(if has_derive(s.attrs@) {
                    LocalTy::SchemaStruct
                } else {
                    LocalTy::OtherStruct
                })
            } else {
                find_local(items, name, i + 1)
            },
            ItemAst::Enum(e) => if e@ == name {
                Some(LocalTy::Enum)
            } else {
                find_local(items, name, i + 1)
            },
            ItemAst::Mod(Some(inner)) => {
                proof {
                    lemma_mod_items(items, i);
                }
                match find_local(inner@, name, 0) {
                    Some(k) => Some(k),
                    None => find_local(items, name, i + 1),
                }
            },
            _ => find_local(items, name, i + 1),
        }
    }
}

pub fn classify_items(items: &Vec<ItemAst>, name: &str) -> (r: Option<LocalTy>)
    ensures
        r == find_local(items@, name@, 0),
    decreases items@,
{
    let mut i: usize = 0;
    while i < items.len()
        invariant
            i <= items@.len(),
            find_local(items@, name@, i as int) == find_local(items@, name@, 0),
        decreases items.len() - i,
    {
        match &items[i] {
            ItemAst::Struct(s) => if str_same(s.name.as_str(), name) {
                return Some(if has_derive_schema(&s.attrs) {
                    LocalTy::SchemaStruct
                } else {
                    LocalTy::OtherStruct
                });
            },
            ItemAst::Enum(e) => if str_same(e.as_str(), name) {
                return Some(LocalTy::Enum);
            },
            ItemAst::Mod(Some(inner)) => {
                proof {
                    lemma_mod_items(items@, i as int);
                }
                match classify_items(inner, name) {
                    Some(k) => {
                        return Some(k);
                    },
                    None => {},
                }
            },
            _ => {},
        }
        i = i + 1;
    }
    None
}

/// The first of the files, in order, that says what `name` is.
pub open spec fn lookup_in(files: Seq<FileAst>, name: Seq<char>, i: int) -> Option<LocalTy>
    decreases files.len() - i,
{
    if i < 0 || i >= files.len() {
        None
    } else {
        match find_local(files[i].items@, name, 0) {
            Some(k) => Some(k),
            None => lookup_in(files, name, i + 1),
        }
    }
}

/// What `name` is in the crate: the files are the one the derive stands in,
/// then the crate's sources.
pub fn lookup_local_ty(files: &Vec<FileAst>, name: &str) -> (r: Option<LocalTy>)
    ensures
        r == lookup_in(files@, name@, 0),
{
    let mut i: usize = 0;
    while i < files.len()
        invariant
            i <= files@.len(),
            lookup_in(files@, name@, i as int) == lookup_in(files@, name@, 0),
        decreases files.len() - i,
    {
        match classify_items(&files[i].items, name) {
            Some(k) => {
                return Some(k);
            },
            None => {},
        }
        i = i + 1;
    }
    None
}

/// A field nests by default: its schema type is named, is no leaf type, and
/// is a `#[derive(Schema)]` struct of the crate or not found there.
pub open spec fn nests(t: TyAst, files: Seq<FileAst>) -> bool {
    match ty_last(lift_schema(t)) {
        None => false,
        Some(n) => !leaf_name(n) && match lookup_in(files, n, 0) {
            Some(LocalTy::SchemaStruct) => true,
            Some(_) => false,
            None => true,
        },
    }
}

pub fn should_nest(t: &TyAst, files: &Vec<FileAst>) -> (r: bool)
    ensures
        r == nests(*t, files@),
{
    let inner = lift_schema_ty(t);
    let name = match type_last_ident(inner) {
        Some(n) => n,
        None => {
            return false;
        },
    };
    if is_leaf_ident(name) {
        return false;
    }
    match lookup_local_ty(files, name) {
        Some(LocalTy::SchemaStruct) => true,
        Some(_) => false,
        None => true,
    }
}



// ---------------------------------------------------------------------------
// What `#[derive(Schema)]` generates.
// ---------------------------------------------------------------------------

/// One invariant the derive puts on a field, in the order it puts them.
pub enum PropPlan {
    /// An invariant known at expansion time.
    Inv(Invariant),
    /// `nested(T::conformance_schema())`, `T` the field's type with `Option`,
    /// `Vec` and `Box` taken off (by last name); under `or_absent` when the
    /// field is an `Option`.
    Nested { schema: Option<String>, optional: bool },
    /// `#[refine(path)]` (the path's segments) or `#[refine(|x| …)]`
    /// (`None`); on `str` when the field's inner type is `String`; under
    /// `or_absent` when the field is an `Option`.
    Refine { path: Option<Vec<String>>, on_str: bool, optional: bool },
}

/// A field of the generated schema.
pub struct FieldPlan {
    pub name: String,
    pub locator: String,
    pub props: Vec<PropPlan>,
}

/// The generated `conformance_schema()`, and the Schema IR the derive
/// checks the crate against.
pub struct DerivePlan {
    pub name: String,
    pub fields: Vec<FieldPlan>,
    pub rewrites: Vec<Rewrite>,
    pub schema: Schema,
}

pub enum PropM {
    Inv(InvM),
    Nested(Option<Seq<char>>, bool),
    Refine(Option<Seq<Seq<char>>>, bool, bool),
}

pub open spec fn prop_m(p: PropPlan) -> PropM {
    match p {
        PropPlan::Inv(i) => PropM::Inv(inv_m(i)),
        PropPlan::Nested { schema, optional } => PropM::Nested(opt_view(schema), optional),
        PropPlan::Refine { path, on_str, optional } => PropM::Refine(match path {
            Some(v) => Some(views(v@)),
            None => None,
        }, on_str, optional),
    }
}

pub open spec fn props_m(s: Seq<PropPlan>) -> Seq<PropM> {
    s.map_values(|p: PropPlan| prop_m(p))
}

/// The last token is a comma.
pub open spec fn trailing_comma(a: AttrAst) -> bool {
    a.list matches Some(ts) && ts@.len() > 0 && (ts@.last() matches Tok::Punct(c, _) && c == ',')
}

/// `#[refine(path)]` or `#[refine(|x| …)]`: the path's segments, or `None`
/// for a closure.
pub open spec fn refine_sugar(a: AttrAst) -> Result<Option<Seq<Seq<char>>>, Seq<char>> {
    match a.exprs {
        None => Err("expected #[refine(path)] or #[refine(|x| …)]"@),
        Some(Err(e)) => Err(e@),
        Some(Ok(xs)) => if xs@.len() == 0 {
            Err("unexpected end of input, expected an expression"@)
        } else if xs@.len() > 1 || trailing_comma(a) {
            Err("unexpected token"@)
        } else {
            match xs@[0] {
                Ex::Path(p) => Ok(Some(views(p.segs@))),
                Ex::Closure(_, _) => Ok(None),
                _ => Err("expected path or |x| closure"@),
            }
        },
    }
}

/// `#[required_if(…)]` as the generated code reads it: an empty list is an
/// error.
pub open spec fn required_if_plan(a: AttrAst) -> Result<PredM, Seq<char>> {
    if a.exprs matches Some(Ok(xs)) && xs@.len() == 0 {
        Err("expected kind = \"hi\""@)
    } else {
        required_if_pred(a)
    }
}

/// What one field attribute adds to the generated field: invariants as
/// [`attr_step`] reads them, a nested schema, a refine.
pub open spec fn plan_step(f: FieldAst, a: AttrAst, props: Seq<PropM>, rws: Seq<RwM>, nested: bool) -> Result<(Seq<PropM>, Seq<RwM>, bool), Seq<char>> {
    let opt = is_opt_ty(f.ty);
    if is_ident_spec(a.path, "required_if"@) {
        match required_if_plan(a) {
            Err(e) => Err(e),
            Ok(p) => Ok((props.push(PropM::Inv(InvM::When(p, Box::new(InvM::Defined)))), rws, nested)),
        }
    } else if is_ident_spec(a.path, "nested"@) {
        Ok((props.push(PropM::Nested(ty_last(lift_schema(f.ty)), opt)), rws, true))
    } else if is_ident_spec(a.path, "refine"@) {
        match refine_sugar(a) {
            Err(e) => Err(e),
            Ok(p) => Ok((props.push(PropM::Refine(p, ty_last(lift_inner(f.ty)) == Some("String"@), opt)), rws, nested)),
        }
    } else {
        match attr_step(f.name@, opt, a, Seq::empty(), rws) {
            Err(e) => Err(e),
            Ok((is, r2)) => Ok((props + is.map_values(|i: InvM| PropM::Inv(i)), r2, nested)),
        }
    }
}

pub open spec fn plan_fold(f: FieldAst, k: int, rws: Seq<RwM>) -> Result<(Seq<PropM>, Seq<RwM>, bool), Seq<char>>
    decreases k,
{
    if k <= 0 {
        Ok((Seq::empty(), rws, false))
    } else {
        match plan_fold(f, k - 1, rws) {
            Err(e) => Err(e),
            Ok((ps, r, n)) => plan_step(f, f.attrs@[k - 1], ps, r, n),
        }
    }
}

/// The field carries `#[leaf]`.
pub open spec fn is_leaf(f: FieldAst) -> bool {
    exists|k: int| 0 <= k < f.attrs@.len() && is_ident_spec((#[trigger] f.attrs@[k]).path, "leaf"@)
}

pub struct FieldPlanM {
    pub name: Seq<char>,
    pub locator: Seq<char>,
    pub props: Seq<PropM>,
}

pub open spec fn field_plan_m(p: FieldPlan) -> FieldPlanM {
    FieldPlanM { name: p.name@, locator: p.locator@, props: props_m(p.props@) }
}

/// The generated fields of the first `n` struct fields, and the rewrites.
pub open spec fn fields_plan(fs: Seq<FieldAst>, files: Seq<FileAst>, n: int) -> Result<(Seq<FieldPlanM>, Seq<RwM>), Seq<char>>
    decreases n,
{
    if n <= 0 {
        Ok((Seq::empty(), Seq::empty()))
    } else {
        match fields_plan(fs, files, n - 1) {
            Err(e) => Err(e),
            Ok((fps, rws)) => {
                let f = fs[n - 1];
                match plan_fold(f, f.attrs@.len() as int, rws) {
                    Err(e) => Err(e),
                    Ok((ps, r2, nested)) => Ok((fps.push(FieldPlanM {
                        name: f.name@,
                        locator: match locator_from(f.attrs@, 0) {
                            Some(l) => l,
                            None => f.name@,
                        },
                        props: if !is_leaf(f) && !nested && nests(f.ty, files) {
                            ps.push(PropM::Nested(ty_last(lift_schema(f.ty)), is_opt_ty(f.ty)))
                        } else {
                            ps
                        },
                    }), r2)),
                }
            },
        }
    }
}

/// What `#[derive(Schema)]` on `item` generates, `files` read to tell which
/// field types are schemas: the struct's name, its generated fields and
/// rewrites, and its Schema IR; or the error the derive reports.
pub open spec fn plan_spec(item: ItemAst, files: Seq<FileAst>) -> Result<(Seq<char>, Seq<FieldPlanM>, Seq<RwM>, SchemaM), Seq<char>> {
    match item {
        ItemAst::Struct(s) => match s.fields {
            None => Err("Schema derive needs named fields"@),
            Some(fs) => match fields_plan(fs@, files, fs@.len() as int) {
                Err(e) => Err(e),
                Ok((fps, rws)) => match schema_spec(fs@) {
                    Err(e) => Err(e),
                    Ok(m) => Ok((s.name@, fps, rws, m)),
                },
            },
        },
        _ => Err("Schema derive only on structs"@),
    }
}

fn refine_sugar_of(a: &AttrAst) -> (r: Result<Option<Vec<String>>, String>)
    ensures
        match refine_sugar(*a) {
            Ok(p) => r matches Ok(x) && match p {
                Some(segs) => x matches Some(v) && views(v@) == segs,
                None => x is None,
            },
            Err(e) => r matches Err(m) && m@ == e,
        },
{
    match &a.exprs {
        None => Err(msg("expected #[refine(path)] or #[refine(|x| …)]")),
        Some(Err(e)) => Err(e.clone()),
        Some(Ok(xs)) => {
            let trailing = match &a.list {
                Some(ts) => ts.len() > 0 && match &ts[ts.len() - 1] {
                    Tok::Punct(c, _) => *c == ',',
                    _ => false,
                },
                None => false,
            };
            if xs.len() == 0 {
                Err(msg("unexpected end of input, expected an expression"))
            } else if xs.len() > 1 || trailing {
                Err(msg("unexpected token"))
            } else {
                match &xs[0] {
                    Ex::Path(p) => Ok(Some(p.segs.clone())),
                    Ex::Closure(_, _) => Ok(None),
                    _ => Err(msg("expected path or |x| closure")),
                }
            }
        },
    }
}

fn plan_step_of(f: &FieldAst, a: &AttrAst, props: &mut Vec<PropPlan>, rws: &mut Vec<Rewrite>, nested: &mut bool) -> (r: Result<(), String>)
    ensures
        match plan_step(*f, *a, props_m(old(props)@), rws_m(old(rws)@), *old(nested)) {
            Ok((p2, r2, n2)) => r is Ok && props_m(final(props)@) == p2 && rws_m(final(rws)@) == r2 && *final(nested) == n2,
            Err(e) => r matches Err(m) && m@ == e,
        },
{
    let opt = is_option_ty(&f.ty);
    if path_is_ident(&a.path, "required_if") {
        let empty = match &a.exprs {
            Some(Ok(xs)) => xs.len() == 0,
            _ => false,
        };
        if empty {
            return Err(msg("expected kind = \"hi\""));
        }
        match required_if_of(a) {
            Err(e) => Err(e),
            Ok(p) => {
                let d = crate::stdlib::defined();
                proof {
                    assert(inv_m(d) == InvM::Defined);
                }
                let x = PropPlan::Inv(crate::stdlib::when(p, d));
                proof {
                    assert(props_m(props@.push(x)) =~= props_m(props@).push(prop_m(x)));
                }
                props.push(x);
                Ok(())
            },
        }
    } else if path_is_ident(&a.path, "nested") {
        let name = match type_last_ident(lift_schema_ty(&f.ty)) {
            Some(n) => Some(n.to_owned()),
            None => None,
        };
        let x = PropPlan::Nested { schema: name, optional: opt };
        proof {
            assert(props_m(props@.push(x)) =~= props_m(props@).push(prop_m(x)));
        }
        props.push(x);
        *nested = true;
        Ok(())
    } else if path_is_ident(&a.path, "refine") {
        match refine_sugar_of(a) {
            Err(e) => Err(e),
            Ok(p) => {
                let on_str = match type_last_ident(lift_inner_ty(&f.ty)) {
                    Some(n) => str_same(n, "String"),
                    None => false,
                };
                let x = PropPlan::Refine { path: p, on_str, optional: opt };
                proof {
                    assert(props_m(props@.push(x)) =~= props_m(props@).push(prop_m(x)));
                }
                props.push(x);
                Ok(())
            },
        }
    } else {
        let mut invs: Vec<Invariant> = Vec::new();
        proof {
            assert(invs_m(invs@) =~= Seq::<InvM>::empty());
        }
        match attr_step_of(f, opt, a, &mut invs, rws) {
            Err(e) => Err(e),
            Ok(()) => {
                let ghost p0 = props_m(props@);
                let ghost all = invs@;
                proof {
                    lemma_invs_m_index(all);
                    assert(all.take(0).map_values(|i: Invariant| PropM::Inv(inv_m(i))) =~= Seq::<PropM>::empty());
                    assert(p0 + Seq::<PropM>::empty() =~= p0);
                }
                let n0 = invs.len();
                let mut k: usize = 0;
                while invs.len() > 0
                    invariant
                        n0 == all.len(),
                        k <= all.len(),
                        invs@ == all.subrange(k as int, all.len() as int),
                        props_m(props@) == p0 + all.take(k as int).map_values(|i: Invariant| PropM::Inv(inv_m(i))),
                    decreases invs.len(),
                {
                    let x = invs.remove(0);
                    let p = PropPlan::Inv(x);
                    proof {
                        assert(x == all[k as int]);
                        assert(props_m(props@.push(p)) =~= props_m(props@).push(prop_m(p)));
                        assert(all.take(k + 1).map_values(|i: Invariant| PropM::Inv(inv_m(i)))
                            =~= all.take(k as int).map_values(|i: Invariant| PropM::Inv(inv_m(i))).push(PropM::Inv(inv_m(x))));
                    }
                    props.push(p);
                    k = k + 1;
                    proof {
                        assert(invs@ =~= all.subrange(k as int, all.len() as int));
                    }
                }
                proof {
                    assert(k == all.len());
                    assert(all.take(k as int) =~= all);
                    assert(invs_m(all).map_values(|i: InvM| PropM::Inv(i)) =~= all.map_values(|i: Invariant| PropM::Inv(inv_m(i))));
                }
                Ok(())
            },
        }
    }
}



proof fn lemma_plan_fold_err(f: FieldAst, k: int, rws: Seq<RwM>)
    requires
        0 < k <= f.attrs@.len(),
        plan_fold(f, k, rws) is Err,
    ensures
        plan_fold(f, f.attrs@.len() as int, rws) == plan_fold(f, k, rws),
    decreases f.attrs@.len() - k,
{
    if k < f.attrs@.len() {
        lemma_plan_fold_err(f, k + 1, rws);
    }
}

proof fn lemma_fields_plan_err(fs: Seq<FieldAst>, files: Seq<FileAst>, n: int)
    requires
        0 < n <= fs.len(),
        fields_plan(fs, files, n) is Err,
    ensures
        fields_plan(fs, files, fs.len() as int) == fields_plan(fs, files, n),
    decreases fs.len() - n,
{
    if n < fs.len() {
        lemma_fields_plan_err(fs, files, n + 1);
    }
}

fn has_leaf(attrs: &Vec<AttrAst>, Ghost(f): Ghost<FieldAst>) -> (r: bool)
    requires
        f.attrs@ == attrs@,
    ensures
        r == is_leaf(f),
{
    let mut i: usize = 0;
    while i < attrs.len()
        invariant
            i <= attrs@.len(),
            f.attrs@ == attrs@,
            forall|k: int| 0 <= k < i ==> !is_ident_spec((#[trigger] attrs@[k]).path, "leaf"@),
        decreases attrs.len() - i,
    {
        if path_is_ident(&attrs[i].path, "leaf") {
            proof {
                assert(is_ident_spec(f.attrs@[i as int].path, "leaf"@));
            }
            return true;
        }
        i = i + 1;
    }
    false
}

/// What `#[derive(Schema)]` on `item` generates: per field its invariants,
/// nested schemas and refines in attribute order (a field whose type is a
/// schema, found in `files`, nests it unless `#[leaf]` or `#[nested]` says
/// otherwise), the rewrites, and the Schema IR the crate is checked against.
/// `files` are the file the derive stands in, then the crate's sources.
pub fn derive_plan(item: &ItemAst, files: &Vec<FileAst>) -> (r: Result<DerivePlan, String>)
    ensures
        match plan_spec(*item, files@) {
            Ok((n, fps, rws, m)) => r matches Ok(p) && p.name@ == n
                && p.fields@.map_values(|x: FieldPlan| field_plan_m(x)) == fps
                && rws_m(p.rewrites@) == rws && schema_is(p.schema, n, m),
            Err(e) => r matches Err(x) && x@ == e,
        },
{
    let s = match item {
        ItemAst::Struct(s) => s,
        _ => {
            return Err(msg("Schema derive only on structs"));
        },
    };
    let fs = match &s.fields {
        Some(fs) => fs,
        None => {
            return Err(msg("Schema derive needs named fields"));
        },
    };
    let mut out: Vec<FieldPlan> = Vec::new();
    let mut rws: Vec<Rewrite> = Vec::new();
    let ghost mut fpm: Seq<FieldPlanM> = Seq::empty();
    proof {
        assert(out@.map_values(|x: FieldPlan| field_plan_m(x)) =~= fpm);
        assert(rws_m(rws@) =~= Seq::<RwM>::empty());
    }
    let mut i: usize = 0;
    while i < fs.len()
        invariant
            i <= fs@.len(),
            *item == ItemAst::Struct(*s),
            s.fields == Some(*fs),
            fields_plan(fs@, files@, i as int) == Ok::<(Seq<FieldPlanM>, Seq<RwM>), Seq<char>>((fpm, rws_m(rws@))),
            out@.map_values(|x: FieldPlan| field_plan_m(x)) == fpm,
        decreases fs.len() - i,
    {
        let f = &fs[i];
        let ghost r0 = rws_m(rws@);
        let mut props: Vec<PropPlan> = Vec::new();
        let mut nested = false;
        proof {
            assert(props_m(props@) =~= Seq::<PropM>::empty());
        }
        let mut j: usize = 0;
        while j < f.attrs.len()
            invariant
                f == fs@[i as int],
                i < fs@.len(),
                *item == ItemAst::Struct(*s),
                s.fields == Some(*fs),
                j <= f.attrs@.len(),
                plan_fold(*f, j as int, r0) == Ok::<(Seq<PropM>, Seq<RwM>, bool), Seq<char>>((props_m(props@), rws_m(rws@), nested)),
                fields_plan(fs@, files@, i as int) == Ok::<(Seq<FieldPlanM>, Seq<RwM>), Seq<char>>((fpm, r0)),
            decreases f.attrs.len() - j,
        {
            match plan_step_of(f, &f.attrs[j], &mut props, &mut rws, &mut nested) {
                Err(e) => {
                    proof {
                        lemma_plan_fold_err(*f, j as int + 1, r0);
                        lemma_fields_plan_err(fs@, files@, i as int + 1);
                    }
                    return Err(e);
                },
                Ok(()) => {},
            }
            j = j + 1;
        }
        let leaf = has_leaf(&f.attrs, Ghost(*f));
        if !leaf && !nested && should_nest(&f.ty, files) {
            let name = match type_last_ident(lift_schema_ty(&f.ty)) {
                Some(n) => Some(n.to_owned()),
                None => None,
            };
            let x = PropPlan::Nested { schema: name, optional: is_option_ty(&f.ty) };
            proof {
                assert(props_m(props@.push(x)) =~= props_m(props@).push(prop_m(x)));
            }
            props.push(x);
        }
        let loc = match field_locator(&f.attrs) {
            Some(l) => l.to_owned(),
            None => f.name.clone(),
        };
        let fp = FieldPlan { name: f.name.clone(), locator: loc, props };
        proof {
            assert(out@.push(fp).map_values(|x: FieldPlan| field_plan_m(x)) =~= out@.map_values(|x: FieldPlan| field_plan_m(x)).push(field_plan_m(fp)));
            fpm = fpm.push(field_plan_m(fp));
        }
        out.push(fp);
        i = i + 1;
    }
    match schema_from_fields(s.name.as_str(), fs) {
        Err(e) => Err(e),
        Ok(schema) => Ok(DerivePlan { name: s.name.clone(), fields: out, rewrites: rws, schema }),
    }
}

} // verus!
