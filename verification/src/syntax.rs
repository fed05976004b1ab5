//! The part of a Rust source file that Unfold reads: items, statements,
//! expressions and patterns, as plain values.
use vstd::prelude::*;
use crate::text::str_same;

verus! {

/// A binary operator, as far as Unfold tells them apart.
#[derive(Debug, Clone, Copy, PartialEq, Eq)]
pub enum BinKind {
    And,
    Or,
    Eq,
    Other,
}

/// A path: its segments' names, and whether it is one plain identifier
/// (no leading `::`, no generic arguments).
#[derive(Debug)]
pub struct PathAst {
    pub segs: Vec<String>,
    pub plain: bool,
}

/// An expression.
#[derive(Debug)]
pub enum Ex {
    If(Box<Ex>, Vec<St>, Option<Box<Ex>>),
    Block(Vec<St>),
    Return(Option<Box<Ex>>),
    Assign(Box<Ex>, Box<Ex>),
    /// `base.member`: a named member, or a tuple index as text.
    Field(Box<Ex>, String),
    Path(PathAst),
    /// A struct literal: its path and its named fields (`None` for a tuple index).
    Struct(PathAst, Vec<(Option<String>, Ex)>),
    Call(Box<Ex>, Vec<Ex>),
    MethodCall(Box<Ex>, String, Vec<Ex>),
    Closure(Vec<Pt>, Box<Ex>),
    Match(Box<Ex>, Vec<(Pt, Ex)>),
    Paren(Box<Ex>),
    Reference(Box<Ex>),
    Deref(Box<Ex>),
    Binary(Box<Ex>, BinKind, Box<Ex>),
    LitStr(String),
    Macro(PathAst, MacroArgs),
    Array(Vec<Ex>),
    Other,
}

/// What a macro's tokens read as.
#[derive(Debug)]
pub enum MacroArgs {
    /// A comma-separated list of expressions, or `None` when the tokens are not one.
    List(Option<Vec<Ex>>),
    /// `matches!(expr, pattern [if guard])`, or `None` when the tokens are not that.
    Matches(Option<(Box<Ex>, Pt, Option<Box<Ex>>)>),
    /// Tokens Unfold does not read.
    Opaque,
}

/// A statement.
#[derive(Debug)]
pub enum St {
    /// An expression, with whether a `;` follows it.
    Expr(Ex, bool),
    /// `let pat = init;`
    Local(Pt, Option<Ex>),
    Other,
}

/// A pattern.
#[derive(Debug)]
pub enum Pt {
    Ident(String),
    Reference(Box<Pt>),
    /// `Path(elems…)`: the path's segment names and the element patterns.
    TupleStruct(Vec<String>, Vec<Pt>),
    Or(Vec<Pt>),
    LitStr(String),
    Other,
}

/// A function parameter: `self`, or a pattern with the last name of its type.
#[derive(Debug)]
pub enum Arg {
    Receiver,
    Typed(Pt, Option<String>),
}

/// A function, free or in an `impl`.
#[derive(Debug)]
pub struct FnAst {
    pub name: String,
    pub inputs: Vec<Arg>,
    pub block: Vec<St>,
    /// The reason of an `#[except("…")]` on it, if one has a non-blank reason.
    pub except: Option<String>,
}

/// A delimiter of a token group.
#[derive(Debug, Clone, Copy, PartialEq, Eq, Structural)]
pub enum Delim {
    Paren,
    Bracket,
    Brace,
}

/// One token of an attribute's arguments.
#[derive(Debug)]
pub enum Tok {
    /// An identifier that is not a keyword.
    Ident(String),
    /// A punctuation character, and whether it is joined to the next one.
    Punct(char, bool),
    /// A string literal's value.
    Str(String),
    /// An integer literal: its value when it fits in `usize`.
    Int(Option<usize>),
    /// Another literal.
    Lit,
    /// A delimited group and its tokens.
    Group(Delim, Vec<Tok>),
    /// A keyword, or `_`.
    Keyword(String),
    Other,
}

/// A type, references and parentheses read through: a path's segments, each
/// with its name and its first generic argument when that is a type in angle
/// brackets; or another type.
#[derive(Debug)]
pub enum TyAst {
    Path(Vec<(String, Option<Box<TyAst>>)>),
    Other,
}

/// An outer attribute.
#[derive(Debug)]
pub struct AttrAst {
    pub path: PathAst,
    /// The tokens between the delimiters of `path(…)` (`Meta::List`).
    pub list: Option<Vec<Tok>>,
    /// Those tokens read as comma-separated expressions, or syn's error;
    /// `None` when the attribute is not a list.
    pub exprs: Option<Result<Vec<Ex>, String>>,
}

/// A named field of a struct.
#[derive(Debug)]
pub struct FieldAst {
    pub name: String,
    pub ty: TyAst,
    pub attrs: Vec<AttrAst>,
}

/// A struct: its name, attributes and named fields (`None` for a tuple or
/// unit struct).
#[derive(Debug)]
pub struct StructAst {
    pub name: String,
    pub attrs: Vec<AttrAst>,
    pub fields: Option<Vec<FieldAst>>,
}

/// An item of a file.
#[derive(Debug)]
pub enum ItemAst {
    Fn(FnAst),
    /// An `impl` block: the last name of its self type, and its methods.
    Impl(Option<String>, Vec<FnAst>),
    Struct(StructAst),
    /// An enum, by name.
    Enum(String),
    /// A module: its items when they stand inline.
    Mod(Option<Vec<ItemAst>>),
    Other,
}

/// A source file.
#[derive(Debug)]
pub struct FileAst {
    pub items: Vec<ItemAst>,
}

/// The last segment of a path.
pub open spec fn last_seg(p: PathAst) -> Option<Seq<char>> {
    if p.segs@.len() == 0 {
        None
    } else {
        Some(p.segs@.last()@)
    }
}

/// The path is the one plain identifier `name`.
pub open spec fn is_ident_spec(p: PathAst, name: Seq<char>) -> bool {
    p.plain && p.segs@.len() == 1 && p.segs@[0]@ == name
}

pub fn last_seg_of(p: &PathAst) -> (r: Option<&str>)
    ensures
        match last_seg(*p) {
            Some(s) => r matches Some(t) && t@ == s,
            None => r is None,
        },
{
    let n = p.segs.len();
    if n == 0 {
        None
    } else {
        Some(p.segs[n - 1].as_str())
    }
}

pub fn path_is_ident(p: &PathAst, name: &str) -> (r: bool)
    ensures
        r == is_ident_spec(*p, name@),
{
    p.plain && p.segs.len() == 1 && str_same(p.segs[0].as_str(), name)
}

/// A method that only converts or borrows its receiver.
pub open spec fn is_conversion(m: Seq<char>) -> bool {
    m == "into"@ || m == "to_string"@ || m == "to_owned"@ || m == "clone"@ || m == "as_deref"@
        || m == "as_str"@ || m == "as_ref"@ || m == "take"@
}

fn conversion(m: &str) -> (r: bool)
    ensures
        r == is_conversion(m@),
{
    str_same(m, "into") || str_same(m, "to_string") || str_same(m, "to_owned") || str_same(m, "clone")
        || str_same(m, "as_deref") || str_same(m, "as_str") || str_same(m, "as_ref") || str_same(m, "take")
}

/// The last segment of a path expression, through parentheses.
pub open spec fn path_ident_last(e: Ex) -> Option<Seq<char>>
    decreases e,
{
    match e {
        Ex::Path(p) => last_seg(p),
        Ex::Paren(x) => path_ident_last(*x),
        _ => None,
    }
}

pub fn path_ident_last_of(e: &Ex) -> (r: Option<&str>)
    ensures
        match path_ident_last(*e) {
            Some(s) => r matches Some(t) && t@ == s,
            None => r is None,
        },
    decreases e,
{
    match e {
        Ex::Path(p) => last_seg_of(p),
        Ex::Paren(x) => path_ident_last_of(x),
        _ => None,
    }
}

/// The expression under parentheses, borrows, derefs and conversions
/// (`.into()`, `.clone()`, `String::from(x)`, …).
pub open spec fn peel_spec(e: Ex) -> Ex
    decreases e,
{
    match e {
        Ex::Paren(x) => peel_spec(*x),
        Ex::Reference(x) => peel_spec(*x),
        Ex::Deref(x) => peel_spec(*x),
        Ex::MethodCall(recv, m, _) => if is_conversion(m@) {
            peel_spec(*recv)
        } else {
            e
        },
        Ex::Call(func, args) => if (path_ident_last(*func) == Some("from"@) || path_ident_last(*func) == Some(
            "new"@,
        )) && args@.len() == 1 {
            peel_spec(args@[0])
        } else {
            e
        },
        _ => e,
    }
}

pub fn peel(e: &Ex) -> (r: &Ex)
    ensures
        *r == peel_spec(*e),
    decreases e,
{
    match e {
        Ex::Paren(x) => peel(x),
        Ex::Reference(x) => peel(x),
        Ex::Deref(x) => peel(x),
        Ex::MethodCall(recv, m, _) => if conversion(m.as_str()) {
            peel(recv)
        } else {
            e
        },
        Ex::Call(func, args) => {
            let from_or_new = match path_ident_last_of(func) {
                Some(n) => str_same(n, "from") || str_same(n, "new"),
                None => false,
            };
            if from_or_new && args.len() == 1 {
                proof {
                    assert(decreases_to!(*e => args@[0]));
                }
                peel(&args[0])
            } else {
                e
            }
        },
        _ => e,
    }
}

/// The last segment of the path an expression names, after `peel`.
pub open spec fn path_last(e: Ex) -> Option<Seq<char>> {
    match peel_spec(e) {
        Ex::Path(p) => last_seg(p),
        _ => None,
    }
}

pub fn path_last_of(e: &Ex) -> (r: Option<&str>)
    ensures
        match path_last(*e) {
            Some(s) => r matches Some(t) && t@ == s,
            None => r is None,
        },
{
    match peel(e) {
        Ex::Path(p) => last_seg_of(p),
        _ => None,
    }
}

/// The string literal an expression is, after `peel`.
pub open spec fn lit_str(e: Ex) -> Option<Seq<char>> {
    match peel_spec(e) {
        Ex::LitStr(s) => Some(s@),
        _ => None,
    }
}

pub fn lit_str_of(e: &Ex) -> (r: Option<&str>)
    ensures
        match lit_str(*e) {
            Some(s) => r matches Some(t) && t@ == s,
            None => r is None,
        },
{
    match peel(e) {
        Ex::LitStr(s) => Some(s.as_str()),
        _ => None,
    }
}

/// The expression is the plain variable `subject`.
pub open spec fn is_subject(e: Ex, subject: Seq<char>) -> bool {
    match peel_spec(e) {
        Ex::Path(p) => p.plain && p.segs@.len() == 1 && p.segs@[0]@ == subject,
        _ => false,
    }
}

pub fn is_subject_of(e: &Ex, subject: &str) -> (r: bool)
    ensures
        r == is_subject(*e, subject@),
{
    match peel(e) {
        Ex::Path(p) => path_is_ident(p, subject),
        _ => false,
    }
}

/// `subject.member`, giving the member.
pub open spec fn field_access(e: Ex, subject: Seq<char>) -> Option<Seq<char>> {
    match peel_spec(e) {
        Ex::Field(base, m) => if is_subject(*base, subject) {
            Some(m@)
        } else {
            None
        },
        _ => None,
    }
}

pub fn field_access_of<'a>(e: &'a Ex, subject: &str) -> (r: Option<&'a str>)
    ensures
        match field_access(*e, subject@) {
            Some(s) => r matches Some(t) && t@ == s,
            None => r is None,
        },
{
    match peel(e) {
        Ex::Field(base, m) => if is_subject_of(base, subject) {
            Some(m.as_str())
        } else {
            None
        },
        _ => None,
    }
}

/// The name a call calls: the function's last segment, or the method.
pub open spec fn called_name(e: Ex) -> Option<Seq<char>> {
    match peel_spec(e) {
        Ex::Call(func, _) => path_last(*func),
        Ex::MethodCall(_, m, _) => Some(m@),
        _ => None,
    }
}

pub fn called_name_of(e: &Ex) -> (r: Option<&str>)
    ensures
        match called_name(*e) {
            Some(s) => r matches Some(t) && t@ == s,
            None => r is None,
        },
{
    match peel(e) {
        Ex::Call(func, _) => path_last_of(func),
        Ex::MethodCall(_, m, _) => Some(m.as_str()),
        _ => None,
    }
}

/// The call passes `subject` (an argument, or the receiver).
pub open spec fn call_touches_subject(e: Ex, subject: Seq<char>) -> bool {
    match peel_spec(e) {
        Ex::Call(_, args) => exists|i: int| 0 <= i < args@.len() && #[trigger] is_subject(args@[i], subject),
        Ex::MethodCall(recv, _, _) => is_subject(*recv, subject),
        _ => false,
    }
}

pub fn call_touches_subject_of(e: &Ex, subject: &str) -> (r: bool)
    ensures
        r == call_touches_subject(*e, subject@),
{
    match peel(e) {
        Ex::Call(_, args) => {
            let mut i: usize = 0;
            while i < args.len()
                invariant
                    i <= args@.len(),
                    peel_spec(*e) matches Ex::Call(_, a) && a == *args,
                    forall|j: int| 0 <= j < i ==> !#[trigger] is_subject(args@[j], subject@),
                decreases args.len() - i,
            {
                if is_subject_of(&args[i], subject) {
                    return true;
                }
                i = i + 1;
            }
            false
        },
        Ex::MethodCall(recv, _, _) => is_subject_of(recv, subject),
        _ => false,
    }
}

/// `….default()` / `T::default()`: a call whose function's last segment is `default`.
pub open spec fn is_default(e: Ex) -> bool {
    match peel_spec(e) {
        Ex::Call(func, _) => match peel_spec(*func) {
            Ex::Path(p) => last_seg(p) == Some("default"@),
            _ => false,
        },
        _ => false,
    }
}

pub fn is_default_of(e: &Ex) -> (r: bool)
    ensures
        r == is_default(*e),
{
    match peel(e) {
        Ex::Call(func, _) => match peel(func) {
            Ex::Path(p) => match last_seg_of(p) {
                Some(n) => str_same(n, "default"),
                None => false,
            },
            _ => false,
        },
        _ => false,
    }
}

/// `String::new` somewhere in a path: two adjacent segments `String`, `new`.
pub open spec fn is_string_new(func: Ex) -> bool {
    match peel_spec(func) {
        Ex::Path(p) => exists|i: int| 0 <= i && i + 1 < p.segs@.len() && #[trigger] p.segs@[i]@ == "String"@ && p.segs@[i + 1]@ == "new"@,
        _ => false,
    }
}

pub fn is_string_new_of(func: &Ex) -> (r: bool)
    ensures
        r == is_string_new(*func),
{
    match peel(func) {
        Ex::Path(p) => {
            let mut i: usize = 0;
            while i < p.segs.len()
                invariant
                    i <= p.segs@.len(),
                    peel_spec(*func) matches Ex::Path(q) && q == *p,
                    forall|j: int| 0 <= j < i && j + 1 < p.segs@.len() ==> !(#[trigger] p.segs@[j]@ == "String"@ && p.segs@[j + 1]@ == "new"@),
                decreases p.segs.len() - i,
            {
                if i + 1 < p.segs.len() && str_same(p.segs[i].as_str(), "String") && str_same(p.segs[i + 1].as_str(), "new") {
                    return true;
                }
                i = i + 1;
            }
            false
        },
        _ => false,
    }
}


/// `peel` gives the expression itself or a part of it.
pub proof fn lemma_peel_within(e: Ex)
    ensures
        peel_spec(e) == e || decreases_to!(e => peel_spec(e)),
    decreases e,
{
    match e {
        Ex::Paren(x) => {
            lemma_peel_within(*x);
        },
        Ex::Reference(x) => {
            lemma_peel_within(*x);
        },
        Ex::Deref(x) => {
            lemma_peel_within(*x);
        },
        Ex::MethodCall(recv, m, _) => {
            lemma_peel_within(*recv);
        },
        Ex::Call(func, args) => {
            if args@.len() == 1 {
                assert(decreases_to!(e => args@[0]));
                lemma_peel_within(args@[0]);
            }
        },
        _ => {},
    }
}

/// Fill `{}` holes of a format string with `args` in order, from char `pos`
/// and hole `i` on, `out` the text so far: `{{` and `}}` are braces; a lone
/// brace, too few or too many arguments give no text.
pub open spec fn fill_spec(fmt: Seq<char>, args: Seq<Seq<char>>, pos: int, i: int, out: Seq<char>) -> Option<Seq<char>>
    decreases fmt.len() - pos,
{
    if pos < 0 || pos >= fmt.len() {
        if i == args.len() {
            Some(out)
        } else {
            None
        }
    } else if fmt[pos] == '{' {
        if pos + 1 < fmt.len() && fmt[pos + 1] == '{' {
            fill_spec(fmt, args, pos + 2, i, out.push('{'))
        } else if pos + 1 < fmt.len() && fmt[pos + 1] == '}' {
            if 0 <= i < args.len() {
                fill_spec(fmt, args, pos + 2, i + 1, out + args[i])
            } else {
                None
            }
        } else {
            None
        }
    } else if fmt[pos] == '}' {
        if pos + 1 < fmt.len() && fmt[pos + 1] == '}' {
            fill_spec(fmt, args, pos + 2, i, out.push('}'))
        } else {
            None
        }
    } else {
        fill_spec(fmt, args, pos + 1, i, out.push(fmt[pos]))
    }
}

/// Fill the `{}` holes of `fmt` with `args`.
pub fn fill_braces(fmt: &str, args: &Vec<String>) -> (r: Option<String>)
    ensures
        match fill_spec(fmt@, crate::text::views(args@), 0, 0, Seq::empty()) {
            Some(t) => r matches Some(o) && o@ == t,
            None => r is None,
        },
{
    let ghost av = crate::text::views(args@);
    let n = fmt.unicode_len();
    let mut out = String::new();
    let mut pos: usize = 0;
    let mut i: usize = 0;
    while pos < n
        invariant
            n == fmt@.len(),
            pos <= n + 1,
            i <= args@.len(),
            av == crate::text::views(args@),
            fill_spec(fmt@, av, 0, 0, Seq::empty()) == fill_spec(fmt@, av, pos as int, i as int, out@),
        decreases n + 1 - pos,
    {
        let c = fmt.get_char(pos);
        if c == '{' {
            if pos + 1 < n && fmt.get_char(pos + 1) == '{' {
                crate::text::push_char(&mut out, '{');
                pos = pos + 2;
            } else if pos + 1 < n && fmt.get_char(pos + 1) == '}' {
                if i < args.len() {
                    let ghost before = out@;
                    out.append(args[i].as_str());
                    assert(av[i as int] == args@[i as int]@);
                    assert(out@ == before + av[i as int]);
                    pos = pos + 2;
                    i = i + 1;
                } else {
                    return None;
                }
            } else {
                return None;
            }
        } else if c == '}' {
            if pos + 1 < n && fmt.get_char(pos + 1) == '}' {
                crate::text::push_char(&mut out, '}');
                pos = pos + 2;
            } else {
                return None;
            }
        } else {
            crate::text::push_char(&mut out, c);
            pos = pos + 1;
        }
    }
    if i == args.len() {
        Some(out)
    } else {
        None
    }
}


/// A constructor that only wraps one value: `Some` / `Single`.
pub open spec fn is_wrapper_name(n: Option<Seq<char>>) -> bool {
    n == Some("Some"@) || n == Some("Single"@)
}

fn wrapper_name(n: Option<&str>) -> (r: bool)
    ensures
        r == is_wrapper_name(match n { Some(t) => Some(t@), None => None }),
{
    match n {
        Some(t) => str_same(t, "Some") || str_same(t, "Single"),
        None => false,
    }
}

pub open spec fn seg_last(segs: Seq<String>) -> Option<Seq<char>> {
    if segs.len() == 0 {
        None
    } else {
        Some(segs.last()@)
    }
}

fn seg_last_of(segs: &Vec<String>) -> (r: Option<&str>)
    ensures
        match seg_last(segs@) {
            Some(s) => r matches Some(t) && t@ == s,
            None => r is None,
        },
{
    let n = segs.len();
    if n == 0 {
        None
    } else {
        Some(segs[n - 1].as_str())
    }
}

/// The string literals a pattern accepts: `"a" | "b"`, under `Some(…)` /
/// `Single(…)`; `None` when the pattern is anything else.
pub open spec fn pat_str_lits(p: Pt) -> Option<Seq<Seq<char>>>
    decreases p, 0int,
{
    match p {
        Pt::Or(cases) => or_lits(cases, 0),
        Pt::TupleStruct(path, elems) => if is_wrapper_name(seg_last(path@)) && elems@.len() > 0 {
            pat_str_lits(elems@[0])
        } else {
            None
        },
        Pt::LitStr(s) => Some(seq![s@]),
        _ => None,
    }
}

/// The literals of the cases from index `i` on, in order.
pub open spec fn or_lits(cases: Vec<Pt>, i: int) -> Option<Seq<Seq<char>>>
    decreases cases, cases@.len() - i,
{
    if i < 0 || i >= cases@.len() {
        Some(Seq::empty())
    } else {
        match pat_str_lits(cases@[i]) {
            None => None,
            Some(a) => match or_lits(cases, i + 1) {
                None => None,
                Some(b) => Some(a + b),
            },
        }
    }
}

pub fn pat_str_lits_of(p: &Pt) -> (r: Option<Vec<String>>)
    ensures
        match pat_str_lits(*p) {
            Some(ls) => r matches Some(v) && crate::text::views(v@) == ls,
            None => r is None,
        },
    decreases p, 0int,
{
    match p {
        Pt::Or(cases) => {
            let mut out: Vec<String> = Vec::new();
            let mut i: usize = 0;
            while i < cases.len()
                invariant
                    i <= cases@.len(),
                    forall|j: int| 0 <= j < cases@.len() ==> #[trigger] decreases_to!(*p => cases@[j]),
                    *p == Pt::Or(*cases),
                    match or_lits(*cases, 0) {
                        Some(all) => or_lits(*cases, i as int) matches Some(rest) && all == crate::text::views(out@) + rest,
                        None => or_lits(*cases, i as int) is None,
                    },
                decreases cases.len() - i,
            {
                proof {
                    assert(decreases_to!(*cases => cases@[i as int]));
                }
                match pat_str_lits_of(&cases[i]) {
                    None => {
                        return None;
                    },
                    Some(ls) => {
                        let ghost before = out@;
                        let mut k: usize = 0;
                        while k < ls.len()
                            invariant
                                k <= ls@.len(),
                                crate::text::views(out@) == crate::text::views(before) + crate::text::views(ls@).take(k as int),
                            decreases ls.len() - k,
                        {
                            let ghost prev = out@;
                            let c = ls[k].clone();
                            assert(c@ == ls@[k as int]@);
                            out.push(c);
                            proof {
                                assert(crate::text::views(out@) =~= crate::text::views(prev).push(ls@[k as int]@));
                                assert(crate::text::views(ls@).take(k + 1) =~= crate::text::views(ls@).take(k as int).push(ls@[k as int]@));
                                assert(crate::text::views(out@) =~= crate::text::views(before) + crate::text::views(ls@).take(k + 1));
                            }
                            k = k + 1;
                        }
                        proof {
                            assert(crate::text::views(ls@).take(ls@.len() as int) =~= crate::text::views(ls@));
                            match or_lits(*cases, 0) {
                                Some(all) => {
                                    let rest = or_lits(*cases, i as int)->Some_0;
                                    let rest2 = or_lits(*cases, i + 1)->Some_0;
                                    assert(rest == crate::text::views(ls@) + rest2);
                                    assert(all =~= crate::text::views(out@) + rest2);
                                },
                                None => {},
                            }
                        }
                    },
                }
                i = i + 1;
            }
            proof {
                match or_lits(*cases, 0) {
                    Some(all) => {
                        assert(or_lits(*cases, i as int) == Some(Seq::<Seq<char>>::empty()));
                        assert(all =~= crate::text::views(out@));
                    },
                    None => {},
                }
            }
            Some(out)
        },
        Pt::TupleStruct(path, elems) => if wrapper_name(seg_last_of(path)) && elems.len() > 0 {
            proof {
                assert(decreases_to!(*p => elems@[0]));
            }
            pat_str_lits_of(&elems[0])
        } else {
            None
        },
        Pt::LitStr(t) => {
            let mut v: Vec<String> = Vec::new();
            v.push(t.clone());
            assert(crate::text::views(v@) =~= seq![t@]);
            Some(v)
        },
        _ => None,
    }
}

/// The name a pattern binds: `x`, `&x`, `Some(x)`, `Single(x)`.
pub open spec fn pat_ident(p: Pt) -> Option<Seq<char>>
    decreases p,
{
    match p {
        Pt::Ident(n) => Some(n@),
        Pt::Reference(r) => pat_ident(*r),
        Pt::TupleStruct(path, elems) => if is_wrapper_name(seg_last(path@)) && elems@.len() > 0 {
            pat_ident(elems@[0])
        } else {
            None
        },
        _ => None,
    }
}

pub fn pat_ident_of(p: &Pt) -> (r: Option<&str>)
    ensures
        match pat_ident(*p) {
            Some(s) => r matches Some(t) && t@ == s,
            None => r is None,
        },
    decreases p,
{
    match p {
        Pt::Ident(n) => Some(n.as_str()),
        Pt::Reference(r) => pat_ident_of(r),
        Pt::TupleStruct(path, elems) => if wrapper_name(seg_last_of(path)) && elems.len() > 0 {
            proof {
                assert(decreases_to!(*p => elems@[0]));
            }
            pat_ident_of(&elems[0])
        } else {
            None
        },
        _ => None,
    }
}

/// `Multiple(…)`.
pub open spec fn pat_is_multiple(p: Pt) -> bool {
    match p {
        Pt::TupleStruct(path, _) => seg_last(path@) == Some("Multiple"@),
        _ => false,
    }
}

pub fn pat_is_multiple_of(p: &Pt) -> (r: bool)
    ensures
        r == pat_is_multiple(*p),
{
    match p {
        Pt::TupleStruct(path, _) => match seg_last_of(path) {
            Some(n) => str_same(n, "Multiple"),
            None => false,
        },
        _ => false,
    }
}

/// `x == "lit"` or `"lit" == x`: the literal, as a one-element list.
pub open spec fn eq_str_lits(e: Ex) -> Option<Seq<Seq<char>>> {
    match peel_spec(e) {
        Ex::Binary(l, BinKind::Eq, r) => match lit_str(*l) {
            Some(s) => Some(seq![s]),
            None => match lit_str(*r) {
                Some(s) => Some(seq![s]),
                None => None,
            },
        },
        _ => None,
    }
}

pub fn eq_str_lits_of(e: &Ex) -> (r: Option<Vec<String>>)
    ensures
        match eq_str_lits(*e) {
            Some(ls) => r matches Some(v) && crate::text::views(v@) == ls,
            None => r is None,
        },
{
    match peel(e) {
        Ex::Binary(l, BinKind::Eq, r) => {
            let s = match lit_str_of(l) {
                Some(s) => s,
                None => match lit_str_of(r) {
                    Some(s) => s,
                    None => {
                        return None;
                    },
                },
            };
            let mut v: Vec<String> = Vec::new();
            v.push(s.to_owned());
            assert(crate::text::views(v@) =~= seq![s@]);
            Some(v)
        },
        _ => None,
    }
}

} // verus!
