//! Read Rust source with `syn` and lower it to the plain syntax Unfold walks.
//! Each `syn` node is read through a small trusted accessor; the lowering
//! itself is verified code.
use vstd::prelude::*;
use crate::syntax::{
    is_ident_spec, path_is_ident, Arg, AttrAst, BinKind, Delim, Ex, FieldAst, FileAst, FnAst, ItemAst, MacroArgs,
    PathAst, Pt, St, StructAst, Tok, TyAst,
};
use crate::text::{blank, blank_spec, str_same};

verus! {

#[verifier::external_type_specification]
#[verifier::external_body]
pub struct ExSynFile(syn::File);

#[verifier::external_type_specification]
#[verifier::external_body]
pub struct ExSynItem(syn::Item);

#[verifier::external_type_specification]
#[verifier::external_body]
pub struct ExSynItemFn(syn::ItemFn);

#[verifier::external_type_specification]
#[verifier::external_body]
pub struct ExSynItemImpl(syn::ItemImpl);

#[verifier::external_type_specification]
#[verifier::external_body]
pub struct ExSynImplItem(syn::ImplItem);

#[verifier::external_type_specification]
#[verifier::external_body]
pub struct ExSynImplItemFn(syn::ImplItemFn);

#[verifier::external_type_specification]
#[verifier::external_body]
pub struct ExSynIdent(syn::Ident);

#[verifier::external_type_specification]
#[verifier::external_body]
pub struct ExSynFnArg(syn::FnArg);

#[verifier::external_type_specification]
#[verifier::external_body]
pub struct ExSynType(syn::Type);

#[verifier::external_type_specification]
#[verifier::external_body]
pub struct ExSynPath(syn::Path);

#[verifier::external_type_specification]
#[verifier::external_body]
pub struct ExSynAttribute(syn::Attribute);

#[verifier::external_type_specification]
#[verifier::external_body]
pub struct ExSynBlock(syn::Block);

#[verifier::external_type_specification]
#[verifier::external_body]
pub struct ExSynStmt(syn::Stmt);

#[verifier::external_type_specification]
#[verifier::external_body]
pub struct ExSynExpr(syn::Expr);

#[verifier::external_type_specification]
#[verifier::external_body]
pub struct ExSynFieldValue(syn::FieldValue);

#[verifier::external_type_specification]
#[verifier::external_body]
pub struct ExSynMember(syn::Member);

#[verifier::external_type_specification]
#[verifier::external_body]
pub struct ExSynArm(syn::Arm);

#[verifier::external_type_specification]
#[verifier::external_body]
pub struct ExSynBinOp(syn::BinOp);

#[verifier::external_type_specification]
#[verifier::external_body]
pub struct ExSynPat(syn::Pat);

#[verifier::external_type_specification]
#[verifier::external_body]
pub struct ExSynMacro(syn::Macro);

#[verifier::external_type_specification]
#[verifier::external_body]
pub struct ExSynError(syn::Error);

#[verifier::external_type_specification]
#[verifier::external_body]
pub struct ExSynPathSegment(syn::PathSegment);

#[verifier::external_type_specification]
#[verifier::external_body]
pub struct ExSynParseBuffer<'a>(syn::parse::ParseBuffer<'a>);

#[verifier::external_type_specification]
#[verifier::external_body]
pub struct ExTokenStream(proc_macro2::TokenStream);

#[verifier::external_type_specification]
#[verifier::external_body]
pub struct ExTokenTree(proc_macro2::TokenTree);

#[verifier::external_type_specification]
#[verifier::external_body]
pub struct ExSynLit(syn::Lit);

/// The trees of a token stream, in order.
#[verifier::external_body]
fn stream_trees(ts: &proc_macro2::TokenStream) -> Vec<proc_macro2::TokenTree> {
    ts.clone().into_iter().collect()
}

/// `TokenTree::Group`: its delimiter (`None` for an invisible group) and tokens.
#[verifier::external_body]
fn tree_group(t: &proc_macro2::TokenTree) -> Option<(Option<Delim>, proc_macro2::TokenStream)> {
    match t {
        proc_macro2::TokenTree::Group(g) => Some((
            match g.delimiter() {
                proc_macro2::Delimiter::Parenthesis => Some(Delim::Paren),
                proc_macro2::Delimiter::Bracket => Some(Delim::Bracket),
                proc_macro2::Delimiter::Brace => Some(Delim::Brace),
                proc_macro2::Delimiter::None => None,
            },
            g.stream(),
        )),
        _ => None,
    }
}

/// `TokenTree::Punct`: its character and whether its spacing is `Joint`.
#[verifier::external_body]
fn tree_punct(t: &proc_macro2::TokenTree) -> Option<(char, bool)> {
    match t {
        proc_macro2::TokenTree::Punct(p) => Some((
            p.as_char(),
            match p.spacing() {
                proc_macro2::Spacing::Joint => true,
                proc_macro2::Spacing::Alone => false,
            },
        )),
        _ => None,
    }
}

/// `TokenTree::Ident`: its text, and whether `syn` parses it as an `Ident`
/// (it is no keyword).
#[verifier::external_body]
fn tree_ident(t: &proc_macro2::TokenTree) -> Option<(String, bool)> {
    match t {
        proc_macro2::TokenTree::Ident(i) => {
            Some((i.to_string(), syn::parse2::<syn::Ident>(proc_macro2::TokenStream::from(t.clone())).is_ok()))
        },
        _ => None,
    }
}

/// `TokenTree::Literal`, as `syn::Lit::new` reads it.
#[verifier::external_body]
fn tree_lit(t: &proc_macro2::TokenTree) -> Option<syn::Lit> {
    match t {
        proc_macro2::TokenTree::Literal(l) => Some(syn::Lit::new(l.clone())),
        _ => None,
    }
}

/// `Lit::Str`: its value (`LitStr::value`).
#[verifier::external_body]
fn lit_str_value(l: &syn::Lit) -> Option<String> {
    match l {
        syn::Lit::Str(s) => Some(s.value()),
        _ => None,
    }
}

/// `Lit::Int`: `LitInt::base10_parse::<usize>`, `None` when it does not fit.
#[verifier::external_body]
fn lit_int_value(l: &syn::Lit) -> Option<Option<usize>> {
    match l {
        syn::Lit::Int(i) => Some(i.base10_parse::<usize>().ok()),
        _ => None,
    }
}

/// How deep token groups are read: as deep as a `usize` counts, so no
/// stream that can be held is cut (deeper groups would read as empty).
pub const TOKEN_DEPTH: usize = usize::MAX;

/// The tokens of a stream; invisible groups are read through; at depth zero,
/// none.
pub fn lower_tokens(ts: &proc_macro2::TokenStream, fuel: usize) -> (r: Vec<Tok>)
    ensures
        fuel == 0 ==> r@.len() == 0,
    decreases fuel,
{
    let mut out: Vec<Tok> = Vec::new();
    if fuel == 0 {
        return out;
    }
    let trees = stream_trees(ts);
    let mut i: usize = 0;
    while i < trees.len()
        invariant
            i <= trees@.len(),
            fuel > 0,
        decreases trees.len() - i,
    {
        let t = &trees[i];
        match tree_group(t) {
            Some((Some(d), inner)) => {
                out.push(Tok::Group(d, lower_tokens(&inner, fuel - 1)));
            },
            Some((None, inner)) => {
                let mut inside = lower_tokens(&inner, fuel - 1);
                out.append(&mut inside);
            },
            None => match tree_punct(t) {
                Some((c, joint)) => {
                    out.push(Tok::Punct(c, joint));
                },
                None => match tree_ident(t) {
                    Some((s, true)) => {
                        out.push(Tok::Ident(s));
                    },
                    Some((s, false)) => {
                        out.push(Tok::Keyword(s));
                    },
                    None => match tree_lit(t) {
                        Some(l) => {
                            let tok = match lit_str_value(&l) {
                                Some(s) => Tok::Str(s),
                                None => match lit_int_value(&l) {
                                    Some(n) => Tok::Int(n),
                                    None => Tok::Lit,
                                },
                            };
                            out.push(tok);
                        },
                        None => {
                            out.push(Tok::Other);
                        },
                    },
                },
            },
        }
        i = i + 1;
    }
    out
}

/// Whether `syn::parse_str::<syn::File>` accepts the text (a function of the
/// text alone).
pub uninterp spec fn parses_as_file(source: Seq<char>) -> bool;

/// `syn::parse_str::<syn::File>`: the parsed file or syn's error. Claimed:
/// it succeeds exactly on the texts that parse as a file; what the parsed
/// file holds is left unsaid (syn's values are opaque here).
#[verifier::external_body]
fn parse_syn_file(source: &str) -> (r: Result<syn::File, syn::Error>)
    ensures
        r is Ok <==> parses_as_file(source@),
{
    syn::parse_str::<syn::File>(source)
}

/// `syn::Error`'s `Display` text.
#[verifier::external_body]
fn error_text(e: &syn::Error) -> String {
    e.to_string()
}

/// The text of an identifier (`Ident::to_string`).
#[verifier::external_body]
fn ident_text(i: &syn::Ident) -> String {
    i.to_string()
}

/// The items of a file, in order (`File::items`).
#[verifier::external_body]
fn file_items(f: &syn::File) -> Vec<&syn::Item> {
    f.items.iter().collect()
}

/// `Item::Fn`, its name, parameters, body and attributes.
#[verifier::external_body]
fn item_fn(i: &syn::Item) -> Option<(&syn::Ident, Vec<&syn::FnArg>, &syn::Block, Vec<&syn::Attribute>)> {
    match i {
        syn::Item::Fn(f) => Some((&f.sig.ident, f.sig.inputs.iter().collect(), &*f.block, f.attrs.iter().collect())),
        _ => None,
    }
}

/// `Item::Impl`, its self type and its items.
#[verifier::external_body]
fn item_impl(i: &syn::Item) -> Option<(&syn::Type, Vec<&syn::ImplItem>)> {
    match i {
        syn::Item::Impl(im) => Some((&*im.self_ty, im.items.iter().collect())),
        _ => None,
    }
}

/// `ImplItem::Fn`, its name, parameters, body and attributes.
#[verifier::external_body]
fn impl_item_fn(i: &syn::ImplItem) -> Option<(&syn::Ident, Vec<&syn::FnArg>, &syn::Block, Vec<&syn::Attribute>)> {
    match i {
        syn::ImplItem::Fn(m) => Some((&m.sig.ident, m.sig.inputs.iter().collect(), &m.block, m.attrs.iter().collect())),
        _ => None,
    }
}

/// `FnArg::Typed`: its pattern and type; `None` for a receiver.
#[verifier::external_body]
fn fn_arg_typed(a: &syn::FnArg) -> Option<(&syn::Pat, &syn::Type)> {
    match a {
        syn::FnArg::Typed(pt) => Some((&*pt.pat, &*pt.ty)),
        syn::FnArg::Receiver(_) => None,
    }
}

/// `Type::Path`: its path.
#[verifier::external_body]
fn type_path(t: &syn::Type) -> Option<&syn::Path> {
    match t {
        syn::Type::Path(p) => Some(&p.path),
        _ => None,
    }
}

/// `Type::Reference` / `Type::Paren`: the inner type.
#[verifier::external_body]
fn type_inner(t: &syn::Type) -> Option<&syn::Type> {
    match t {
        syn::Type::Reference(r) => Some(&*r.elem),
        syn::Type::Paren(p) => Some(&*p.elem),
        _ => None,
    }
}

/// The identifiers of a path's segments, in order.
#[verifier::external_body]
fn path_segments(p: &syn::Path) -> Vec<&syn::Ident> {
    p.segments.iter().map(|s| &s.ident).collect()
}

/// `Path::get_ident`: the path's one identifier, when it is a plain one.
#[verifier::external_body]
fn path_get_ident(p: &syn::Path) -> Option<&syn::Ident> {
    p.get_ident()
}

/// `Attribute::path`.
#[verifier::external_body]
fn attr_path(a: &syn::Attribute) -> &syn::Path {
    a.path()
}

/// `Attribute::parse_args::<LitStr>`: the string literal the attribute's
/// arguments are, if they are one.
#[verifier::external_body]
fn attr_lit_str(a: &syn::Attribute) -> Option<String> {
    match a.parse_args::<syn::LitStr>() {
        Ok(s) => Some(s.value()),
        Err(_) => None,
    }
}

/// `Item::Struct`: its name, attributes, and its fields when they are named,
/// each as its name (`Field::ident`), type and attributes.
#[verifier::external_body]
fn item_struct(i: &syn::Item) -> Option<(&syn::Ident, Vec<&syn::Attribute>, Option<Vec<(Option<&syn::Ident>, &syn::Type, Vec<&syn::Attribute>)>>)> {
    match i {
        syn::Item::Struct(s) => Some((&s.ident, s.attrs.iter().collect(), match &s.fields {
            syn::Fields::Named(n) => Some(n.named.iter().map(|f| (f.ident.as_ref(), &f.ty, f.attrs.iter().collect())).collect()),
            _ => None,
        })),
        _ => None,
    }
}

/// `Item::Enum`: its name.
#[verifier::external_body]
fn item_enum(i: &syn::Item) -> Option<&syn::Ident> {
    match i {
        syn::Item::Enum(e) => Some(&e.ident),
        _ => None,
    }
}

/// `Item::Mod`: its inline items (`ItemMod::content`), `None` for `mod m;`.
#[verifier::external_body]
fn item_mod(i: &syn::Item) -> Option<Option<Vec<&syn::Item>>> {
    match i {
        syn::Item::Mod(m) => Some(match &m.content {
            Some((_, items)) => Some(items.iter().collect()),
            None => None,
        }),
        _ => None,
    }
}

/// `Meta::List` of an attribute: the tokens between its delimiters.
#[verifier::external_body]
fn attr_list(a: &syn::Attribute) -> Option<proc_macro2::TokenStream> {
    match &a.meta {
        syn::Meta::List(list) => Some(list.tokens.clone()),
        _ => None,
    }
}

/// `Punctuated::<Expr, Token![,]>::parse_terminated` on tokens: the
/// expressions, or syn's error.
#[verifier::external_body]
fn tokens_exprs(ts: &proc_macro2::TokenStream) -> Result<Vec<syn::Expr>, syn::Error> {
    let parser = syn::punctuated::Punctuated::<syn::Expr, syn::token::Comma>::parse_terminated;
    match syn::parse::Parser::parse2(parser, ts.clone()) {
        Ok(p) => Ok(p.into_iter().collect()),
        Err(e) => Err(e),
    }
}

/// The segments of a path, in order (`Path::segments`).
#[verifier::external_body]
fn path_segs(p: &syn::Path) -> Vec<&syn::PathSegment> {
    p.segments.iter().collect()
}

/// `PathSegment::ident`.
#[verifier::external_body]
fn segment_ident(s: &syn::PathSegment) -> &syn::Ident {
    &s.ident
}

/// A segment's first generic argument, when its arguments are in angle
/// brackets and that argument is a type.
#[verifier::external_body]
fn segment_first_type(s: &syn::PathSegment) -> Option<&syn::Type> {
    match &s.arguments {
        syn::PathArguments::AngleBracketed(a) => match a.args.first() {
            Some(syn::GenericArgument::Type(t)) => Some(t),
            _ => None,
        },
        _ => None,
    }
}

/// The statements of a block, in order.
#[verifier::external_body]
fn block_stmts(b: &syn::Block) -> Vec<&syn::Stmt> {
    b.stmts.iter().collect()
}

/// `Stmt::Expr`: the expression and whether a `;` follows it.
#[verifier::external_body]
fn stmt_expr(s: &syn::Stmt) -> Option<(&syn::Expr, bool)> {
    match s {
        syn::Stmt::Expr(e, semi) => Some((e, semi.is_some())),
        _ => None,
    }
}

/// `Stmt::Local`: the pattern and the initializer's expression.
#[verifier::external_body]
fn stmt_local(s: &syn::Stmt) -> Option<(&syn::Pat, Option<&syn::Expr>)> {
    match s {
        syn::Stmt::Local(l) => Some((&l.pat, l.init.as_ref().map(|i| &*i.expr))),
        _ => None,
    }
}

/// `Expr::If`: condition, block, and the `else` expression.
#[verifier::external_body]
fn expr_if(e: &syn::Expr) -> Option<(&syn::Expr, &syn::Block, Option<&syn::Expr>)> {
    match e {
        syn::Expr::If(i) => Some((&*i.cond, &i.then_branch, i.else_branch.as_ref().map(|x| &*x.1))),
        _ => None,
    }
}

/// `Expr::Block`: the block.
#[verifier::external_body]
fn expr_block(e: &syn::Expr) -> Option<&syn::Block> {
    match e {
        syn::Expr::Block(b) => Some(&b.block),
        _ => None,
    }
}

/// `Expr::Return`: the returned expression, if any.
#[verifier::external_body]
fn expr_return(e: &syn::Expr) -> Option<Option<&syn::Expr>> {
    match e {
        syn::Expr::Return(r) => Some(r.expr.as_deref()),
        _ => None,
    }
}

/// `Expr::Assign`: left and right.
#[verifier::external_body]
fn expr_assign(e: &syn::Expr) -> Option<(&syn::Expr, &syn::Expr)> {
    match e {
        syn::Expr::Assign(a) => Some((&*a.left, &*a.right)),
        _ => None,
    }
}

/// `Expr::Field`: base and member.
#[verifier::external_body]
fn expr_field(e: &syn::Expr) -> Option<(&syn::Expr, &syn::Member)> {
    match e {
        syn::Expr::Field(f) => Some((&*f.base, &f.member)),
        _ => None,
    }
}

/// The text of a member: a name, or a tuple index in decimal.
#[verifier::external_body]
fn member_text(m: &syn::Member) -> String {
    match m {
        syn::Member::Named(id) => id.to_string(),
        syn::Member::Unnamed(i) => i.index.to_string(),
    }
}

/// `Member::Named`: the name.
#[verifier::external_body]
fn member_named(m: &syn::Member) -> Option<&syn::Ident> {
    match m {
        syn::Member::Named(id) => Some(id),
        syn::Member::Unnamed(_) => None,
    }
}

/// `Expr::Path`: the path.
#[verifier::external_body]
fn expr_path(e: &syn::Expr) -> Option<&syn::Path> {
    match e {
        syn::Expr::Path(p) => Some(&p.path),
        _ => None,
    }
}

/// `Expr::Struct`: the path and the field values, in order.
#[verifier::external_body]
fn expr_struct(e: &syn::Expr) -> Option<(&syn::Path, Vec<&syn::FieldValue>)> {
    match e {
        syn::Expr::Struct(s) => Some((&s.path, s.fields.iter().collect())),
        _ => None,
    }
}

/// A field value's member and expression.
#[verifier::external_body]
fn field_value(f: &syn::FieldValue) -> (&syn::Member, &syn::Expr) {
    (&f.member, &f.expr)
}

/// `Expr::Call`: the function and the arguments.
#[verifier::external_body]
fn expr_call(e: &syn::Expr) -> Option<(&syn::Expr, Vec<&syn::Expr>)> {
    match e {
        syn::Expr::Call(c) => Some((&*c.func, c.args.iter().collect())),
        _ => None,
    }
}

/// `Expr::MethodCall`: receiver, method and arguments.
#[verifier::external_body]
fn expr_method(e: &syn::Expr) -> Option<(&syn::Expr, &syn::Ident, Vec<&syn::Expr>)> {
    match e {
        syn::Expr::MethodCall(m) => Some((&*m.receiver, &m.method, m.args.iter().collect())),
        _ => None,
    }
}

/// `Expr::Closure`: the parameter patterns and the body.
#[verifier::external_body]
fn expr_closure(e: &syn::Expr) -> Option<(Vec<&syn::Pat>, &syn::Expr)> {
    match e {
        syn::Expr::Closure(c) => Some((c.inputs.iter().collect(), &*c.body)),
        _ => None,
    }
}

/// `Expr::Match`: the scrutinee and the arms.
#[verifier::external_body]
fn expr_match(e: &syn::Expr) -> Option<(&syn::Expr, Vec<&syn::Arm>)> {
    match e {
        syn::Expr::Match(m) => Some((&*m.expr, m.arms.iter().collect())),
        _ => None,
    }
}

/// An arm's pattern and body.
#[verifier::external_body]
fn arm_parts(a: &syn::Arm) -> (&syn::Pat, &syn::Expr) {
    (&a.pat, &*a.body)
}

/// How an expression wraps another.
pub enum Wrap {
    Paren,
    Reference,
    Deref,
}

/// `Expr::Paren` / `Expr::Reference` / `Expr::Unary` with `*`: the inner expression.
#[verifier::external_body]
fn expr_wrapped(e: &syn::Expr) -> Option<(Wrap, &syn::Expr)> {
    match e {
        syn::Expr::Paren(p) => Some((Wrap::Paren, &*p.expr)),
        syn::Expr::Reference(r) => Some((Wrap::Reference, &*r.expr)),
        syn::Expr::Unary(syn::ExprUnary { op: syn::UnOp::Deref(_), expr, .. }) => Some((Wrap::Deref, &**expr)),
        _ => None,
    }
}

/// `Expr::Binary`: left, operator and right.
#[verifier::external_body]
fn expr_binary(e: &syn::Expr) -> Option<(&syn::Expr, &syn::BinOp, &syn::Expr)> {
    match e {
        syn::Expr::Binary(b) => Some((&*b.left, &b.op, &*b.right)),
        _ => None,
    }
}

/// The kind of a binary operator: `&&`, `||`, `==`, or another.
#[verifier::external_body]
fn binop_kind(op: &syn::BinOp) -> BinKind {
    match op {
        syn::BinOp::And(_) => BinKind::And,
        syn::BinOp::Or(_) => BinKind::Or,
        syn::BinOp::Eq(_) => BinKind::Eq,
        _ => BinKind::Other,
    }
}

/// `Expr::Lit` of a string literal: its value.
#[verifier::external_body]
fn expr_lit_str(e: &syn::Expr) -> Option<String> {
    match e {
        syn::Expr::Lit(syn::ExprLit { lit: syn::Lit::Str(s), .. }) => Some(s.value()),
        _ => None,
    }
}

/// `Expr::Macro`: the macro.
#[verifier::external_body]
fn expr_macro(e: &syn::Expr) -> Option<&syn::Macro> {
    match e {
        syn::Expr::Macro(m) => Some(&m.mac),
        _ => None,
    }
}

/// A macro's path.
#[verifier::external_body]
fn macro_path(m: &syn::Macro) -> &syn::Path {
    &m.path
}

/// `Expr::Array`: the elements.
#[verifier::external_body]
fn expr_array(e: &syn::Expr) -> Option<Vec<&syn::Expr>> {
    match e {
        syn::Expr::Array(a) => Some(a.elems.iter().collect()),
        _ => None,
    }
}

/// `Punctuated::<Expr, Token![,]>::parse_terminated` on a macro's tokens:
/// the comma-separated expressions, if the tokens are that.
#[verifier::external_body]
fn macro_exprs(m: &syn::Macro) -> Option<Vec<syn::Expr>> {
    let parser = syn::punctuated::Punctuated::<syn::Expr, syn::token::Comma>::parse_terminated;
    match syn::parse::Parser::parse2(parser, m.tokens.clone()) {
        Ok(p) => Some(p.into_iter().collect()),
        Err(_) => None,
    }
}

/// `Parser::parse2` of a macro's tokens with [`matches_args`].
#[verifier::external_body]
fn macro_matches(m: &syn::Macro) -> Option<(syn::Expr, syn::Pat, Option<syn::Expr>)> {
    match syn::parse::Parser::parse2(matches_args, m.tokens.clone()) {
        Ok(x) => Some(x),
        Err(_) => None,
    }
}

/// `ParseBuffer::parse::<Expr>`.
#[verifier::external_body]
fn take_expr(input: &syn::parse::ParseBuffer) -> Result<syn::Expr, syn::Error> {
    input.parse::<syn::Expr>()
}

/// `ParseBuffer::parse::<Token![,]>`.
#[verifier::external_body]
fn take_comma(input: &syn::parse::ParseBuffer) -> Result<(), syn::Error> {
    match input.parse::<syn::token::Comma>() {
        Ok(_) => Ok(()),
        Err(e) => Err(e),
    }
}

/// `ParseBuffer::parse::<Token![if]>`.
#[verifier::external_body]
fn take_if(input: &syn::parse::ParseBuffer) -> Result<(), syn::Error> {
    match input.parse::<syn::token::If>() {
        Ok(_) => Ok(()),
        Err(e) => Err(e),
    }
}

/// `ParseBuffer::peek(Token![if])`.
#[verifier::external_body]
fn peek_if(input: &syn::parse::ParseBuffer) -> bool {
    input.peek(syn::token::If)
}

/// `Pat::parse_multi`.
#[verifier::external_body]
fn take_pat(input: &syn::parse::ParseBuffer) -> Result<syn::Pat, syn::Error> {
    syn::Pat::parse_multi(input)
}

/// The arguments of `matches!`: `expr, pattern`, an optional `if guard`,
/// and an optional trailing comma.
fn matches_args(input: &syn::parse::ParseBuffer) -> Result<(syn::Expr, syn::Pat, Option<syn::Expr>), syn::Error> {
    let expr = take_expr(input)?;
    take_comma(input)?;
    let pat = take_pat(input)?;
    let guard = if peek_if(input) {
        take_if(input)?;
        Some(take_expr(input)?)
    } else {
        None
    };
    let _ = take_comma(input);
    Ok((expr, pat, guard))
}

/// `Pat::Ident`: the name.
#[verifier::external_body]
fn pat_ident_of(p: &syn::Pat) -> Option<&syn::Ident> {
    match p {
        syn::Pat::Ident(i) => Some(&i.ident),
        _ => None,
    }
}

/// `Pat::Reference`: the inner pattern.
#[verifier::external_body]
fn pat_reference(p: &syn::Pat) -> Option<&syn::Pat> {
    match p {
        syn::Pat::Reference(r) => Some(&*r.pat),
        _ => None,
    }
}

/// `Pat::TupleStruct`: the path and the element patterns.
#[verifier::external_body]
fn pat_tuple_struct(p: &syn::Pat) -> Option<(&syn::Path, Vec<&syn::Pat>)> {
    match p {
        syn::Pat::TupleStruct(t) => Some((&t.path, t.elems.iter().collect())),
        _ => None,
    }
}

/// `Pat::Or`: the cases.
#[verifier::external_body]
fn pat_or(p: &syn::Pat) -> Option<Vec<&syn::Pat>> {
    match p {
        syn::Pat::Or(o) => Some(o.cases.iter().collect()),
        _ => None,
    }
}

/// `Pat::Lit` of a string literal: its value.
#[verifier::external_body]
fn pat_lit_str(p: &syn::Pat) -> Option<String> {
    match p {
        syn::Pat::Lit(syn::ExprLit { lit: syn::Lit::Str(s), .. }) => Some(s.value()),
        _ => None,
    }
}


// ---------------------------------------------------------------------------
// The lowering.
// ---------------------------------------------------------------------------

/// A statement whose parts read as `Other` (what depth zero gives).
pub open spec fn flat_st(s: St) -> bool {
    match s {
        St::Expr(x, _) => x is Other,
        St::Local(p, init) => p is Other && (init matches Some(x) ==> x is Other),
        St::Other => true,
    }
}

/// A function's `#[except]` reason, when it has one, is not blank.
pub open spec fn except_read(f: FnAst) -> bool {
    f.except matches Some(v) ==> !blank_spec(v@)
}

/// Every function the item holds has a non-blank `#[except]` reason, if any.
pub open spec fn fn_reasons_read(it: ItemAst) -> bool {
    match it {
        ItemAst::Fn(f) => except_read(f),
        ItemAst::Impl(_, fs) => forall|k: int| 0 <= k < fs@.len() ==> except_read(#[trigger] fs@[k]),
        _ => true,
    }
}

/// How deep the lowering goes into nested syntax: as deep as a `usize`
/// counts, so no tree that can be held is cut (deeper parts would read as
/// `Other`).
pub const LOWER_DEPTH: usize = usize::MAX;

fn texts(ids: &Vec<&syn::Ident>) -> (r: Vec<String>)
    ensures
        r@.len() == ids@.len(),
{
    let mut out: Vec<String> = Vec::new();
    let mut i: usize = 0;
    while i < ids.len()
        invariant
            i <= ids@.len(),
            out@.len() == i,
        decreases ids.len() - i,
    {
        out.push(ident_text(ids[i]));
        i = i + 1;
    }
    out
}

fn lower_path(p: &syn::Path) -> PathAst {
    let segs = texts(&path_segments(p));
    PathAst { segs, plain: path_get_ident(p).is_some() }
}

/// One pattern per pattern, in order.
fn lower_pats(ps: &Vec<&syn::Pat>, fuel: usize) -> (r: Vec<Pt>)
    ensures
        r@.len() == ps@.len(),
        fuel == 0 ==> forall|k: int| 0 <= k < r@.len() ==> (#[trigger] r@[k]) is Other,
    decreases fuel, 1int,
{
    let mut out: Vec<Pt> = Vec::new();
    let mut i: usize = 0;
    while i < ps.len()
        invariant
            i <= ps@.len(),
            out@.len() == i,
            fuel == 0 ==> forall|k: int| 0 <= k < out@.len() ==> (#[trigger] out@[k]) is Other,
        decreases ps.len() - i,
    {
        out.push(lower_pat(ps[i], fuel));
        i = i + 1;
    }
    out
}

/// A pattern; at depth zero, `Other`.
fn lower_pat(p: &syn::Pat, fuel: usize) -> (r: Pt)
    ensures
        fuel == 0 ==> r is Other,
    decreases fuel, 0int,
{
    if fuel == 0 {
        return Pt::Other;
    }
    let f = fuel - 1;
    match pat_ident_of(p) {
        Some(i) => {
            return Pt::Ident(ident_text(i));
        },
        None => {},
    }
    match pat_reference(p) {
        Some(q) => {
            return Pt::Reference(Box::new(lower_pat(q, f)));
        },
        None => {},
    }
    match pat_tuple_struct(p) {
        Some((path, elems)) => {
            return Pt::TupleStruct(lower_path(path).segs, lower_pats(&elems, f));
        },
        None => {},
    }
    match pat_or(p) {
        Some(cases) => {
            return Pt::Or(lower_pats(&cases, f));
        },
        None => {},
    }
    match pat_lit_str(p) {
        Some(s) => Pt::LitStr(s),
        None => Pt::Other,
    }
}

/// One expression per expression, in order.
fn lower_exprs(xs: &Vec<&syn::Expr>, fuel: usize) -> (r: Vec<Ex>)
    ensures
        r@.len() == xs@.len(),
        fuel == 0 ==> forall|k: int| 0 <= k < r@.len() ==> (#[trigger] r@[k]) is Other,
    decreases fuel, 1int,
{
    let mut out: Vec<Ex> = Vec::new();
    let mut i: usize = 0;
    while i < xs.len()
        invariant
            i <= xs@.len(),
            out@.len() == i,
            fuel == 0 ==> forall|k: int| 0 <= k < out@.len() ==> (#[trigger] out@[k]) is Other,
        decreases xs.len() - i,
    {
        out.push(lower_expr(xs[i], fuel));
        i = i + 1;
    }
    out
}

/// One expression per expression, in order.
fn lower_owned_exprs(xs: &Vec<syn::Expr>, fuel: usize) -> (r: Vec<Ex>)
    ensures
        r@.len() == xs@.len(),
        fuel == 0 ==> forall|k: int| 0 <= k < r@.len() ==> (#[trigger] r@[k]) is Other,
    decreases fuel, 1int,
{
    let mut out: Vec<Ex> = Vec::new();
    let mut i: usize = 0;
    while i < xs.len()
        invariant
            i <= xs@.len(),
            out@.len() == i,
            fuel == 0 ==> forall|k: int| 0 <= k < out@.len() ==> (#[trigger] out@[k]) is Other,
        decreases xs.len() - i,
    {
        out.push(lower_expr(&xs[i], fuel));
        i = i + 1;
    }
    out
}

/// An optional expression: present exactly when it is.
fn lower_opt(x: Option<&syn::Expr>, fuel: usize) -> (r: Option<Box<Ex>>)
    ensures
        r is Some <==> x is Some,
        fuel == 0 ==> (r matches Some(b) ==> *b is Other),
    decreases fuel, 1int,
{
    match x {
        Some(e) => Some(Box::new(lower_expr(e, fuel))),
        None => None,
    }
}

/// A macro call: `matches!` read as its three parts, `format!` and `vec!`
/// as a list of expressions, any other macro as opaque.
fn lower_macro(m: &syn::Macro, fuel: usize) -> (r: Ex)
    ensures
        r matches Ex::Macro(p, a) && if is_ident_spec(p, "matches"@) {
            a is Matches
        } else if is_ident_spec(p, "format"@) || is_ident_spec(p, "vec"@) {
            a is List
        } else {
            a is Opaque
        },
    decreases fuel, 2int,
{
    let path = lower_path(macro_path(m));
    let args = if path_is_ident(&path, "matches") {
        MacroArgs::Matches(
            match macro_matches(m) {
                Some((x, p, g)) => {
                    let gx = match &g {
                        Some(e) => Some(Box::new(lower_expr(e, fuel))),
                        None => None,
                    };
                    Some((Box::new(lower_expr(&x, fuel)), lower_pat(&p, fuel), gx))
                },
                None => None,
            },
        )
    } else if path_is_ident(&path, "format") || path_is_ident(&path, "vec") {
        MacroArgs::List(
            match macro_exprs(m) {
                Some(xs) => Some(lower_owned_exprs(&xs, fuel)),
                None => None,
            },
        )
    } else {
        MacroArgs::Opaque
    };
    Ex::Macro(path, args)
}

/// One field per field value, in order.
fn lower_fields(fs: &Vec<&syn::FieldValue>, fuel: usize) -> (r: Vec<(Option<String>, Ex)>)
    ensures
        r@.len() == fs@.len(),
        fuel == 0 ==> forall|k: int| 0 <= k < r@.len() ==> (#[trigger] r@[k]).1 is Other,
    decreases fuel, 1int,
{
    let mut out: Vec<(Option<String>, Ex)> = Vec::new();
    let mut i: usize = 0;
    while i < fs.len()
        invariant
            i <= fs@.len(),
            out@.len() == i,
            fuel == 0 ==> forall|k: int| 0 <= k < out@.len() ==> (#[trigger] out@[k]).1 is Other,
        decreases fs.len() - i,
    {
        let (m, x) = field_value(fs[i]);
        let name = match member_named(m) {
            Some(id) => Some(ident_text(id)),
            None => None,
        };
        out.push((name, lower_expr(x, fuel)));
        i = i + 1;
    }
    out
}

/// One arm per arm, in order.
fn lower_arms(arms: &Vec<&syn::Arm>, fuel: usize) -> (r: Vec<(Pt, Ex)>)
    ensures
        r@.len() == arms@.len(),
        fuel == 0 ==> forall|k: int| 0 <= k < r@.len() ==> (#[trigger] r@[k]).0 is Other && r@[k].1 is Other,
    decreases fuel, 1int,
{
    let mut out: Vec<(Pt, Ex)> = Vec::new();
    let mut i: usize = 0;
    while i < arms.len()
        invariant
            i <= arms@.len(),
            out@.len() == i,
            fuel == 0 ==> forall|k: int| 0 <= k < out@.len() ==> (#[trigger] out@[k]).0 is Other && out@[k].1 is Other,
        decreases arms.len() - i,
    {
        let (p, b) = arm_parts(arms[i]);
        out.push((lower_pat(p, fuel), lower_expr(b, fuel)));
        i = i + 1;
    }
    out
}

/// An expression, as far as Unfold reads it; at depth zero, `Other`.
fn lower_expr(e: &syn::Expr, fuel: usize) -> (r: Ex)
    ensures
        fuel == 0 ==> r is Other,
    decreases fuel, 0int,
{
    if fuel == 0 {
        return Ex::Other;
    }
    let f = fuel - 1;
    match expr_if(e) {
        Some((c, b, els)) => {
            return Ex::If(Box::new(lower_expr(c, f)), lower_block(b, f), lower_opt(els, f));
        },
        None => {},
    }
    match expr_block(e) {
        Some(b) => {
            return Ex::Block(lower_block(b, f));
        },
        None => {},
    }
    match expr_return(e) {
        Some(r) => {
            return Ex::Return(lower_opt(r, f));
        },
        None => {},
    }
    match expr_assign(e) {
        Some((l, r)) => {
            return Ex::Assign(Box::new(lower_expr(l, f)), Box::new(lower_expr(r, f)));
        },
        None => {},
    }
    match expr_field(e) {
        Some((base, m)) => {
            return Ex::Field(Box::new(lower_expr(base, f)), member_text(m));
        },
        None => {},
    }
    match expr_path(e) {
        Some(p) => {
            return Ex::Path(lower_path(p));
        },
        None => {},
    }
    match expr_struct(e) {
        Some((p, fs)) => {
            return Ex::Struct(lower_path(p), lower_fields(&fs, f));
        },
        None => {},
    }
    match expr_call(e) {
        Some((func, args)) => {
            return Ex::Call(Box::new(lower_expr(func, f)), lower_exprs(&args, f));
        },
        None => {},
    }
    match expr_method(e) {
        Some((recv, m, args)) => {
            return Ex::MethodCall(Box::new(lower_expr(recv, f)), ident_text(m), lower_exprs(&args, f));
        },
        None => {},
    }
    match expr_closure(e) {
        Some((ins, body)) => {
            return Ex::Closure(lower_pats(&ins, f), Box::new(lower_expr(body, f)));
        },
        None => {},
    }
    match expr_match(e) {
        Some((x, arms)) => {
            return Ex::Match(Box::new(lower_expr(x, f)), lower_arms(&arms, f));
        },
        None => {},
    }
    match expr_wrapped(e) {
        Some((Wrap::Paren, x)) => {
            return Ex::Paren(Box::new(lower_expr(x, f)));
        },
        Some((Wrap::Reference, x)) => {
            return Ex::Reference(Box::new(lower_expr(x, f)));
        },
        Some((Wrap::Deref, x)) => {
            return Ex::Deref(Box::new(lower_expr(x, f)));
        },
        None => {},
    }
    match expr_binary(e) {
        Some((l, op, r)) => {
            return Ex::Binary(Box::new(lower_expr(l, f)), binop_kind(op), Box::new(lower_expr(r, f)));
        },
        None => {},
    }
    match expr_lit_str(e) {
        Some(s) => {
            return Ex::LitStr(s);
        },
        None => {},
    }
    match expr_macro(e) {
        Some(m) => {
            return lower_macro(m, f);
        },
        None => {},
    }
    match expr_array(e) {
        Some(xs) => Ex::Array(lower_exprs(&xs, f)),
        None => Ex::Other,
    }
}

/// A statement; at depth zero its parts read as `Other`.
fn lower_stmt(s: &syn::Stmt, fuel: usize) -> (r: St)
    ensures
        fuel == 0 ==> flat_st(r),
    decreases fuel, 1int,
{
    match stmt_expr(s) {
        Some((x, semi)) => {
            return St::Expr(lower_expr(x, fuel), semi);
        },
        None => {},
    }
    match stmt_local(s) {
        Some((p, init)) => St::Local(
            lower_pat(p, fuel),
            match init {
                Some(x) => Some(lower_expr(x, fuel)),
                None => None,
            },
        ),
        None => St::Other,
    }
}

/// The statements of a block, one per statement; at depth zero their parts
/// read as `Other`.
fn lower_block(b: &syn::Block, fuel: usize) -> (r: Vec<St>)
    ensures
        fuel == 0 ==> forall|k: int| 0 <= k < r@.len() ==> flat_st(#[trigger] r@[k]),
    decreases fuel, 2int,
{
    let stmts = block_stmts(b);
    let mut out: Vec<St> = Vec::new();
    let mut i: usize = 0;
    while i < stmts.len()
        invariant
            i <= stmts@.len(),
            fuel == 0 ==> forall|k: int| 0 <= k < out@.len() ==> flat_st(#[trigger] out@[k]),
        decreases stmts.len() - i,
    {
        out.push(lower_stmt(stmts[i], fuel));
        i = i + 1;
    }
    out
}

/// The last name of a type's path, through references and parentheses; at
/// depth zero, none.
fn type_last(t: &syn::Type, fuel: usize) -> (r: Option<String>)
    ensures
        fuel == 0 ==> r is None,
    decreases fuel,
{
    if fuel == 0 {
        return None;
    }
    match type_path(t) {
        Some(p) => {
            let ids = path_segments(p);
            let n = ids.len();
            return if n == 0 {
                None
            } else {
                Some(ident_text(ids[n - 1]))
            };
        },
        None => {},
    }
    match type_inner(t) {
        Some(u) => type_last(u, fuel - 1),
        None => None,
    }
}

/// The reason of the first `#[except("…")]` whose reason is not blank.
fn except_reason(attrs: &Vec<&syn::Attribute>) -> (r: Option<String>)
    ensures
        r matches Some(v) ==> !blank_spec(v@),
{
    let mut i: usize = 0;
    while i < attrs.len()
        invariant
            i <= attrs@.len(),
        decreases attrs.len() - i,
    {
        let segs = path_segments(attr_path(attrs[i]));
        let n = segs.len();
        let is_except = n > 0 && str_same(ident_text(segs[n - 1]).as_str(), "except");
        if is_except {
            match attr_lit_str(attrs[i]) {
                Some(v) => if !blank(v.as_str()) {
                    return Some(v);
                },
                None => {},
            }
        }
        i = i + 1;
    }
    None
}

/// A function: one parameter per parameter, its body, and the reason of its
/// `#[except]`, which is never blank.
fn lower_fn(name: &syn::Ident, inputs: &Vec<&syn::FnArg>, block: &syn::Block, attrs: &Vec<&syn::Attribute>) -> (r: FnAst)
    ensures
        r.inputs@.len() == inputs@.len(),
        r.except matches Some(v) ==> !blank_spec(v@),
{
    let mut args: Vec<Arg> = Vec::new();
    let mut i: usize = 0;
    while i < inputs.len()
        invariant
            i <= inputs@.len(),
            args@.len() == i,
        decreases inputs.len() - i,
    {
        let a = match fn_arg_typed(inputs[i]) {
            None => Arg::Receiver,
            Some((p, t)) => Arg::Typed(lower_pat(p, LOWER_DEPTH), type_last(t, LOWER_DEPTH)),
        };
        args.push(a);
        i = i + 1;
    }
    FnAst { name: ident_text(name), inputs: args, block: lower_block(block, LOWER_DEPTH), except: except_reason(attrs) }
}

/// A type, references and parentheses read through.
fn lower_ty(t: &syn::Type, fuel: usize) -> (r: TyAst)
    ensures
        fuel == 0 ==> r is Other,
    decreases fuel,
{
    if fuel == 0 {
        return TyAst::Other;
    }
    match type_path(t) {
        Some(p) => {
            let segs = path_segs(p);
            let mut out: Vec<(String, Option<Box<TyAst>>)> = Vec::new();
            let mut i: usize = 0;
            while i < segs.len()
                invariant
                    i <= segs@.len(),
                    fuel > 0,
                decreases segs.len() - i,
            {
                let first = match segment_first_type(segs[i]) {
                    Some(u) => Some(Box::new(lower_ty(u, fuel - 1))),
                    None => None,
                };
                out.push((ident_text(segment_ident(segs[i])), first));
                i = i + 1;
            }
            return TyAst::Path(out);
        },
        None => {},
    }
    match type_inner(t) {
        Some(u) => lower_ty(u, fuel - 1),
        None => TyAst::Other,
    }
}

/// An attribute: its arguments' tokens and their reading as expressions are
/// there together, exactly when it is a list.
fn lower_attr(a: &syn::Attribute) -> (r: AttrAst)
    ensures
        r.list is Some <==> r.exprs is Some,
{
    let path = lower_path(attr_path(a));
    match attr_list(a) {
        Some(ts) => {
            let list = lower_tokens(&ts, TOKEN_DEPTH);
            let exprs = match tokens_exprs(&ts) {
                Ok(xs) => Ok(lower_owned_exprs(&xs, LOWER_DEPTH)),
                Err(e) => Err(error_text(&e)),
            };
            AttrAst { path, list: Some(list), exprs: Some(exprs) }
        },
        None => AttrAst { path, list: None, exprs: None },
    }
}

/// One attribute per attribute, in order.
fn lower_attrs(attrs: &Vec<&syn::Attribute>) -> (r: Vec<AttrAst>)
    ensures
        r@.len() == attrs@.len(),
        forall|k: int| 0 <= k < r@.len() ==> ((#[trigger] r@[k]).list is Some <==> r@[k].exprs is Some),
{
    let mut out: Vec<AttrAst> = Vec::new();
    let mut i: usize = 0;
    while i < attrs.len()
        invariant
            i <= attrs@.len(),
            out@.len() == i,
            forall|k: int| 0 <= k < out@.len() ==> ((#[trigger] out@[k]).list is Some <==> out@[k].exprs is Some),
        decreases attrs.len() - i,
    {
        out.push(lower_attr(attrs[i]));
        i = i + 1;
    }
    out
}

fn lower_struct(
    name: &syn::Ident,
    attrs: &Vec<&syn::Attribute>,
    fields: &Option<Vec<(Option<&syn::Ident>, &syn::Type, Vec<&syn::Attribute>)>>,
) -> (r: StructAst)
    ensures
        r.attrs@.len() == attrs@.len(),
        r.fields is Some <==> fields is Some,
        fields matches Some(v) ==> r.fields->0@.len() == v@.len(),
{
    let fs = match fields {
        Some(fs) => {
            let mut out: Vec<FieldAst> = Vec::new();
            let mut i: usize = 0;
            while i < fs.len()
                invariant
                    i <= fs@.len(),
                    out@.len() == i,
                decreases fs.len() - i,
            {
                let (id, ty, fattrs) = &fs[i];
                let fname = match id {
                    Some(id) => ident_text(id),
                    None => String::new(),
                };
                out.push(FieldAst { name: fname, ty: lower_ty(ty, LOWER_DEPTH), attrs: lower_attrs(fattrs) });
                i = i + 1;
            }
            Some(out)
        },
        None => None,
    };
    StructAst { name: ident_text(name), attrs: lower_attrs(attrs), fields: fs }
}

/// One item per item, in order.
fn lower_items(items: &Vec<&syn::Item>, fuel: usize) -> (r: Vec<ItemAst>)
    ensures
        r@.len() == items@.len(),
        forall|k: int| 0 <= k < r@.len() ==> fn_reasons_read(#[trigger] r@[k]),
    decreases fuel, 1int,
{
    let mut out: Vec<ItemAst> = Vec::new();
    let mut i: usize = 0;
    while i < items.len()
        invariant
            i <= items@.len(),
            out@.len() == i,
            forall|k: int| 0 <= k < out@.len() ==> fn_reasons_read(#[trigger] out@[k]),
        decreases items.len() - i,
    {
        out.push(lower_item(items[i], fuel));
        i = i + 1;
    }
    out
}

/// An item; an inline module is read only above depth zero.
fn lower_item(item: &syn::Item, fuel: usize) -> (r: ItemAst)
    ensures
        fuel == 0 ==> !(r matches ItemAst::Mod(Some(_))),
        fn_reasons_read(r),
    decreases fuel, 0int,
{
    match item_fn(item) {
        Some((name, inputs, block, attrs)) => {
            return ItemAst::Fn(lower_fn(name, &inputs, block, &attrs));
        },
        None => {},
    }
    match item_struct(item) {
        Some((name, attrs, fields)) => {
            return ItemAst::Struct(lower_struct(name, &attrs, &fields));
        },
        None => {},
    }
    match item_enum(item) {
        Some(name) => {
            return ItemAst::Enum(ident_text(name));
        },
        None => {},
    }
    match item_mod(item) {
        Some(content) => {
            return ItemAst::Mod(match content {
                Some(inner) => if fuel == 0 {
                    None
                } else {
                    Some(lower_items(&inner, fuel - 1))
                },
                None => None,
            });
        },
        None => {},
    }
    match item_impl(item) {
        Some((ty, members)) => {
            let mut fns: Vec<FnAst> = Vec::new();
            let mut i: usize = 0;
            while i < members.len()
                invariant
                    i <= members@.len(),
                    forall|k: int| 0 <= k < fns@.len() ==> except_read(#[trigger] fns@[k]),
                decreases members.len() - i,
            {
                match impl_item_fn(members[i]) {
                    Some((name, inputs, block, attrs)) => {
                        fns.push(lower_fn(name, &inputs, block, &attrs));
                    },
                    None => {},
                }
                i = i + 1;
            }
            ItemAst::Impl(type_last(ty, LOWER_DEPTH), fns)
        },
        None => ItemAst::Other,
    }
}

/// Parse Rust source and lower it to the syntax Unfold walks; the error is
/// syn's message.
pub fn parse_file(source: &str) -> (r: Result<FileAst, String>)
    ensures
        r is Ok <==> parses_as_file(source@),
{
    match parse_syn_file(source) {
        Ok(f) => Ok(FileAst { items: lower_items(&file_items(&f), LOWER_DEPTH) }),
        Err(e) => Err(error_text(&e)),
    }
}

} // verus!
