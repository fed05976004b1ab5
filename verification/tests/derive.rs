use conformance_lang::derive::{
    check_method, check_method_in, check_transitions, check_transitions_in, classify_items, derive_plan, enum_list_of, failure_message,
    field_locator, has_derive_schema, impl_type_in_items, is_leaf_ident, is_option_ty,
    is_transition_sig, lift_inner_ty, lift_schema_ty, lookup_local_ty, parse_except_message,
    parse_when_tokens, required_if_of, schema_from_fields, schema_in_file, schema_in_items,
    shape_form_of, should_nest, transition_fn_type, transition_methods, type_last_ident,
    usize_arg_of, LocalTy, PropPlan,
};
use conformance_lang::lower::{lower_tokens, parse_file, TOKEN_DEPTH};
use conformance_lang::syntax::{AttrAst, FieldAst, FileAst, ItemAst, StructAst, Tok};
use conformance_lang::{
    eval_schema, CheckReport, Form, Invariant, Locator, Predicate, Schema, ValueCtx,
};

fn file(src: &str) -> FileAst {
    parse_file(src).unwrap()
}

fn first_struct(f: &FileAst) -> &StructAst {
    for it in &f.items {
        if let ItemAst::Struct(s) = it {
            return s;
        }
    }
    panic!("no struct")
}

/// The tokens of an attribute's arguments.
fn toks(args: &str) -> Vec<Tok> {
    lower_tokens(&args.parse::<proc_macro2::TokenStream>().unwrap(), TOKEN_DEPTH)
}

/// The one attribute of `#[…] struct S;`.
fn attr(text: &str) -> AttrAst {
    let f = file(&format!("{text} struct S;"));
    let ItemAst::Struct(s) = f.items.into_iter().next().unwrap() else {
        panic!("no struct")
    };
    s.attrs.into_iter().next().unwrap()
}

fn fields_of(src: &str) -> Vec<FieldAst> {
    let f = file(src);
    let ItemAst::Struct(s) = f.items.into_iter().next().unwrap() else {
        panic!("no struct")
    };
    s.fields.unwrap()
}

fn plan_err(item: &ItemAst, files: &Vec<FileAst>) -> String {
    match derive_plan(item, files) {
        Ok(_) => panic!("expected an error"),
        Err(e) => e,
    }
}

fn schema_err(src: &str) -> String {
    match schema_from_fields("S", &fields_of(src)) {
        Ok(_) => panic!("expected an error"),
        Err(e) => e,
    }
}

#[test]
fn derived_msg_fields_in_order_with_invariants() {
    let s = schema_from_fields(
        "Msg",
        &fields_of(
            r#"struct Msg {
                #[enum_("hi", "bye")]
                kind: String,
                #[required_if(kind = "hi")]
                name: Option<String>,
            }"#,
        ),
    )
    .unwrap();
    assert_eq!(s.name, "Msg");
    assert!(s.width.is_none());
    assert_eq!(s.fields.len(), 2);
    assert_eq!(s.fields[0].name, "kind");
    assert!(matches!(&s.fields[0].invariants[0], Invariant::OneOf(v) if v == &vec!["hi".to_string(), "bye".to_string()]));
    assert!(matches!(
        &s.fields[1].invariants[0],
        Invariant::When { pred: Predicate::Eq { field, lit }, then } if field == "kind" && lit == "hi" && matches!(**then, Invariant::Defined)
    ));
    assert!(s.rewrites.is_empty());
    let ctx = ValueCtx::default().lit("kind", "hi").absent("name");
    assert!(!eval_schema(&s, &ctx, None).ok());
}

#[test]
fn derived_field_locator_and_geometry() {
    let s = schema_from_fields(
        "W",
        &fields_of(
            r#"struct W {
                #[field("tracs_amount")]
                #[pos(37)]
                #[len(11)]
                amount: String,
                #[shape(scalar)]
                code: Option<String>,
            }"#,
        ),
    )
    .unwrap();
    assert!(matches!(&s.fields[0].locator, Locator::Path(p) if p == "tracs_amount"));
    assert!(matches!(s.fields[0].invariants[..], [Invariant::At(37), Invariant::Width(11)]));
    assert!(matches!(&s.fields[1].locator, Locator::Path(p) if p == "code"));
    assert!(matches!(s.fields[1].invariants[..], [Invariant::Shape(Form::Scalar)]));
}

#[test]
fn derived_enum_on_option_is_or_absent() {
    let s = schema_from_fields("O", &fields_of(r#"struct O { #[enum_("Y")] t: Option<String> }"#)).unwrap();
    assert!(matches!(
        &s.fields[0].invariants[0],
        Invariant::Any(v) if v.len() == 2 && matches!(v[1], Invariant::Absent) && matches!(&v[0], Invariant::OneOf(x) if x == &vec!["Y".to_string()])
    ));
}

#[test]
fn derived_when_rewrite_goes_to_rewrites() {
    let s = schema_from_fields(
        "Remap",
        &fields_of(
            r#"struct Remap {
                version: String,
                #[when(version != "2.3.1" && "09" or "10", rewrite "06")]
                cancel: String,
            }"#,
        ),
    )
    .unwrap();
    assert!(s.fields[1].invariants.is_empty());
    assert_eq!(s.rewrites.len(), 1);
    assert_eq!(s.rewrites[0].field, "cancel");
    assert!(matches!(&s.rewrites[0].pred, Predicate::And(v) if v.len() == 2));
}

#[test]
fn derived_attribute_errors() {
    assert_eq!(schema_err(r#"struct S { #[enum_("a", 1)] f: String }"#), "expected string literals");
    assert_eq!(schema_err(r#"struct S { #[enum_ = "a"] f: String }"#), "expected #[enum_(...)]");
    assert_eq!(schema_err(r#"struct S { #[shape(tree)] f: String }"#), "expected scalar or array");
    assert_eq!(schema_err(r#"struct S { #[shape] f: String }"#), "expected #[shape(scalar|array)]");
    assert_eq!(schema_err(r#"struct S { #[pos("3")] f: String }"#), "expected integer");
    assert_eq!(schema_err(r#"struct S { #[len] f: String }"#), "expected #[pos(n)] / #[len(n)]");
    assert_eq!(schema_err(r#"struct S { #[required_if(kind == "hi")] f: String }"#), "expected kind = \"hi\"");
    assert_eq!(schema_err(r#"struct S { #[required_if(a::b = "hi")] f: String }"#), "expected field name");
    assert_eq!(schema_err(r#"struct S { #[required_if(kind = ["a", 2])] f: String }"#), "expected string literals");
    assert_eq!(
        schema_err(r#"struct S { #[required_if(kind = 2)] f: String }"#),
        "expected string literal or [\"a\", \"b\"]"
    );
    assert_eq!(schema_err(r#"struct S { #[required_if] f: String }"#), "expected #[required_if(...)]");
    assert_eq!(
        schema_err(r#"struct S { #[when] f: String }"#),
        "expected #[when(P, rewrite I)] or #[when(P, I)]"
    );
    assert_eq!(schema_err(r#"struct S { #[when(v != "1", rewrite "a" x)] f: String }"#), "unexpected tokens after when");
}

#[test]
fn derive_lists_and_arguments() {
    assert_eq!(enum_list_of(&toks(r#""a", "b","#)).unwrap(), vec!["a".to_string(), "b".to_string()]);
    assert!(enum_list_of(&toks("")).unwrap().is_empty());
    assert_eq!(enum_list_of(&toks(r#""a" "b""#)).unwrap_err(), "expected `,`");
    assert_eq!(enum_list_of(&toks(r#""a", x"#)).unwrap_err(), "expected literal");
    assert_eq!(enum_list_of(&toks(r#""a", true"#)).unwrap_err(), "expected string literals");
    assert_eq!(shape_form_of(&toks("array")).unwrap(), Form::Array);
    assert_eq!(shape_form_of(&toks("array x")).unwrap_err(), "unexpected token");
    assert_eq!(shape_form_of(&toks("")).unwrap_err(), "unexpected end of input, expected identifier");
    assert_eq!(usize_arg_of(&toks("20")).unwrap(), 20);
    assert_eq!(usize_arg_of(&toks("-3")).unwrap_err(), "invalid digit found in string");
    assert_eq!(usize_arg_of(&toks("1 2")).unwrap_err(), "unexpected token");
}

#[test]
fn required_if_reads_each_assignment() {
    let p = required_if_of(&attr(r#"#[required_if(version = "2.3.1", cancel = ["09", "10"])]"#)).unwrap();
    let Predicate::And(v) = p else { panic!("expected And") };
    assert!(matches!(&v[0], Predicate::Eq { field, lit } if field == "version" && lit == "2.3.1"));
    assert!(matches!(&v[1], Predicate::In { field, lits } if field == "cancel" && lits == &vec!["09".to_string(), "10".to_string()]));
    let empty = required_if_of(&attr("#[required_if()]")).unwrap();
    assert!(matches!(empty, Predicate::And(v) if v.is_empty()));
}

#[test]
fn when_reads_photo_and_rewrite() {
    let w = parse_when_tokens(&toks(r#"kind = "hi", then defined()"#), "name").unwrap();
    assert!(!w.rewrite);
    assert!(matches!(w.inv, Invariant::Defined));
    let r = parse_when_tokens(&toks(r#""09", rewrite ["06", "07"]"#), "cancel").unwrap();
    assert!(r.rewrite);
    assert!(matches!(&r.pred, Predicate::Eq { field, lit } if field == "cancel" && lit == "09"));
    assert!(matches!(&r.inv, Invariant::OneOf(v) if v.len() == 2));
    assert!(matches!(parse_when_tokens(&toks(r#"kind = "hi""#), "f"), Err(e) if e == "expected `,`"));
}

#[test]
fn derive_attribute_is_found_under_any_path() {
    let plain = first_struct(&file("#[derive(Debug, Schema)] struct A;")).attrs.len();
    assert_eq!(plain, 1);
    assert!(has_derive_schema(&first_struct(&file("#[derive(Debug, Schema)] struct A;")).attrs));
    assert!(has_derive_schema(&first_struct(&file("#[derive(conformance_macros::Schema)] struct A;")).attrs));
    assert!(has_derive_schema(&first_struct(&file("#[derive(Clone)] #[derive(::m::Schema,)] struct A;")).attrs));
    assert!(!has_derive_schema(&first_struct(&file("#[derive(Debug)] struct A;")).attrs));
    assert!(!has_derive_schema(&first_struct(&file("#[schema] struct A;")).attrs));
}

#[test]
fn schema_is_found_in_inline_modules() {
    let f = file(
        r#"
        struct Msg { kind: String }
        mod inner {
            #[derive(Schema)]
            struct Msg { #[enum_("hi")] kind: String }
        }
        "#,
    );
    let s = schema_in_items(&f.items, "Msg").unwrap();
    assert_eq!(s.fields[0].invariants.len(), 1);
    assert!(schema_in_items(&f.items, "Other").is_none());
    assert!(matches!(
        schema_in_file(&f, "Other"),
        Err(e) if e == "#[derive(Schema)] struct Other not in this file"
    ));
}

#[test]
fn schema_with_bad_attribute_is_not_found() {
    let f = file(
        r#"
        #[derive(Schema)]
        struct Msg { #[shape(tree)] kind: String }
        #[derive(Schema)]
        struct Msg { kind: String }
        "#,
    );
    assert!(schema_in_items(&f.items, "Msg").is_none());
}

#[test]
fn impl_type_of_a_method() {
    let f = file(
        r#"
        impl Other { fn g(&self) {} }
        mod m { impl Msg { fn set(&mut self) {} } }
        "#,
    );
    assert_eq!(impl_type_in_items(&f.items, "set").as_deref(), Some("Msg"));
    assert_eq!(impl_type_in_items(&f.items, "g").as_deref(), Some("Other"));
    assert_eq!(impl_type_in_items(&f.items, "h"), None);
}

#[test]
fn except_message_needs_a_non_blank_string() {
    assert_eq!(parse_except_message(&toks(r#""legacy path""#)).unwrap(), "legacy path");
    assert_eq!(
        parse_except_message(&toks(r#""  ""#)).unwrap_err(),
        "#[except(\"why\")] needs a non-empty reason"
    );
    assert_eq!(parse_except_message(&toks("3")).unwrap_err(), "#[except(\"why\")] needs a string");
    assert_eq!(parse_except_message(&toks("")).unwrap_err(), "unexpected end of input, expected literal");
}

fn fns_of(src: &str) -> (Option<String>, Vec<conformance_lang::syntax::FnAst>) {
    for it in file(src).items {
        if let ItemAst::Impl(t, fs) = it {
            return (t, fs);
        }
    }
    panic!("no impl")
}

#[test]
fn transition_methods_of_an_impl() {
    let (t, fs) = fns_of(
        r#"impl Msg {
            fn new() -> Self { todo!() }
            fn hi(&mut self) {}
            fn from(m: Msg) {}
            fn by_self(m: &Self) {}
            fn other(x: u8) {}
        }"#,
    );
    let names = transition_methods(t.as_deref(), &fs).unwrap();
    assert_eq!(names, vec!["hi".to_string(), "from".to_string(), "by_self".to_string()]);
    assert!(is_transition_sig(&fs[4].inputs, None));
    assert!(!is_transition_sig(&fs[0].inputs, None));
    let (t2, fs2) = fns_of("impl Msg { fn new() {} }");
    assert_eq!(
        transition_methods(t2.as_deref(), &fs2).unwrap_err(),
        "#[conformance::transition] impl: no method with `self` or a schema-typed param"
    );
}

#[test]
fn transition_fn_schema_type() {
    let f = file("fn a(m: &mut Msg) {} fn b() {} fn c(x: (u8, u8)) {}");
    let inputs: Vec<_> = f
        .items
        .iter()
        .map(|it| match it {
            ItemAst::Fn(f) => &f.inputs,
            _ => panic!(),
        })
        .collect();
    assert_eq!(transition_fn_type(inputs[0]).unwrap(), "Msg");
    assert_eq!(
        transition_fn_type(inputs[1]).unwrap_err(),
        "#[conformance::transition] needs a param of the Schema type"
    );
    assert_eq!(
        transition_fn_type(inputs[2]).unwrap_err(),
        "#[conformance::transition] needs a named Schema type"
    );
}

#[test]
fn failure_message_texts() {
    let mut rep = CheckReport::default();
    assert_eq!(failure_message("f", &Ok(CheckReport::default())), None);
    assert_eq!(
        failure_message("f", &Err("boom".to_string())),
        Some("conformance `f`: boom".to_string())
    );
    let schema = conformance_lang::msg_toy_schema();
    rep.merge(eval_schema(&schema, &ValueCtx::default().lit("kind", "hi").absent("name"), None));
    let m = failure_message("Msg", &Ok(rep)).unwrap();
    assert!(m.starts_with("conformance `Msg`:\n"));
    assert!(m.contains("name"));
}

const TOY: &str = r#"
#[derive(Schema)]
struct Msg {
    #[enum_("hi", "bye")]
    kind: String,
    #[required_if(kind = "hi")]
    name: Option<String>,
}

fn good(m: &mut Msg) {
    m.kind = "hi".into();
    m.name = Some("Ada".into());
}

fn bad(m: &mut Msg) {
    m.kind = "hi".into();
    m.name = None;
}

impl Msg {
    fn reset(&mut self) {
        self.kind = "bye".into();
        self.name = None;
    }
}
"#;

#[test]
fn check_transitions_reports_only_failing() {
    let msgs = check_transitions(TOY, "Msg", &vec!["good".to_string(), "bad".to_string()]).unwrap();
    assert_eq!(msgs.len(), 1);
    assert!(msgs[0].starts_with("conformance `bad`:\n"));
    let missing = check_transitions(TOY, "Nope", &vec!["good".to_string()]).unwrap_err();
    assert_eq!(missing, "#[derive(Schema)] struct Nope not in this file");
    let no_fn = check_transitions(TOY, "Msg", &vec!["absent".to_string()]).unwrap();
    assert_eq!(
        no_fn,
        vec!["conformance `absent`: no unfold paths for `absent` (need a param/receiver of type Msg)".to_string()]
    );
}

#[test]
fn check_method_uses_its_impl() {
    assert_eq!(check_method(TOY, "reset").unwrap(), None);
    assert_eq!(
        check_method(TOY, "nowhere").unwrap_err(),
        "#[conformance::transition] method: could not find enclosing impl type"
    );
}

#[test]
fn checks_on_a_lowered_file_agree_with_the_source_checks() {
    let file = conformance_lang::lower::parse_file(TOY).unwrap();
    let names = vec!["good".to_string(), "bad".to_string()];
    assert_eq!(check_transitions_in(&file, "Msg", &names), check_transitions(TOY, "Msg", &names));
    assert_eq!(check_transitions_in(&file, "Msg", &names).unwrap().len(), 1);
    assert_eq!(
        check_transitions_in(&file, "Nope", &names).unwrap_err(),
        "#[derive(Schema)] struct Nope not in this file"
    );
    assert_eq!(check_method_in(&file, "reset"), Ok(None));
    assert_eq!(check_method_in(&file, "nowhere"), check_method(TOY, "nowhere"));
}

#[test]
fn field_types_lift_and_classify() {
    let fs = fields_of(
        "struct S { a: Option<Vec<Box<Inner>>>, b: &'static str, c: Vec<u8>, d: Option<String>, e: (u8,) }",
    );
    assert!(is_option_ty(&fs[0].ty));
    assert!(!is_option_ty(&fs[2].ty));
    assert_eq!(type_last_ident(lift_schema_ty(&fs[0].ty)), Some("Inner"));
    assert_eq!(type_last_ident(&fs[1].ty), Some("str"));
    assert_eq!(type_last_ident(lift_inner_ty(&fs[3].ty)), Some("String"));
    assert_eq!(type_last_ident(&fs[4].ty), None);
    assert!(is_leaf_ident("u8") && is_leaf_ident("BTreeSet") && !is_leaf_ident("Inner"));
    let local = file(
        r#"
        #[derive(Schema)] struct Inner { x: String }
        struct Plain;
        enum Kind { A }
        mod m { #[derive(Clone, Schema)] struct Deep { y: String } }
        "#,
    );
    assert_eq!(classify_items(&local.items, "Inner"), Some(LocalTy::SchemaStruct));
    assert_eq!(classify_items(&local.items, "Plain"), Some(LocalTy::OtherStruct));
    assert_eq!(classify_items(&local.items, "Kind"), Some(LocalTy::Enum));
    assert_eq!(classify_items(&local.items, "Deep"), Some(LocalTy::SchemaStruct));
    assert_eq!(classify_items(&local.items, "Gone"), None);
    let files = vec![file("struct Other;"), local];
    assert_eq!(lookup_local_ty(&files, "Kind"), Some(LocalTy::Enum));
    assert!(should_nest(&fs[0].ty, &files));
    assert!(!should_nest(&fs[2].ty, &files));
    let g = fields_of("struct S { k: Kind, u: Unknown }");
    assert!(!should_nest(&g[0].ty, &files));
    assert!(should_nest(&g[1].ty, &files));
}

#[test]
fn derive_plan_nests_refines_and_checks() {
    let src = file(
        r#"
        #[derive(Schema)]
        struct Outer {
            #[enum_("a")]
            kind: String,
            inner: Option<Inner>,
            #[leaf]
            raw: Inner,
            #[refine(chars_2)]
            code: String,
            #[refine(|x: &u8| *x > 1)]
            n: Option<u8>,
            #[field("id")]
            #[nested]
            list: Vec<Inner>,
        }
        #[derive(Schema)]
        struct Inner { x: String }
        "#,
    );
    let files = vec![file("#[derive(Schema)] struct Inner { x: String }")];
    let Ok(plan) = derive_plan(&src.items[0], &files) else {
        panic!("expected a plan")
    };
    assert_eq!(plan.name, "Outer");
    assert_eq!(plan.fields.len(), 6);
    assert!(matches!(&plan.fields[0].props[..], [PropPlan::Inv(Invariant::OneOf(_))]));
    assert!(matches!(
        &plan.fields[1].props[..],
        [PropPlan::Nested { schema: Some(s), optional: true }] if s == "Inner"
    ));
    assert!(plan.fields[2].props.is_empty());
    assert!(matches!(
        &plan.fields[3].props[..],
        [PropPlan::Refine { path: Some(p), on_str: true, optional: false }] if p == &vec!["chars_2".to_string()]
    ));
    assert!(matches!(
        &plan.fields[4].props[..],
        [PropPlan::Refine { path: None, on_str: false, optional: true }]
    ));
    assert_eq!(plan.fields[5].locator, "id");
    assert!(matches!(&plan.fields[5].props[..], [PropPlan::Nested { optional: false, .. }]));
    assert_eq!(plan.schema.fields.len(), 6);
    assert!(plan.schema.fields[1].invariants.is_empty());
}

#[test]
fn derive_plan_errors() {
    let e = file("enum E { A }");
    assert_eq!(plan_err(&e.items[0], &vec![]), "Schema derive only on structs");
    let t = file("struct T(u8);");
    assert_eq!(plan_err(&t.items[0], &vec![]), "Schema derive needs named fields");
    let r = file("struct R { #[required_if()] a: String }");
    assert_eq!(plan_err(&r.items[0], &vec![]), "expected kind = \"hi\"");
    let q = file("struct Q { #[refine(1 + 2)] a: String }");
    assert_eq!(plan_err(&q.items[0], &vec![]), "expected path or |x| closure");
    let q2 = file("struct Q { #[refine] a: String }");
    assert_eq!(
        plan_err(&q2.items[0], &vec![]),
        "expected #[refine(path)] or #[refine(|x| …)]"
    );
}

#[test]
fn field_key_from_field_attribute() {
    let f = fields_of(r#"struct S { #[field(7)] #[field("k")] #[field("j")] a: String, b: String }"#);
    assert_eq!(field_locator(&f[0].attrs), Some("k"));
    assert_eq!(field_locator(&f[1].attrs), None);
}

#[test]
fn derived_schema_equals_hand_schema() {
    let derived: Schema = schema_in_file(
        &file(
            r#"
            #[derive(Schema)]
            struct Msg {
                #[enum_("hi", "bye")]
                kind: String,
                #[required_if(kind = "hi")]
                name: Option<String>,
            }
            "#,
        ),
        "Msg",
    )
    .unwrap();
    let hand = conformance_lang::msg_toy_schema();
    assert_eq!(derived.name, hand.name);
    for (a, b) in derived.fields.iter().zip(hand.fields.iter()) {
        assert_eq!(a.name, b.name);
        assert_eq!(a.locator.key(), b.locator.key());
    }
    for ctx in [
        ValueCtx::default().lit("kind", "hi").absent("name"),
        ValueCtx::default().lit("kind", "bye").absent("name"),
        ValueCtx::default().lit("kind", "hi").lit("name", "Ada"),
        ValueCtx::default().lit("kind", "zz"),
    ] {
        assert_eq!(
            eval_schema(&derived, &ctx, None).ok(),
            eval_schema(&hand, &ctx, None).ok()
        );
    }
}

#[test]
fn derive_plan_agrees_with_ir() {
    let src = file(
        r#"
        #[derive(Schema)]
        struct Drop231 {
            version: String,
            #[when(version != "2.3.1", rewrite None)]
            report: Option<String>,
            #[when(version != "2.3.1" && "12", rewrite "09")]
            #[enum_("09", "12")]
            #[refine(code)]
            #[field("auth_method")]
            method: Option<String>,
        }
        "#,
    );
    let Ok(plan) = derive_plan(&src.items[0], &vec![]) else {
        panic!("expected a plan")
    };
    assert_eq!(plan.fields.len(), plan.schema.fields.len());
    assert_eq!(plan.rewrites.len(), 2);
    assert_eq!(plan.schema.rewrites.len(), 2);
    for (p, f) in plan.fields.iter().zip(plan.schema.fields.iter()) {
        assert_eq!(p.name, f.name);
        assert_eq!(p.locator, f.locator.key());
        let invs: Vec<&Invariant> = p
            .props
            .iter()
            .filter_map(|x| match x {
                PropPlan::Inv(i) => Some(i),
                _ => None,
            })
            .collect();
        assert_eq!(invs.len(), f.invariants.len());
    }
    assert_eq!(plan.fields[2].props.len(), 2);
    assert_eq!(plan.fields[2].locator, "auth_method");
}

#[test]
fn photo_when_writes_no_rewrite() {
    let s = schema_from_fields(
        "LeftoverCancel",
        &fields_of(
            r#"struct LeftoverCancel {
                version: String,
                #[when(version != "2.3.1", one_of("01", "03", "06"))]
                cancel: String,
            }"#,
        ),
    )
    .unwrap();
    assert!(s.rewrites.is_empty());
    assert_eq!(s.fields[1].invariants.len(), 1);
}

#[test]
fn transition_on_a_receiver_needs_the_impl() {
    let (_, fs) = fns_of("impl Msg { fn hi(&mut self) {} }");
    assert_eq!(
        transition_fn_type(&fs[0].inputs).unwrap_err(),
        "#[conformance::transition] on `self`: put the attr on the `impl` block"
    );
}

#[test]
fn checks_report_parse_and_lookup_errors() {
    assert!(check_transitions("fn (", "Msg", &vec!["f".to_string()]).is_err());
    assert_eq!(
        check_method("impl Other { fn m(&self) {} }", "m").unwrap_err(),
        "#[derive(Schema)] struct Other not in this file"
    );
    let bad = check_method(
        r#"
        #[derive(Schema)]
        struct Msg { #[required_if(kind = "hi")] name: Option<String>, kind: String }
        impl Msg { fn hi(&mut self) { self.kind = "hi".into(); self.name = None; } }
        "#,
        "hi",
    )
    .unwrap()
    .unwrap();
    assert!(bad.starts_with("conformance `hi`:\n"));
}
