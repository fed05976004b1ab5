use conformance_lang::check::{eval_predicate, EvalError};
use conformance_lang::syntax::{fill_braces, ItemAst};
use conformance_lang::lower::parse_file;
use conformance_lang::{
    defined, eval_invariant, eval_rewrite, eval_schema, eval_sources, eval_unfold, eval_unfold_named,
    msg_toy_schema, one_of, or_absent, pred_eq, pred_not, rewrite, unfold, AbsVal, CheckReport, Fact,
    Field, FindingKind, Locator, Schema, ValueCtx, WireFragment,
};

fn field(name: &str, invariants: Vec<conformance_lang::Invariant>) -> Field {
    Field {
        name: name.into(),
        locator: Locator::Path(name.into()),
        invariants,
        wire: None,
    }
}

#[test]
fn last_write_wins_on_a_field() {
    let ctx = ValueCtx::default().lit("kind", "hi").lit("kind", "bye");
    assert_eq!(ctx.values.get("kind"), Some(&AbsVal::Known("bye".into())));
    let ctx = ValueCtx::default().lit("kind", "hi").absent("kind");
    assert_eq!(ctx.values.get("kind"), Some(&AbsVal::Absent));
}

#[test]
fn a_write_drops_the_exclusions_of_its_field() {
    let ctx = ValueCtx::default().exclude("kind", "hi").exclude("name", "x").lit("kind", "bye");
    assert!(ctx.excluded.get("kind").is_none());
    assert!(ctx.excluded.get("name").map(|s| s.contains("x")).unwrap_or(false));
}

#[test]
fn an_unobserved_field_is_undecidable_not_fail() {
    let f = field("kind", vec![one_of(&["hi", "bye"])]);
    let r = eval_invariant(&ValueCtx::default(), &f, &one_of(&["hi", "bye"]));
    assert!(matches!(r, Err(EvalError::Undecidable(_))), "{:?}", r);
    let ctx = ValueCtx::default().lit("name", "Ada");
    let r = eval_invariant(&ctx, &f, &defined());
    assert!(matches!(r, Err(EvalError::Undecidable(_))), "{:?}", r);
}

#[test]
fn or_absent_passes_on_an_explicit_none() {
    let f = field("name", vec![]);
    let ctx = ValueCtx::default().absent("name");
    assert!(eval_invariant(&ctx, &f, &or_absent(one_of(&["x"]))).is_ok());
    assert!(eval_invariant(&ctx, &f, &or_absent(defined())).is_ok());
}

#[test]
fn a_false_when_passes() {
    let f = field("name", vec![]);
    let ctx = ValueCtx::default().lit("kind", "bye").absent("name");
    let inv = conformance_lang::stdlib::when(pred_eq("kind", "hi"), defined());
    assert!(eval_invariant(&ctx, &f, &inv).is_ok());
}

#[test]
fn not_not_is_the_predicate() {
    let ctx = ValueCtx::default().lit("kind", "hi");
    for p in [pred_eq("kind", "hi"), pred_eq("kind", "bye"), pred_eq("other", "x")] {
        let once = format!("{:?}", eval_predicate(&ctx, &p));
        let twice = format!("{:?}", eval_predicate(&ctx, &pred_not(pred_not(p))));
        assert_eq!(once, twice);
    }
    assert!(matches!(eval_predicate(&ctx, &pred_eq("kind", "hi")), Ok(true)));
    assert!(matches!(eval_predicate(&ctx, &pred_eq("other", "x")), Err(EvalError::Undecidable(_))));
}

#[test]
fn an_excluded_literal_reads_as_not_equal() {
    let ctx = ValueCtx::default().exclude("kind", "hi");
    assert!(matches!(eval_predicate(&ctx, &pred_eq("kind", "hi")), Ok(false)));
    let f = field("name", vec![]);
    let inv = conformance_lang::stdlib::when(pred_eq("kind", "hi"), defined());
    assert!(eval_invariant(&ctx, &f, &inv).is_ok());
}

#[test]
fn a_rewrite_needs_its_predicate_on_the_pre_state() {
    let schema = Schema {
        name: "R".into(),
        width: None,
        fields: vec![field("version", vec![]), field("cancel", vec![])],
        rewrites: vec![rewrite("cancel", pred_not(pred_eq("version", "2.3.1")), one_of(&["06"]))],
    };
    let on_231 = ValueCtx::default().lit("version", "2.3.1");
    let r = eval_rewrite(&schema, &schema.rewrites[0], &on_231, &Fact::Lit("99".into()), None);
    assert!(r.findings.is_empty());
    let on_22 = ValueCtx::default().lit("version", "2.2.0");
    let r = eval_rewrite(&schema, &schema.rewrites[0], &on_22, &Fact::Lit("99".into()), Some("f"));
    assert_eq!(r.findings.len(), 1);
    assert_eq!(r.findings[0].kind, FindingKind::Fail);
    assert_eq!(r.findings[0].site.as_deref(), Some("f"));
}

#[test]
fn merged_reports_fail_exactly_when_a_part_fails() {
    let schema = msg_toy_schema();
    let good = eval_schema(&schema, &ValueCtx::default().lit("kind", "bye").absent("name"), None);
    let bad = eval_schema(&schema, &ValueCtx::default().lit("kind", "nope").absent("name"), None);
    assert!(good.ok());
    assert!(!bad.ok());
    let n_bad = bad.fails().count();
    let mut both = CheckReport::default();
    both.merge(good);
    both.merge(bad);
    assert!(!both.ok());
    assert_eq!(both.fails().count(), n_bad);
}

#[test]
fn fragments_compose_with_an_identity_and_add_extents() {
    let a = WireFragment::emit("a", 3);
    assert_eq!(WireFragment::empty().concat(WireFragment::emit("a", 3)).extent(), a.extent());
    let ab_c = WireFragment::emit("a", 3)
        .concat(WireFragment::emit("b", 4))
        .concat(WireFragment::emit("c", 5));
    let a_bc = WireFragment::emit("a", 3)
        .concat(WireFragment::emit("b", 4).concat(WireFragment::emit("c", 5)));
    assert_eq!(ab_c.extent(), 12);
    assert_eq!(a_bc.extent(), 12);
    let x = ab_c.observe(10);
    let y = a_bc.observe(10);
    assert_eq!(x.wire.get("b"), y.wire.get("b"));
    let b = x.wire.get("b").unwrap();
    assert_eq!((b.pos, b.len), (Some(13), Some(4)));
    let c = x.wire.get("c").unwrap();
    assert_eq!((c.pos, c.len), (Some(17), Some(5)));
}

#[test]
fn holes_between_spans_are_padding() {
    let schema = Schema {
        name: "E".into(),
        width: Some(20),
        fields: vec![field("a", vec![]), field("b", vec![])],
        rewrites: vec![],
    };
    let ctx = ValueCtx::default().with_wire("a", 1, 3).with_wire("b", 10, 5);
    assert!(eval_schema(&schema, &ctx, None).ok());
    let past_end = ValueCtx::default().with_wire("a", 1, 3).with_wire("b", 18, 5);
    assert!(!eval_schema(&schema, &past_end, None).ok());
}

#[test]
fn split_on_eq_knows_then_and_excludes_else() {
    let src = r#"
        fn for_kind(mut m: Msg) -> Msg {
            if m.kind == "hi" {
                m.name = Some("Ada".into());
                return m;
            }
            m
        }
    "#;
    let obs = unfold(&msg_toy_schema(), src).unwrap();
    let labels: Vec<&str> = obs.iter().map(|o| o.label.as_str()).collect();
    assert_eq!(labels, vec!["for_kind.then[kind==hi]", "for_kind.else[kind==hi]"]);
    assert_eq!(obs[0].ctx.values.get("kind"), Some(&AbsVal::Known("hi".into())));
    assert_eq!(obs[0].ctx.values.get("name"), Some(&AbsVal::Known("Ada".into())));
    assert!(obs[1].ctx.values.get("kind").is_none());
    assert!(obs[1].ctx.excluded.get("kind").unwrap().contains("hi"));
}

#[test]
fn split_on_matches_is_one_of_and_excludes_each() {
    let src = r#"
        fn for_kind(mut m: Msg) -> Msg {
            if matches!(m.kind.as_deref(), Some("hi") | Some("bye")) {
                return m;
            }
            m
        }
    "#;
    let obs = unfold(&msg_toy_schema(), src).unwrap();
    assert_eq!(obs.len(), 2);
    assert_eq!(obs[0].label, r#"for_kind.then[kind in ["hi", "bye"]]"#);
    assert_eq!(obs[1].label, r#"for_kind.else[kind in ["hi", "bye"]]"#);
    match obs[0].ctx.values.get("kind") {
        Some(AbsVal::OneOf(set)) => {
            assert!(set.contains("hi") && set.contains("bye") && !set.contains("x"));
        }
        other => panic!("{:?}", other),
    }
    let ex = obs[1].ctx.excluded.get("kind").unwrap();
    assert!(ex.contains("hi") && ex.contains("bye"));
}

#[test]
fn a_muted_helper_is_still_followed() {
    let src = r#"
        #[except("only reached from bye")]
        fn set_bye(mut m: Msg) -> Msg {
            m.kind = "bye".into();
            m
        }
        fn f(m: Msg) -> Msg {
            set_bye(m)
        }
    "#;
    let obs = unfold(&msg_toy_schema(), src).unwrap();
    assert_eq!(obs.len(), 1);
    assert_eq!(obs[0].label, "f");
    assert_eq!(obs[0].ctx.values.get("kind"), Some(&AbsVal::Known("bye".into())));
    let report = eval_unfold(&msg_toy_schema(), src).unwrap();
    assert_eq!(report.skipped.len(), 1);
    assert_eq!(report.skipped[0].site, "set_bye");
    assert_eq!(report.skipped[0].reason, "only reached from bye");
}

fn chain(hops: usize) -> String {
    let mut src = String::from("fn s(m: Msg) -> Msg { h1(m) }\n");
    for i in 1..hops {
        src.push_str(&format!("fn h{}(m: Msg) -> Msg {{ h{}(m) }}\n", i, i + 1));
    }
    src.push_str(&format!("fn h{}(mut m: Msg) -> Msg {{ m.kind = \"nope\".into(); m }}\n", hops));
    src
}

#[test]
fn follows_stop_at_depth_eight() {
    let schema = msg_toy_schema();
    let near = eval_unfold_named(&schema, &chain(8), "s").unwrap();
    assert!(near.fails().any(|f| f.field == "kind"), "{:?}", near.findings);
    let far = eval_unfold_named(&schema, &chain(9), "s").unwrap();
    assert!(far.ok(), "{:?}", far.findings);
    assert!(far.findings.iter().any(|f| f.field == "kind" && f.kind == FindingKind::Undecidable));
}

#[test]
fn an_assignment_writes_what_its_right_side_reads_as() {
    let src = r#"
        fn f(mut m: Msg) -> Msg {
            m.kind = format!("{}-{}", "a", "b");
            m.name = None;
            m.other = "ignored".into();
            m
        }
    "#;
    let obs = unfold(&msg_toy_schema(), src).unwrap();
    assert_eq!(obs.len(), 1);
    assert_eq!(obs[0].ctx.values.get("kind"), Some(&AbsVal::Known("a-b".into())));
    assert_eq!(obs[0].ctx.values.get("name"), Some(&AbsVal::Absent));
    assert!(obs[0].ctx.values.get("other").is_none());
}

#[test]
fn default_makes_every_field_unknown_and_struct_literals_write_fields() {
    let src = r#"
        fn a(mut m: Msg) -> Msg {
            m = Msg::default();
            m
        }
        fn b(mut m: Msg) -> Msg {
            m = Msg { kind: "hi".into(), name: None, extra: "x".into() };
            m
        }
    "#;
    let obs = unfold(&msg_toy_schema(), src).unwrap();
    assert_eq!(obs.len(), 2);
    assert_eq!(obs[0].label, "a");
    assert_eq!(obs[0].ctx.values.get("kind"), Some(&AbsVal::Unknown));
    assert_eq!(obs[0].ctx.values.get("name"), Some(&AbsVal::Unknown));
    assert_eq!(obs[1].label, "b");
    assert_eq!(obs[1].ctx.values.get("kind"), Some(&AbsVal::Known("hi".into())));
    assert_eq!(obs[1].ctx.values.get("name"), Some(&AbsVal::Absent));
    assert!(obs[1].ctx.values.get("extra").is_none());
}

#[test]
fn a_source_that_does_not_parse_is_an_error() {
    assert!(eval_unfold(&msg_toy_schema(), "fn f( {").is_err());
    assert!(unfold(&msg_toy_schema(), "struct").is_err());
}

#[test]
fn naming_a_function_without_paths_is_an_error() {
    let src = "fn helper(x: u8) -> u8 { x }";
    let r = eval_unfold_named(&msg_toy_schema(), src, "helper");
    assert_eq!(
        r.err().as_deref(),
        Some("no unfold paths for `helper` (need a param/receiver of type Msg)")
    );
}

#[test]
fn sources_are_scored_under_their_paths() {
    let files = vec![
        (
            "src/a.rs".to_string(),
            "fn f(mut m: Msg) -> Msg { m.kind = \"nope\".into(); m }".to_string(),
        ),
        (
            "src/b.rs".to_string(),
            "#[except(\"later\")] fn g(m: Msg) -> Msg { m }".to_string(),
        ),
    ];
    let report = eval_sources(&msg_toy_schema(), &files).unwrap();
    assert!(report.fails().any(|f| f.site.as_deref() == Some("src/a.rs::f")));
    assert_eq!(report.skipped.len(), 1);
    assert_eq!(report.skipped[0].site, "src/b.rs::g");
    let broken = vec![("x.rs".to_string(), "fn (".to_string())];
    assert!(eval_sources(&msg_toy_schema(), &broken).is_err());
}

#[test]
fn fill_braces_fills_holes_in_order() {
    let args = vec!["1".to_string(), "2".to_string()];
    assert_eq!(fill_braces("a{}b{}c", &args).as_deref(), Some("a1b2c"));
    assert_eq!(fill_braces("{{}}", &vec![]).as_deref(), Some("{}"));
    assert_eq!(fill_braces("{", &vec![]), None);
    assert_eq!(fill_braces("{}", &vec![]), None);
    assert_eq!(fill_braces("x", &vec!["1".to_string()]), None);
    assert_eq!(fill_braces("}x", &vec![]), None);
}

#[test]
fn parse_file_lowers_items() {
    let file = parse_file("fn f(m: Msg) -> Msg { m } impl Msg { fn g(self) -> Self { self } } struct S; use a::b;").unwrap();
    assert_eq!(file.items.len(), 4);
    match &file.items[0] {
        ItemAst::Fn(f) => {
            assert_eq!(f.name, "f");
            assert_eq!(f.block.len(), 1);
        }
        other => panic!("{:?}", other),
    }
    match &file.items[1] {
        ItemAst::Impl(ty, fns) => {
            assert_eq!(ty.as_deref(), Some("Msg"));
            assert_eq!(fns.len(), 1);
            assert_eq!(fns[0].name, "g");
        }
        other => panic!("{:?}", other),
    }
    assert!(matches!(&file.items[2], ItemAst::Struct(s) if s.name == "S" && s.fields.is_none()));
    assert!(matches!(file.items[3], ItemAst::Other));
    assert!(parse_file("fn (").is_err());
}

#[test]
fn eval_error_text_names_its_kind() {
    let fail = EvalError::Fail("bad".into());
    let und = EvalError::Undecidable("unknown".into());
    assert_eq!(fail.text(), "bad");
    assert_eq!(und.text(), "undecidable: unknown");
}

#[test]
fn a_bad_pattern_is_a_pattern_error() {
    assert!(conformance_lang::stdlib::matches("(").is_err());
    let ok = conformance_lang::stdlib::matches("[0-9]{2}").unwrap();
    let f = field("code", vec![]);
    let inv = conformance_lang::Invariant::from(ok);
    assert!(eval_invariant(&ValueCtx::default().lit("code", "42"), &f, &inv).is_ok());
    assert!(eval_invariant(&ValueCtx::default().lit("code", "420"), &f, &inv).is_err());
}

#[test]
fn a_match_on_the_field_splits_by_literal() {
    let schema = Schema {
        name: "R".into(),
        width: None,
        fields: vec![field("method", vec![one_of(&["01", "09"])])],
        rewrites: vec![],
    };
    let src = r#"
        fn f(mut r: R) -> R {
            r.method = match r.method.as_str() {
                "12" | "13" => "09".into(),
                other => other.to_owned(),
            };
            r
        }
    "#;
    let obs = unfold(&schema, src).unwrap();
    assert_eq!(obs.len(), 3);
    assert_eq!(obs[0].ctx.values.get("method"), Some(&AbsVal::Known("09".into())));
    assert_eq!(obs[1].ctx.values.get("method"), Some(&AbsVal::Known("09".into())));
    assert_eq!(obs[2].ctx.values.get("method"), Some(&AbsVal::Unknown));
}

#[test]
fn unparsable_source_is_the_only_error() {
    let schema = msg_toy_schema();
    assert!(eval_unfold(&schema, "fn (").is_err());
    assert!(eval_unfold(&schema, "fn f() {}").is_ok());
    assert!(unfold(&schema, "struct S;").is_ok());
    let files = vec![
        ("a.rs".to_string(), "fn f() {}".to_string()),
        ("b.rs".to_string(), "fn (".to_string()),
    ];
    assert!(eval_sources(&schema, &files).is_err());
    assert!(eval_sources(&schema, &files[..1].to_vec()).is_ok());
}

#[test]
fn defined_fails_on_an_empty_string() {
    let f = field("name", vec![]);
    let ctx = ValueCtx::default().lit("name", "");
    let r = eval_invariant(&ctx, &f, &defined());
    assert!(matches!(r, Err(EvalError::Fail(ref m)) if m.contains("is empty")), "{:?}", r);
    let ctx = ValueCtx::default().lit("name", "Ada");
    assert!(eval_invariant(&ctx, &f, &defined()).is_ok());
    let ctx = ValueCtx::default().absent("name");
    assert!(matches!(eval_invariant(&ctx, &f, &defined()), Err(EvalError::Fail(_))));
}

#[test]
fn any_reports_the_last_undecided_arm() {
    let f = field("name", vec![]);
    let ctx = ValueCtx::default().lit("name", "x");
    let inv = conformance_lang::Invariant::Any(vec![
        conformance_lang::stdlib::when(pred_eq("kind", "a"), defined()),
        one_of(&["y"]),
        conformance_lang::stdlib::when(pred_eq("other", "b"), defined()),
        one_of(&["z"]),
    ]);
    let r = eval_invariant(&ctx, &f, &inv);
    assert!(matches!(r, Err(EvalError::Undecidable(ref m)) if m.contains("other")), "{:?}", r);
    let inv = conformance_lang::Invariant::Any(vec![one_of(&["y"]), one_of(&["z"])]);
    let r = eval_invariant(&ctx, &f, &inv);
    assert!(matches!(r, Err(EvalError::Fail(ref m)) if m.contains("\"z\"")), "{:?}", r);
    let r = eval_invariant(&ctx, &f, &conformance_lang::Invariant::Any(vec![]));
    assert!(matches!(r, Err(EvalError::Fail(ref m)) if m == "Invariant any: empty"), "{:?}", r);
}

#[test]
fn and_or_stop_at_the_first_deciding_part() {
    let ctx = ValueCtx::default().lit("kind", "hi");
    let and = conformance_lang::Predicate::And(vec![pred_eq("kind", "bye"), pred_eq("other", "x")]);
    assert!(matches!(eval_predicate(&ctx, &and), Ok(false)));
    let and = conformance_lang::Predicate::And(vec![pred_eq("other", "x"), pred_eq("kind", "bye")]);
    assert!(matches!(eval_predicate(&ctx, &and), Err(EvalError::Undecidable(_))));
    let or = conformance_lang::Predicate::Or(vec![pred_eq("kind", "hi"), pred_eq("other", "x")]);
    assert!(matches!(eval_predicate(&ctx, &or), Ok(true)));
    assert!(matches!(eval_predicate(&ctx, &conformance_lang::Predicate::And(vec![])), Ok(true)));
    assert!(matches!(eval_predicate(&ctx, &conformance_lang::Predicate::Or(vec![])), Ok(false)));
}

#[test]
fn at_and_width_read_the_wire() {
    let f = field("name", vec![]);
    let ctx = ValueCtx::default().with_wire("name", 3, 4);
    assert!(eval_invariant(&ctx, &f, &conformance_lang::stdlib::at(3)).is_ok());
    let r = eval_invariant(&ctx, &f, &conformance_lang::stdlib::at(5));
    assert!(matches!(r, Err(EvalError::Fail(ref m)) if m.contains("at(5) failed") && m.contains("`name`")), "{:?}", r);
    let r = eval_invariant(&ctx, &f, &conformance_lang::stdlib::width(2));
    assert!(matches!(r, Err(EvalError::Fail(ref m)) if m.contains("width(2) failed")), "{:?}", r);
    let r = eval_invariant(&ValueCtx::default(), &f, &conformance_lang::stdlib::at(3));
    assert!(matches!(r, Err(EvalError::Undecidable(_))), "{:?}", r);
}

#[test]
fn one_of_on_a_list_fails_before_it_is_undecided() {
    let f = field("tags", vec![]);
    let ctx = ValueCtx::default().array_of("tags", vec![AbsVal::Unknown, AbsVal::Known("q".into())]);
    let r = eval_invariant(&ctx, &f, &one_of(&["a"]));
    assert!(matches!(r, Err(EvalError::Fail(_))), "{:?}", r);
    let ctx = ValueCtx::default().array_of("tags", vec![AbsVal::Unknown, AbsVal::Known("a".into())]);
    let r = eval_invariant(&ctx, &f, &one_of(&["a"]));
    assert!(matches!(r, Err(EvalError::Undecidable(_))), "{:?}", r);
    let ctx = ValueCtx::default().array_of("tags", vec![]);
    assert!(eval_invariant(&ctx, &f, &one_of(&["a"])).is_ok());
}

#[test]
fn a_refine_is_scored_by_the_answer_it_gave() {
    let calls = std::rc::Rc::new(std::cell::Cell::new(0u32));
    let c2 = calls.clone();
    let rf = conformance_lang::RefineFn::new(move |_s: &str| {
        c2.set(c2.get() + 1);
        c2.get() % 2 == 1
    });
    assert!(rf.run(&AbsVal::Known("x".into())).is_ok());
    assert!(matches!(rf.run(&AbsVal::Known("x".into())), Err(conformance_lang::ApplyErr::Fail(_))));
    assert!(matches!(rf.run(&AbsVal::Unknown), Err(conformance_lang::ApplyErr::Undecidable(_))));
    assert!(matches!(rf.run(&AbsVal::Absent), Err(conformance_lang::ApplyErr::Fail(_))));
    assert_eq!(calls.get(), 2);
}

#[test]
fn a_wire_fragment_clone_is_equal() {
    let a = WireFragment::emit("kind", 3).concat(WireFragment::emit("name", 4));
    let b = a.clone();
    assert_eq!(a, b);
}

#[test]
fn facts_and_schemas_clone() {
    let f = Fact::Array(vec![Fact::Lit("a".into()), Fact::Absent, Fact::Wire { pos: 1, len: 2 }]);
    assert_eq!(f.clone(), f);
    let s = msg_toy_schema();
    let t = s.clone();
    assert_eq!(t.name, s.name);
    assert_eq!(t.fields.len(), s.fields.len());
    let ctx = ValueCtx::default().lit("kind", "hi").lit("name", "Ada");
    assert_eq!(eval_schema(&t, &ctx, None).ok(), eval_schema(&s, &ctx, None).ok());
}
