//! Each rule, exercised against real syntax.

use oracle_core::inventory::{should_panic_of, TestId, TestItem, TestKind};
use oracle_core::lint::{analyze_test, OracleStrength, Rule, Span, TestOracles};
use oracle_core::lower::read_function;
use oracle_core::symbol::LineSpan;

/// Builds a `TestItem` from a source fixture so each rule is exercised against
/// real syntax rather than a hand-built tree.
fn analyze_src(src: &str) -> TestOracles {
    let f = read_function(src).expect("fixture must parse");
    let item = TestItem {
        id: TestId {
            file: "fixture.rs".into(),
            line: 1,
            path: format!("fixture::{}", f.sig.name),
        },
        kind: TestKind::Unit,
        span: LineSpan { start: 1, end: 99 },
        name_span: Span::at(1, 1, 1),
        is_ignored: f.attrs.iter().any(|a| a.name.as_deref() == Some("ignore")),
        is_async: f.sig.is_async,
        should_panic: should_panic_of(&f.attrs),
        enclosing_test_module: Some("fixture::tests".into()),
        doctest_target: None,
        body: Some(f.body),
    };
    analyze_test(&item)
}

fn rules(o: &TestOracles) -> Vec<Rule> {
    let mut r: Vec<Rule> = o.findings.iter().map(|f| f.rule).collect();
    r.sort();
    r.dedup();
    r
}

#[test]
fn body_with_no_assertion_has_no_oracle() {
    let o = analyze_src("fn t() { let c = Config::new(); c.validate(); }");
    assert_eq!(rules(&o), vec![Rule::NoOracle]);
    assert_eq!(o.strength, OracleStrength::Absent);
    assert!(o.sites.is_empty());
}

#[test]
fn is_ok_check_is_discriminant_only() {
    let o = analyze_src(r#"fn t() { assert!(parse("x").is_ok()); }"#);
    assert_eq!(rules(&o), vec![Rule::DiscriminantOnly]);
    assert_eq!(o.strength, OracleStrength::Weak);
    assert_eq!(o.sites.len(), 1);
    assert_eq!(o.sites[0].kind, "assert!");
}

#[test]
fn a_flagged_snippet_quotes_the_whole_assertion_not_just_its_condition() {
    // A snippet reading `true` does not look like a problem in a report until
    // you know it was the argument to an `assert!`.
    let o = analyze_src("fn t() { assert!(true); }");
    assert_eq!(o.findings[0].snippet, "assert!(true)");

    let o = analyze_src(r#"fn t() { assert!(parse("h:1").is_ok()); }"#);
    assert_eq!(o.findings[0].snippet, r#"assert!(parse("h:1").is_ok())"#);
}

#[test]
fn identical_operands_are_tautological() {
    let o = analyze_src("fn t() { assert_eq!(cfg.len(), cfg.len()); }");
    assert_eq!(rules(&o), vec![Rule::TautologicalAssert]);
    assert_eq!(o.strength, OracleStrength::Absent);
}

#[test]
fn assert_on_literal_is_tautological() {
    let o = analyze_src("fn t() { assert!(true); }");
    assert_eq!(rules(&o), vec![Rule::TautologicalAssert]);
    assert_eq!(o.strength, OracleStrength::Absent);
}

#[test]
fn expectation_computed_by_the_same_function_is_flagged() {
    let o = analyze_src("fn t() { assert_eq!(normalize(a), normalize(b)); }");
    assert_eq!(rules(&o), vec![Rule::ComputedExpectation]);
    assert_eq!(o.strength, OracleStrength::Weak);
    assert!(o.findings[0].snippet.contains("normalize"));
}

#[test]
fn constructor_on_the_expected_side_is_a_legitimate_expectation() {
    let o = analyze_src("fn t() { assert_eq!(got, Config::default()); }");
    assert!(rules(&o).is_empty(), "unexpected findings: {:?}", rules(&o));
    assert_eq!(o.strength, OracleStrength::Strong);
}

#[test]
fn matches_with_rest_pattern_wildcards_the_payload() {
    let o = analyze_src("fn t() { assert!(matches!(e, Error::Parse { .. })); }");
    assert_eq!(rules(&o), vec![Rule::MatchesWildcard]);
    assert_eq!(o.strength, OracleStrength::Weak);
}

#[test]
fn bare_variant_pattern_checks_only_the_discriminant() {
    let o = analyze_src("fn t() { assert!(matches!(e, Error::Eof)); }");
    assert_eq!(rules(&o), vec![Rule::MatchesWildcard]);
}

#[test]
fn matches_binding_a_field_is_not_a_wildcard() {
    let o = analyze_src("fn t() { assert!(matches!(e, Error::Parse(msg) if msg.len() > 2)); }");
    assert!(rules(&o).is_empty(), "unexpected findings: {:?}", rules(&o));
    assert_eq!(o.strength, OracleStrength::Partial);
}

#[test]
fn underscore_inside_an_identifier_is_not_a_wildcard_binding() {
    let o = analyze_src("fn t() { assert!(matches!(e, Error::Parse(my_value))); }");
    assert!(
        !rules(&o).contains(&Rule::MatchesWildcard),
        "`my_value` binds a real field; it is not a `_` pattern"
    );
}

#[test]
fn discarded_call_result_is_flagged_without_suppressing_real_oracles() {
    let o = analyze_src(r#"fn t() { let _ = compute(); assert_eq!(total, 7); }"#);
    assert_eq!(rules(&o), vec![Rule::DiscardedResult]);
    assert_eq!(o.strength, OracleStrength::Strong);
    assert_eq!(o.findings[0].snippet, "let _ = compute();");
}

#[test]
fn value_equality_against_a_literal_is_a_strong_oracle() {
    let o = analyze_src(r#"fn t() { assert_eq!(parse("a=1").unwrap().key, "a"); }"#);
    assert!(rules(&o).is_empty(), "unexpected findings: {:?}", rules(&o));
    assert_eq!(o.strength, OracleStrength::Strong);
}

#[test]
fn unwrap_as_the_only_failure_mode_is_flagged() {
    let o = analyze_src(r#"fn t() { let v = parse("x").unwrap(); }"#);
    assert_eq!(rules(&o), vec![Rule::UnwrapOnly]);
    assert_eq!(o.strength, OracleStrength::Weak);
    assert_eq!(o.sites[0].kind, ".unwrap()");
}

#[test]
fn question_mark_counts_as_a_panic_only_oracle() {
    let o = analyze_src(r#"fn t() -> Result<()> { let v = parse("x")?; Ok(()) }"#);
    assert_eq!(rules(&o), vec![Rule::UnwrapOnly]);
    assert_eq!(o.sites[0].kind, "?");
}

#[test]
fn unqualified_should_panic_accepts_any_panic() {
    let o = analyze_src(r#"#[should_panic] fn t() { parse("bad"); }"#);
    assert_eq!(rules(&o), vec![Rule::ShouldPanicUnqualified]);
    assert_eq!(o.strength, OracleStrength::Weak);
}

#[test]
fn qualified_should_panic_is_a_real_if_coarse_oracle() {
    let o = analyze_src(r#"#[should_panic(expected = "empty host")] fn t() { parse(""); }"#);
    assert!(rules(&o).is_empty(), "unexpected findings: {:?}", rules(&o));
    assert_eq!(o.strength, OracleStrength::Partial);
}

#[test]
fn ignored_test_is_reported_alongside_its_oracle_verdict() {
    let o = analyze_src("#[ignore] fn t() { assert_eq!(a, 1); }");
    assert_eq!(rules(&o), vec![Rule::IgnoredTest]);
    assert_eq!(o.strength, OracleStrength::Strong);
}

#[test]
fn assertions_inside_a_nested_helper_are_not_this_test_s_oracles() {
    let o = analyze_src("fn t() { fn helper() { assert!(true); } helper(); }");
    assert_eq!(
        rules(&o),
        vec![Rule::NoOracle],
        "the helper's tautology belongs to the helper, and the test itself asserts nothing"
    );
}

#[test]
fn an_assertion_in_expression_position_is_still_an_oracle() {
    // No trailing semicolon, so this is the block's tail expression: another
    // node than the statement that a semicolon makes.
    let o = analyze_src(r#"fn t() { assert_eq!(cfg.port, 8080) }"#);
    assert!(rules(&o).is_empty(), "unexpected findings: {:?}", rules(&o));
    assert_eq!(o.strength, OracleStrength::Strong);
    assert_eq!(o.sites.len(), 1);
    assert_eq!(o.sites[0].kind, "assert_eq!");
}

#[test]
fn a_tautology_in_expression_position_is_still_caught() {
    let o = analyze_src(r#"fn t() { assert!(true) }"#);
    assert_eq!(rules(&o), vec![Rule::TautologicalAssert]);
}

#[test]
fn every_rule_has_a_distinct_id_and_an_explanation() {
    let all = Rule::ALL;
    let mut ids: Vec<&str> = all.iter().map(|r| r.id()).collect();
    let before = ids.len();
    ids.sort();
    ids.dedup();
    assert_eq!(ids.len(), before, "rule IDs must be unique");
    assert!(all.iter().all(|r| r.why().len() > 40));
    assert!(all.iter().all(|r| !r.name().is_empty()));
    // Every rule must say how to fix it. A finding without a fix is a complaint.
    assert!(
        all.iter().all(|r| r.fix().len() > 40),
        "every rule needs a fix"
    );
    // Every rule is reachable by both of the names a reader might type.
    for rule in all {
        assert_eq!(Rule::find(rule.id()), Some(rule));
        assert_eq!(Rule::find(rule.name()), Some(rule));
    }
}

#[test]
fn a_rule_is_found_whatever_the_case_and_nothing_else_is() {
    assert_eq!(Rule::find("orc002"), Some(Rule::DiscriminantOnly));
    assert_eq!(Rule::find("No-Oracle"), Some(Rule::NoOracle));
    assert_eq!(Rule::find("ORC011"), None);
    assert_eq!(Rule::find(""), None);
}

#[test]
fn a_body_that_cannot_be_read_is_not_flagged() {
    let item = TestItem {
        id: TestId { file: "a.rs".into(), line: 3, path: "a::t".into() },
        kind: TestKind::Doctest,
        span: LineSpan { start: 3, end: 3 },
        name_span: Span::at(3, 1, 1),
        is_ignored: false,
        is_async: false,
        should_panic: None,
        enclosing_test_module: None,
        doctest_target: None,
        body: None,
    };
    let o = analyze_test(&item);
    assert!(o.findings.is_empty());
    assert!(o.sites.is_empty());
}

#[test]
fn a_test_is_judged_by_its_best_oracle() {
    let o = analyze_src(
        "fn t() { assert!(a.is_some()); assert!(true); assert_eq!(b.len(), 3); let c = d.unwrap(); }",
    );
    assert_eq!(o.strength, OracleStrength::Strong);
    assert_eq!(
        rules(&o),
        vec![Rule::DiscriminantOnly, Rule::TautologicalAssert]
    );
}

#[test]
fn sites_and_calls_are_recorded_with_their_lines() {
    let o = analyze_src(
        "fn t() {\n    let mut c = Config::new();\n    c.push(1);\n    assert_eq!(c.len(), 1);\n}",
    );
    assert_eq!(o.sites.len(), 1);
    assert_eq!(o.sites[0].line, 4);
    let calls: Vec<(String, String)> = o
        .receiver_calls
        .iter()
        .map(|c| (c.receiver.clone(), c.method.clone()))
        .collect();
    assert!(calls.contains(&("c".to_string(), "push".to_string())), "{calls:?}");
    assert!(o.asserted_idents.contains(&"c".to_string()));
    assert!(!o.asserted_idents.contains(&"push".to_string()));
}

#[test]
fn what_a_helper_inside_a_test_does_is_not_read() {
    let o = analyze_src(
        "fn t() { fn helper() { assert!(true); inner().unwrap(); } assert_eq!(total, 7); }",
    );
    assert!(rules(&o).is_empty(), "unexpected findings: {:?}", rules(&o));
    assert_eq!(o.sites.len(), 1);
    assert_eq!(o.strength, OracleStrength::Strong);
}
