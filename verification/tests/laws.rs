//! What holds across functions, on concrete values.

use oracle_core::claims::{ClaimKind, ClaimMap};
use oracle_core::coverage::{CoverageData, CoverageFunction, CoverageMap};
use oracle_core::fastmutate::{guard, insert_guards, splice_guards, Plan, SkipReason};
use oracle_core::inventory::{
    attrs_have_cfg_test, innermost, parse_doctest_body, walk_files, FileRole, Inventory, SourceFile,
    TestKind,
};
use oracle_core::lint::{analyze, shape_mismatches, OracleStrength, Rule, Severity};
use oracle_core::lower::{read_file, read_function};
use oracle_core::mutation::{Mutant, MutantOutcome, MutationMap, Verification};
use oracle_core::report::Report;
use oracle_core::switch::{selected, Switch};
use oracle_core::symbol::{LineSpan, RequiredOracle, ReturnShape, SelfKind, Visibility};
use oracle_core::text::count;

fn source(rel: &str, role: FileRole, text: &str) -> SourceFile {
    SourceFile {
        rel: rel.into(),
        crate_name: "demo".into(),
        modules: vec![],
        role,
        source: Ok(text.into()),
    }
}

fn library(text: &str) -> Inventory {
    walk_files("/ws", &vec![source("src/lib.rs", FileRole::Source, text)])
}

#[test]
fn the_rules_are_those_of_the_table() {
    let table: Vec<(&str, &str, Severity)> = Rule::ALL
        .iter()
        .map(|r| (r.id(), r.name(), r.severity()))
        .collect();
    assert_eq!(
        table,
        vec![
            ("ORC001", "no-oracle", Severity::High),
            ("ORC002", "discriminant-only", Severity::High),
            ("ORC003", "unwrap-only", Severity::Medium),
            ("ORC004", "matches-wildcard", Severity::Medium),
            ("ORC005", "should-panic-unqualified", Severity::Medium),
            ("ORC006", "discarded-result", Severity::Low),
            ("ORC007", "tautological-assert", Severity::High),
            ("ORC008", "ignored-test", Severity::Low),
            ("ORC009", "computed-expectation", Severity::High),
            ("ORC010", "oracle-shape-mismatch", Severity::High),
        ]
    );
}

#[test]
fn a_signature_says_what_must_be_observed() {
    let derive = RequiredOracle::derive;
    assert_eq!(
        derive(SelfKind::Ref, ReturnShape::Value, false),
        RequiredOracle::ReturnValue
    );
    assert_eq!(
        derive(SelfKind::RefMut, ReturnShape::Unit, false),
        RequiredOracle::PostState
    );
    assert_eq!(
        derive(SelfKind::NoSelf, ReturnShape::OptionLike, true),
        RequiredOracle::Both
    );
    assert_eq!(
        derive(SelfKind::Value, ReturnShape::Never, false),
        RequiredOracle::SideChannel
    );
}

#[test]
fn a_public_symbol_reached_only_from_outside_is_not_unclaimed() {
    let inv = walk_files(
        "/ws",
        &vec![
            source(
                "src/lib.rs",
                FileRole::Source,
                "pub fn open(n: u8) -> u8 { n + 1 }\nfn shut(n: u8) -> u8 { n + 2 }\n",
            ),
            source(
                "tests/api.rs",
                FileRole::IntegrationTest,
                "#[test]\nfn reaches() { assert_eq!(demo::open(1), 2); }\n",
            ),
        ],
    );
    assert_eq!(inv.tests[0].kind, TestKind::Integration);
    let claims = ClaimMap::build(&inv);
    let paths = |direct_only: bool| -> Vec<String> {
        claims.unclaimed(&inv, direct_only).iter().map(|s| s.path.clone()).collect()
    };
    assert_eq!(paths(false), vec!["demo::shut"]);
    assert_eq!(paths(true), vec!["demo::open", "demo::shut"], "the edge is no direct one");
    assert_eq!(inv.symbols[0].visibility, Visibility::Public);
    let claimants = claims.claimants(&inv.symbols[0].id);
    assert_eq!(claimants[0].1, ClaimKind::IntegrationSurface);
    let mine = claims.claimed_by(&inv.tests[0].id);
    assert_eq!(mine.len(), 1);
    assert!(mine.contains(&inv.symbols[0].id));
}

#[test]
fn a_symbol_is_claimed_strongest_edge_first() {
    let inv = library(
        "/// ```\n/// assert_eq!(demo::work(1), 2);\n/// ```\npub fn work(n: u8) -> u8 { n + 1 }\n\n#[cfg(test)]\nmod tests {\n    #[test]\n    fn works() { assert_eq!(super::work(1), 2); }\n}\n",
    );
    let claims = ClaimMap::build(&inv);
    let kinds: Vec<ClaimKind> =
        claims.claimants(&inv.symbols[0].id).iter().map(|(_, k)| *k).collect();
    assert_eq!(kinds, vec![ClaimKind::Doctest, ClaimKind::SameFileTestModule]);
}

#[test]
fn a_mismatch_needs_a_binding_that_no_assertion_mentions() {
    let with_body = |body: &str| {
        let inv = library(&format!(
            "pub struct C {{ n: u8 }}\nimpl C {{\n    pub fn bump(&mut self) {{ self.n += 1; }}\n}}\n#[cfg(test)]\nmod tests {{\n    #[test]\n    fn bumps() {{ {body} }}\n}}\n"
        ));
        let claims = ClaimMap::build(&inv);
        let oracles = analyze(&inv);
        shape_mismatches(&inv, &claims, &oracles).len()
    };
    assert_eq!(with_body("let mut c = C { n: 0 }; c.bump(); assert!(true);"), 1);
    assert_eq!(with_body("let mut c = C { n: 0 }; c.bump(); assert_eq!(c.n, 1);"), 0);
    assert_eq!(with_body("assert!(true);"), 0, "the test never calls it");
    assert_eq!(with_body("make().bump(); assert!(true);"), 0, "on no binding");
}

#[test]
fn findings_are_listed_most_severe_first_and_name_their_test() {
    let inv = library(
        "#[cfg(test)]\nmod tests {\n    #[test]\n    #[ignore]\n    fn a() { assert!(true); }\n    #[test]\n    fn b() { let v = parse().unwrap(); }\n    #[test]\n    fn c() { }\n}\n",
    );
    let report = Report::build(&inv);
    let found: Vec<(&str, &str)> = report
        .findings
        .iter()
        .map(|f| (f.rule.id(), f.test.path.as_str()))
        .collect();
    assert_eq!(
        found,
        vec![
            ("ORC007", "demo::tests::a"),
            ("ORC001", "demo::tests::c"),
            ("ORC003", "demo::tests::b"),
            ("ORC008", "demo::tests::a"),
        ]
    );
    assert_eq!(report.findings_at_least(Severity::Medium).len(), 3);
}

#[test]
fn a_workspace_is_listed_in_order_whatever_the_order_of_reading() {
    let one = source("src/a.rs", FileRole::Source, "pub fn a(n: u8) -> u8 { n + 1 }\n");
    let two = source("src/b.rs", FileRole::Source, "pub fn b(n: u8) -> u8 { n + 1 }\n");
    let inv = walk_files("/ws", &vec![two, one]);
    assert_eq!(inv.files, vec!["src/a.rs", "src/b.rs"]);
    assert_eq!(inv.symbols[0].path, "demo::a");
    assert_eq!(inv.symbols[1].path, "demo::b");
}

const NESTED: &str = "pub fn outer(n: u8) -> u8 {\n    n + 1\n}\n\npub struct S;\n\nimpl S {\n    pub fn a(&self, n: u8) -> u8 {\n        let f = |x: u8| {\n            x + 1\n        };\n        f(n)\n    }\n}\n";

#[test]
fn a_line_belongs_to_the_innermost_symbol_around_it() {
    let inv = library(NESTED);
    assert_eq!(innermost(&inv.symbols, "src/lib.rs", 10).unwrap().path, "demo::S::a");
    assert_eq!(innermost(&inv.symbols, "src/lib.rs", 2).unwrap().path, "demo::outer");
    assert!(innermost(&inv.symbols, "src/lib.rs", 5).is_none());
    assert!(innermost(&inv.symbols, "src/main.rs", 2).is_none());
    let span = LineSpan { start: 8, end: 13 };
    assert!(span.contains(8) && span.contains(13) && !span.contains(14));
}

#[test]
fn what_runs_inside_a_body_is_no_execution_of_it() {
    let inv = library(NESTED);
    let entry = |line: u32, count: u64| CoverageFunction {
        name: "f".into(),
        count,
        file: "src/lib.rs".into(),
        start_line: line,
    };
    let data = CoverageData { functions: vec![entry(9, 7), entry(8, 0)] };
    let map = CoverageMap::join(&inv, &data);
    let a = &inv.symbols.iter().find(|s| s.name == "a").unwrap().id;
    assert!(!map.executed(a));
    assert_eq!(map.for_symbol(a).nested, 1);
    assert_eq!(map.for_symbol(a).nested_uncovered, 0);
}

#[test]
fn a_symbol_is_verified_only_by_a_mutant_that_was_caught() {
    let inv = library(NESTED);
    let mutant = |line: u32, outcome: MutantOutcome| Mutant {
        file: "src/lib.rs".into(),
        function_name: "a".into(),
        line,
        column: 1,
        replacement: "0".into(),
        genre: "FnValue".into(),
        outcome,
        killed_by: vec![],
    };
    let state = |mutants: Vec<Mutant>| {
        let map = MutationMap::build(&inv, &mutants);
        let a = inv.symbols.iter().find(|s| s.name == "a").unwrap();
        (map.verification_of(a), map.verification(&a.id), map.verdict(&a.id).survivors.len())
    };
    assert_eq!(
        state(vec![mutant(10, MutantOutcome::Missed), mutant(9, MutantOutcome::Caught)]),
        (Verification::Verified, Verification::Verified, 1)
    );
    assert_eq!(
        state(vec![mutant(10, MutantOutcome::Unviable)]),
        (Verification::NoViableMutant, Verification::NoViableMutant, 0)
    );
    assert_eq!(
        state(vec![mutant(2, MutantOutcome::Caught)]),
        (Verification::NotMutated, Verification::NotMutated, 0),
        "its file was examined and gave no mutant of it"
    );
    assert_eq!(
        state(vec![]),
        (Verification::OutOfScope, Verification::NotMutated, 0),
        "nothing was examined"
    );
}

#[test]
fn taking_the_guards_out_again_gives_the_source_back() {
    let inv = library(NESTED);
    let plan = Plan::build(&inv);
    let mut out = insert_guards(NESTED, &inv, &plan.in_file("src/lib.rs")).ok().unwrap();
    assert_ne!(out, NESTED);
    for mutant in &plan.mutants {
        let text = guard(mutant.id, ReturnShape::Value, Some("u8"));
        assert_eq!(out.matches(&text).count(), 1);
        assert!(!text.contains('\n'));
        out = out.replace(&text, "");
    }
    assert_eq!(out, NESTED);
}

#[test]
fn a_brace_that_is_not_where_it_should_be_is_refused() {
    let text = "pub fn f() -> u8 { 1 + 1 }\n";
    let inv = library(text);
    let plan = Plan::build(&inv);
    let items = read_file(text).unwrap();
    let mutants = plan.in_file("src/lib.rs");
    assert!(splice_guards(&items, text, &inv, &mutants).is_some());
    assert!(splice_guards(&items, "pub fn f() -> u8 é 1 + 1 }\n", &inv, &mutants).is_none());
}

#[test]
fn every_reason_for_leaving_a_symbol_alone_is_spelled_out() {
    assert!(!SkipReason::NeverReturns.label().is_empty());
    assert!(!SkipReason::NotScorable.label().is_empty());
    let plan = Plan::build(&library("fn stop() -> ! { loop {} }\nfn none() {}\n"));
    let labels: Vec<&str> = plan.skipped.iter().map(|(_, r)| r.label()).collect();
    assert_eq!(labels, vec![SkipReason::NeverReturns.label(), SkipReason::NotScorable.label()]);
}

#[test]
fn the_number_of_a_mutant_selects_it() {
    for id in [0u32, 7, 4294967295] {
        assert_eq!(selected(Some(count(id as usize))), Some(id));
    }
}

#[test]
fn a_test_configuration_is_recognized_one_level_deep() {
    let marked = |attr: &str| {
        let f = read_function(&format!("{attr} fn f() {{}}")).expect("fixture must parse");
        attrs_have_cfg_test(&f.attrs)
    };
    assert!(marked("#[cfg(test)]"));
    assert!(marked("#[cfg(all(test, unix))]"));
    assert!(marked("#[cfg(any(unix, test))]"));
    assert!(!marked("#[cfg(not(test))]"));
    assert!(!marked("#[cfg(all(any(test)))]"));
    assert!(!marked("#[cfg(feature = \"test\")]"));
    assert!(!marked("#[allow(test)]"));
}

#[test]
fn an_example_with_its_own_main_is_read_from_it() {
    let body = parse_doctest_body("fn helper() {}\nfn main() { let a = 1; let b = 2; }").unwrap();
    assert_eq!(body.statements, 2);
    let body = parse_doctest_body("let a = 1;").unwrap();
    assert_eq!(body.statements, 1);
    assert!(parse_doctest_body("let a = ;").is_none());
    assert!(parse_doctest_body("// fn main\nfn other() {}").is_none());
}

#[test]
fn success_without_a_payload_is_all_there_is_to_see() {
    let inv = library(
        "pub fn save(n: u8) -> Result<(), String> { check(n) }\npub fn load(n: u8) -> Result<u8, String> { read(n) }\n#[cfg(test)]\nmod tests {\n    #[test]\n    fn saves() { assert!(super::save(1).is_ok()); }\n    #[test]\n    fn fails() { assert!(super::save(1).is_err()); }\n    #[test]\n    fn loads() { assert!(super::load(1).is_ok()); }\n}\n",
    );
    let oracles = analyze(&inv);
    let of = |name: &str| {
        let o = oracles.iter().find(|o| o.test.path.ends_with(name)).unwrap();
        (o.strength, o.findings.iter().map(|f| f.rule).collect::<Vec<Rule>>())
    };
    assert_eq!(of("saves"), (OracleStrength::Strong, vec![]));
    assert_eq!(of("fails"), (OracleStrength::Weak, vec![Rule::DiscriminantOnly]));
    assert_eq!(of("loads"), (OracleStrength::Weak, vec![Rule::DiscriminantOnly]));
}

#[test]
fn every_coverage_entry_is_counted_once() {
    let inv = library(NESTED);
    let entry = |line: u32| CoverageFunction {
        name: "f".into(),
        count: 1,
        file: "src/lib.rs".into(),
        start_line: line,
    };
    let data = CoverageData { functions: (1..60).map(entry).collect() };
    let map = CoverageMap::join(&inv, &data);
    let placed: usize = map.symbols.entries.iter().map(|(_, c)| c.entries + c.nested).sum();
    let tested: u64 = map.tests.entries.iter().map(|(_, n)| *n).sum();
    assert_eq!(placed + tested as usize + map.unmatched, 59);
}

#[test]
fn a_switch_keeps_the_value_it_was_set_with() {
    let switch = Switch::set(Some(" 7\n".to_string()));
    assert!(switch.active(7) && switch.active(7));
    assert!(!switch.active(8));
    assert!(!Switch::set(None).active(0));
    assert!(!Switch::set(Some("seven".to_string())).active(0));
}

#[test]
fn unclaimed_symbols_have_one_section_where_there_are_any() {
    let many: String = (0..17)
        .map(|n| format!("pub fn lone_{n}(x: u32) -> u32 {{ x + {n} }}\n"))
        .collect();
    let report = Report::build(&library(&many));
    let titles = |text: &str| text.lines().filter(|l| l.starts_with("unclaimed symbols (")).count();
    let brief = report.to_text(false);
    assert_eq!(titles(&brief), 1);
    assert!(brief.contains("\nunclaimed symbols (17) -- no test speaks for these at all\n  demo::lone_0\n"));
    assert!(brief.contains("  demo::lone_14\n  ... and 2 more\n"));
    let full = report.to_text(true);
    assert!(full.contains("  demo::lone_16\n") && !full.contains(" more\n"));
    let none = Report::build(&library("pub fn get() -> u32 { 1 }\n"));
    assert_eq!(titles(&none.to_text(true)), 0);
}
