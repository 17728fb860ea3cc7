//! Resolving test names, and the map of who runs what.

use oracle_core::attribution::{listed, resolve, Ambiguity, AttributionMap, NextestId};
use oracle_core::coverage::{CoverageData, CoverageFunction};
use oracle_core::inventory::{walk_files, FileRole, Inventory, SourceFile, TestId, TestItem, TestKind};
use oracle_core::lint::Span;
use oracle_core::symbol::LineSpan;

fn test_item(path: &str) -> TestItem {
    TestItem {
        id: TestId {
            file: "src/config.rs".into(),
            line: 1,
            path: path.into(),
        },
        kind: TestKind::Unit,
        span: LineSpan { start: 1, end: 9 },
        name_span: Span::at(1, 1, 1),
        is_ignored: false,
        is_async: false,
        should_panic: None,
        enclosing_test_module: None,
        doctest_target: None,
        body: None,
    }
}

fn inv_with(paths: &[&str]) -> Inventory {
    Inventory {
        tests: paths.iter().map(|p| test_item(p)).collect(),
        ..Inventory::new()
    }
}

fn nextest(testcase: &str) -> NextestId {
    NextestId {
        binary_id: "weak-suite".into(),
        testcase: testcase.into(),
    }
}

#[test]
fn a_nextest_name_resolves_as_a_suffix_of_the_inventory_path() {
    let inv = inv_with(&["weak_suite::config::tests::test_parse"]);
    let resolved = resolve(&inv, &nextest("config::tests::test_parse"))
        .expect("the nextest name is a suffix of the inventory path");
    assert_eq!(resolved.path, "weak_suite::config::tests::test_parse");
}

#[test]
fn an_unknown_test_resolves_to_nothing_rather_than_a_near_miss() {
    let inv = inv_with(&["weak_suite::config::tests::test_parse"]);
    assert_eq!(
        resolve(&inv, &nextest("config::tests::test_absent")),
        Err(Ambiguity::NoMatch)
    );
}

#[test]
fn a_name_matching_two_tests_is_recorded_as_ambiguous_not_guessed() {
    let inv = inv_with(&[
        "crate_a::tests::roundtrip",
        "crate_b::other::tests::roundtrip",
    ]);
    assert_eq!(
        resolve(&inv, &nextest("roundtrip")),
        Err(Ambiguity::Several(2)),
        "a wrong attribution edge is worse than a missing one"
    );
}

#[test]
fn a_partial_segment_does_not_count_as_a_suffix_match() {
    // `test_parse` must not match `test_parse_extended`.
    let inv = inv_with(&["weak_suite::config::tests::test_parse_extended"]);
    assert_eq!(
        resolve(&inv, &nextest("config::tests::test_parse")),
        Err(Ambiguity::NoMatch)
    );
}

#[test]
fn filter_selects_the_test_exactly() {
    assert_eq!(
        nextest("config::tests::test_parse").filter(),
        "test(=config::tests::test_parse)"
    );
}

#[test]
fn listed_tests_are_sorted_by_binary_and_name() {
    let id = |b: &str, t: &str| NextestId { binary_id: b.into(), testcase: t.into() };
    let sorted = listed(vec![id("b", "x"), id("a", "z"), id("a", "y")]);
    let names: Vec<(String, String)> = sorted
        .into_iter()
        .map(|n| (n.binary_id, n.testcase))
        .collect();
    assert_eq!(
        names,
        vec![
            ("a".to_string(), "y".to_string()),
            ("a".to_string(), "z".to_string()),
            ("b".to_string(), "x".to_string()),
        ]
    );
}

const SOURCE: &str = "pub fn work(n: u32) -> u32 {\n    n + 1\n}\n\npub fn idle(n: u32) -> u32 {\n    n + 2\n}\n\n#[cfg(test)]\nmod tests {\n    #[test]\n    fn works() {\n        assert_eq!(super::work(1), 2);\n    }\n}\n";

fn workspace() -> Inventory {
    walk_files(
        "/ws",
        &vec![SourceFile {
            rel: "src/lib.rs".into(),
            crate_name: "demo".into(),
            modules: vec![],
            role: FileRole::Source,
            source: Ok(SOURCE.into()),
        }],
    )
}

fn entry(line: u32, count: u64) -> CoverageFunction {
    CoverageFunction {
        file: "src/lib.rs".into(),
        start_line: line,
        count,
        name: "f".into(),
    }
}

#[test]
fn a_profiled_test_is_attributed_to_the_symbols_it_ran() {
    let inv = workspace();
    let mut map = AttributionMap::new();
    let test = map
        .begin(&inv, &nextest("tests::works"))
        .expect("the name resolves");
    let data = CoverageData { functions: vec![entry(1, 3), entry(5, 0)] };
    assert!(map.finish(&inv, &test, &data));

    let work = &inv.symbols.iter().find(|s| s.name == "work").unwrap().id;
    let idle = &inv.symbols.iter().find(|s| s.name == "idle").unwrap().id;
    assert!(map.tests_for(work).unwrap().contains(&test));
    assert!(map.tests_for(idle).is_none());
    let ran = map.symbols_for(&test).unwrap();
    assert_eq!(ran.len(), 1);
    assert!(ran.contains(work));
    assert!(map.unmatched_tests.is_empty());
    assert!(map.ambiguous_tests.is_empty());
}

#[test]
fn names_that_do_not_resolve_are_kept_apart() {
    let inv = inv_with(&["a::tests::x", "b::tests::x"]);
    let mut map = AttributionMap::new();
    assert!(map.begin(&inv, &nextest("tests::x")).is_none());
    assert!(map.begin(&inv, &nextest("tests::y")).is_none());
    assert_eq!(map.ambiguous_tests.len(), 1);
    assert_eq!(map.unmatched_tests.len(), 1);
    assert!(map.ambiguous_tests[0].contains("tests::x"));
    assert!(map.unmatched_tests[0].contains("tests::y"));
}
