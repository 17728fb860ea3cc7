//! Reading a coverage report and joining it onto an inventory.

use oracle_core::coverage::{read_functions, CoverageData, CoverageFunction, CoverageMap, RawFunction};
use oracle_core::inventory::{walk_files, FileRole, Inventory, SourceFile};
use serde_json::Value;

const SAMPLE: &str = r#"{
  "type": "llvm.coverage.json.export",
  "version": "3.0.1",
  "data": [{
    "functions": [
      {
        "name": "_RNvNtCs_10weak_suite6config5parse",
        "count": 2,
        "filenames": ["/ws/src/config.rs"],
        "regions": [[38,1,42,2,2,0,0,0]]
      },
      {
        "name": "_RNCNvNtCs_10weak_suite6config5parse0B5_",
        "count": 0,
        "filenames": ["/ws/src/config.rs"],
        "regions": [[40,44,40,70,0,0,0,0]]
      },
      {
        "name": "no_regions",
        "count": 7,
        "filenames": ["/ws/src/config.rs"],
        "regions": []
      }
    ]
  }]
}"#;

/// The functions of a report, in the library's terms.
fn functions(json: &str) -> Vec<RawFunction> {
    let root: Value = serde_json::from_str(json).expect("sample must parse");
    let mut out = Vec::new();
    for data in root["data"].as_array().expect("data[]") {
        for f in data["functions"].as_array().expect("functions[]") {
            out.push(RawFunction {
                name: f["name"].as_str().unwrap().to_string(),
                count: f["count"].as_u64().unwrap(),
                filenames: f["filenames"]
                    .as_array()
                    .unwrap()
                    .iter()
                    .map(|v| v.as_str().unwrap().to_string())
                    .collect(),
                regions: f["regions"]
                    .as_array()
                    .unwrap()
                    .iter()
                    .map(|r| r.as_array().unwrap().iter().map(|n| n.as_i64().unwrap()).collect())
                    .collect(),
            });
        }
    }
    out
}

fn parse(json: &str, root: &str) -> CoverageData {
    read_functions(&functions(json), root)
}

#[test]
fn parse_normalizes_paths_against_the_workspace_root() {
    let data = parse(SAMPLE, "/ws");
    assert_eq!(data.functions.len(), 2, "the region-less entry is skipped");
    assert_eq!(data.functions[0].file, "src/config.rs");
    assert_eq!(data.functions[0].start_line, 38);
    assert_eq!(data.functions[0].count, 2);
}

#[test]
fn a_path_outside_the_workspace_is_kept_verbatim() {
    let data = parse(SAMPLE, "/elsewhere");
    assert_eq!(data.functions[0].file, "/ws/src/config.rs");
}

#[test]
fn a_sibling_with_a_longer_name_is_not_below_the_root() {
    let data = parse(SAMPLE, "/w");
    assert_eq!(data.functions[0].file, "/ws/src/config.rs");
}

#[test]
fn an_entry_is_placed_by_the_file_its_first_region_names() {
    let raw = RawFunction {
        name: "f".into(),
        count: 1,
        filenames: vec!["/ws/a.rs".into(), "/ws/b.rs".into()],
        regions: vec![vec![7, 1, 9, 2, 1, 1, 0, 0]],
    };
    let data = read_functions(&vec![raw], "/ws");
    assert_eq!(data.functions.len(), 1);
    assert_eq!(data.functions[0].file, "b.rs");
    assert_eq!(data.functions[0].start_line, 7);
}

const SOURCE: &str = "pub fn work(n: u32) -> u32 {\n    let f = |x: u32| {\n        x + 1\n    };\n    f(n)\n}\n\npub fn idle(n: u32) -> u32 {\n    n + 2\n}\n\n#[cfg(test)]\nmod tests {\n    #[test]\n    fn works() {\n        assert_eq!(super::work(1), 2);\n    }\n}\n";

fn workspace() -> Inventory {
    let file = |rel: &str, source: &str| SourceFile {
        rel: rel.into(),
        crate_name: "demo".into(),
        modules: vec![],
        role: FileRole::Source,
        source: Ok(source.into()),
    };
    walk_files(
        "/ws",
        &vec![
            file("src/lib.rs", SOURCE),
            file("src/other.rs", "pub fn away(n: u32) -> u32 {\n    n * 3\n}\n"),
        ],
    )
}

fn entry(line: u32, count: u64) -> CoverageFunction {
    CoverageFunction {
        name: "f".into(),
        count,
        file: "src/lib.rs".into(),
        start_line: line,
    }
}

#[test]
fn entries_collapse_onto_the_definition_they_start_at() {
    let inv = workspace();
    let data = CoverageData {
        functions: vec![entry(1, 2), entry(1, 3), entry(2, 0), entry(15, 1), entry(99, 4)],
    };
    let map = CoverageMap::try_join(&inv, &data).expect("the counts fit");
    let sym = |name: &str| &inv.symbols.iter().find(|s| s.name == name).unwrap().id;

    let work = map.for_symbol(sym("work"));
    assert_eq!(work.execution_count, 5, "two entries sum");
    assert_eq!(work.entries, 2);
    assert_eq!(work.nested, 1, "the closure is kept apart");
    assert_eq!(work.nested_uncovered, 1);
    assert!(map.executed(sym("work")));
    assert!(!map.executed(sym("idle")));
    assert_eq!(map.for_symbol(sym("idle")).entries, 0);
    assert_eq!(map.unmatched, 1);
    assert_eq!(map.files_without_coverage, vec!["src/other.rs"]);
    assert_eq!(map.tests.len(), 1);
}

#[test]
fn counts_that_do_not_fit_are_refused() {
    let inv = workspace();
    let data = CoverageData { functions: vec![entry(1, u64::MAX), entry(1, 1)] };
    assert!(CoverageMap::try_join(&inv, &data).is_none());
}

#[test]
fn paths_are_compared_part_by_part() {
    let file = |path: &str, root: &str| {
        let raw = RawFunction {
            name: "f".into(),
            count: 1,
            filenames: vec![path.into()],
            regions: vec![vec![7, 1, 9, 2, 1, 0, 0, 0]],
        };
        read_functions(&vec![raw], root).functions[0].file.clone()
    };
    assert_eq!(file("/ws//src/./a.rs", "/ws/"), "src/./a.rs");
    assert_eq!(file("/ws/src/a.rs", "/"), "ws/src/a.rs");
    assert_eq!(file("src/a.rs", "/ws"), "src/a.rs");
    assert_eq!(file("/ws", "/ws"), "");
}
