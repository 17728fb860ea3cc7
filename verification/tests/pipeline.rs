//! End to end: read a real crate, build its claim map, and audit its oracles.
//!
//! The fixture is a small crate whose test module is deliberately typical: four
//! tests, plenty of assertions, and almost no discrimination.

use oracle_core::claims::{ClaimKind, ClaimMap};
use oracle_core::cli::{denied, render_claims, render_inventory, DenyLevel};
use oracle_core::coverage::{CoverageData, CoverageFunction, CoverageMap};
use oracle_core::inventory::{keeps_entry, walk_files, FileRole, Inventory, SourceFile, TestKind};
use oracle_core::lint::{analyze, shape_mismatches, OracleStrength, Rule, Severity};
use oracle_core::report::{execution_state, render_coverage, ExecutionState, Report};
use oracle_core::symbol::{RequiredOracle, SelfKind, Triviality};
use oracle_core::Symbol;

const CONFIG: &str = r#"#[derive(Debug, Default, Clone, PartialEq)]
pub struct Config {
    pub host: String,
    pub port: u16,
    pub retries: u8,
}

impl Config {
    /// Build a config.
    ///
    /// ```
    /// let c = weak_suite::config::Config::new("h", 1);
    /// assert_eq!(c.port, 1);
    /// ```
    pub fn new(host: &str, port: u16) -> Self {
        Self { host: host.to_string(), port, retries: 0 }
    }

    /// An accessor: nothing to destroy, so it should not be scored.
    pub fn host(&self) -> &str {
        &self.host
    }

    /// Mutates the receiver and returns nothing: the required oracle is
    /// post-state, and a return-value assertion cannot reach it.
    pub fn set_retries(&mut self, n: u8) {
        self.retries = n.min(10);
    }

    pub fn validate(&self) -> Result<(), String> {
        if self.host.is_empty() {
            return Err("empty host".to_string());
        }
        Ok(())
    }
}

pub fn parse(s: &str) -> Result<Config, String> {
    let (host, port) = s.split_once(':').ok_or("missing port")?;
    let port: u16 = port.parse().map_err(|_| "bad port".to_string())?;
    Ok(Config::new(host, port))
}

/// Real logic that no test ever calls. The same-file `mod tests` claims it,
/// which makes it `claimed-but-unexecuted` rather than merely unclaimed.
pub fn redact(s: &str) -> String {
    if s.len() > 3 {
        format!("{}***", &s[..3])
    } else {
        "***".to_string()
    }
}

#[cfg(test)]
mod tests {
    use super::*;

    #[test]
    fn test_parse() {
        assert!(parse("h:1").is_ok());
    }

    #[test]
    fn test_validate() {
        let c = Config::new("h", 1);
        c.validate();
    }

    #[test]
    fn test_set_retries() {
        let mut c = Config::new("h", 1);
        c.set_retries(3);
        assert!(true);
    }

    #[test]
    fn parse_extracts_host_and_port() {
        let c = parse("example.com:8080").unwrap();
        assert_eq!(c.host, "example.com");
        assert_eq!(c.port, 8080);
    }
}
"#;

fn fixture() -> Inventory {
    let file = |rel: &str, modules: Vec<String>, source: &str| SourceFile {
        rel: rel.into(),
        crate_name: "weak_suite".into(),
        modules,
        role: FileRole::Source,
        source: Ok(source.into()),
    };
    walk_files(
        "/ws",
        &vec![
            file("src/lib.rs", vec![], "pub mod config;\n"),
            file("src/config.rs", vec!["config".into()], CONFIG),
        ],
    )
}

fn sym<'a>(inv: &'a Inventory, name: &str) -> &'a Symbol {
    inv.symbols
        .iter()
        .find(|s| s.name == name)
        .unwrap_or_else(|| panic!("no symbol named `{name}`"))
}

fn findings_for(inv: &Inventory, test_name: &str) -> Vec<Rule> {
    let result = analyze(inv)
        .into_iter()
        .find(|o| o.test.path.ends_with(test_name))
        .unwrap_or_else(|| panic!("no test named `{test_name}`"));
    let mut rules: Vec<Rule> = result.findings.iter().map(|f| f.rule).collect();
    rules.sort();
    rules.dedup();
    rules
}

#[test]
fn inventory_finds_every_function_and_classifies_accessors() {
    let inv = fixture();
    assert!(inv.parse_failures.entries.is_empty(), "{:?}", inv.parse_failures.entries);

    let names: Vec<&str> = inv.symbols.iter().map(|s| s.name.as_str()).collect();
    assert!(names.contains(&"parse"));
    assert!(names.contains(&"new"));
    assert!(names.contains(&"set_retries"));
    assert!(names.contains(&"validate"));

    // `fn host(&self) -> &str { &self.host }` carries no behaviour to destroy.
    assert_eq!(sym(&inv, "host").triviality, Triviality::Accessor);
    assert_eq!(sym(&inv, "parse").triviality, Triviality::Normal);
    assert!(!inv.scorable().iter().any(|s| s.name == "host"));
}

#[test]
fn required_oracle_is_derived_from_the_signature() {
    let inv = fixture();

    let set_retries = sym(&inv, "set_retries");
    assert_eq!(set_retries.self_kind, SelfKind::RefMut);
    assert_eq!(set_retries.required_oracle, RequiredOracle::PostState);

    let validate = sym(&inv, "validate");
    assert_eq!(validate.self_kind, SelfKind::Ref);
    assert_eq!(validate.required_oracle, RequiredOracle::ReturnValue);
}

#[test]
fn doctest_is_inventoried_and_claims_its_own_item_exactly() {
    let inv = fixture();
    assert_eq!(sym(&inv, "new").doctests, 1);

    let doctests: Vec<_> = inv
        .tests
        .iter()
        .filter(|t| t.kind == TestKind::Doctest)
        .collect();
    assert_eq!(doctests.len(), 1);

    let claims = ClaimMap::build(&inv);
    let claimants = claims.claimants(&sym(&inv, "new").id);
    assert!(
        claimants
            .iter()
            .any(|(_, kind)| *kind == ClaimKind::Doctest),
        "the doctest on `Config::new` should claim it exactly"
    );
}

#[test]
fn same_file_test_module_claims_the_file_s_symbols() {
    let inv = fixture();
    let claims = ClaimMap::build(&inv);

    let parse_claimants = claims.claimants(&sym(&inv, "parse").id);
    assert!(
        parse_claimants
            .iter()
            .any(|(_, k)| *k == ClaimKind::SameFileTestModule),
        "`mod tests` lives in config.rs, so it claims `parse`"
    );

    // Every scorable symbol is spoken for by the same-file module.
    assert!(
        claims.unclaimed(&inv, true).is_empty(),
        "unclaimed: {:?}",
        claims
            .unclaimed(&inv, true)
            .iter()
            .map(|s| &s.path)
            .collect::<Vec<_>>()
    );
}

#[test]
fn is_ok_test_is_reported_as_discriminant_only() {
    let inv = fixture();
    assert_eq!(
        findings_for(&inv, "test_parse"),
        vec![Rule::DiscriminantOnly]
    );
}

#[test]
fn test_that_calls_without_asserting_has_no_oracle() {
    let inv = fixture();
    assert_eq!(findings_for(&inv, "test_validate"), vec![Rule::NoOracle]);
}

#[test]
fn genuine_value_assertions_produce_no_findings() {
    let inv = fixture();
    let result = analyze(&inv)
        .into_iter()
        .find(|o| o.test.path.ends_with("parse_extracts_host_and_port"))
        .expect("test must be inventoried");

    assert!(
        result.findings.is_empty(),
        "unexpected findings: {:?}",
        result.findings.iter().map(|f| f.rule).collect::<Vec<_>>()
    );
    assert_eq!(result.strength, OracleStrength::Strong);
}

#[test]
fn mutating_call_with_no_post_state_assertion_is_a_shape_mismatch() {
    let inv = fixture();
    let claims = ClaimMap::build(&inv);
    let oracles = analyze(&inv);
    let mismatches = shape_mismatches(&inv, &claims, &oracles);

    assert_eq!(mismatches.len(), 1, "{mismatches:?}");
    let finding = &mismatches[0];
    assert_eq!(finding.rule, Rule::OracleShapeMismatch);
    assert!(finding.test.path.ends_with("test_set_retries"));
    assert_eq!(
        finding.symbol.as_deref(),
        Some("weak_suite::config::Config::set_retries")
    );
    assert!(finding.snippet.contains("mutates `c`"));
}

#[test]
fn the_whole_fixture_suite_grades_out_as_weak() {
    let inv = fixture();
    let oracles = analyze(&inv);

    let strong = oracles
        .iter()
        .filter(|o| o.strength == OracleStrength::Strong)
        .count();
    assert_eq!(
        strong, 2,
        "only `parse_extracts_host_and_port` and the doctest carry a strong oracle"
    );
    assert!(
        oracles.iter().filter(|o| !o.findings.is_empty()).count() >= 3,
        "three of the four unit tests should be flagged"
    );
}

#[test]
fn a_nested_crate_is_left_out_of_the_walk() {
    assert!(!keeps_entry(true, false, true), "a directory with a manifest of its own");
    assert!(keeps_entry(true, true, true), "the directory the walk began at");
    assert!(keeps_entry(true, false, false));
    assert!(keeps_entry(false, false, false));
}

const AUDIT: &str = "cargo-oracle  static audit (v0)
  2 files, 6 symbols (5 scorable, 1 accessor skipped), 5 tests (1 doctests)

src/config.rs
  high:60    ORC002 discriminant-only        test_parse
         assert!(parse(\"h:1\").is_ok())
  high:64    ORC001 no-oracle                test_validate
  high:72    ORC010 oracle-shape-mismatch    test_set_retries
         on weak_suite::config::Config::set_retries
         `c.set_retries(..)` mutates `c`, which no assertion observes
  high:73    ORC007 tautological-assert      test_set_retries
         assert!(true)

per-test oracle strength
  none     weak_suite::config::tests::test_set_retries                ORC007 ORC010
  none     weak_suite::config::tests::test_validate                   ORC001
  weak     weak_suite::config::tests::test_parse                      ORC002

summary
  oracle strength   strong 2   partial 0   weak 1   none 2
  findings          4 high, 0 medium, 0 low
  unclaimed         0 of 5 scorable symbols

this is a static audit: it reports oracles that cannot discriminate and
symbols nobody claims. whether a symbol is actually *verified* needs the
mutation evidence of `cargo oracle verify` (slice v3).
";

#[test]
fn the_audit_of_the_fixture_reads_as_expected() {
    let report = Report::build(&fixture());
    assert_eq!(report.to_text(false), AUDIT);

    let verbose = report.to_text(true);
    assert!(verbose.contains(
        "         assert!(true)\n         Both sides of the assertion are the same expression, or the condition\n         is a literal. It cannot fail under any implementation.\n"
    ));
    assert!(verbose.contains("  strong   weak_suite::config::Config::new (doctest 1)"));
}

#[test]
fn the_counts_of_the_audit_add_up() {
    let report = Report::build(&fixture());
    let s = &report.summary;
    assert_eq!(s.strength.get(&OracleStrength::Strong), Some(&2));
    assert_eq!(s.strength.get(&OracleStrength::Weak), Some(&1));
    assert_eq!(s.strength.get(&OracleStrength::Absent), Some(&2));
    assert_eq!(s.strength.get(&OracleStrength::Partial), None);
    assert_eq!(s.findings_high + s.findings_medium + s.findings_low, report.findings.len());
    assert_eq!(
        report.tests.iter().map(|t| t.findings.len()).sum::<usize>(),
        report.findings.len()
    );
    assert_eq!(report.findings_at_least(Severity::Low).len(), 4);
    assert_eq!(report.findings_at_least(Severity::High).len(), 4);
    assert_eq!(denied(&report, DenyLevel::High), 4);
    assert_eq!(denied(&report, DenyLevel::Never), 0);
}

#[test]
fn the_inventory_of_the_fixture_reads_as_expected() {
    let inv = fixture();
    let line = |symbol: &str, kind: &str, needs: &str, notes: &str| {
        format!("{symbol:<52} {kind:<12} {needs:<13} {notes}\n")
    };
    let plain = [
        line("SYMBOL", "KIND", "NEEDS", "NOTES"),
        line("weak_suite::config::Config::new", "inherent", "returnvalue", "1 doctest(s)"),
        line("weak_suite::config::Config::set_retries", "inherent", "poststate", ""),
        line("weak_suite::config::Config::validate", "inherent", "returnvalue", ""),
        line("weak_suite::config::parse", "free", "returnvalue", ""),
        line("weak_suite::config::redact", "free", "returnvalue", ""),
    ];
    assert_eq!(render_inventory(&inv, false), plain.concat());
    let host = line("weak_suite::config::Config::host", "inherent", "returnvalue", "accessor");
    assert!(render_inventory(&inv, true).contains(&host));
}

#[test]
fn the_claims_on_the_fixture_read_as_expected() {
    let inv = fixture();
    let claims = ClaimMap::build(&inv);
    let text = render_claims(&inv, &claims, false);
    assert!(
        text.starts_with(
            "weak_suite::config::Config::new\n    doctest                weak_suite::config::Config::new (doctest 1)\n    samefiletestmodule     weak_suite::config::tests::"
        ),
        "{text}"
    );
    assert!(text.contains("    ... and 1 more\n"), "{text}");
    assert!(!render_claims(&inv, &claims, true).contains("... and"));
    assert!(!text.contains("UNCLAIMED"));
}

#[test]
fn a_symbol_nobody_claims_is_said_to_be_unclaimed() {
    let inv = walk_files(
        "/ws",
        &vec![SourceFile {
            rel: "src/lib.rs".into(),
            crate_name: "demo".into(),
            modules: vec![],
            role: FileRole::Source,
            source: Ok("pub fn alone(n: u32) -> u32 {\n    n + 1\n}\n".into()),
        }],
    );
    let claims = ClaimMap::build(&inv);
    assert_eq!(
        render_claims(&inv, &claims, false),
        format!("{:<52} UNCLAIMED\n", "demo::alone")
    );
    let report = Report::build(&inv);
    assert_eq!(report.unclaimed, vec!["demo::alone"]);
    let text = report.to_text(false);
    assert!(text.contains("\nno findings.\n\n"), "{text}");
    assert!(
        text.contains("\nunclaimed symbols (1) -- no test speaks for these at all\n  demo::alone\n"),
        "{text}"
    );
}

#[test]
fn a_file_that_does_not_parse_is_reported() {
    let file = |rel: &str, source: Result<String, String>| SourceFile {
        rel: rel.into(),
        crate_name: "demo".into(),
        modules: vec![],
        role: FileRole::Source,
        source,
    };
    let inv = walk_files(
        "/ws",
        &vec![
            file("src/bad.rs", Ok("fn (".into())),
            file("src/lost.rs", Err("permission denied".into())),
            file("src/lib.rs", Ok("pub fn fine(n: u32) -> u32 { n + 1 }\n".into())),
        ],
    );
    assert_eq!(inv.files, vec!["src/lib.rs"]);
    assert_eq!(inv.parse_failures.len(), 2);
    assert_eq!(
        inv.parse_failures.get(&"src/lost.rs".to_string()),
        Some(&"permission denied".to_string())
    );
    let text = Report::build(&inv).to_text(false);
    assert!(text.contains("could not parse:\n  src/bad.rs: "), "{text}");
    assert!(text.contains("  src/lost.rs: permission denied\n\n"), "{text}");
}

#[test]
fn execution_is_reported_per_symbol() {
    let inv = fixture();
    let entry = |line: u32, count: u64| CoverageFunction {
        name: "f".into(),
        count,
        file: "src/config.rs".into(),
        start_line: line,
    };
    // `Config::new`, `parse` twice with a closure that never ran, and something
    // that has no definition.
    let data = CoverageData {
        functions: vec![entry(15, 4), entry(38, 2), entry(38, 1), entry(40, 0), entry(400, 1)],
    };
    let map = CoverageMap::try_join(&inv, &data).expect("the counts fit");
    let claims = ClaimMap::build(&inv);
    assert_eq!(
        execution_state(sym(&inv, "parse"), &map, &claims),
        ExecutionState::Executed
    );
    assert_eq!(
        execution_state(sym(&inv, "redact"), &map, &claims),
        ExecutionState::ClaimedButUnexecuted
    );
    let text = render_coverage(&inv, &map, true);
    assert_eq!(
        text,
        "src/config.rs
  Config::new                                    executed                   4x
  Config::set_retries                            claimed, not run            -
  Config::validate                               claimed, not run            -
  config::parse                                  executed                   3x  2 coverage entries, 1 of 1 nested closure never ran
  config::redact                                 claimed, not run            -

summary
  executed          2
  unexecuted        0
  claimed but not   3
  no viable mutant  0
  unmatched entries 1 (macro and derive output, which has no source definition)

execution is not verification: `executed` means a test ran the symbol,
not that anything checked the result. that needs slice v3.
"
    );
    let brief = render_coverage(&inv, &map, false);
    assert!(!brief.contains("config::parse"), "{brief}");
    assert!(brief.contains("config::redact"), "{brief}");
}
