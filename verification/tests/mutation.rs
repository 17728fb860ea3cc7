//! Verdicts from mutants.

use oracle_core::inventory::{walk_files, FileRole, Inventory, SourceFile};
use oracle_core::mutation::{
    killers_from_log, read_outcomes, run_end, Mutant, MutantOutcome, MutationMap, RawMutant,
    RawOutcome, RunEnd, SymbolVerdict, Verification,
};

const NEXTEST_LOG: &str = r#"
    test result: FAILED. 0 passed; 1 failed; 0 ignored
  stderr
    thread 'config::tests::parse_extracts_host_and_port' (172703) panicked at src/config.rs:77:9:
    assertion `left == right` failed
     Summary [   0.012s] 4 tests run: 3 passed, 1 failed, 0 skipped
        FAIL [   0.006s] (4/4) weak-suite config::tests::parse_extracts_host_and_port
error: test run failed
"#;

#[test]
fn the_nextest_fail_line_names_the_killing_test() {
    let killers = killers_from_log(NEXTEST_LOG);
    assert_eq!(killers, vec!["config::tests::parse_extracts_host_and_port"]);
}

#[test]
fn the_libtest_failure_format_is_also_understood() {
    let log =
        "running 2 tests\ntest config::tests::rejects_empty ... FAILED\ntest ok_one ... ok\n";
    assert_eq!(killers_from_log(log), vec!["config::tests::rejects_empty"]);
}

#[test]
fn a_panicking_thread_name_is_the_fallback_when_no_summary_is_present() {
    let log = "thread 'mycrate::tests::boom' panicked at src/lib.rs:1:1:\nboom\n";
    assert_eq!(killers_from_log(log), vec!["mycrate::tests::boom"]);
}

#[test]
fn a_log_with_no_failure_names_nobody() {
    assert!(killers_from_log("all good\n3 passed\n").is_empty());
}

#[test]
fn a_caught_mutant_outranks_survivors_in_the_verdict() {
    let verdict = SymbolVerdict {
        caught: 1,
        missed: 3,
        ..Default::default()
    };
    assert_eq!(
        verdict.verification(),
        Verification::Verified,
        "one test that fails is enough to call the symbol verified"
    );
}

#[test]
fn viable_mutants_that_all_survive_are_pseudo_tested() {
    let verdict = SymbolVerdict {
        missed: 2,
        ..Default::default()
    };
    assert_eq!(verdict.verification(), Verification::PseudoTested);
}

#[test]
fn only_unviable_mutants_is_distinct_from_being_unverified() {
    let verdict = SymbolVerdict {
        unviable: 2,
        ..Default::default()
    };
    assert_eq!(
        verdict.verification(),
        Verification::NoViableMutant,
        "a mutant that would not compile is not evidence of a missing test"
    );
}

#[test]
fn no_mutants_at_all_is_its_own_state() {
    assert_eq!(
        SymbolVerdict::default().verification(),
        Verification::NotMutated
    );
}

#[test]
fn verification_labels_are_readable() {
    assert_eq!(Verification::Verified.label(), "verified");
    assert_eq!(Verification::PseudoTested.label(), "PSEUDO-TESTED");
    assert_eq!(Verification::NoViableMutant.label(), "no viable mutant");
    assert_eq!(Verification::NotMutated.label(), "not mutated");
    assert_eq!(Verification::OutOfScope.label(), "out of scope");
}

#[test]
fn a_summary_names_its_outcome() {
    assert_eq!(MutantOutcome::from_summary("CaughtMutant"), Some(MutantOutcome::Caught));
    assert_eq!(MutantOutcome::from_summary("MissedMutant"), Some(MutantOutcome::Missed));
    assert_eq!(MutantOutcome::from_summary("Unviable"), Some(MutantOutcome::Unviable));
    assert_eq!(MutantOutcome::from_summary("Timeout"), Some(MutantOutcome::Timeout));
    assert_eq!(MutantOutcome::from_summary("Failure"), Some(MutantOutcome::Failure));
    assert_eq!(MutantOutcome::from_summary("Success"), None);
}

const SOURCE: &str = "pub fn work(n: u32) -> u32 {\n    n + 1\n}\n\npub fn idle(n: u32) -> u32 {\n    n + 2\n}\n\n#[cfg(test)]\nmod tests {\n    #[test]\n    fn works() {\n        assert_eq!(super::work(1), 2);\n    }\n}\n";

fn workspace() -> Inventory {
    let file = |rel: &str, source: &str| SourceFile {
        rel: rel.into(),
        crate_name: "demo".into(),
        modules: vec![],
        role: FileRole::Source,
        source: Ok(source.into()),
    };
    walk_files(
        "/ws",
        &vec![
            file("src/lib.rs", SOURCE),
            file("src/other.rs", "pub fn away(n: u32) -> u32 {\n    n * 3\n}\n"),
        ],
    )
}

fn raw(summary: &str, line: u32, log: Option<&str>) -> RawOutcome {
    RawOutcome {
        summary: summary.into(),
        mutant: Some(RawMutant {
            file: "src/lib.rs".into(),
            function_name: Some("work".into()),
            line,
            column: 1,
            replacement: "0".into(),
            genre: "FnValue".into(),
        }),
        log: log.map(|l| l.to_string()),
    }
}

#[test]
fn mutants_are_attributed_to_the_symbol_around_their_line() {
    let inv = workspace();
    let baseline = RawOutcome { summary: "Success".into(), mutant: None, log: None };
    let mutants: Vec<Mutant> = read_outcomes(&vec![
        baseline,
        raw("CaughtMutant", 2, Some("test tests::works ... FAILED\n")),
        raw("MissedMutant", 6, None),
        raw("MissedMutant", 90, None),
    ]);
    assert_eq!(mutants.len(), 3, "the baseline is no mutant");
    assert_eq!(mutants[0].killed_by, vec!["tests::works"]);

    let map = MutationMap::build(&inv, &mutants);
    let sym = |name: &str| inv.symbols.iter().find(|s| s.name == name).unwrap();
    assert_eq!(map.total_mutants, 3);
    assert_eq!(map.unattributed.len(), 1);
    assert_eq!(map.verification_of(sym("work")), Verification::Verified);
    assert_eq!(map.verification_of(sym("idle")), Verification::PseudoTested);
    assert_eq!(
        map.verification_of(sym("away")),
        Verification::OutOfScope,
        "its file was never examined"
    );
    let verdict = map.verdict(&sym("work").id);
    assert_eq!(verdict.caught, 1);
    assert_eq!(verdict.killed_by.len(), 1);
    assert_eq!(verdict.killed_by.items[0].path, "demo::tests::works");
    assert!(map.unresolved_killers.is_empty());
}

#[test]
fn a_run_of_mutants_is_complete_with_or_without_survivors() {
    assert!(matches!(run_end(Some(0)), RunEnd::Complete));
    assert!(matches!(run_end(Some(4)), RunEnd::Failed(4)));
    assert!(matches!(run_end(None), RunEnd::Signalled));
}

#[test]
fn a_bare_test_name_is_a_killer() {
    assert_eq!(
        killers_from_log("FAIL [   0.006s] (1/4) my-crate::pipeline roundtrip\n"),
        vec!["roundtrip"]
    );
    assert_eq!(killers_from_log("TRY 1 FAIL [ 1s] bin roundtrip\n"), vec!["roundtrip"]);
    assert_eq!(killers_from_log("FAIL a::b\n"), vec!["a::b"]);
    assert!(killers_from_log("FAIL [   0.006s]\nFAIL to compile\n").is_empty());
    assert_eq!(killers_from_log("thread 'roundtrip' panicked at x\n"), vec!["roundtrip"]);
    assert_eq!(
        killers_from_log("thread 'worker' panicked\nthread 'a::b' panicked\n"),
        vec!["a::b"]
    );
    assert!(killers_from_log("thread 'main' panicked\nthread '<unnamed>' panicked\n").is_empty());
}

#[test]
fn killers_are_listed_once_whatever_threads_say() {
    let log = "test b::y ... FAILED\nFAIL [ 1s] (1/2) bin a::x\ntest b::y ... FAILED\n";
    assert_eq!(killers_from_log(log), vec!["b::y", "a::x"]);
    assert_eq!(killers_from_log(&format!("{log}{log}")), vec!["b::y", "a::x"]);
    assert_eq!(
        killers_from_log(&format!("thread 'a::b' panicked\n{log}")),
        vec!["b::y", "a::x"]
    );
}

#[test]
fn mutants_that_hang_leave_the_question_open() {
    let verdict = |unviable: usize, other: usize| SymbolVerdict {
        unviable,
        other,
        ..Default::default()
    };
    assert_eq!(verdict(0, 1).verification(), Verification::Inconclusive);
    assert_eq!(verdict(2, 1).verification(), Verification::Inconclusive);
    assert_eq!(verdict(2, 0).verification(), Verification::NoViableMutant);
    assert_eq!(verdict(0, 0).verification(), Verification::NotMutated);
    assert_eq!(Verification::Inconclusive.label(), "inconclusive");
}

#[test]
fn only_scorable_symbols_get_verdicts() {
    let source = "pub struct C { n: u8 }\nimpl C {\n    pub fn n(&self) -> u8 {\n        self.n\n    }\n    pub fn twice(&self) -> u8 {\n        self.n * 2\n    }\n}\n";
    let inv = walk_files(
        "/ws",
        &vec![SourceFile {
            rel: "src/lib.rs".into(),
            crate_name: "demo".into(),
            modules: vec![],
            role: FileRole::Source,
            source: Ok(source.into()),
        }],
    );
    let mutants = read_outcomes(&vec![
        raw("MissedMutant", 4, None),
        raw("MissedMutant", 7, None),
        raw("Timeout", 7, None),
        raw("MissedMutant", 90, None),
    ]);
    let map = MutationMap::build(&inv, &mutants);
    assert_eq!(map.total_mutants, 4);
    assert_eq!(map.verdicts.len(), 1);
    assert_eq!(map.unattributed.len(), 1);
    let twice = inv.symbols.iter().find(|s| s.name == "twice").unwrap();
    let v = map.verdict(&twice.id);
    assert_eq!((v.missed, v.other), (1, 1));
    let counted: usize = v.caught + v.missed + v.unviable + v.other;
    assert_eq!(counted + map.unattributed.len() + 1, map.total_mutants, "one is an accessor's");
}
