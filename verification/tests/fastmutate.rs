//! Every mutation compiled in at once.

use oracle_core::fastmutate::{
    byte_offset, classify_run, copies_entry, find_body_open, guard, insert_guards, is_virtual_workspace,
    patch_manifest_text, FastOutcome, Plan, RewriteError, SkipReason,
};
use oracle_core::lower::read_file;
use oracle_core::inventory::{walk_files, FileRole, Inventory, SourceFile};
use oracle_core::symbol::ReturnShape;

#[test]
fn byte_offset_counts_characters_not_bytes() {
    // A column is a character index; naive byte arithmetic would land
    // mid-codepoint and corrupt the file.
    let text = "fn é() { 1 }\n";
    assert_eq!(byte_offset(text, 1, 0), Some(0));
    assert_eq!(
        byte_offset(text, 1, 3),
        Some(3),
        "column 3 is where `é` starts"
    );
    assert_eq!(
        byte_offset(text, 1, 4),
        Some(5),
        "one column later is two bytes later: `é` is multi-byte"
    );
}

#[test]
fn byte_offset_past_the_last_line_is_none() {
    assert_eq!(byte_offset("a\nb\n", 5, 0), None);
}

#[test]
fn a_result_returning_guard_probes_the_success_type_and_wraps_it() {
    let g = guard(4, ReturnShape::ResultLike, Some("Config"));
    assert!(g.contains("Probe::<Config>"), "{g}");
    assert!(g.contains("return Ok(__oracle_v)"), "{g}");
}

#[test]
fn a_unit_returning_guard_probes_the_unit_type() {
    let g = guard(0, ReturnShape::Unit, None);
    assert!(g.contains("Probe::<()>"), "{g}");
    assert!(g.contains("return __oracle_v"), "{g}");
}

#[test]
fn the_guard_checks_the_switch_before_probing() {
    // The baseline run sets no variable, so it must pay one comparison and skip
    // the probe entirely.
    let g = guard(9, ReturnShape::Value, Some("u8"));
    let active = g.find("active(9u32)").expect("switch check present");
    let probe = g.find("Probe::<u8>").expect("probe present");
    assert!(active < probe, "the switch must be checked first: {g}");
}

#[test]
fn const_fns_and_impl_trait_returns_are_skipped_with_a_reason() {
    assert_eq!(
        SkipReason::ConstFn.label(),
        "const fn cannot call the switch"
    );
    assert!(SkipReason::ImplTraitReturn.label().contains("impl Trait"));
}

#[test]
fn patching_a_manifest_that_already_has_dependencies_adds_no_second_table() {
    let text = "[package]\nname = \"x\"\n\n[dependencies]\nserde = \"1\"\n";
    let out = patch_manifest_text(text, "/s");
    assert_eq!(
        out.matches("[dependencies]").count(),
        1,
        "a second [dependencies] header is a TOML error"
    );
    assert!(out.contains("serde = \"1\""), "existing deps survive");
    assert!(out.contains("oracle-switch = { path = \"/s\" }"));
}

#[test]
fn patching_a_manifest_without_dependencies_appends_the_table() {
    let out = patch_manifest_text("[package]\nname = \"x\"\n", "/s");
    assert_eq!(out.matches("[dependencies]").count(), 1);
    assert!(out
        .trim_end()
        .ends_with("oracle-switch = { path = \"/s\" }"));
}

#[test]
fn dev_dependencies_are_not_mistaken_for_dependencies() {
    let text = "[package]\nname = \"x\"\n\n[dev-dependencies]\nrstest = \"1\"\n";
    let out = patch_manifest_text(text, "/s");
    assert!(
        out.contains("[dev-dependencies]\nrstest"),
        "left alone: {out}"
    );
    assert!(out.contains("\n[dependencies]\noracle-switch"), "{out}");
}

#[test]
fn outcome_labels_distinguish_a_survivor_from_an_unmade_mutation() {
    assert_eq!(FastOutcome::Survived.label(), "SURVIVED");
    assert!(FastOutcome::Inert.label().contains("no Default"));
    assert_ne!(
        FastOutcome::Unreached.label(),
        FastOutcome::Survived.label(),
        "the runtime note separates these two"
    );
}

#[test]
fn the_dependency_is_the_first_line_of_its_table() {
    let text = "[package]\nname = \"x\"\n\n[dependencies]\nserde = \"1\"\n";
    assert_eq!(
        patch_manifest_text(text, "/tmp/switch"),
        "[package]\nname = \"x\"\n\n[dependencies]\noracle-switch = { path = \"/tmp/switch\" }\nserde = \"1\"\n"
    );
    assert_eq!(
        patch_manifest_text("[package]\nname = \"x\"\n", "/s"),
        "[package]\nname = \"x\"\n\n[dependencies]\noracle-switch = { path = \"/s\" }\n"
    );
}

#[test]
fn a_dependency_table_is_recognized_wherever_it_stands_and_however_it_is_written() {
    let texts = [
        "[dependencies]\nserde = \"1\"\n",
        "[package]\n\n[dependencies] # what it needs\nserde = \"1\"\n",
        "[package]\n\n  [ dependencies ]\r\nserde = \"1\"\r\n",
        "[package]\n\n[dependencies]",
    ];
    for text in texts {
        let out = patch_manifest_text(text, "/s");
        assert_eq!(out.matches("dependencies").count(), 1, "{out}");
        let header = out.find("dependencies").unwrap();
        let dep = out.find("oracle-switch").unwrap();
        assert_eq!(out[header..dep].matches('\n').count(), 1, "{out}");
    }
}

#[test]
fn only_a_workspace_without_a_package_is_virtual() {
    assert!(is_virtual_workspace("[workspace]\nmembers = [\"a\"]\n"));
    assert!(!is_virtual_workspace("[workspace]\n\n[package]\nname = \"x\"\n"));
    assert!(!is_virtual_workspace("[package]\nname = \"x\"\n"));
}

#[test]
fn a_run_is_read_off_the_suite_and_the_notes() {
    assert_eq!(classify_run(false, "7 applied\n"), FastOutcome::Caught);
    assert_eq!(classify_run(true, "7 inert\n7 applied\n"), FastOutcome::Survived);
    assert_eq!(classify_run(true, "7 inert\n"), FastOutcome::Inert);
    assert_eq!(classify_run(true, ""), FastOutcome::Unreached);
    assert_eq!(FastOutcome::Caught.label(), "caught");
    assert_eq!(FastOutcome::Unreached.label(), "unreached");
}

const SOURCE: &str = "pub struct C { n: u8 }\n\nimpl C {\n    pub fn bump(&mut self) { self.n += 1; }\n    pub const fn zero() -> u8 { 1 - 1 }\n    pub fn n(&self) -> u8 { self.n }\n}\n\npub fn é(s: &str) -> Result<C, String> {\n    if s.is_empty() { return Err(String::new()); }\n    Ok(C { n: 1 })\n}\n\npub fn all(v: &[u8]) -> impl Iterator<Item = u8> + '_ {\n    v.iter().map(|x| x + 1)\n}\n";

fn workspace(source: &str) -> Inventory {
    walk_files(
        "/ws",
        &vec![SourceFile {
            rel: "src/lib.rs".into(),
            crate_name: "demo".into(),
            modules: vec![],
            role: FileRole::Source,
            source: Ok(source.into()),
        }],
    )
}

#[test]
fn a_plan_numbers_what_can_be_switched_and_names_what_cannot() {
    let inv = workspace(SOURCE);
    let plan = Plan::build(&inv);
    let ids: Vec<(u32, &str)> = plan.mutants.iter().map(|m| (m.id, m.path.as_str())).collect();
    assert_eq!(ids, vec![(0, "demo::C::bump"), (1, "demo::é")]);
    let skipped: Vec<(&str, &str)> =
        plan.skipped.iter().map(|(p, r)| (p.as_str(), r.label())).collect();
    assert!(skipped.contains(&("demo::C::zero", SkipReason::ConstFn.label())), "{skipped:?}");
    assert!(skipped.contains(&("demo::all", SkipReason::ImplTraitReturn.label())), "{skipped:?}");
    assert_eq!(plan.symbol_for(1).unwrap().path, "demo::é");
    assert!(plan.symbol_for(2).is_none());
    assert_eq!(plan.in_file("src/lib.rs").len(), 2);
    assert!(plan.in_file("src/main.rs").is_empty());
}

#[test]
fn guards_go_right_behind_the_brace_and_keep_every_line() {
    let inv = workspace(SOURCE);
    let plan = Plan::build(&inv);
    let out = insert_guards(SOURCE, &inv, &plan.in_file("src/lib.rs")).ok().expect("rewrites");
    assert_eq!(out.lines().count(), SOURCE.lines().count(), "no line moves");
    let bump = out.lines().nth(3).unwrap();
    assert!(bump.starts_with("    pub fn bump(&mut self) {"), "{bump}");
    assert!(bump.contains(&guard(0, ReturnShape::Unit, None)), "{bump}");
    assert!(bump.ends_with(" self.n += 1; }"), "{bump}");
    let parse = out.lines().nth(8).unwrap();
    assert!(parse.contains("Probe::<C>"), "{parse}");
    assert!(parse.contains("active(1u32)"), "{parse}");
    assert!(out.contains("pub const fn zero() -> u8 { 1 - 1 }"));
}

#[test]
fn a_source_that_does_not_parse_is_not_rewritten() {
    let inv = workspace(SOURCE);
    let plan = Plan::build(&inv);
    match insert_guards("fn (", &inv, &plan.in_file("src/lib.rs")) {
        Err(e) => {
            assert!(matches!(e, RewriteError::Unparsed(_)));
            assert!(e.message().starts_with("parse error: "));
        }
        Ok(_) => panic!("nothing to rewrite"),
    }
}

#[test]
fn all_but_build_output_is_copied() {
    assert!(!copies_entry("target"));
    assert!(copies_entry(".cargo"));
    assert!(copies_entry("src"));
}

#[test]
fn two_functions_on_one_line_each_have_their_own_brace() {
    let items = read_file("fn a() {} fn b() {}").unwrap();
    let b = find_body_open(&items, 1, 14).expect("b is there");
    assert_eq!((b.line, b.col, b.probe), (1, 17, Some("()".to_string())));
    let a = find_body_open(&items, 1, 4).expect("a is there");
    assert_eq!((a.line, a.col), (1, 7));
    assert!(find_body_open(&items, 1, 5).is_none(), "no name begins there");

    let source = "pub fn a() { one(); } pub fn b() { two(); }\n";
    let inv = workspace(source);
    let plan = Plan::build(&inv);
    let out = insert_guards(source, &inv, &plan.in_file("src/lib.rs")).ok().expect("rewrites");
    let first = guard(0, ReturnShape::Unit, None);
    let second = guard(1, ReturnShape::Unit, None);
    assert_eq!(out, format!("pub fn a() {{{first} one(); }} pub fn b() {{{second} two(); }}\n"));
}

#[test]
fn a_byte_order_mark_shifts_the_first_line() {
    let source = "\u{feff}pub fn a() { one(); }\npub fn b() { two(); }\n";
    let inv = workspace(source);
    let plan = Plan::build(&inv);
    let out = insert_guards(source, &inv, &plan.in_file("src/lib.rs")).ok().expect("rewrites");
    let first = guard(0, ReturnShape::Unit, None);
    let second = guard(1, ReturnShape::Unit, None);
    assert_eq!(
        out,
        format!(
            "{}pub fn a() {{{first} one(); }}\npub fn b() {{{second} two(); }}\n",
            '\u{feff}'
        )
    );
}

#[test]
fn the_prediction_and_the_plan_agree_on_what_is_scored() {
    let inv = workspace(SOURCE);
    let plan = Plan::build(&inv);
    for s in inv.scorable() {
        let skipped = plan.skipped.iter().any(|(p, _)| *p == s.path);
        assert_eq!(s.likely_unviable_to_mutate(), skipped, "{}", s.path);
    }
}
