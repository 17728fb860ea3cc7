//! Reading source into symbols and tests.

use oracle_core::inventory::{
    crate_name_of, extract_doctests, is_source, module_path_for, parse_file, FileRole, Inventory,
    triviality_of, ShouldPanic, TestKind,
};
use oracle_core::lower::{read_file, read_function, read_snippet};
use oracle_core::symbol::{
    LineSpan, RequiredOracle, ReturnShape, SelfKind, Symbol, SymbolId, SymbolKind, Triviality,
    Visibility,
};
use oracle_core::syntax::Definition;

const SOURCE: &str = r#"use std::fmt;

pub trait Shape {
    fn area(&self) -> u32;
    fn name(&self) -> String { format!("shape {}", self.area()) }
}

pub(crate) struct Square(u32);

impl Shape for Square {
    fn area(&self) -> u32 { self.0 * self.0 }
}

impl fmt::Display for Square {
    fn fmt(&self, f: &mut fmt::Formatter<'_>) -> fmt::Result {
        write!(f, "{}", self.0)
    }
}

impl Square {
    pub(crate) fn grow(&mut self, by: u32) -> Option<u32> { self.0 += by; Some(self.0) }
    pub async fn wait(self) -> Result<(), String> { Err("no".into()) }
    pub const fn side(n: u32) -> u32 { n * 1 }
    unsafe fn poke(&self) { loop {} }
    fn nothing(&self) {}
}

fn fill(out: &mut Vec<u8>) { out.push(1); }

fn stop() -> ! { panic!("stop") }

mod inner {
    pub fn deep(n: u8) -> impl Fn(u8) -> u8 { move |x| x + n }
}

#[cfg(test)]
mod tests {
    use super::*;

    fn helper() -> u8 { 3 + 4 }

    #[test]
    #[ignore]
    fn skipped() { assert_eq!(helper(), 7); }

    #[test]
    #[should_panic(expected = "stop")]
    fn stops() { stop(); }

    #[tokio::test]
    async fn waits() { assert!(true); }
}
"#;

fn inv() -> Inventory {
    parse_file(
        SOURCE,
        "src/shape.rs",
        "demo",
        &vec!["shape".into()],
        FileRole::Source,
    )
    .ok()
    .expect("source must parse")
}

fn sym<'a>(inv: &'a Inventory, path: &str) -> &'a Symbol {
    inv.symbols
        .iter()
        .find(|s| s.path == path)
        .unwrap_or_else(|| panic!("no symbol `{path}`: {:?}", inv.symbols.iter().map(|s| &s.path).collect::<Vec<_>>()))
}

#[test]
fn every_kind_of_function_is_a_symbol_and_no_test_helper_is() {
    let inv = inv();
    let found: Vec<(&str, SymbolKind)> =
        inv.symbols.iter().map(|s| (s.path.as_str(), s.kind)).collect();
    assert_eq!(
        found,
        vec![
            ("demo::shape::Shape::name", SymbolKind::TraitDefault),
            ("demo::shape::<Square as Shape>::area", SymbolKind::TraitImpl),
            ("demo::shape::<Square as fmt::Display>::fmt", SymbolKind::TraitImpl),
            ("demo::shape::Square::grow", SymbolKind::Inherent),
            ("demo::shape::Square::wait", SymbolKind::Inherent),
            ("demo::shape::Square::side", SymbolKind::Inherent),
            ("demo::shape::Square::poke", SymbolKind::Inherent),
            ("demo::shape::Square::nothing", SymbolKind::Inherent),
            ("demo::shape::fill", SymbolKind::Free),
            ("demo::shape::stop", SymbolKind::Free),
            ("demo::shape::inner::deep", SymbolKind::Free),
        ]
    );
}

#[test]
fn what_a_signature_shows_is_read_off_it() {
    let inv = inv();
    let grow = sym(&inv, "demo::shape::Square::grow");
    assert_eq!(grow.self_kind, SelfKind::RefMut);
    assert_eq!(grow.returns, ReturnShape::OptionLike);
    assert_eq!(grow.required_oracle, RequiredOracle::Both);
    assert_eq!(grow.visibility, Visibility::Crate);

    let wait = sym(&inv, "demo::shape::Square::wait");
    assert_eq!(wait.self_kind, SelfKind::Value);
    assert_eq!(wait.returns, ReturnShape::ResultLike);
    assert!(wait.is_async);
    assert!(wait.returns_unit_ok);
    assert_eq!(wait.visibility, Visibility::Public);

    let side = sym(&inv, "demo::shape::Square::side");
    assert!(side.is_const);
    assert_eq!(side.self_kind, SelfKind::NoSelf);
    assert!(side.likely_unviable_to_mutate());

    let poke = sym(&inv, "demo::shape::Square::poke");
    assert!(poke.is_unsafe);
    assert_eq!(poke.required_oracle, RequiredOracle::SideChannel);
    assert_eq!(poke.visibility, Visibility::Private);

    let fill = sym(&inv, "demo::shape::fill");
    assert!(fill.has_mut_param);
    assert_eq!(fill.required_oracle, RequiredOracle::PostState);

    assert_eq!(sym(&inv, "demo::shape::stop").returns, ReturnShape::Never);
    assert_eq!(sym(&inv, "demo::shape::inner::deep").returns, ReturnShape::ImplTrait);
    assert_eq!(sym(&inv, "demo::shape::Square::nothing").triviality, Triviality::Empty);
    assert_eq!(
        sym(&inv, "demo::shape::<Square as Shape>::area").trait_name.as_deref(),
        Some("Shape")
    );
}

#[test]
fn a_symbol_is_identified_by_where_its_name_stands() {
    let inv = inv();
    let fill = sym(&inv, "demo::shape::fill");
    assert_eq!(fill.id.file, "src/shape.rs");
    assert_eq!(fill.id.line, 28);
    assert_eq!(fill.id.col, 4);
    assert_eq!(fill.id.render(), "src/shape.rs:28:4");
    assert_eq!(fill.span, LineSpan { start: 28, end: 28 });
    assert!(inv.symbol(&fill.id).is_some());
    assert!(inv.symbol(&SymbolId::new("src/shape.rs", 28, 9)).is_none());
    let fmt = sym(&inv, "demo::shape::<Square as fmt::Display>::fmt");
    assert_eq!(fmt.span, LineSpan { start: 15, end: 17 });
}

#[test]
fn tests_are_found_with_their_attributes() {
    let inv = inv();
    let paths: Vec<&str> = inv.tests.iter().map(|t| t.id.path.as_str()).collect();
    assert_eq!(
        paths,
        vec![
            "demo::shape::tests::skipped",
            "demo::shape::tests::stops",
            "demo::shape::tests::waits",
        ]
    );
    assert!(inv.tests.iter().all(|t| t.kind == TestKind::Unit));
    assert!(inv.tests[0].is_ignored);
    assert_eq!(inv.tests[1].should_panic, Some(ShouldPanic::Qualified));
    assert!(inv.tests[2].is_async);
    assert_eq!(
        inv.tests[0].enclosing_test_module.as_deref(),
        Some("demo::shape::tests")
    );
}

#[test]
fn an_integration_file_holds_tests_only() {
    let inv = parse_file(
        "fn helper() -> u8 { 1 + 1 }\n\n#[test]\nfn reaches() { assert_eq!(helper(), 2); }\n",
        "tests/api.rs",
        "demo",
        &vec!["api".into()],
        FileRole::IntegrationTest,
    )
    .ok()
    .expect("source must parse");
    assert!(inv.symbols.is_empty());
    assert_eq!(inv.tests.len(), 1);
    assert_eq!(inv.tests[0].kind, TestKind::Integration);
}

#[test]
fn a_file_that_does_not_parse_says_why() {
    let err = parse_file("fn 3() {}", "src/bad.rs", "demo", &vec![], FileRole::Source)
        .err()
        .expect("no source");
    assert!(err.message().contains("expected"), "{}", err.message());
}

#[test]
fn module_paths_follow_the_file_tree() {
    let path = |parents: &[&str], stem: &str, role: FileRole| {
        module_path_for(
            &parents.iter().map(|p| p.to_string()).collect(),
            &Some(stem.to_string()),
            role,
        )
    };
    assert!(path(&[], "lib", FileRole::Source).is_empty());
    assert!(path(&[], "main", FileRole::Source).is_empty());
    assert_eq!(path(&["a"], "b", FileRole::Source), vec!["a", "b"]);
    assert_eq!(path(&["a"], "mod", FileRole::Source), vec!["a"]);
    assert_eq!(crate_name_of("weak-suite"), "weak_suite");
    assert!(is_source(&Some("rs".to_string())));
    assert!(!is_source(&Some("toml".to_string())));
    assert!(!is_source(&None));
}

#[test]
fn doctests_are_the_fences_that_run() {
    let f = read_function(
        "/// Text.\n///\n/// ```\n/// assert_eq!(1, 1);\n/// ```\n///\n/// ```text\n/// no code\n/// ```\n///\n/// ```ignore\n/// never()\n/// ```\nfn documented() { work() }",
    )
    .expect("fixture must parse");
    let found = extract_doctests(&f.attrs);
    assert_eq!(found.len(), 1, "{found:?}");
    assert!(found[0].contains("assert_eq!(1, 1);"));
}

#[test]
fn source_is_read_into_its_items() {
    let items = read_file("fn a() {}\nstruct B;\nimpl B { fn c(&self) {} }\n").expect("parses");
    assert_eq!(items.len(), 3);
    assert!(matches!(&items[0], Definition::Func(f) if f.sig.name == "a"));
    assert!(matches!(&items[1], Definition::Other));
    assert!(read_file("fn a(").is_err());
    assert!(read_snippet("fn a() {}").is_some());
    assert!(read_snippet("let x").is_none());
    assert!(read_function("struct B;").is_none());
}

#[test]
fn only_blocks_that_are_compiled_are_doctests() {
    let found = |info: &str| {
        let source = format!("/// ```{info}\n/// cargo(test);\n/// ```\nfn documented() {{ work() }}");
        extract_doctests(&read_function(&source).expect("fixture must parse").attrs).len()
    };
    for info in ["", "rust", "should_panic", "no_run", "compile_fail", "compile_fail,E0308", "edition2021", "rust,ignore-windows", "should_panic,sh", "sh,rust"] {
        assert_eq!(found(info), 1, "{info}");
    }
    for info in ["sh", "text", "ignore", "markdown", "toml", "rust,ignore", "e03o8", "sh,should_panic"] {
        assert_eq!(found(info), 0, "{info}");
    }
}

#[test]
fn a_body_of_the_unit_value_is_empty() {
    let triviality = |body: &str| {
        let f = read_function(&format!("fn f() {body}")).expect("fixture must parse");
        triviality_of(&f.body)
    };
    assert_eq!(triviality("{}"), Triviality::Empty);
    assert_eq!(triviality("{ () }"), Triviality::Empty);
    assert_eq!(triviality("{ 1 }"), Triviality::Accessor);
    assert_eq!(triviality("{ &() }"), Triviality::Accessor);
    assert_eq!(triviality("{ work() }"), Triviality::Normal);
}

#[test]
fn only_the_crate_root_and_mod_files_add_no_module() {
    let path = |parents: &[&str], stem: &str| {
        module_path_for(
            &parents.iter().map(|p| p.to_string()).collect(),
            &Some(stem.to_string()),
            FileRole::Source,
        )
    };
    assert_eq!(path(&["a"], "lib"), vec!["a", "lib"]);
    assert_eq!(path(&["a"], "main"), vec!["a", "main"]);
    assert_eq!(path(&["bin", "tool"], "main"), vec!["bin", "tool"]);
}
