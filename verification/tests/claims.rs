//! Which tests speak for which symbols.

use oracle_core::claims::{leaf_name, name_claims, tokenize, ClaimKind, ClaimMap};
use oracle_core::inventory::{walk_files, FileRole, SourceFile};

#[test]
fn tokenize_splits_snake_and_camel_and_drops_noise() {
    assert_eq!(tokenize("test_validate_config"), vec!["validate", "config"]);
    assert_eq!(tokenize("parseHostName"), vec!["parse", "host", "name"]);
    assert_eq!(tokenize("it_should_work"), vec!["work"]);
}

#[test]
fn tokenize_on_noise_only_name_yields_nothing() {
    assert!(tokenize("test").is_empty());
    assert!(tokenize("should_test").is_empty());
}

#[test]
fn leaf_name_takes_final_path_segment() {
    assert_eq!(leaf_name("a::b::c"), "c");
    assert_eq!(leaf_name("solo"), "solo");
}

#[test]
fn claim_kind_orders_certain_edges_before_weak_ones() {
    let mut kinds = [
        ClaimKind::IntegrationSurface,
        ClaimKind::Doctest,
        ClaimKind::NameSimilarity,
        ClaimKind::SameFileTestModule,
    ];
    kinds.sort();
    assert_eq!(kinds[0], ClaimKind::Doctest);
    assert_eq!(kinds[3], ClaimKind::IntegrationSurface);
    assert!(ClaimKind::Doctest.confidence() > ClaimKind::NameSimilarity.confidence());
}

#[test]
fn confidence_is_in_percent() {
    assert_eq!(ClaimKind::Doctest.confidence(), 100);
    assert_eq!(ClaimKind::SameFileTestModule.confidence(), 90);
    assert_eq!(ClaimKind::NameSimilarity.confidence(), 70);
    assert_eq!(ClaimKind::IntegrationSurface.confidence(), 20);
}

#[test]
fn only_certain_and_structural_edges_are_direct() {
    assert!(ClaimKind::Doctest.is_direct());
    assert!(ClaimKind::SameFileTestModule.is_direct());
    assert!(!ClaimKind::NameSimilarity.is_direct());
    assert!(!ClaimKind::IntegrationSurface.is_direct());
}

#[test]
fn a_name_is_claimed_by_all_of_its_words_in_the_test_name() {
    assert!(name_claims("rejects_bad_host_name", "host_name"));
    assert!(!name_claims("rejects_bad_host", "host_name"));
}

#[test]
fn tokens_are_in_small_letters_of_any_script() {
    assert_eq!(tokenize("parseÉtat"), vec!["parse", "état"]);
}

#[test]
fn an_integration_test_speaks_for_its_own_package() {
    let file = |rel: &str, package: &str, role: FileRole, source: &str| SourceFile {
        rel: rel.into(),
        crate_name: package.into(),
        modules: vec![],
        role,
        source: Ok(source.into()),
    };
    let inv = walk_files(
        "/ws",
        &vec![
            file("a/src/lib.rs", "a", FileRole::Source, "pub fn near(n: u8) -> u8 { n + 1 }\n"),
            file(
                "b/src/lib.rs",
                "b",
                FileRole::Source,
                "pub fn far(n: u8) -> u8 { n + 1 }\npub fn reached(n: u8) -> u8 { n + 2 }\n",
            ),
            file(
                "a/tests/it.rs",
                "a",
                FileRole::IntegrationTest,
                "#[test]\nfn reached_at_last() { assert_eq!(1 + 1, 2); }\n",
            ),
        ],
    );
    let map = ClaimMap::build(&inv);
    let found: Vec<(String, ClaimKind)> = map
        .claims
        .iter()
        .map(|c| (inv.symbol(&c.symbol).unwrap().name.clone(), c.kind))
        .collect();
    assert_eq!(
        found,
        vec![
            ("near".to_string(), ClaimKind::IntegrationSurface),
            ("reached".to_string(), ClaimKind::NameSimilarity),
        ]
    );
}
