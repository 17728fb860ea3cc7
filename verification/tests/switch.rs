//! The run-time switch.

use oracle_core::switch::{parse_u32, selected, selects, Probe, ViaDefault, ViaFallback, ENV, LOG_ENV};

#[derive(Debug, PartialEq)]
struct NoDefault(u8);

#[derive(Debug, Default, PartialEq)]
struct HasDefault {
    a: u8,
    b: String,
}

#[test]
fn a_type_with_default_yields_its_default_value() {
    assert_eq!((&&Probe::<u32>::new()).oracle_default(), Some(0));
    assert_eq!((&&Probe::<Option<u8>>::new()).oracle_default(), Some(None));
    assert_eq!(
        (&&Probe::<HasDefault>::new()).oracle_default(),
        Some(HasDefault {
            a: 0,
            b: String::new()
        })
    );
}

#[test]
fn a_type_without_default_yields_none_rather_than_failing_to_compile() {
    // The whole design rests on this: one uncompilable default would take the
    // entire build down, and every other mutant with it.
    assert_eq!((&&Probe::<NoDefault>::new()).oracle_default(), None);
    assert_eq!((&&Probe::<&NoDefault>::new()).oracle_default(), None);
}

#[test]
fn the_unit_type_has_a_default_so_void_functions_are_mutable() {
    assert_eq!((&&Probe::<()>::new()).oracle_default(), Some(()));
}

#[test]
fn a_reference_resolves_through_its_own_default_impl() {
    assert_eq!((&&Probe::<&str>::new()).oracle_default(), Some(""));
    assert_eq!((&&Probe::<&[u8]>::new()).oracle_default(), Some(&[][..]));
}

#[test]
fn result_has_no_default_which_is_why_the_rewriter_unwraps_it() {
    // `Result<T, E>` deliberately has no `Default` in std: there is no reason to
    // prefer `Ok` over `Err`. Probing it directly would make every fallible
    // function inert, which is most of a Rust codebase.
    assert!((&&Probe::<Result<u8, String>>::new()).oracle_default().is_none());

    // So the rewriter probes the *success* type and wraps the result.
    assert_eq!(
        (&&Probe::<u8>::new()).oracle_default().map(Ok::<u8, String>),
        Some(Ok(0))
    );
}

#[test]
fn option_defaults_to_none_whatever_it_wraps() {
    // `impl<T> Default for Option<T>` is unconditional: the default is `None`,
    // which exists for every `T`. So unlike `Result`, `Option` needs no special
    // handling in the rewriter at all.
    assert_eq!((&&Probe::<Option<u8>>::new()).oracle_default(), Some(None));
    assert_eq!((&&Probe::<Option<NoDefault>>::new()).oracle_default(), Some(None));
}

#[test]
fn nothing_is_active_without_the_environment_variable() {
    // The baseline run: every function keeps its real body.
    assert!(!selects(None, 0));
    assert!(!selects(None, 17));
}

#[test]
fn the_selected_mutant_is_the_number_in_the_variable() {
    assert_eq!(ENV, "ORACLE_MUTANT");
    assert_eq!(LOG_ENV, "ORACLE_MUTANT_LOG");
    assert_eq!(selected(Some(" 17\n".into())), Some(17));
    assert!(selects(Some("17".into()), 17));
    assert!(!selects(Some("17".into()), 1));
    assert!(!selects(Some("seventeen".into()), 17));
}

#[test]
fn a_number_is_read_as_it_is_written() {
    for text in ["0", "+7", "007", "4294967295", "4294967296", "", "+", "-1", "1 2", "99999999999"] {
        assert_eq!(parse_u32(text), text.parse::<u32>().ok(), "{text:?}");
    }
}

#[test]
fn a_probe_has_a_default_of_its_own() {
    let probe: Probe<u8> = Default::default();
    assert_eq!((&&probe).oracle_default(), Some(0));
}
