//! Text functions and ordered collections.

use oracle_core::lint::{identifiers, normalize, pattern_is_wildcard};
use oracle_core::tokens::tokens;
use oracle_core::order::{sort_stable, KeySet, Table};
use oracle_core::text::{
    ascii_lower, byte_len, comes_before, contains, decimal, ends_with, join, lines, lower, pad, pad_left,
    replace, split_once, starts_with, strip_prefix, strip_suffix, trim, trim_end, trim_start, words,
    AtSpace,
};

#[test]
fn text_functions_do_what_those_of_str_do() {
    let samples = ["", " a  b\tc\n", "a::b::c", "line\r\nnext\n\nlast", "\u{a0}é\u{3000}", "aaa"];
    for s in samples {
        assert_eq!(trim(s), s.trim(), "{s:?}");
        assert_eq!(trim_start(s), s.trim_start(), "{s:?}");
        assert_eq!(trim_end(s), s.trim_end(), "{s:?}");
        assert_eq!(lines(s), s.lines().collect::<Vec<_>>(), "{s:?}");
        assert_eq!(words::<AtSpace>(s), s.split_whitespace().collect::<Vec<_>>(), "{s:?}");
        assert_eq!(byte_len(s), s.len(), "{s:?}");
        assert_eq!(ascii_lower(s), s.to_ascii_lowercase(), "{s:?}");
        for p in ["", "a", "::", "aa", "\n"] {
            assert_eq!(contains(s, p), s.contains(p), "{s:?} {p:?}");
            assert_eq!(starts_with(s, p), s.starts_with(p), "{s:?} {p:?}");
            assert_eq!(ends_with(s, p), s.ends_with(p), "{s:?} {p:?}");
            assert_eq!(strip_prefix(s, p).as_deref(), s.strip_prefix(p), "{s:?} {p:?}");
            assert_eq!(strip_suffix(s, p).as_deref(), s.strip_suffix(p), "{s:?} {p:?}");
            let halves = split_once(s, p);
            let halves = halves.as_ref().map(|(a, b)| (a.as_str(), b.as_str()));
            assert_eq!(halves, s.split_once(p), "{s:?} {p:?}");
            if !p.is_empty() {
                assert_eq!(replace(s, p, "-"), s.replace(p, "-"), "{s:?} {p:?}");
            }
        }
        for t in samples {
            assert_eq!(comes_before(s, t), s < t, "{s:?} {t:?}");
        }
    }
}

#[test]
fn numbers_and_padding_are_written_as_format_does() {
    for n in [0, 7, 10, 4294967296, u64::MAX] {
        assert_eq!(decimal(n), n.to_string());
    }
    assert_eq!(pad("é", 3), format!("{:<3}", "é"));
    assert_eq!(pad("abcd", 3), "abcd");
    assert_eq!(pad_left("ab", 4), "  ab");
    assert_eq!(join(&vec!["a".into(), "b".into(), "c".into()], ", "), "a, b, c");
}

#[test]
fn a_set_keeps_its_members_in_order_and_once() {
    let mut set: KeySet<String> = KeySet::new();
    for s in ["b", "a", "c", "a"] {
        set.insert(s.to_string());
    }
    assert_eq!(set.items, vec!["a", "b", "c"]);
    assert!(set.contains(&"c".to_string()));
    assert!(!set.contains(&"d".to_string()));
    assert_eq!(set.copy().items, set.items);
}

#[test]
fn a_table_holds_the_last_value_of_a_key() {
    let mut table: Table<String, u8> = Table::new();
    table.put("b".into(), 1);
    table.put("a".into(), 2);
    table.put("b".into(), 3);
    assert_eq!(table.len(), 2);
    assert_eq!(table.get(&"b".to_string()), Some(&3));
    assert_eq!(table.get(&"c".to_string()), None);
    assert_eq!(table.entries[0].0, "a");
}

#[test]
fn sorting_is_by_rank() {
    let sorted = sort_stable(vec!["b".to_string(), "c".to_string(), "a".to_string()]);
    assert_eq!(sorted, vec!["a", "b", "c"]);
}

#[test]
fn a_fragment_is_put_on_one_line() {
    assert_eq!(normalize("parse (\"h\") . is_ok ( )"), "parse(\"h\").is_ok()");
    assert_eq!(normalize("a :: b ,\n c"), "a::b, c");
    assert!(pattern_is_wildcard("e , Error :: Parse { .. }"));
    assert!(pattern_is_wildcard("e , Error :: Parse (_)"));
    assert!(!pattern_is_wildcard("e , Error :: Parse (msg)"));
}

#[test]
fn identifiers_are_the_words_that_are_no_numbers() {
    let found = identifiers("c . len ( ) , 3 , \u{e9}t\u{e9}_1");
    assert!(found.contains(&"c".to_string()), "{found:?}");
    assert!(found.contains(&"len".to_string()), "{found:?}");
    assert!(found.contains(&"\u{e9}t\u{e9}_1".to_string()), "{found:?}");
    assert!(!found.contains(&"3".to_string()), "{found:?}");
}

#[test]
fn a_pattern_that_binds_a_field_is_no_wildcard() {
    assert!(!pattern_is_wildcard("e , Error :: Parse { msg , .. } if msg . len () > 2"));
    assert!(!pattern_is_wildcard("e , Error :: Parse { msg : m , .. }"));
    assert!(!pattern_is_wildcard("e , Some (ref x)"));
    assert!(!pattern_is_wildcard("e , Pair (_ , second)"));
    assert!(pattern_is_wildcard("e , Error :: Parse { msg : _ , .. }"));
    assert!(pattern_is_wildcard("e , Error :: Parse { .. } if ready (x)"));
    assert!(pattern_is_wildcard("e , Error :: Eof | Error :: End"));
    assert!(pattern_is_wildcard("f (a , g (b)) , V { .. }"));
    assert!(pattern_is_wildcard("f :: < A , B > (k) , Some (_)"));
    assert!(pattern_is_wildcard("parse (\"(,\") , Err (_)"));
    assert!(pattern_is_wildcard("parse (r#\"\"(\"#) , Err (_)"));
    assert!(pattern_is_wildcard("c , Some (_) , \"not {}\" , value"));
    assert!(!pattern_is_wildcard("e , Some (b'(')"));
    assert!(!pattern_is_wildcard("e , Error :: Eof if e . code () == 3"));
    assert!(pattern_is_wildcard("e , Error :: Eof if ready"));
    assert!(!pattern_is_wildcard("e , \"f(x)\""));
    assert!(!pattern_is_wildcard("e , Variant { a : 1 , .. }"));
    assert!(!pattern_is_wildcard("e , Foo (1 ..= 5)"));
    assert!(!pattern_is_wildcard("e , Pair (None , _)"));
    assert!(!pattern_is_wildcard("e , Pair (true , _)"));
    assert!(pattern_is_wildcard("e , Err (Error :: Parse { .. })"));
    assert!(pattern_is_wildcard("e , Pair { 0 : _ , .. }"));
    assert!(!pattern_is_wildcard("e , Err (Error :: Eof)"));
    assert!(pattern_is_wildcard("f (a , g (b)) , Error :: Eof"));
    assert!(!pattern_is_wildcard("no_pattern"));
}

#[test]
fn tokens_are_words_literals_and_marks() {
    assert_eq!(tokens("a :: b(\"x, \\\"y\")"), vec!["a", ":", ":", "b", "(", "\"x, \\\"y\"", ")"]);
    assert_eq!(tokens("'(' 'a b'\\''"), vec!["'('", "'", "a", "b'\\''"]);
    assert_eq!(tokens("r#\"a\"b\"# c"), vec!["r#\"a\"b\"#", "c"]);
    assert!(tokens(" \t").is_empty());
}

#[test]
fn letters_of_any_script_are_lowered() {
    assert_eq!(lower('A'), "a");
    assert_eq!(lower('É'), "é");
    assert_eq!(lower('7'), "7");
}
