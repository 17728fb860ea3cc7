//! How the lint reads the text of assertions: fragments, words and patterns.

use vstd::prelude::*;
use crate::lint;
use crate::lint::{AtBracket, AtNonWord, Rule};
use crate::inventory::TestIdView;
use crate::symbol::SymbolView;
use crate::syntax::{ArgView, ExpressionView, NodeView, ShapeView};
use crate::text;
use crate::text::{AtSpace, Cut};
use crate::text_laws::{law_uncut, law_words};
use crate::tokens;

verus! {

// ---------------------------------------------------------------------------
// Names
// ---------------------------------------------------------------------------

/// The rules' ids and names.
pub proof fn law_rule_names(rule: Rule)
    ensures
        rule.id_of() == match rule {
            Rule::NoOracle => "ORC001"@,
            Rule::DiscriminantOnly => "ORC002"@,
            Rule::UnwrapOnly => "ORC003"@,
            Rule::MatchesWildcard => "ORC004"@,
            Rule::ShouldPanicUnqualified => "ORC005"@,
            Rule::DiscardedResult => "ORC006"@,
            Rule::TautologicalAssert => "ORC007"@,
            Rule::IgnoredTest => "ORC008"@,
            Rule::ComputedExpectation => "ORC009"@,
            Rule::OracleShapeMismatch => "ORC010"@,
        },
        rule.name_of() == match rule {
            Rule::NoOracle => "no-oracle"@,
            Rule::DiscriminantOnly => "discriminant-only"@,
            Rule::UnwrapOnly => "unwrap-only"@,
            Rule::MatchesWildcard => "matches-wildcard"@,
            Rule::ShouldPanicUnqualified => "should-panic-unqualified"@,
            Rule::DiscardedResult => "discarded-result"@,
            Rule::TautologicalAssert => "tautological-assert"@,
            Rule::IgnoredTest => "ignored-test"@,
            Rule::ComputedExpectation => "computed-expectation"@,
            Rule::OracleShapeMismatch => "oracle-shape-mismatch"@,
        },
{
}

/// A rule answers to its own id in small letters and to its own name, and to
/// nothing else.
pub proof fn law_rules_answer(rule: Rule, key: Seq<char>)
    ensures
        rule.answers_to(key) <==> key == text::lower_of(rule.id_of()) || key == rule.name_of(),
{
}

/// What an oracle is called: an assertion by its name, a call that panics by the
/// call, and `?` by itself.
pub proof fn law_oracle_kinds(n: NodeView, test: TestIdView, k: int)
    requires
        0 <= k < lint::read_node(n, test).sites.len(),
    ensures
        lint::read_node(n, test).sites[k].kind == match n {
            NodeView::Macro(m) => m.name->0 + "!"@,
            NodeView::MethodCall(_, method, _) => "."@ + method + "()"@,
            _ => "?"@,
        },
{
    match n {
        NodeView::Macro(m) => {
            if m.name is None {
                reveal_strlit("assert");
                reveal_strlit("debug_assert");
                reveal_strlit("prop_assert");
                reveal_strlit("expect_that");
                reveal_strlit("verify_that");
            }
        },
        _ => {},
    }
}

/// A flagged condition is quoted as the assertion it stands in, without the unary
/// operators in front of it.
pub proof fn law_quotes(e: ExpressionView, name: Seq<char>)
    requires
        lint::judge_condition(e, name).flaw is Some,
    ensures
        (lint::judge_condition(e, name).flaw->0).1 == name + "!("@ + lint::normalized(
            crate::lint_laws::bare(e).text,
        ) + ")"@,
    decreases e,
{
    match e.shape {
        ShapeView::Unary(inner) => {
            law_quotes(*inner, name);
        },
        _ => {},
    }
}

// ---------------------------------------------------------------------------
// Fragments
// ---------------------------------------------------------------------------

/// How much white space there is between two words of a fragment makes no
/// difference.
pub proof fn law_blanks_do_not_matter(a: Seq<char>, c: char, d: char, b: Seq<char>)
    requires
        text::is_space(c),
        text::is_space(d),
    ensures
        lint::normalized(a + seq![c] + (seq![d] + b)) == lint::normalized(a + seq![c] + b),
        lint::normalized(a + seq![d] + b) == lint::normalized(a + seq![c] + b),
{
    let none = Seq::<char>::empty();
    law_words::<AtSpace>(a, c, seq![d] + b);
    law_words::<AtSpace>(none, d, b);
    assert(none + seq![d] + b =~= seq![d] + b);
    law_uncut::<AtSpace>(none);
    let w = text::words_of::<AtSpace>(b);
    assert(text::words_of::<AtSpace>(none) + w =~= w);
    law_words::<AtSpace>(a, c, b);
    law_words::<AtSpace>(a, d, b);
}

/// A text without a blank.
pub open spec fn is_solid(s: Seq<char>) -> bool {
    forall|i: int| 0 <= i < s.len() ==> !text::is_space(#[trigger] s[i])
}

proof fn lemma_solid(s: Seq<char>, pat: Seq<char>, rep: Seq<char>)
    requires
        is_solid(s),
        pat.len() > 0,
        pat[0] == ' ' || pat.last() == ' ',
    ensures
        text::replaced(s, pat, rep) == s,
    decreases s.len(),
{
    if s.len() >= pat.len() {
        if text::begins(s, pat) {
            let n = pat.len() as int;
            assert(s.subrange(0, n)[0] == s[0]);
            assert(s.subrange(0, n)[n - 1] == s[n - 1]);
        }
        let rest = s.skip(1);
        assert forall|i: int| 0 <= i < rest.len() implies !text::is_space(#[trigger] rest[i]) by {
            assert(rest[i] == s[i + 1]);
        }
        lemma_solid(rest, pat, rep);
        assert(seq![s[0]] + rest =~= s);
    }
}

proof fn lemma_solid_tail(s: Seq<char>)
    requires
        is_solid(s),
    ensures
        text::replaced(s, " . "@, "."@) == s,
        text::replaced(s, " :: "@, "::"@) == s,
        text::replaced(s, " ("@, "("@) == s,
        text::replaced(s, "( "@, "("@) == s,
        text::replaced(s, " )"@, ")"@) == s,
        text::replaced(s, " ,"@, ","@) == s,
        text::replaced(s, " !"@, "!"@) == s,
{
    reveal_strlit(" . ");
    reveal_strlit(" :: ");
    reveal_strlit(" (");
    reveal_strlit("( ");
    reveal_strlit(" )");
    reveal_strlit(" ,");
    reveal_strlit(" !");
    lemma_solid(s, " . "@, "."@);
    lemma_solid(s, " :: "@, "::"@);
    lemma_solid(s, " ("@, "("@);
    lemma_solid(s, "( "@, "("@);
    lemma_solid(s, " )"@, ")"@);
    lemma_solid(s, " ,"@, ","@);
    lemma_solid(s, " !"@, "!"@);
}

/// A fragment without white space stays as it is.
pub proof fn law_solid_fragments(s: Seq<char>)
    requires
        is_solid(s),
        s.len() > 0,
    ensures
        lint::normalized(s) == s,
{
    assert forall|i: int| 0 <= i < s.len() implies !AtSpace::cuts(#[trigger] s[i]) by {
    }
    law_uncut::<AtSpace>(s);
    assert(text::join_of(seq![s], " "@) == s);
    lemma_solid_tail(s);
}

// ---------------------------------------------------------------------------
// Words
// ---------------------------------------------------------------------------

/// The identifiers of a token string are its words that no number begins.
pub proof fn law_identifiers(ts: Seq<char>, w: Seq<char>)
    ensures
        lint::identifiers_of(ts).contains(w) <==> text::words_of::<AtNonWord>(ts).contains(w) && !(
        w.len() > 0 && text::is_number(w[0])),
{
    lemma_not_numbers(text::words_of::<AtNonWord>(ts), w);
}

/// A character that ends a word: neither a letter, a digit nor an underscore.
pub proof fn law_word_characters(c: char)
    ensures
        AtNonWord::cuts(c) <==> !text::is_alnum(c) && c != '_',
        !AtNonWord::cuts('_'),
{
}

proof fn lemma_not_numbers(words: Seq<Seq<char>>, w: Seq<char>)
    ensures
        lint::not_numbers(words).contains(w) <==> words.contains(w) && !(w.len() > 0
            && text::is_number(w[0])),
    decreases words.len(),
{
    let all = lint::not_numbers(words);
    if words.len() > 0 {
        let front = words.drop_last();
        let before = lint::not_numbers(front);
        lemma_not_numbers(front, w);
        assert(words[words.len() - 1] == words.last());
        if front.contains(w) {
            let k = choose|k: int| 0 <= k < front.len() && front[k] == w;
            assert(words[k] == w);
        }
        if words.contains(w) {
            let k = choose|k: int| 0 <= k < words.len() && words[k] == w;
            if k < front.len() {
                assert(front[k] == w);
            }
        }
        if before.contains(w) {
            let k = choose|k: int| 0 <= k < before.len() && before[k] == w;
            assert(all[k] == w);
        }
        if all.contains(w) {
            let k = choose|k: int| 0 <= k < all.len() && all[k] == w;
            if k < before.len() {
                assert(before[k] == w);
            }
        }
        if all.len() > before.len() {
            assert(all[all.len() - 1] == words.last());
        }
    }
}

// ---------------------------------------------------------------------------
// Results without a payload
// ---------------------------------------------------------------------------

/// An argument asks for the success of a call to a function of this name.
pub open spec fn asks_success_of(arg: ArgView, name: Seq<char>) -> bool {
    match arg.expr.shape {
        ShapeView::MethodCall(receiver, method, _) => (method == "is_ok"@ || method == "is_some"@)
            && match receiver.shape {
            ShapeView::MethodCall(_, inner, _) => inner == name,
            ShapeView::Call => arg.calls.len() > 1 && arg.calls[1] == name,
            _ => false,
        },
        _ => false,
    }
}

/// A question for the success of a call is read as a comparison exactly where a
/// symbol has the name of what is called and every symbol that has it returns
/// nothing but that success. Every other argument is read as it stands.
pub proof fn law_unit_successes(symbols: Seq<SymbolView>, arg: ArgView)
    ensures
        (exists|name: Seq<char>| #[trigger]
            asks_success_of(arg, name) && (exists|i: int|
                0 <= i < symbols.len() && (#[trigger] symbols[i]).name == name) && (forall|i: int|
                0 <= i < symbols.len() && (#[trigger] symbols[i]).name == name
                    ==> symbols[i].returns_unit_ok)) <==> lint::settled_arg(symbols, arg) != arg,
        lint::settled_arg(symbols, arg) != arg ==> lint::settled_arg(symbols, arg).expr.shape
            == ShapeView::Binary(arg.expr.text, "Ok(())"@),
        lint::settled_arg(symbols, arg).expr.text == arg.expr.text,
        lint::settled_arg(symbols, arg).calls == arg.calls,
{
    if let Some(name) = lint::asked_of(arg) {
        assert(asks_success_of(arg, name));
        assert(arg.expr.shape is MethodCall);
        let to = lint::settled_arg(symbols, arg);
        if lint::returns_no_payload(symbols, name) {
            assert(to.expr.shape is Binary);
            assert(to != arg);
        }
    }
    assert forall|name: Seq<char>| #[trigger] asks_success_of(arg, name) implies lint::asked_of(arg)
        == Some(name) by {
    }
}

// ---------------------------------------------------------------------------
// Patterns
// ---------------------------------------------------------------------------

/// A token binds a field exactly where it is a word in small letters that is no
/// word of the language, is not followed by what makes it a field's name, a path or
/// a constructor, does not end a path, and stands inside of brackets.
pub proof fn law_bindings(ts: Seq<Seq<char>>, i: int)
    requires
        0 <= i < ts.len(),
        ts[i].len() > 0,
    ensures
        tokens::binds_at(ts, i) <==> {
            let t = ts[i];
            let next = |w: Seq<char>| i + 1 < ts.len() && ts[i + 1] == w;
            &&& text::is_wordy(t[0]) && text::is_wordy(t.last())
            &&& !text::is_capital(t[0]) && !text::is_digit(t[0])
            &&& t != "_"@ && t != "ref"@ && t != "mut"@ && t != "box"@ && t != "true"@ && t
                != "false"@
            &&& !next(":"@) && !next("("@) && !next("{"@) && !next("!"@)
            &&& !(i >= 2 && ts[i - 1] == ":"@ && ts[i - 2] == ":"@)
            &&& tokens::brackets(ts.take(i)) > 0
            &&& tokens::angles(ts.take(i)) == 0
        },
{
}

/// Brackets are counted: an opening one opens one more, a closing one closes one
/// that is open, and no other token changes the count.
pub proof fn law_brackets(ts: Seq<Seq<char>>, t: Seq<char>)
    ensures
        tokens::brackets(Seq::empty()) == 0,
        t == "("@ || t == "["@ || t == "{"@ ==> tokens::brackets(ts.push(t)) == tokens::brackets(ts)
            + 1,
        (t == ")"@ || t == "]"@ || t == "}"@) && tokens::brackets(ts) > 0 ==> tokens::brackets(
            ts.push(t),
        ) + 1 == tokens::brackets(ts),
        t != "("@ && t != "["@ && t != "{"@ && t != ")"@ && t != "]"@ && t != "}"@
            ==> tokens::brackets(ts.push(t)) == tokens::brackets(ts),
{
    assert(ts.push(t).drop_last() =~= ts);
    reveal_strlit("(");
    reveal_strlit("[");
    reveal_strlit("{");
    reveal_strlit(")");
    reveal_strlit("]");
    reveal_strlit("}");
    assert("("@[0] == '(' && "["@[0] == '[' && "{"@[0] == '{');
    assert(")"@[0] == ')' && "]"@[0] == ']' && "}"@[0] == '}');
}

/// A pattern that binds a field, or tests a value, is no wildcard, whatever else
/// it holds.
pub proof fn law_observing_patterns(body: Seq<char>, pattern: Seq<Seq<char>>, i: int)
    requires
        tokens::pattern_of(tokens::tokens_of(body)) == Some(pattern),
        0 <= i < pattern.len(),
        tokens::binds_at(pattern, i) || tokens::tests_at(pattern, i),
    ensures
        !lint::wildcards(body),
{
    assert(tokens::observes_at(pattern, i));
}

/// A token neither binds a field nor tests a value.
pub open spec fn sees_nothing(ts: Seq<Seq<char>>, i: int) -> bool {
    !tokens::binds_at(ts, i) && !tokens::tests_at(ts, i)
}

/// A pattern that observes nothing is a wildcard exactly where it has no brackets,
/// or has `..`, or has a `_` of its own, or is nothing but paths without a guard.
pub proof fn law_wildcards(body: Seq<char>, pattern: Seq<Seq<char>>)
    requires
        tokens::pattern_of(tokens::tokens_of(body)) == Some(pattern),
        forall|i: int| 0 <= i < pattern.len() ==> #[trigger] sees_nothing(pattern, i),
    ensures
        lint::wildcards(body) <==> {
            ||| tokens::is_bare(pattern) && !tokens::tokens_of(body).contains("if"@)
            ||| text::first_at(body, ","@, 0) is Some && {
                let after = body.skip(text::first_at(body, ","@, 0)->0 + 1);
                ||| !text::has(after, "("@) && !text::has(after, "{"@)
                ||| text::has(after, ".."@)
                ||| text::pieces_of::<AtBracket>(after).contains("_"@)
            }
        },
{
    reveal_strlit(",");
    assert(!tokens::observes(pattern)) by {
        if tokens::observes(pattern) {
            let i = choose|i: int| 0 <= i < pattern.len() && #[trigger] tokens::observes_at(pattern, i);
            assert(sees_nothing(pattern, i));
        }
    }
}

/// A literal or a truth value is what a value is tested against, unless what
/// follows makes it a name; so is, inside of brackets, a name in capitals.
pub proof fn law_tested_values(ts: Seq<Seq<char>>, i: int)
    requires
        0 <= i < ts.len(),
        ts[i].len() > 0,
        i + 1 == ts.len() || (ts[i + 1] != ":"@ && ts[i + 1] != "("@ && ts[i + 1] != "{"@ && ts[i
            + 1] != "!"@),
    ensures
        text::is_digit(ts[i][0]) ==> tokens::tests_at(ts, i),
        ts[i][0] == '"' ==> tokens::tests_at(ts, i),
        ts[i] == "true"@ || ts[i] == "false"@ ==> tokens::tests_at(ts, i),
        text::is_capital(ts[i][0]) && text::is_wordy(ts[i][0]) && text::is_wordy(ts[i].last())
            && tokens::brackets(ts.take(i)) > 0 && tokens::angles(ts.take(i)) == 0
            ==> tokens::tests_at(ts, i),
        ts[i] == "_"@ ==> !tokens::tests_at(ts, i),
        ts[i] == "."@ ==> !tokens::tests_at(ts, i),
{
    reveal_strlit("_");
    reveal_strlit(".");
    reveal_strlit("true");
    reveal_strlit("false");
    assert("_"@[0] == '_' && "_"@.last() == '_');
    assert("."@[0] == '.');
    assert("true"@.len() == 4 && "false"@.len() == 5);
}

/// A token is part of the pattern that the one before it is part of: it begins no
/// guard and no further argument.
pub open spec fn goes_on(ts: Seq<Seq<char>>, i: int) -> bool {
    ts[i] != "if"@ && !tokens::parts(ts, i)
}

/// The pattern of a `matches!` begins behind the first comma that is in no
/// brackets, and ends before a guard or before the next such comma.
pub proof fn law_pattern_bounds(ts: Seq<Seq<char>>, i: int)
    requires
        0 <= i < ts.len(),
        tokens::parts(ts, i),
        forall|j: int| 0 <= j < i ==> !(#[trigger] tokens::parts(ts, j)),
    ensures
        tokens::pattern_of(ts) is Some,
        ({
            let p = tokens::pattern_of(ts)->0;
            let end = i + 1 + p.len();
            &&& end <= ts.len()
            &&& p == ts.subrange(i + 1, end as int)
            &&& forall|j: int| i < j < end ==> #[trigger] goes_on(ts, j)
            &&& end < ts.len() ==> !goes_on(ts, end as int)
        }),
{
    lemma_comma(ts, 0, i);
    lemma_pattern_end(ts, i + 1);
}

proof fn lemma_comma(ts: Seq<Seq<char>>, k: int, i: int)
    requires
        0 <= k <= i < ts.len(),
        tokens::parts(ts, i),
        forall|j: int| 0 <= j < i ==> !(#[trigger] tokens::parts(ts, j)),
    ensures
        tokens::comma_from(ts, k) == Some(i),
    decreases i - k,
{
    if k < i {
        assert(!tokens::parts(ts, k));
        lemma_comma(ts, k + 1, i);
    }
}

proof fn lemma_pattern_end(ts: Seq<Seq<char>>, i: int)
    requires
        0 <= i <= ts.len(),
    ensures
        ({
            let end = tokens::pattern_end(ts, i);
            &&& i <= end <= ts.len()
            &&& forall|j: int| i <= j < end ==> #[trigger] goes_on(ts, j)
            &&& end < ts.len() ==> !goes_on(ts, end)
        }),
    decreases ts.len() - i,
{
    if i < ts.len() && ts[i] != "if"@ && !tokens::parts(ts, i) {
        lemma_pattern_end(ts, i + 1);
        assert(goes_on(ts, i));
    }
}

} // verus!
