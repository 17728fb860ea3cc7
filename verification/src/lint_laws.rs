//! What the lint promises of every test body: which patterns are flagged, which are
//! not, and what each oracle is worth.

use vstd::prelude::*;
use crate::claims::{ClaimKind, ClaimView};
use crate::inventory;
use crate::inventory::{ShouldPanic, TestIdView, TestItemView};
use crate::lint;
use crate::lint::{
    FindingView, OracleSiteView, OracleStrength, ReceiverCallView, Rule, Severity,
    TestOraclesView,
};
use crate::order;
use crate::symbol;
use crate::symbol::{RequiredOracle, SelfKind, SymbolIdView, SymbolView};
use crate::syntax::{ArgView, ExpressionView, MacView, NodeView, ShapeView};
use crate::text;

verus! {

// ---------------------------------------------------------------------------
// Places
// ---------------------------------------------------------------------------

/// A place of a body that stands in no item declared inside it.
pub open spec fn seen(nodes: Seq<NodeView>, i: int) -> bool {
    0 <= i < nodes.len() && lint::items_open(nodes.take(i)) == 0
}

proof fn lemma_seen_front(nodes: Seq<NodeView>, i: int)
    requires
        nodes.len() > 0,
    ensures
        seen(nodes.drop_last(), i) <==> seen(nodes, i) && i < nodes.len() - 1,
{
    if 0 <= i < nodes.len() - 1 {
        assert(nodes.drop_last().take(i) =~= nodes.take(i));
    }
}

/// A body without items declared inside is seen as a whole.
pub proof fn law_plain_bodies_are_seen(nodes: Seq<NodeView>, i: int)
    requires
        0 <= i < nodes.len(),
        forall|k: int| 0 <= k < nodes.len() ==> !((#[trigger] nodes[k]) is ItemBegin),
    ensures
        seen(nodes, i),
    decreases i,
{
    assert(nodes.take(0) =~= Seq::<NodeView>::empty());
    if i > 0 {
        law_plain_bodies_are_seen(nodes, i - 1);
        assert(nodes.take(i).drop_last() =~= nodes.take(i - 1));
        assert(nodes.take(i).last() == nodes[i - 1]);
    }
}

proof fn lemma_findings(nodes: Seq<NodeView>, test: TestIdView, f: FindingView)
    ensures
        lint::read_nodes(nodes, test).findings.contains(f) <==> exists|i: int| #[trigger]
            seen(nodes, i) && lint::read_node(nodes[i], test).findings.contains(f),
    decreases nodes.len(),
{
    let all = lint::read_nodes(nodes, test).findings;
    if nodes.len() > 0 {
        let front = nodes.drop_last();
        let n = nodes.len() - 1;
        lemma_findings(front, test, f);
        assert forall|i: int| seen(front, i) <==> #[trigger] seen(nodes, i) && i < n by {
            lemma_seen_front(nodes, i);
        }
        assert(nodes.take(n) =~= front);
        let a = lint::read_nodes(front, test).findings;
        let b = lint::read_node(nodes[n], test).findings;
        if all.contains(f) {
            let k = choose|k: int| 0 <= k < all.len() && all[k] == f;
            if k < a.len() {
                assert(a[k] == f);
                let i = choose|i: int| #[trigger]
                    seen(front, i) && lint::read_node(front[i], test).findings.contains(f);
                assert(seen(nodes, i));
                assert(front[i] == nodes[i]);
            } else {
                assert(b[k - a.len()] == f);
                assert(seen(nodes, n));
            }
        }
        if exists|i: int| #[trigger]
            seen(nodes, i) && lint::read_node(nodes[i], test).findings.contains(f) {
            let i = choose|i: int| #[trigger]
                seen(nodes, i) && lint::read_node(nodes[i], test).findings.contains(f);
            if i < n {
                assert(seen(front, i));
                assert(front[i] == nodes[i]);
                let k = choose|k: int| 0 <= k < a.len() && a[k] == f;
                assert(all[k] == f);
            } else {
                let k = choose|k: int| 0 <= k < b.len() && b[k] == f;
                assert(all[a.len() + k] == f);
            }
        }
    }
}

proof fn lemma_sites(nodes: Seq<NodeView>, test: TestIdView, s: OracleSiteView)
    ensures
        lint::read_nodes(nodes, test).sites.contains(s) <==> exists|i: int| #[trigger]
            seen(nodes, i) && lint::read_node(nodes[i], test).sites.contains(s),
    decreases nodes.len(),
{
    let all = lint::read_nodes(nodes, test).sites;
    if nodes.len() > 0 {
        let front = nodes.drop_last();
        let n = nodes.len() - 1;
        lemma_sites(front, test, s);
        assert forall|i: int| seen(front, i) <==> #[trigger] seen(nodes, i) && i < n by {
            lemma_seen_front(nodes, i);
        }
        assert(nodes.take(n) =~= front);
        let a = lint::read_nodes(front, test).sites;
        let b = lint::read_node(nodes[n], test).sites;
        if all.contains(s) {
            let k = choose|k: int| 0 <= k < all.len() && all[k] == s;
            if k < a.len() {
                assert(a[k] == s);
                let i = choose|i: int| #[trigger]
                    seen(front, i) && lint::read_node(front[i], test).sites.contains(s);
                assert(seen(nodes, i));
                assert(front[i] == nodes[i]);
            } else {
                assert(b[k - a.len()] == s);
                assert(seen(nodes, n));
            }
        }
        if exists|i: int| #[trigger]
            seen(nodes, i) && lint::read_node(nodes[i], test).sites.contains(s) {
            let i = choose|i: int| #[trigger]
                seen(nodes, i) && lint::read_node(nodes[i], test).sites.contains(s);
            if i < n {
                assert(seen(front, i));
                assert(front[i] == nodes[i]);
                let k = choose|k: int| 0 <= k < a.len() && a[k] == s;
                assert(all[k] == s);
            } else {
                let k = choose|k: int| 0 <= k < b.len() && b[k] == s;
                assert(all[a.len() + k] == s);
            }
        }
    }
}

proof fn lemma_calls(nodes: Seq<NodeView>, test: TestIdView, c: ReceiverCallView)
    ensures
        lint::read_nodes(nodes, test).calls.contains(c) <==> exists|i: int| #[trigger]
            seen(nodes, i) && lint::read_node(nodes[i], test).calls.contains(c),
    decreases nodes.len(),
{
    let all = lint::read_nodes(nodes, test).calls;
    if nodes.len() > 0 {
        let front = nodes.drop_last();
        let n = nodes.len() - 1;
        lemma_calls(front, test, c);
        assert forall|i: int| seen(front, i) <==> #[trigger] seen(nodes, i) && i < n by {
            lemma_seen_front(nodes, i);
        }
        assert(nodes.take(n) =~= front);
        let a = lint::read_nodes(front, test).calls;
        let b = lint::read_node(nodes[n], test).calls;
        if all.contains(c) {
            let k = choose|k: int| 0 <= k < all.len() && all[k] == c;
            if k < a.len() {
                assert(a[k] == c);
                let i = choose|i: int| #[trigger]
                    seen(front, i) && lint::read_node(front[i], test).calls.contains(c);
                assert(seen(nodes, i));
                assert(front[i] == nodes[i]);
            } else {
                assert(b[k - a.len()] == c);
                assert(seen(nodes, n));
            }
        }
        if exists|i: int| #[trigger]
            seen(nodes, i) && lint::read_node(nodes[i], test).calls.contains(c) {
            let i = choose|i: int| #[trigger]
                seen(nodes, i) && lint::read_node(nodes[i], test).calls.contains(c);
            if i < n {
                assert(seen(front, i));
                assert(front[i] == nodes[i]);
                let k = choose|k: int| 0 <= k < a.len() && a[k] == c;
                assert(all[k] == c);
            } else {
                let k = choose|k: int| 0 <= k < b.len() && b[k] == c;
                assert(all[a.len() + k] == c);
            }
        }
    }
}

proof fn lemma_idents(nodes: Seq<NodeView>, test: TestIdView, w: Seq<char>)
    ensures
        lint::read_nodes(nodes, test).idents.contains(w) <==> exists|i: int| #[trigger]
            seen(nodes, i) && lint::read_node(nodes[i], test).idents.contains(w),
    decreases nodes.len(),
{
    let all = lint::read_nodes(nodes, test).idents;
    if nodes.len() > 0 {
        let front = nodes.drop_last();
        let n = nodes.len() - 1;
        lemma_idents(front, test, w);
        assert forall|i: int| seen(front, i) <==> #[trigger] seen(nodes, i) && i < n by {
            lemma_seen_front(nodes, i);
        }
        assert(nodes.take(n) =~= front);
        let a = lint::read_nodes(front, test).idents;
        let b = lint::read_node(nodes[n], test).idents;
        if all.contains(w) {
            let k = choose|k: int| 0 <= k < all.len() && all[k] == w;
            if k < a.len() {
                assert(a[k] == w);
                let i = choose|i: int| #[trigger]
                    seen(front, i) && lint::read_node(front[i], test).idents.contains(w);
                assert(seen(nodes, i));
                assert(front[i] == nodes[i]);
            } else {
                assert(b[k - a.len()] == w);
                assert(seen(nodes, n));
            }
        }
        if exists|i: int| #[trigger]
            seen(nodes, i) && lint::read_node(nodes[i], test).idents.contains(w) {
            let i = choose|i: int| #[trigger]
                seen(nodes, i) && lint::read_node(nodes[i], test).idents.contains(w);
            if i < n {
                assert(seen(front, i));
                assert(front[i] == nodes[i]);
                let k = choose|k: int| 0 <= k < a.len() && a[k] == w;
                assert(all[k] == w);
            } else {
                let k = choose|k: int| 0 <= k < b.len() && b[k] == w;
                assert(all[a.len() + k] == w);
            }
        }
    }
}

// ---------------------------------------------------------------------------
// Assertions
// ---------------------------------------------------------------------------

/// A condition without the unary operators in front of it.
pub open spec fn bare(e: ExpressionView) -> ExpressionView
    decreases e,
{
    match e.shape {
        ShapeView::Unary(inner) => bare(*inner),
        _ => e,
    }
}

/// The condition asks for a discriminant alone.
pub open spec fn asks_discriminant(e: ExpressionView) -> bool {
    match bare(e).shape {
        ShapeView::MethodCall(_, method, _) => method == "is_ok"@ || method == "is_err"@ || method
            == "is_some"@ || method == "is_none"@,
        _ => false,
    }
}

/// The condition cannot fail, or compares an expression with itself.
pub open spec fn says_nothing(e: ExpressionView) -> bool {
    match bare(e).shape {
        ShapeView::Literal => true,
        ShapeView::Binary(left, right) => lint::normalized(left) == lint::normalized(right),
        _ => false,
    }
}

/// The condition is a `matches!` whose pattern wildcards the payload away.
pub open spec fn matches_anything(e: ExpressionView) -> bool {
    match bare(e).shape {
        ShapeView::Macro(name, tokens) => name == Some("matches"@) && lint::wildcards(tokens),
        _ => false,
    }
}

/// A macro call is `assert!` or `debug_assert!`.
pub open spec fn is_assert(m: MacView) -> bool {
    m.name == Some("assert"@) || m.name == Some("debug_assert"@)
}

/// A macro call is an assertion of equality or of its contrary.
pub open spec fn is_comparison(m: MacView) -> bool {
    ||| m.name == Some("assert_eq"@)
    ||| m.name == Some("assert_ne"@)
    ||| m.name == Some("debug_assert_eq"@)
    ||| m.name == Some("debug_assert_ne"@)
}

/// A macro call is an assertion on a pattern.
pub open spec fn is_pattern_assert(m: MacView) -> bool {
    m.name == Some("assert_matches"@) || m.name == Some("debug_assert_matches"@)
}

/// An assertion of equality has two sides that are written alike.
pub open spec fn same_sides(m: MacView) -> bool {
    m.args.len() >= 2 && lint::normalized(m.args[0].expr.text) == lint::normalized(
        m.args[1].expr.text,
    )
}

/// A call that makes a value from scratch or hands one on, in small letters.
pub open spec fn makes_a_value(s: Seq<char>) -> bool {
    ||| s == "new"@ || s == "default"@ || s == "from"@ || s == "into"@ || s == "with_capacity"@
    ||| s == "to_string"@ || s == "to_owned"@ || s == "as_str"@ || s == "clone"@ || s == "vec"@
    ||| s == "some"@ || s == "ok"@
}

/// Both sides of an assertion of equality call the same function, which is no
/// constructor.
pub open spec fn computed(m: MacView) -> bool {
    m.args.len() >= 2 && exists|call: Seq<char>| #[trigger]
        m.args[0].calls.contains(call) && m.args[1].calls.contains(call) && !makes_a_value(
            text::lower_of(call),
        )
}

proof fn lemma_bare(e: ExpressionView, name: Seq<char>)
    ensures
        !(bare(e).shape is Unary),
        lint::judge_condition(e, name) == lint::judge_condition(bare(e), name),
    decreases e,
{
    match e.shape {
        ShapeView::Unary(inner) => {
            lemma_bare(*inner, name);
        },
        _ => {},
    }
}

/// What the condition of an assertion is worth, and what is wrong with it. Leading
/// unary operators make no difference. A literal and a comparison of an expression
/// with itself are worth nothing and are flagged as tautologies. The four questions
/// for a discriminant, and they alone among the method calls, are weak and flagged
/// as such. Every other method call is a partial oracle with nothing wrong. A
/// comparison of two expressions is a strong one.
pub proof fn law_conditions(e: ExpressionView, name: Seq<char>)
    ensures
        ({
            let j = lint::judge_condition(e, name);
            &&& asks_discriminant(e) <==> j.flaw is Some && (j.flaw->0).0 == Rule::DiscriminantOnly
            &&& says_nothing(e) <==> j.flaw is Some && (j.flaw->0).0 == Rule::TautologicalAssert
            &&& matches_anything(e) <==> j.flaw is Some && (j.flaw->0).0 == Rule::MatchesWildcard
            &&& j.flaw is Some ==> asks_discriminant(e) || says_nothing(e) || matches_anything(e)
            &&& says_nothing(e) <==> j.strength == OracleStrength::Absent
            &&& asks_discriminant(e) || matches_anything(e) <==> j.strength == OracleStrength::Weak
            &&& j.strength == OracleStrength::Strong <==> bare(e).shape is Binary && !says_nothing(e)
            &&& bare(e).shape is MethodCall && !asks_discriminant(e) ==> j.strength
                == OracleStrength::Partial && j.flaw is None
        }),
{
    lemma_bare(e, name);
}

proof fn lemma_shared(a: Seq<Seq<char>>, b: Seq<Seq<char>>)
    ensures
        lint::shared_call(a, b) is Some <==> exists|call: Seq<char>| #[trigger]
            a.contains(call) && b.contains(call) && !makes_a_value(text::lower_of(call)),
        lint::shared_call(a, b) matches Some(call) ==> a.contains(call) && b.contains(call)
            && !makes_a_value(text::lower_of(call)),
    decreases a.len(),
{
    if a.len() > 0 {
        let rest = a.skip(1);
        lemma_shared(rest, b);
        assert(a.contains(a[0]));
        if b.contains(a[0]) && !makes_a_value(text::lower_of(a[0])) {
            assert(lint::shared_call(a, b) == Some(a[0]));
        } else {
            assert(lint::shared_call(a, b) == lint::shared_call(rest, b));
            if let Some(call) = lint::shared_call(rest, b) {
                let k = choose|k: int| 0 <= k < rest.len() && rest[k] == call;
                assert(a[k + 1] == call);
                assert(a.contains(call));
            }
            if exists|call: Seq<char>| #[trigger]
                a.contains(call) && b.contains(call) && !makes_a_value(text::lower_of(call)) {
                let call = choose|call: Seq<char>| #[trigger]
                    a.contains(call) && b.contains(call) && !makes_a_value(text::lower_of(call));
                let k = choose|k: int| 0 <= k < a.len() && a[k] == call;
                assert(rest[k - 1] == call);
                assert(rest.contains(call));
            }
        }
    }
}

/// What an assertion of equality is worth. Two sides that are written alike are
/// worth nothing; an expectation that the tested function computes is weak; with
/// two sides it is strong otherwise, and without two it is partial.
pub proof fn law_comparisons(m: MacView, name: Seq<char>)
    requires
        m.name == Some(name),
        is_comparison(m),
    ensures
        ({
            let j = lint::judge(m, name);
            &&& same_sides(m) <==> j.strength == OracleStrength::Absent
            &&& same_sides(m) <==> j.flaw is Some && (j.flaw->0).0 == Rule::TautologicalAssert
            &&& computed(m) && !same_sides(m) <==> j.strength == OracleStrength::Weak
            &&& computed(m) && !same_sides(m) <==> j.flaw is Some && (j.flaw->0).0
                == Rule::ComputedExpectation
            &&& m.args.len() >= 2 && !same_sides(m) && !computed(m) <==> j.strength
                == OracleStrength::Strong
            &&& m.args.len() < 2 <==> j.strength == OracleStrength::Partial
            &&& j.flaw is Some ==> same_sides(m) || computed(m)
        }),
{
    lemma_names();
    if m.args.len() >= 2 {
        lemma_shared(m.args[0].calls, m.args[1].calls);
    }
}

proof fn lemma_names()
    ensures
        "assert"@ != "assert_eq"@,
        "assert"@ != "assert_ne"@,
        "assert"@ != "debug_assert_eq"@,
        "assert"@ != "debug_assert_ne"@,
        "assert"@ != "assert_matches"@,
        "assert"@ != "debug_assert_matches"@,
        "debug_assert"@ != "assert_eq"@,
        "debug_assert"@ != "assert_ne"@,
        "debug_assert"@ != "debug_assert_eq"@,
        "debug_assert"@ != "debug_assert_ne"@,
        "debug_assert"@ != "assert_matches"@,
        "debug_assert"@ != "debug_assert_matches"@,
        "assert_matches"@ != "assert_eq"@,
        "assert_matches"@ != "assert_ne"@,
        "assert_matches"@ != "debug_assert_eq"@,
        "assert_matches"@ != "debug_assert_ne"@,
        "debug_assert_matches"@ != "assert_eq"@,
        "debug_assert_matches"@ != "assert_ne"@,
        "debug_assert_matches"@ != "debug_assert_eq"@,
        "debug_assert_matches"@ != "debug_assert_ne"@,
{
    reveal_strlit("assert");
    reveal_strlit("debug_assert");
    reveal_strlit("assert_eq");
    reveal_strlit("assert_ne");
    reveal_strlit("debug_assert_eq");
    reveal_strlit("debug_assert_ne");
    reveal_strlit("assert_matches");
    reveal_strlit("debug_assert_matches");
    assert("assert"@.len() == 6);
    assert("debug_assert"@.len() == 12);
    assert("assert_eq"@.len() == 9);
    assert("assert_ne"@.len() == 9);
    assert("debug_assert_eq"@.len() == 15);
    assert("debug_assert_ne"@.len() == 15);
    assert("assert_matches"@.len() == 14);
    assert("debug_assert_matches"@.len() == 20);
}

/// A macro whose name begins like an assertion's is one.
pub open spec fn asserts(m: MacView) -> bool {
    m.line is Some && m.name is Some && {
        ||| text::begins(m.name->0, "assert"@)
        ||| text::begins(m.name->0, "debug_assert"@)
        ||| text::begins(m.name->0, "prop_assert"@)
        ||| text::begins(m.name->0, "expect_that"@)
        ||| text::begins(m.name->0, "verify_that"@)
    }
}

/// A place of a body is an assertion.
pub open spec fn is_assertion_at(n: NodeView) -> bool {
    match n {
        NodeView::Macro(m) => asserts(m),
        _ => false,
    }
}

/// A place of a body is a call of a method on a plain identifier.
pub open spec fn is_call_at(n: NodeView, c: ReceiverCallView) -> bool {
    match n {
        NodeView::MethodCall(receiver, method, line) => receiver == Some(c.receiver) && method
            == c.method && line as u32 == c.line,
        _ => false,
    }
}

/// A place of a body is an assertion that names a word.
pub open spec fn names_at(n: NodeView, w: Seq<char>) -> bool {
    match n {
        NodeView::Macro(m) => asserts(m) && lint::identifiers_of(m.tokens).contains(w),
        _ => false,
    }
}

/// What the assertion is worth, where nothing more is known of it: snapshots and
/// the assertions of other crates look at a value, and are partial.
pub proof fn law_other_assertions(m: MacView, name: Seq<char>)
    requires
        m.name == Some(name),
        !is_assert(m),
        !is_comparison(m),
    ensures
        ({
            let j = lint::judge(m, name);
            if is_pattern_assert(m) && lint::wildcards(m.tokens) {
                j.strength == OracleStrength::Weak && j.flaw is Some && (j.flaw->0).0
                    == Rule::MatchesWildcard
            } else {
                j.strength == OracleStrength::Partial && j.flaw is None
            }
        }),
{
}

/// A plain `assert!` is worth what its condition is; one without a condition is
/// weak.
pub proof fn law_asserts(m: MacView, name: Seq<char>)
    requires
        m.name == Some(name),
        is_assert(m),
    ensures
        m.args.len() > 0 ==> lint::judge(m, name) == lint::judge_condition(m.args[0].expr, name),
        m.args.len() == 0 ==> lint::judge(m, name).strength == OracleStrength::Weak && lint::judge(
            m,
            name,
        ).flaw is None,
{
}

// ---------------------------------------------------------------------------
// Findings of a body
// ---------------------------------------------------------------------------

/// A finding of a rule at a line.
pub open spec fn flagged(o: TestOraclesView, rule: Rule, line: u32) -> bool {
    exists|k: int| 0 <= k < o.findings.len() && (#[trigger] o.findings[k]).rule == rule
        && o.findings[k].line == line
}

/// The rule that an assertion breaks, if any, in words of its own.
pub open spec fn breaks(m: MacView, rule: Rule) -> bool {
    match rule {
        Rule::DiscriminantOnly => is_assert(m) && m.args.len() > 0 && asks_discriminant(
            m.args[0].expr,
        ),
        Rule::TautologicalAssert => (is_assert(m) && m.args.len() > 0 && says_nothing(
            m.args[0].expr,
        )) || (is_comparison(m) && same_sides(m)),
        Rule::MatchesWildcard => (is_assert(m) && m.args.len() > 0 && matches_anything(
            m.args[0].expr,
        )) || (is_pattern_assert(m) && lint::wildcards(m.tokens)),
        Rule::ComputedExpectation => is_comparison(m) && computed(m) && !same_sides(m),
        _ => false,
    }
}

proof fn lemma_judged(m: MacView, rule: Rule)
    requires
        m.name is Some,
    ensures
        breaks(m, rule) <==> lint::judge(m, m.name->0).flaw is Some && (lint::judge(
            m,
            m.name->0,
        ).flaw->0).0 == rule,
{
    let name = m.name->0;
    lemma_names();
    if is_assert(m) {
        law_asserts(m, name);
        if m.args.len() > 0 {
            law_conditions(m.args[0].expr, name);
        }
    } else if is_comparison(m) {
        law_comparisons(m, name);
    } else {
        law_other_assertions(m, name);
    }
}

proof fn lemma_macro_findings(m: MacView, test: TestIdView, rule: Rule, line: u32)
    ensures
        (exists|f: FindingView| #[trigger]
            lint::read_macro(m, test).findings.contains(f) && f.rule == rule && f.line == line)
            <==> asserts(m) && m.line->0 as u32 == line && breaks(m, rule),
{
    let fs = lint::read_macro(m, test).findings;
    if m.name is Some {
        lemma_judged(m, rule);
        let j = lint::judge(m, m.name->0);
        if fs.len() > 0 {
            assert(fs.contains(fs[0]));
        }
        if asserts(m) && m.line->0 as u32 == line && breaks(m, rule) {
            assert(fs[0].rule == rule && fs[0].line == line);
        }
    } else {
        lemma_no_name();
        assert(fs.len() == 0);
    }
}

proof fn lemma_no_name()
    ensures
        !lint::is_assertion(Seq::<char>::empty()),
{
    reveal_strlit("assert");
    reveal_strlit("debug_assert");
    reveal_strlit("prop_assert");
    reveal_strlit("expect_that");
    reveal_strlit("verify_that");
}

/// A place of a body that gives a finding of a rule at a line.
pub open spec fn broken_at(nodes: Seq<NodeView>, i: int, rule: Rule, line: u32) -> bool {
    seen(nodes, i) && match nodes[i] {
        NodeView::Macro(m) => asserts(m) && m.line->0 as u32 == line && breaks(m, rule),
        NodeView::Local(wild, l, Some(e)) => rule == Rule::DiscardedResult && wild && l as u32
            == line && (e.shape is Call || e.shape is MethodCall || e.shape is Macro),
        _ => false,
    }
}

proof fn lemma_node_findings(n: NodeView, test: TestIdView, rule: Rule, line: u32)
    ensures
        (exists|f: FindingView| #[trigger]
            lint::read_node(n, test).findings.contains(f) && f.rule == rule && f.line == line)
            <==> match n {
            NodeView::Macro(m) => asserts(m) && m.line->0 as u32 == line && breaks(m, rule),
            NodeView::Local(wild, l, Some(e)) => rule == Rule::DiscardedResult && wild && l as u32
                == line && (e.shape is Call || e.shape is MethodCall || e.shape is Macro),
            _ => false,
        },
{
    let fs = lint::read_node(n, test).findings;
    match n {
        NodeView::Macro(m) => {
            lemma_macro_findings(m, test, rule, line);
        },
        NodeView::Local(wild, l, Some(e)) => {
            if fs.len() > 0 {
                assert(fs.contains(fs[0]));
            }
        },
        _ => {
            assert(fs.len() == 0);
        },
    }
}

/// Which places of a body are flagged, and by which rule: exactly those that break
/// it, at their own lines. `is_ok`, `is_err`, `is_some` and `is_none` for ORC002, a
/// wildcard pattern for ORC004, a call whose result `let _` drops for ORC006, a
/// literal or an expression beside itself for ORC007, and a function called on
/// both sides for ORC009.
pub proof fn law_bodies_are_flagged(t: TestItemView, rule: Rule, line: u32)
    requires
        t.body is Some,
        lint::is_local(rule),
    ensures
        flagged(lint::oracles_of(t), rule, line) <==> exists|i: int| #[trigger]
            broken_at(t.body->0.nodes, i, rule, line),
{
    let nodes = t.body->0.nodes;
    let all = lint::oracles_of(t).findings;
    let body = lint::read_test(t).findings;
    lint::law_rules_on_the_whole_test(t);
    if flagged(lint::oracles_of(t), rule, line) {
        let k = choose|k: int|
            0 <= k < all.len() && (#[trigger] all[k]).rule == rule && all[k].line == line;
        assert(k < body.len());
        assert(body[k] == all[k]);
        let f = body[k];
        assert(body.contains(f));
        lemma_findings(nodes, t.id, f);
        let i = choose|i: int| #[trigger]
            seen(nodes, i) && lint::read_node(nodes[i], t.id).findings.contains(f);
        lemma_node_findings(nodes[i], t.id, rule, line);
        assert(broken_at(nodes, i, rule, line));
    }
    if exists|i: int| #[trigger] broken_at(nodes, i, rule, line) {
        let i = choose|i: int| #[trigger] broken_at(nodes, i, rule, line);
        lemma_node_findings(nodes[i], t.id, rule, line);
        let f = choose|f: FindingView| #[trigger]
            lint::read_node(nodes[i], t.id).findings.contains(f) && f.rule == rule && f.line
                == line;
        assert(seen(nodes, i));
        lemma_findings(nodes, t.id, f);
        let k = choose|k: int| 0 <= k < body.len() && body[k] == f;
        assert(all[k] == f);
    }
}

/// The rules that fire at one place of a body are these five.
pub proof fn law_local_rules(rule: Rule)
    ensures
        lint::is_local(rule) <==> {
            ||| rule == Rule::DiscriminantOnly
            ||| rule == Rule::MatchesWildcard
            ||| rule == Rule::DiscardedResult
            ||| rule == Rule::TautologicalAssert
            ||| rule == Rule::ComputedExpectation
        },
{
}

// ---------------------------------------------------------------------------
// Oracles of a body
// ---------------------------------------------------------------------------

/// A place of a body is an oracle of a strength at a line: an assertion of what it
/// is worth, or one of the three calls that panic, or a `?`, which are weak.
pub open spec fn oracle_at(
    nodes: Seq<NodeView>,
    i: int,
    line: u32,
    strength: OracleStrength,
) -> bool {
    seen(nodes, i) && match nodes[i] {
        NodeView::Macro(m) => asserts(m) && m.line->0 as u32 == line && lint::judge(
            m,
            m.name->0,
        ).strength == strength,
        NodeView::MethodCall(_, method, l) => l as u32 == line && strength == OracleStrength::Weak
            && (method == "unwrap"@ || method == "expect"@ || method == "unwrap_err"@),
        NodeView::Try(l) => l as u32 == line && strength == OracleStrength::Weak,
        _ => false,
    }
}

proof fn lemma_node_sites(n: NodeView, test: TestIdView, line: u32, strength: OracleStrength)
    ensures
        (exists|s: OracleSiteView| #[trigger]
            lint::read_node(n, test).sites.contains(s) && s.line == line && s.strength == strength)
            <==> match n {
            NodeView::Macro(m) => asserts(m) && m.line->0 as u32 == line && lint::judge(
                m,
                m.name->0,
            ).strength == strength,
            NodeView::MethodCall(_, method, l) => l as u32 == line && strength
                == OracleStrength::Weak && (method == "unwrap"@ || method == "expect"@ || method
                == "unwrap_err"@),
            NodeView::Try(l) => l as u32 == line && strength == OracleStrength::Weak,
            _ => false,
        },
{
    let ss = lint::read_node(n, test).sites;
    if ss.len() > 0 {
        assert(ss.contains(ss[0]));
    }
    match n {
        NodeView::Macro(m) => {
            if m.name is None {
                lemma_no_name();
            }
        },
        _ => {},
    }
}

/// The oracles that are found are those of the body that are seen, each with its
/// line and its worth, and the test's own `#[should_panic]`: a partial one where it
/// names the panic and a weak one where it does not.
pub proof fn law_oracles_are_found(t: TestItemView, line: u32, strength: OracleStrength)
    requires
        t.body is Some,
    ensures
        (exists|k: int|
            0 <= k < lint::oracles_of(t).sites.len() && (#[trigger] lint::oracles_of(
                t,
            ).sites[k]).line == line && lint::oracles_of(t).sites[k].strength == strength) <==> (
        exists|i: int| #[trigger] oracle_at(t.body->0.nodes, i, line, strength)) || (line
            == t.span.start && match t.should_panic {
            Some(ShouldPanic::Qualified) => strength == OracleStrength::Partial,
            Some(ShouldPanic::Unqualified) => strength == OracleStrength::Weak,
            None => false,
        }),
{
    let nodes = t.body->0.nodes;
    let sorted = lint::oracles_of(t).sites;
    let all = lint::oracle_sites(t);
    let body = lint::read_test(t).sites;
    order::lemma_sorted::<lint::OracleSite>(all);
    if exists|k: int|
        0 <= k < sorted.len() && (#[trigger] sorted[k]).line == line && sorted[k].strength
            == strength {
        let k = choose|k: int|
            0 <= k < sorted.len() && (#[trigger] sorted[k]).line == line && sorted[k].strength
                == strength;
        let s = sorted[k];
        assert(sorted.contains(s));
        assert(all.contains(s));
        let j = choose|j: int| 0 <= j < all.len() && all[j] == s;
        if j < body.len() {
            assert(body[j] == s);
            assert(body.contains(s));
            lemma_sites(nodes, t.id, s);
            let i = choose|i: int| #[trigger]
                seen(nodes, i) && lint::read_node(nodes[i], t.id).sites.contains(s);
            lemma_node_sites(nodes[i], t.id, line, strength);
            assert(oracle_at(nodes, i, line, strength));
        }
    }
    if exists|i: int| #[trigger] oracle_at(nodes, i, line, strength) {
        let i = choose|i: int| #[trigger] oracle_at(nodes, i, line, strength);
        lemma_node_sites(nodes[i], t.id, line, strength);
        let s = choose|s: OracleSiteView| #[trigger]
            lint::read_node(nodes[i], t.id).sites.contains(s) && s.line == line && s.strength
                == strength;
        assert(seen(nodes, i));
        lemma_sites(nodes, t.id, s);
        let j = choose|j: int| 0 <= j < body.len() && body[j] == s;
        assert(all[j] == s);
        assert(all.contains(s));
        assert(sorted.contains(s));
    }
    if t.should_panic is Some {
        assert(all.contains(all[all.len() - 1]));
        assert(sorted.contains(all[all.len() - 1]));
    }
}

proof fn lemma_strongest(sites: Seq<OracleSiteView>)
    ensures
        forall|i: int|
            0 <= i < sites.len() ==> (#[trigger] sites[i]).strength.rank() <= lint::strongest(
                sites,
            ).rank(),
        lint::strongest(sites) != OracleStrength::Absent ==> exists|i: int|
            0 <= i < sites.len() && (#[trigger] sites[i]).strength == lint::strongest(sites),
    decreases sites.len(),
{
    if sites.len() > 0 {
        let front = sites.drop_last();
        lemma_strongest(front);
        assert forall|i: int| 0 <= i < sites.len() implies (#[trigger] sites[i]).strength.rank()
            <= lint::strongest(sites).rank() by {
            if i < front.len() {
                assert(front[i] == sites[i]);
            }
        }
        if lint::strongest(sites) != OracleStrength::Absent {
            if sites.last().strength == lint::strongest(sites) {
                assert(sites[sites.len() - 1].strength == lint::strongest(sites));
            } else {
                let i = choose|i: int|
                    0 <= i < front.len() && (#[trigger] front[i]).strength == lint::strongest(front);
                assert(sites[i] == front[i]);
            }
        }
    }
}

/// A test is as strong as its best oracle: none is stronger, and one is as strong;
/// without one that can fail it is worth nothing.
pub proof fn law_tests_are_graded(t: TestItemView)
    ensures
        ({
            let o = lint::oracles_of(t);
            &&& forall|k: int|
                0 <= k < o.sites.len() ==> !stronger((#[trigger] o.sites[k]).strength, o.strength)
            &&& o.strength != OracleStrength::Absent ==> exists|k: int|
                0 <= k < o.sites.len() && (#[trigger] o.sites[k]).strength == o.strength
        }),
{
    let o = lint::oracles_of(t);
    let all = lint::oracle_sites(t);
    order::lemma_sorted::<lint::OracleSite>(all);
    lemma_strongest(all);
    assert forall|k: int| 0 <= k < o.sites.len() implies !stronger(
        (#[trigger] o.sites[k]).strength,
        o.strength,
    ) by {
        assert(o.sites.contains(o.sites[k]));
        let j = choose|j: int| 0 <= j < all.len() && all[j] == o.sites[k];
        assert(all[j].strength.rank() <= o.strength.rank());
    }
    if o.strength != OracleStrength::Absent {
        let j = choose|j: int|
            0 <= j < all.len() && (#[trigger] all[j]).strength == lint::strongest(all);
        assert(all.contains(all[j]));
        assert(o.sites.contains(all[j]));
        let k = choose|k: int| 0 <= k < o.sites.len() && o.sites[k] == all[j];
        assert(o.sites[k].strength == o.strength);
    }
}

/// Strong is more than partial, partial more than weak, and weak more than nothing.
pub open spec fn stronger(a: OracleStrength, b: OracleStrength) -> bool {
    match a {
        OracleStrength::Strong => b != OracleStrength::Strong,
        OracleStrength::Partial => b == OracleStrength::Weak || b == OracleStrength::Absent,
        OracleStrength::Weak => b == OracleStrength::Absent,
        OracleStrength::Absent => false,
    }
}

/// The oracles are listed in the order of their lines, and each once.
pub proof fn law_oracles_are_in_source_order(t: TestItemView, i: int, j: int)
    requires
        0 <= i < j < lint::oracles_of(t).sites.len(),
    ensures
        lint::oracles_of(t).sites[i].line <= lint::oracles_of(t).sites[j].line,
        lint::oracles_of(t).sites.to_multiset() == lint::oracle_sites(t).to_multiset(),
{
    order::lemma_sorted::<lint::OracleSite>(lint::oracle_sites(t));
    let s = lint::oracles_of(t).sites;
    assert(<lint::OracleSite as order::Ranked>::ranks(s[i], s[j]));
}

/// A body that could be read and has no oracle is flagged by ORC001, and no other
/// is; one whose every oracle is a panic on failure by ORC003, unless a panic is
/// expected by name.
pub proof fn law_tests_without_discrimination(t: TestItemView)
    ensures
        lint::fired(lint::oracles_of(t).findings, Rule::NoOracle) <==> t.body is Some
            && lint::oracles_of(t).sites.len() == 0,
        lint::fired(lint::oracles_of(t).findings, Rule::UnwrapOnly) ==> t.should_panic != Some(
            ShouldPanic::Qualified,
        ) && t.body is Some && lint::oracles_of(t).strength == OracleStrength::Weak,
        lint::fired(lint::oracles_of(t).findings, Rule::ShouldPanicUnqualified) <==> t.should_panic
            == Some(ShouldPanic::Unqualified),
        lint::fired(lint::oracles_of(t).findings, Rule::IgnoredTest) <==> t.is_ignored,
        lint::oracles_of(t).test == t.id,
{
    lint::law_rules_on_the_whole_test(t);
    order::lemma_sorted::<lint::OracleSite>(lint::oracle_sites(t));
    if lint::only_unwraps(t) {
        let nodes = t.body->0.nodes;
        lemma_all_panics(nodes, t.id);
        lemma_strongest(lint::oracle_sites(t));
        let all = lint::oracle_sites(t);
        let body = lint::read_test(t).sites;
        assert(all[0] == body[0]);
        assert(all[0].strength == OracleStrength::Weak);
        assert forall|i: int| 0 <= i < all.len() implies (#[trigger] all[i]).strength
            == OracleStrength::Weak by {
            if i < body.len() {
                assert(all[i] == body[i]);
            }
        }
        assert(lint::strongest(all).rank() >= all[0].strength.rank());
    }
}

proof fn lemma_all_panics(nodes: Seq<NodeView>, test: TestIdView)
    ensures
        lint::read_nodes(nodes, test).panics <= lint::read_nodes(nodes, test).sites.len(),
        lint::read_nodes(nodes, test).panics == lint::read_nodes(nodes, test).sites.len()
            ==> forall|i: int|
            0 <= i < lint::read_nodes(nodes, test).sites.len() ==> (#[trigger] lint::read_nodes(
                nodes,
                test,
            ).sites[i]).strength == OracleStrength::Weak,
        lint::read_nodes(nodes, test).panics == lint::read_nodes(nodes, test).sites.len()
            ==> forall|i: int|
            seen(nodes, i) ==> !is_assertion_at(#[trigger] nodes[i]),
        lint::read_nodes(nodes, test).panics < lint::read_nodes(nodes, test).sites.len()
            ==> exists|i: int|
            seen(nodes, i) && is_assertion_at(#[trigger] nodes[i]),
    decreases nodes.len(),
{
    if nodes.len() > 0 {
        let front = nodes.drop_last();
        let n = nodes.len() - 1;
        lemma_all_panics(front, test);
        assert forall|i: int| seen(front, i) <==> #[trigger] seen(nodes, i) && i < n by {
            lemma_seen_front(nodes, i);
        }
        assert(nodes.take(n) =~= front);
        let before = lint::read_nodes(front, test);
        let last = lint::read_node(nodes[n], test);
        let all = lint::read_nodes(nodes, test);
        assert(seen(nodes, n) <==> lint::items_open(front) == 0);
        match nodes[n] {
            NodeView::Macro(m) => {
                if m.name is None {
                    lemma_no_name();
                }
                assert(asserts(m) <==> last.sites.len() == 1);
                assert(last.panics == 0);
            },
            _ => {
                assert(last.panics == last.sites.len());
            },
        }
        if all.panics == all.sites.len() {
            assert(before.panics == before.sites.len());
            assert forall|i: int| 0 <= i < all.sites.len() implies (#[trigger] all.sites[i]).strength
                == OracleStrength::Weak by {
                if i < before.sites.len() {
                    assert(all.sites[i] == before.sites[i]);
                } else {
                    assert(all.sites[i] == last.sites[i - before.sites.len()]);
                }
            }
            assert forall|i: int| seen(nodes, i) implies !is_assertion_at(#[trigger] nodes[i]) by {
                if i < n {
                    assert(seen(front, i));
                    assert(front[i] == nodes[i]);
                }
            }
        } else if before.panics < before.sites.len() {
            let i = choose|i: int|
                seen(front, i) && is_assertion_at(#[trigger] front[i]);
            assert(seen(nodes, i) && nodes[i] == front[i]);
        } else {
            assert(seen(nodes, n));
            assert(nodes[n] is Macro);
        }
    }
}

/// ORC003 fires exactly where the body has an oracle, none of its oracles is an
/// assertion, and no panic is expected by name.
pub proof fn law_unwrap_only(t: TestItemView)
    requires
        t.body is Some,
    ensures
        lint::fired(lint::oracles_of(t).findings, Rule::UnwrapOnly) <==> {
            &&& t.should_panic != Some(ShouldPanic::Qualified)
            &&& exists|i: int, line: u32| #[trigger]
                oracle_at(t.body->0.nodes, i, line, OracleStrength::Weak)
            &&& forall|i: int|
                seen(t.body->0.nodes, i) ==> !is_assertion_at(#[trigger] t.body->0.nodes[i])
        },
{
    let nodes = t.body->0.nodes;
    let read = lint::read_nodes(nodes, t.id);
    lint::law_rules_on_the_whole_test(t);
    lemma_all_panics(nodes, t.id);
    if read.sites.len() > 0 && read.panics == read.sites.len() {
        let s = read.sites[0];
        assert(s.strength == OracleStrength::Weak);
        assert(read.sites.contains(s));
        lemma_sites(nodes, t.id, s);
        let i = choose|i: int| #[trigger]
            seen(nodes, i) && lint::read_node(nodes[i], t.id).sites.contains(s);
        lemma_node_sites(nodes[i], t.id, s.line, OracleStrength::Weak);
        assert(oracle_at(nodes, i, s.line, OracleStrength::Weak));
    }
    if exists|i: int, line: u32| #[trigger] oracle_at(nodes, i, line, OracleStrength::Weak) {
        let (i, line) = choose|i: int, line: u32| #[trigger]
            oracle_at(nodes, i, line, OracleStrength::Weak);
        lemma_node_sites(nodes[i], t.id, line, OracleStrength::Weak);
        let s = choose|s: OracleSiteView| #[trigger]
            lint::read_node(nodes[i], t.id).sites.contains(s) && s.line == line && s.strength
                == OracleStrength::Weak;
        lemma_sites(nodes, t.id, s);
        assert(seen(nodes, i));
        assert(read.sites.contains(s));
    }
}

// ---------------------------------------------------------------------------
// Evidence for the shape of an oracle
// ---------------------------------------------------------------------------

/// The calls that are kept are those of the body that are made on a plain
/// identifier, with method and line.
pub proof fn law_calls_are_kept(t: TestItemView, c: ReceiverCallView)
    requires
        t.body is Some,
    ensures
        lint::oracles_of(t).receiver_calls.contains(c) <==> exists|i: int|
            seen(t.body->0.nodes, i) && is_call_at(#[trigger] t.body->0.nodes[i], c),
{
    let nodes = t.body->0.nodes;
    lemma_calls(nodes, t.id, c);
    if lint::oracles_of(t).receiver_calls.contains(c) {
        let i = choose|i: int| #[trigger]
            seen(nodes, i) && lint::read_node(nodes[i], t.id).calls.contains(c);
        assert(nodes[i] is MethodCall);
        let cs = lint::read_node(nodes[i], t.id).calls;
        assert(cs[0] == c);
    }
    if exists|i: int|
        seen(nodes, i) && is_call_at(#[trigger] nodes[i], c) {
        let i = choose|i: int|
            seen(nodes, i) && is_call_at(#[trigger] nodes[i], c);
        let cs = lint::read_node(nodes[i], t.id).calls;
        assert(cs[0] =~= c);
        assert(cs.contains(c));
    }
}

/// A word counts as observed exactly where an assertion of the body names it.
pub proof fn law_observed_words(t: TestItemView, w: Seq<char>)
    requires
        t.body is Some,
    ensures
        lint::oracles_of(t).asserted_idents.contains(w) <==> exists|i: int|
            seen(t.body->0.nodes, i) && names_at(#[trigger] t.body->0.nodes[i], w),
{
    let nodes = t.body->0.nodes;
    lemma_idents(nodes, t.id, w);
    assert(lint::oracles_of(t).asserted_idents.contains(w) <==> lint::read_test(
        t,
    ).idents.contains(w));
    if lint::read_test(t).idents.contains(w) {
        let i = choose|i: int| #[trigger]
            seen(nodes, i) && lint::read_node(nodes[i], t.id).idents.contains(w);
        assert(nodes[i] is Macro);
        if (nodes[i]->Macro_0).name is None {
            lemma_no_name();
        }
    }
}

// ---------------------------------------------------------------------------
// The shape of an oracle
// ---------------------------------------------------------------------------

/// The first call of a method in a list.
pub open spec fn called_first(calls: Seq<ReceiverCallView>, method: Seq<char>, j: int) -> bool {
    &&& 0 <= j < calls.len()
    &&& calls[j].method == method
    &&& forall|k: int| 0 <= k < j ==> (#[trigger] calls[k]).method != method
}

proof fn lemma_called_first(calls: Seq<ReceiverCallView>, method: Seq<char>, j: int)
    requires
        called_first(calls, method, j),
    ensures
        lint::first_call(calls, method) == Some(calls[j]),
    decreases calls.len(),
{
    if j > 0 {
        let rest = calls.skip(1);
        assert(calls[0].method != method);
        assert forall|k: int| 0 <= k < j - 1 implies (#[trigger] rest[k]).method != method by {
            assert(rest[k] == calls[k + 1]);
        }
        lemma_called_first(rest, method, j - 1);
    }
}

proof fn lemma_direct_member(edges: Seq<ClaimView>, test: TestIdView, k: int)
    requires
        0 <= k < edges.len(),
        edges[k].test == test,
        edges[k].kind == ClaimKind::Doctest || edges[k].kind == ClaimKind::SameFileTestModule,
    ensures
        lint::direct_claims(edges, test).contains(edges[k].symbol),
    decreases edges.len(),
{
    let front = edges.drop_last();
    let all = lint::direct_claims(edges, test);
    if k < front.len() {
        assert(front[k] == edges[k]);
        lemma_direct_member(front, test, k);
        let before = lint::direct_claims(front, test);
        let j = choose|j: int| 0 <= j < before.len() && before[j] == edges[k].symbol;
        assert(all[j] == edges[k].symbol);
    } else {
        assert(all[all.len() - 1] == edges[k].symbol);
    }
}

proof fn lemma_mismatch_member(
    symbols: Seq<SymbolView>,
    ids: Seq<SymbolIdView>,
    o: TestOraclesView,
    id: SymbolIdView,
    f: FindingView,
)
    requires
        ids.contains(id),
        lint::mismatch(inventory::symbol_with(symbols, id), o) == Some(f),
    ensures
        lint::mismatches_on(symbols, ids, o).contains(f),
    decreases ids.len(),
{
    let k = choose|k: int| 0 <= k < ids.len() && ids[k] == id;
    let front = ids.drop_last();
    let all = lint::mismatches_on(symbols, ids, o);
    if k < front.len() {
        assert(front[k] == id);
        lemma_mismatch_member(symbols, front, o, id, f);
        let before = lint::mismatches_on(symbols, front, o);
        let j = choose|j: int| 0 <= j < before.len() && before[j] == f;
        assert(all[j] == f);
    } else {
        assert(all[all.len() - 1] == f);
    }
}

/// A finding says of a test that it does not look at what a call of a method
/// changed.
pub open spec fn blames(
    f: FindingView,
    o: TestOraclesView,
    s: SymbolView,
    call: ReceiverCallView,
) -> bool {
    &&& f.rule == Rule::OracleShapeMismatch
    &&& f.test == o.test
    &&& f.symbol == Some(s.path)
    &&& f.line == call.line
    &&& text::has(f.snippet, call.receiver)
}

/// A test that directly claims a method taking `&mut self`, and whose first call of
/// a method of that name is on a binding that no assertion mentions, is flagged:
/// with the test, the method, and the line of the call. Neither the strength of the
/// test nor any other oracle of it makes a difference.
pub proof fn law_blind_tests_are_flagged(
    symbols: Seq<SymbolView>,
    edges: Seq<ClaimView>,
    oracles: Seq<TestOraclesView>,
    i: int,
    e: int,
    s: SymbolView,
    j: int,
)
    requires
        0 <= i < oracles.len(),
        0 <= e < edges.len(),
        edges[e].test == oracles[i].test,
        edges[e].kind == ClaimKind::Doctest || edges[e].kind == ClaimKind::SameFileTestModule,
        inventory::symbol_with(symbols, edges[e].symbol) == Some(s),
        s.self_kind == SelfKind::RefMut,
        s.required_oracle == RequiredOracle::PostState || s.required_oracle == RequiredOracle::Both,
        called_first(oracles[i].receiver_calls, s.name, j),
        !oracles[i].asserted_idents.contains(oracles[i].receiver_calls[j].receiver),
    ensures
        exists|k: int|
            0 <= k < lint::mismatches_of(symbols, edges, oracles).len() && blames(
                #[trigger] lint::mismatches_of(symbols, edges, oracles)[k],
                oracles[i],
                s,
                oracles[i].receiver_calls[j],
            ),
    decreases oracles.len(),
{
    let front = oracles.drop_last();
    let fs = lint::mismatches_of(symbols, edges, oracles);
    let before = lint::mismatches_of(symbols, edges, front);
    if i < front.len() {
        assert(front[i] == oracles[i]);
        law_blind_tests_are_flagged(symbols, edges, front, i, e, s, j);
        let k = choose|k: int|
            0 <= k < before.len() && blames(
                #[trigger] before[k],
                oracles[i],
                s,
                oracles[i].receiver_calls[j],
            );
        assert(fs[k] == before[k]);
    } else {
        let o = oracles[i];
        lemma_called_first(o.receiver_calls, s.name, j);
        lemma_direct_member(edges, o.test, e);
        let ids = lint::direct_claims(edges, o.test);
        let f = lint::mismatch(Some(s), o)->0;
        let call = o.receiver_calls[j];
        reveal_strlit("`");
        let sn = f.snippet;
        assert(sn.subrange(1, 1 + call.receiver.len() as int) =~= call.receiver);
        assert(text::occurs_at(sn, call.receiver, 1));
        lemma_mismatch_member(symbols, ids, o, edges[e].symbol, f);
        let on = lint::mismatches_on(symbols, ids, o);
        let k = choose|k: int| 0 <= k < on.len() && on[k] == f;
        assert(fs[before.len() + k] == f);
    }
}

/// The same of a symbol whose required oracle is the one that its signature asks
/// for, as that of every symbol of a walk is: that the method takes `&mut self` is
/// enough.
pub proof fn law_blind_methods_are_flagged(
    symbols: Seq<SymbolView>,
    edges: Seq<ClaimView>,
    oracles: Seq<TestOraclesView>,
    i: int,
    e: int,
    s: SymbolView,
    j: int,
)
    requires
        0 <= i < oracles.len(),
        0 <= e < edges.len(),
        edges[e].test == oracles[i].test,
        edges[e].kind == ClaimKind::Doctest || edges[e].kind == ClaimKind::SameFileTestModule,
        inventory::symbol_with(symbols, edges[e].symbol) == Some(s),
        s.self_kind == SelfKind::RefMut,
        s.required_oracle == symbol::required(s.self_kind, s.returns, s.has_mut_param),
        called_first(oracles[i].receiver_calls, s.name, j),
        !oracles[i].asserted_idents.contains(oracles[i].receiver_calls[j].receiver),
    ensures
        exists|k: int|
            0 <= k < lint::mismatches_of(symbols, edges, oracles).len() && blames(
                #[trigger] lint::mismatches_of(symbols, edges, oracles)[k],
                oracles[i],
                s,
                oracles[i].receiver_calls[j],
            ),
{
    law_blind_tests_are_flagged(symbols, edges, oracles, i, e, s, j);
}

/// Nothing but that is flagged: an observed binding, a method that does not take
/// `&mut self`, a method that is not called, and a claim that is not direct give no
/// finding.
pub proof fn law_observant_tests_are_not_flagged(s: SymbolView, o: TestOraclesView)
    ensures
        s.self_kind != SelfKind::RefMut ==> lint::mismatch(Some(s), o) is None,
        (forall|k: int|
            0 <= k < o.receiver_calls.len() ==> (#[trigger] o.receiver_calls[k]).method != s.name)
            ==> lint::mismatch(Some(s), o) is None,
        (forall|k: int|
            0 <= k < o.receiver_calls.len() && (#[trigger] o.receiver_calls[k]).method == s.name
                ==> o.asserted_idents.contains(o.receiver_calls[k].receiver)) ==> lint::mismatch(
            Some(s),
            o,
        ) is None,
{
    if let Some(f) = lint::mismatch(Some(s), o) {
        lint::law_mismatch(s, o, f);
        let i = choose|i: int|
            0 <= i < o.receiver_calls.len() && (#[trigger] o.receiver_calls[i]).method == s.name
                && o.receiver_calls[i].line == f.line && !o.asserted_idents.contains(
                o.receiver_calls[i].receiver,
            );
    }
}

// ---------------------------------------------------------------------------
// Results without a payload
// ---------------------------------------------------------------------------

proof fn lemma_settled_nodes(symbols: Seq<SymbolView>, n: NodeView)
    requires
        forall|i: int| 0 <= i < symbols.len() ==> !(#[trigger] symbols[i]).returns_unit_ok,
    ensures
        lint::settled_node(symbols, n) == n,
{
    match n {
        NodeView::Macro(m) => {
            assert forall|k: int| 0 <= k < m.args.len() implies lint::settled_arg(
                symbols,
                #[trigger] m.args[k],
            ) == m.args[k] by {
                if let Some(name) = lint::asked_of(m.args[k]) {
                    if lint::returns_no_payload(symbols, name) {
                        let i = choose|i: int|
                            0 <= i < symbols.len() && (#[trigger] symbols[i]).name == name;
                        assert(symbols[i].returns_unit_ok);
                    }
                }
            }
            assert(lint::settled_macro(symbols, m).args =~= m.args);
        },
        _ => {},
    }
}

/// Where no symbol returns a result that wraps `()`, every test is judged by its
/// body alone.
pub proof fn law_payloads_leave_the_verdict(symbols: Seq<SymbolView>, t: TestItemView)
    requires
        forall|i: int| 0 <= i < symbols.len() ==> !(#[trigger] symbols[i]).returns_unit_ok,
    ensures
        lint::oracles_of(lint::settled(symbols, t)) == lint::oracles_of(t),
{
    if let Some(b) = t.body {
        assert forall|k: int| 0 <= k < b.nodes.len() implies lint::settled_node(
            symbols,
            #[trigger] b.nodes[k],
        ) == b.nodes[k] by {
            lemma_settled_nodes(symbols, b.nodes[k]);
        }
        assert(lint::settled_body(symbols, b).nodes =~= b.nodes);
        assert(lint::settled_body(symbols, b) =~= b);
    }
    assert(lint::settled(symbols, t) =~= t);
}

/// Only a question for a success is read anew: `is_err`, `is_none` and every other
/// condition stay as they are, whatever the symbols return.
pub proof fn law_failures_stay_weak(symbols: Seq<SymbolView>, arg: ArgView)
    requires
        !(arg.expr.shape matches ShapeView::MethodCall(_, method, _) && (method == "is_ok"@ || method
            == "is_some"@)),
    ensures
        lint::settled_arg(symbols, arg) == arg,
{
}

// ---------------------------------------------------------------------------
// Rules
// ---------------------------------------------------------------------------

/// How much each rule weighs.
pub proof fn law_severities(rule: Rule)
    ensures
        rule.weight() == Severity::High <==> {
            ||| rule == Rule::NoOracle
            ||| rule == Rule::DiscriminantOnly
            ||| rule == Rule::TautologicalAssert
            ||| rule == Rule::ComputedExpectation
            ||| rule == Rule::OracleShapeMismatch
        },
        rule.weight() == Severity::Low <==> rule == Rule::DiscardedResult || rule
            == Rule::IgnoredTest,
{
}

} // verus!
