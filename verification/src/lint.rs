//! Can this test's oracles fail at all?
//!
//! Not *is there an assertion*: that question does not separate good tests from
//! bad ones. What these rules look for is assertions that are *structurally
//! incapable* of failing, or capable of failing only for reasons unrelated to
//! the code under test. Every rule reads the source alone: no build, no
//! execution. They are cheap enough to run before spending a single mutant, and
//! they catch the patterns that mutation testing would otherwise bill an hour
//! to discover.

use vstd::prelude::*;
use crate::claims;
use crate::claims::{ClaimMap, ClaimView};
use crate::inventory;
use crate::inventory::{Inventory, InventoryView, ShouldPanic, TestId, TestIdView, TestItem, TestItemView};
use crate::order;
use crate::order::{Key, KeySet, Ranked};
use crate::symbol::{RequiredOracle, SelfKind, Symbol, SymbolIdView, SymbolView};
use crate::syntax;
use crate::syntax::{
    Arg, ArgView, Body, BodyView, Expression, ExpressionView, Mac, MacView, Node, NodeView, Shape,
    ShapeView,
};
use crate::text;
use crate::text::{AtSpace, Cut};
use crate::tokens;

verus! {

/// A stretch of one source line.
#[derive(Clone, Copy, Debug, PartialEq, Eq, Structural)]
pub struct Span {
    /// 1-based line.
    pub line: u32,
    /// 1-based column of the first character.
    pub col: u32,
    /// How many characters it covers.
    pub len: u32,
}

impl Span {
    /// The stretch of `len` characters at `line` and `col`.
    pub fn at(line: u32, col: u32, len: u32) -> (r: Self)
        ensures
            r == (Span { line, col, len }),
    {
        Span { line, col, len }
    }
}

// ---------------------------------------------------------------------------
// Rules
// ---------------------------------------------------------------------------

/// How much a test's *strongest* oracle can discriminate.
///
/// Ordering matters: a test is scored by its best oracle, not its average, so
/// one real `assert_eq!` redeems a body full of `is_ok()` checks.
#[derive(Clone, Copy, Debug, PartialEq, Eq, PartialOrd, Ord, Structural)]
pub enum OracleStrength {
    /// Nothing in the body can fail except a panic escaping the code under test.
    Absent,
    /// Fails only on a coarse property: a panic, a discriminant, a wildcard match.
    Weak,
    /// Observes a real value, but only part of it.
    Partial,
    /// Observes a value against an independently written expectation.
    Strong,
}

impl OracleStrength {
    /// Its place in the order, from the weakest up.
    pub open spec fn rank(self) -> int {
        match self {
            OracleStrength::Absent => 0,
            OracleStrength::Weak => 1,
            OracleStrength::Partial => 2,
            OracleStrength::Strong => 3,
        }
    }

    /// Its place in the order, from the weakest up.
    pub fn level(self) -> (r: u8)
        ensures
            r == self.rank(),
    {
        match self {
            OracleStrength::Absent => 0,
            OracleStrength::Weak => 1,
            OracleStrength::Partial => 2,
            OracleStrength::Strong => 3,
        }
    }

    /// The name in a report.
    pub open spec fn name_of(self) -> Seq<char> {
        match self {
            OracleStrength::Absent => "none"@,
            OracleStrength::Weak => "weak"@,
            OracleStrength::Partial => "partial"@,
            OracleStrength::Strong => "strong"@,
        }
    }

    /// The name in a report.
    pub fn label(self) -> (r: &'static str)
        ensures
            r@ == self.name_of(),
    {
        match self {
            OracleStrength::Absent => "none",
            OracleStrength::Weak => "weak",
            OracleStrength::Partial => "partial",
            OracleStrength::Strong => "strong",
        }
    }
}

/// An oracle-strength rule.
#[derive(Clone, Copy, Debug, PartialEq, Eq, PartialOrd, Ord, Structural)]
pub enum Rule {
    /// ORC001: nothing in the body can fail except a panic from the code under test.
    NoOracle,
    /// ORC002: `is_ok()`/`is_some()` checks the discriminant and discards the payload.
    DiscriminantOnly,
    /// ORC003: the only failure mode is a panic from `unwrap`, `expect` or `?`.
    UnwrapOnly,
    /// ORC004: `matches!(x, V { .. })` wildcards every field.
    MatchesWildcard,
    /// ORC005: `#[should_panic]` with no `expected`, so any panic passes.
    ShouldPanicUnqualified,
    /// ORC006: `let _ = f();` runs `f` and observes nothing.
    DiscardedResult,
    /// ORC007: both operands are the same expression, or the condition is a literal.
    TautologicalAssert,
    /// ORC008: `#[ignore]`, so whatever it verifies is not verified.
    IgnoredTest,
    /// ORC009: the expectation is computed by the function under test.
    ComputedExpectation,
    /// ORC010: the claimed symbol mutates its receiver and no assertion observes it.
    OracleShapeMismatch,
}

/// How much a finding should weigh in a gate.
#[derive(Clone, Copy, Debug, PartialEq, Eq, PartialOrd, Ord, Structural)]
pub enum Severity {
    /// Worth knowing; not worth blocking on.
    Low,
    /// A real weakness, usually fixable in one line.
    Medium,
    /// The oracle cannot do its job at all.
    High,
}

impl Severity {
    /// Its place in the order, from the lowest up.
    pub open spec fn rank(self) -> int {
        match self {
            Severity::Low => 0,
            Severity::Medium => 1,
            Severity::High => 2,
        }
    }

    /// Its place in the order, from the lowest up.
    pub fn level(self) -> (r: u8)
        ensures
            r == self.rank(),
    {
        match self {
            Severity::Low => 0,
            Severity::Medium => 1,
            Severity::High => 2,
        }
    }
}

/// What to do about a body without an oracle.
pub const FIX_NO_ORACLE: &'static str = "Assert on what the call produced. If it returns a value, compare it to an \
    expected one; if it mutates a receiver, assert on the receiver afterwards.";

/// What to do about a check of the discriminant alone.
pub const FIX_DISCRIMINANT_ONLY: &'static str = "Unwrap and assert on the payload: `assert_eq!(parse(s).unwrap().port, 8080)` \
    rather than `assert!(parse(s).is_ok())`.";

/// What to do about a test that only unwraps.
pub const FIX_UNWRAP_ONLY: &'static str = "Keep the unwrap for convenience, then assert something about the value it \
    produced.";

/// What to do about a pattern that wildcards every field.
pub const FIX_MATCHES_WILDCARD: &'static str = "Bind the fields you care about and check them: \
    `assert!(matches!(e, Error::Parse(m) if m.contains(\"port\")))`, or compare \
    the whole value with `assert_eq!`.";

/// What to do about an unnamed panic.
pub const FIX_SHOULD_PANIC_UNQUALIFIED: &'static str = "Add `expected = \"...\"` naming the panic message, so an unrelated panic \
    on the way in no longer passes the test.";

/// What to do about a discarded result.
pub const FIX_DISCARDED_RESULT: &'static str = "Bind the result and assert on it, or delete the call if it is only there \
    for coverage.";

/// What to do about an assertion that always holds.
pub const FIX_TAUTOLOGICAL_ASSERT: &'static str = "Replace one side with an independently written expected value. If there is \
    nothing to compare against, the test has no subject.";

/// What to do about an ignored test.
pub const FIX_IGNORED_TEST: &'static str = "Fix and re-enable it, or delete it. An ignored test is documentation that \
    looks like coverage.";

/// What to do about a computed expectation.
pub const FIX_COMPUTED_EXPECTATION: &'static str = "Write the expected value out as a literal or constructor instead of \
    computing it with the function under test.";

/// What to do about an unobserved receiver.
pub const FIX_ORACLE_SHAPE_MISMATCH: &'static str = "Assert on the receiver after the call: `obj.mutate(); assert_eq!(obj.field, \
    expected);` -- or compare the whole value if it derives PartialEq.";

/// Why a body without an oracle is a problem.
pub const WHY_NO_ORACLE: &'static str = "The body contains no assertion, no `?`, and no unwrap. It can only \
    fail if the code under test panics, so it is a smoke test wearing a \
    test's name.";

/// Why a check of the discriminant alone is a problem.
pub const WHY_DISCRIMINANT_ONLY: &'static str = "`is_ok()`/`is_some()` checks the discriminant and discards the payload. \
    A function returning `Ok(garbage)` passes. This is the single most \
    common weak oracle in Rust test code.";

/// Why a test that only unwraps is a problem.
pub const WHY_UNWRAP_ONLY: &'static str = "The only way this test fails is a panic from `unwrap`/`expect`/`?`. \
    That proves the code did not blow up, not that it was right.";

/// Why a pattern that wildcards every field is a problem.
pub const WHY_MATCHES_WILDCARD: &'static str = "`matches!(x, Variant { .. })` checks the variant and wildcards every \
    field, so any field can be wrong without the test noticing.";

/// Why an unnamed panic is a problem.
pub const WHY_SHOULD_PANIC_UNQUALIFIED: &'static str = "`#[should_panic]` with no `expected = \"...\"` passes on *any* panic, \
    including an unrelated one raised on the way to the code under test.";

/// Why a discarded result is a problem.
pub const WHY_DISCARDED_RESULT: &'static str = "`let _ = f();` executes `f` and discards everything it produced. It \
    raises line coverage and observes nothing.";

/// Why an assertion that always holds is a problem.
pub const WHY_TAUTOLOGICAL_ASSERT: &'static str = "Both sides of the assertion are the same expression, or the condition \
    is a literal. It cannot fail under any implementation.";

/// Why an ignored test is a problem.
pub const WHY_IGNORED_TEST: &'static str = "`#[ignore]` means this never runs in a default `cargo test`, so whatever \
    it verifies is not verified.";

/// Why a computed expectation is a problem.
pub const WHY_COMPUTED_EXPECTATION: &'static str = "The expected value is computed by calling the same function as the actual \
    value. The assertion compares the implementation to itself and holds for \
    any behaviour, correct or not.";

/// Why an unobserved receiver is a problem.
pub const WHY_ORACLE_SHAPE_MISMATCH: &'static str = "The claimed symbol mutates its receiver, but no assertion observes that \
    receiver after the call. The required oracle is post-state; the test only \
    has return-value oracles.";

impl Rule {
    /// Every rule, in id order.
    pub const ALL: [Rule; 10] = [
        Rule::NoOracle,
        Rule::DiscriminantOnly,
        Rule::UnwrapOnly,
        Rule::MatchesWildcard,
        Rule::ShouldPanicUnqualified,
        Rule::DiscardedResult,
        Rule::TautologicalAssert,
        Rule::IgnoredTest,
        Rule::ComputedExpectation,
        Rule::OracleShapeMismatch,
    ];

    /// The stable identifier.
    pub open spec fn id_of(self) -> Seq<char> {
        match self {
            Rule::NoOracle => "ORC001"@,
            Rule::DiscriminantOnly => "ORC002"@,
            Rule::UnwrapOnly => "ORC003"@,
            Rule::MatchesWildcard => "ORC004"@,
            Rule::ShouldPanicUnqualified => "ORC005"@,
            Rule::DiscardedResult => "ORC006"@,
            Rule::TautologicalAssert => "ORC007"@,
            Rule::IgnoredTest => "ORC008"@,
            Rule::ComputedExpectation => "ORC009"@,
            Rule::OracleShapeMismatch => "ORC010"@,
        }
    }

    /// The short name.
    pub open spec fn name_of(self) -> Seq<char> {
        match self {
            Rule::NoOracle => "no-oracle"@,
            Rule::DiscriminantOnly => "discriminant-only"@,
            Rule::UnwrapOnly => "unwrap-only"@,
            Rule::MatchesWildcard => "matches-wildcard"@,
            Rule::ShouldPanicUnqualified => "should-panic-unqualified"@,
            Rule::DiscardedResult => "discarded-result"@,
            Rule::TautologicalAssert => "tautological-assert"@,
            Rule::IgnoredTest => "ignored-test"@,
            Rule::ComputedExpectation => "computed-expectation"@,
            Rule::OracleShapeMismatch => "oracle-shape-mismatch"@,
        }
    }

    /// How much a finding of this rule weighs.
    pub open spec fn weight(self) -> Severity {
        match self {
            Rule::NoOracle => Severity::High,
            Rule::DiscriminantOnly => Severity::High,
            Rule::UnwrapOnly => Severity::Medium,
            Rule::MatchesWildcard => Severity::Medium,
            Rule::ShouldPanicUnqualified => Severity::Medium,
            Rule::DiscardedResult => Severity::Low,
            Rule::TautologicalAssert => Severity::High,
            Rule::IgnoredTest => Severity::Low,
            Rule::ComputedExpectation => Severity::High,
            Rule::OracleShapeMismatch => Severity::High,
        }
    }

    /// The explanation of the problem.
    pub open spec fn why_of(self) -> Seq<char> {
        match self {
            Rule::NoOracle => WHY_NO_ORACLE@,
            Rule::DiscriminantOnly => WHY_DISCRIMINANT_ONLY@,
            Rule::UnwrapOnly => WHY_UNWRAP_ONLY@,
            Rule::MatchesWildcard => WHY_MATCHES_WILDCARD@,
            Rule::ShouldPanicUnqualified => WHY_SHOULD_PANIC_UNQUALIFIED@,
            Rule::DiscardedResult => WHY_DISCARDED_RESULT@,
            Rule::TautologicalAssert => WHY_TAUTOLOGICAL_ASSERT@,
            Rule::IgnoredTest => WHY_IGNORED_TEST@,
            Rule::ComputedExpectation => WHY_COMPUTED_EXPECTATION@,
            Rule::OracleShapeMismatch => WHY_ORACLE_SHAPE_MISMATCH@,
        }
    }

    /// The remedy.
    pub open spec fn fix_of(self) -> Seq<char> {
        match self {
            Rule::NoOracle => FIX_NO_ORACLE@,
            Rule::DiscriminantOnly => FIX_DISCRIMINANT_ONLY@,
            Rule::UnwrapOnly => FIX_UNWRAP_ONLY@,
            Rule::MatchesWildcard => FIX_MATCHES_WILDCARD@,
            Rule::ShouldPanicUnqualified => FIX_SHOULD_PANIC_UNQUALIFIED@,
            Rule::DiscardedResult => FIX_DISCARDED_RESULT@,
            Rule::TautologicalAssert => FIX_TAUTOLOGICAL_ASSERT@,
            Rule::IgnoredTest => FIX_IGNORED_TEST@,
            Rule::ComputedExpectation => FIX_COMPUTED_EXPECTATION@,
            Rule::OracleShapeMismatch => FIX_ORACLE_SHAPE_MISMATCH@,
        }
    }

    /// The rule is called this, in small letters: by its id or by its name.
    pub open spec fn answers_to(self, key: Seq<char>) -> bool {
        text::lower_of(self.id_of()) == key || self.name_of() == key
    }

    /// Looks a rule up by id (`ORC002`) or name (`discriminant-only`), ignoring
    /// case and the white space around it.
    pub fn find(needle: &str) -> (r: Option<Rule>)
        ensures
            forall|rule: Rule|
                r == Some(rule) <==> #[trigger] rule.answers_to(
                    text::lower_of(text::trim_of(needle@)),
                ),
    {
        let key = text::ascii_lower(text::trim(needle).as_str());
        let all = Rule::ALL;
        let mut i: usize = 0;
        while i < all.len()
            invariant
                i <= all@.len(),
                all@ == Rule::ALL@,
                key@ == text::lower_of(text::trim_of(needle@)),
                forall|k: int| 0 <= k < i ==> !(#[trigger] all@[k]).answers_to(key@),
            decreases all@.len() - i,
        {
            let rule = all[i];
            let id = text::ascii_lower(rule.id());
            if text::same(id.as_str(), key.as_str()) || text::same(rule.name(), key.as_str()) {
                assert forall|other: Rule| Some(rule) == Some(other) <==> #[trigger]
                    other.answers_to(key@) by {
                    if other.answers_to(key@) {
                        lemma_one_rule(rule, other, key@);
                    }
                }
                return Some(rule);
            }
            i += 1;
        }
        proof {
            assert forall|rule: Rule| !(#[trigger] rule.answers_to(key@)) by {
                lemma_all_rules(rule);
            }
        }
        None
    }

    /// What to do about it.
    ///
    /// `why` explains the problem; this says how to make the oracle able to
    /// fail. A finding without a fix is a complaint.
    pub fn fix(self) -> (r: &'static str)
        ensures
            r@ == self.fix_of(),
    {
        match self {
            Rule::NoOracle => FIX_NO_ORACLE,
            Rule::DiscriminantOnly => FIX_DISCRIMINANT_ONLY,
            Rule::UnwrapOnly => FIX_UNWRAP_ONLY,
            Rule::MatchesWildcard => FIX_MATCHES_WILDCARD,
            Rule::ShouldPanicUnqualified => FIX_SHOULD_PANIC_UNQUALIFIED,
            Rule::DiscardedResult => FIX_DISCARDED_RESULT,
            Rule::TautologicalAssert => FIX_TAUTOLOGICAL_ASSERT,
            Rule::IgnoredTest => FIX_IGNORED_TEST,
            Rule::ComputedExpectation => FIX_COMPUTED_EXPECTATION,
            Rule::OracleShapeMismatch => FIX_ORACLE_SHAPE_MISMATCH,
        }
    }

    /// Stable identifier, e.g. `ORC002`.
    pub fn id(self) -> (r: &'static str)
        ensures
            r@ == self.id_of(),
    {
        match self {
            Rule::NoOracle => "ORC001",
            Rule::DiscriminantOnly => "ORC002",
            Rule::UnwrapOnly => "ORC003",
            Rule::MatchesWildcard => "ORC004",
            Rule::ShouldPanicUnqualified => "ORC005",
            Rule::DiscardedResult => "ORC006",
            Rule::TautologicalAssert => "ORC007",
            Rule::IgnoredTest => "ORC008",
            Rule::ComputedExpectation => "ORC009",
            Rule::OracleShapeMismatch => "ORC010",
        }
    }

    /// Short kebab-case name, e.g. `discriminant-only`.
    pub fn name(self) -> (r: &'static str)
        ensures
            r@ == self.name_of(),
    {
        match self {
            Rule::NoOracle => "no-oracle",
            Rule::DiscriminantOnly => "discriminant-only",
            Rule::UnwrapOnly => "unwrap-only",
            Rule::MatchesWildcard => "matches-wildcard",
            Rule::ShouldPanicUnqualified => "should-panic-unqualified",
            Rule::DiscardedResult => "discarded-result",
            Rule::TautologicalAssert => "tautological-assert",
            Rule::IgnoredTest => "ignored-test",
            Rule::ComputedExpectation => "computed-expectation",
            Rule::OracleShapeMismatch => "oracle-shape-mismatch",
        }
    }

    /// How much this finding should weigh in a gate.
    pub fn severity(self) -> (r: Severity)
        ensures
            r == self.weight(),
    {
        match self {
            Rule::NoOracle | Rule::TautologicalAssert | Rule::OracleShapeMismatch => Severity::High,
            Rule::DiscriminantOnly | Rule::ComputedExpectation => Severity::High,
            Rule::UnwrapOnly | Rule::MatchesWildcard | Rule::ShouldPanicUnqualified => {
                Severity::Medium
            },
            Rule::DiscardedResult | Rule::IgnoredTest => Severity::Low,
        }
    }

    /// Why this pattern means the oracle cannot do its job. Printed in reports
    /// because a finding nobody understands is a finding nobody acts on.
    pub fn why(self) -> (r: &'static str)
        ensures
            r@ == self.why_of(),
    {
        match self {
            Rule::NoOracle => WHY_NO_ORACLE,
            Rule::DiscriminantOnly => WHY_DISCRIMINANT_ONLY,
            Rule::UnwrapOnly => WHY_UNWRAP_ONLY,
            Rule::MatchesWildcard => WHY_MATCHES_WILDCARD,
            Rule::ShouldPanicUnqualified => WHY_SHOULD_PANIC_UNQUALIFIED,
            Rule::DiscardedResult => WHY_DISCARDED_RESULT,
            Rule::TautologicalAssert => WHY_TAUTOLOGICAL_ASSERT,
            Rule::IgnoredTest => WHY_IGNORED_TEST,
            Rule::ComputedExpectation => WHY_COMPUTED_EXPECTATION,
            Rule::OracleShapeMismatch => WHY_ORACLE_SHAPE_MISMATCH,
        }
    }
}

/// Every rule is in the list of all rules.
proof fn lemma_all_rules(rule: Rule)
    ensures
        exists|k: int| 0 <= k < Rule::ALL@.len() && #[trigger] Rule::ALL@[k] == rule,
{
    let all = Rule::ALL@;
    match rule {
        Rule::NoOracle => assert(all[0] == rule),
        Rule::DiscriminantOnly => assert(all[1] == rule),
        Rule::UnwrapOnly => assert(all[2] == rule),
        Rule::MatchesWildcard => assert(all[3] == rule),
        Rule::ShouldPanicUnqualified => assert(all[4] == rule),
        Rule::DiscardedResult => assert(all[5] == rule),
        Rule::TautologicalAssert => assert(all[6] == rule),
        Rule::IgnoredTest => assert(all[7] == rule),
        Rule::ComputedExpectation => assert(all[8] == rule),
        Rule::OracleShapeMismatch => assert(all[9] == rule),
    }
}

/// A name in small letters tells its rule, by four of its characters.
spec fn rule_by(key: Seq<char>) -> Rule {
    if key[0] == 'o' && key[2] == 'c' {
        if key[5] == '1' {
            Rule::NoOracle
        } else if key[5] == '2' {
            Rule::DiscriminantOnly
        } else if key[5] == '3' {
            Rule::UnwrapOnly
        } else if key[5] == '4' {
            Rule::MatchesWildcard
        } else if key[5] == '5' {
            Rule::ShouldPanicUnqualified
        } else if key[5] == '6' {
            Rule::DiscardedResult
        } else if key[5] == '7' {
            Rule::TautologicalAssert
        } else if key[5] == '8' {
            Rule::IgnoredTest
        } else if key[5] == '9' {
            Rule::ComputedExpectation
        } else {
            Rule::OracleShapeMismatch
        }
    } else if key[0] == 'n' {
        Rule::NoOracle
    } else if key[0] == 'd' && key[4] == 'r' {
        Rule::DiscriminantOnly
    } else if key[0] == 'u' {
        Rule::UnwrapOnly
    } else if key[0] == 'm' {
        Rule::MatchesWildcard
    } else if key[0] == 's' {
        Rule::ShouldPanicUnqualified
    } else if key[0] == 'd' {
        Rule::DiscardedResult
    } else if key[0] == 't' {
        Rule::TautologicalAssert
    } else if key[0] == 'i' {
        Rule::IgnoredTest
    } else if key[0] == 'c' {
        Rule::ComputedExpectation
    } else {
        Rule::OracleShapeMismatch
    }
}

proof fn lemma_rule_by(rule: Rule, key: Seq<char>)
    requires
        rule.answers_to(key),
    ensures
        rule == rule_by(key),
{
    reveal_strlit("ORC001");
    reveal_strlit("ORC002");
    reveal_strlit("ORC003");
    reveal_strlit("ORC004");
    reveal_strlit("ORC005");
    reveal_strlit("ORC006");
    reveal_strlit("ORC007");
    reveal_strlit("ORC008");
    reveal_strlit("ORC009");
    reveal_strlit("ORC010");
    reveal_strlit("no-oracle");
    reveal_strlit("discriminant-only");
    reveal_strlit("unwrap-only");
    reveal_strlit("matches-wildcard");
    reveal_strlit("should-panic-unqualified");
    reveal_strlit("discarded-result");
    reveal_strlit("tautological-assert");
    reveal_strlit("ignored-test");
    reveal_strlit("computed-expectation");
    reveal_strlit("oracle-shape-mismatch");
    let id = rule.id_of();
    assert(text::lower_of(id)[0] == text::lower_char(id[0]));
    assert(text::lower_of(id)[2] == text::lower_char(id[2]));
    assert(text::lower_of(id)[5] == text::lower_char(id[5]));
}

/// No two rules are called the same.
proof fn lemma_one_rule(a: Rule, b: Rule, key: Seq<char>)
    requires
        a.answers_to(key),
        b.answers_to(key),
    ensures
        a == b,
{
    lemma_rule_by(a, key);
    lemma_rule_by(b, key);
}

// ---------------------------------------------------------------------------
// Findings
// ---------------------------------------------------------------------------

/// One rule firing at one place in one test.
#[derive(Clone, Debug)]
pub struct Finding {
    /// Which rule fired.
    pub rule: Rule,
    /// The test the finding belongs to.
    pub test: TestId,
    /// 1-based line the finding points at.
    pub line: u32,
    /// The symbol this finding is about, when the rule is symbol-specific.
    pub symbol: Option<String>,
    /// The offending source fragment, normalized to one line.
    pub snippet: String,
}

/// One rule firing, as a mathematical value.
#[verifier::ext_equal]
pub struct FindingView {
    pub rule: Rule,
    pub test: TestIdView,
    pub line: u32,
    pub symbol: Option<Seq<char>>,
    pub snippet: Seq<char>,
}

impl View for Finding {
    type V = FindingView;

    open spec fn view(&self) -> FindingView {
        FindingView {
            rule: self.rule,
            test: self.test@,
            line: self.line,
            symbol: text::option_text(self.symbol),
            snippet: self.snippet@,
        }
    }
}

impl Finding {
    /// A copy of the finding.
    pub fn copy(&self) -> (r: Self)
        ensures
            r@ == self@,
    {
        Finding {
            rule: self.rule,
            test: self.test.copy(),
            line: self.line,
            symbol: text::copy_option(&self.symbol),
            snippet: self.snippet.clone(),
        }
    }
}

/// One place in a test body where an oracle could fail.
#[derive(Clone, Debug)]
pub struct OracleSite {
    /// 1-based line of the oracle.
    pub line: u32,
    /// What the oracle is, e.g. `assert_eq!` or `.unwrap()`.
    pub kind: String,
    /// How much this particular oracle can discriminate.
    pub strength: OracleStrength,
}

/// One place where an oracle could fail, as a mathematical value.
#[verifier::ext_equal]
pub struct OracleSiteView {
    pub line: u32,
    pub kind: Seq<char>,
    pub strength: OracleStrength,
}

impl View for OracleSite {
    type V = OracleSiteView;

    open spec fn view(&self) -> OracleSiteView {
        OracleSiteView { line: self.line, kind: self.kind@, strength: self.strength }
    }
}

impl Ranked for OracleSite {
    open spec fn ranks(a: OracleSiteView, b: OracleSiteView) -> bool {
        a.line <= b.line
    }

    proof fn le_total(a: OracleSiteView, b: OracleSiteView) {
    }

    proof fn le_transitive(a: OracleSiteView, b: OracleSiteView, c: OracleSiteView) {
    }

    fn may_precede(&self, other: &Self) -> bool {
        self.line <= other.line
    }
}

/// A method call whose receiver is a plain identifier.
///
/// Evidence for ORC010: if a `&mut self` call's receiver never appears in an
/// assertion, nothing observed the state the call existed to change.
#[derive(Clone, Debug)]
pub struct ReceiverCall {
    /// The receiver's identifier.
    pub receiver: String,
    /// The method called.
    pub method: String,
    /// 1-based line of the call.
    pub line: u32,
}

/// A method call on a plain identifier, as a mathematical value.
#[verifier::ext_equal]
pub struct ReceiverCallView {
    pub receiver: Seq<char>,
    pub method: Seq<char>,
    pub line: u32,
}

impl View for ReceiverCall {
    type V = ReceiverCallView;

    open spec fn view(&self) -> ReceiverCallView {
        ReceiverCallView { receiver: self.receiver@, method: self.method@, line: self.line }
    }
}

/// The oracle verdict for one test.
pub struct TestOracles {
    /// The test analyzed.
    pub test: TestId,
    /// The strongest oracle present. A test is judged by its best, not its average.
    pub strength: OracleStrength,
    /// Every oracle found, in source order.
    pub sites: Vec<OracleSite>,
    /// Every rule that fired.
    pub findings: Vec<Finding>,
    /// Method calls with a plain identifier receiver: evidence for the post-state
    /// check.
    pub receiver_calls: Vec<ReceiverCall>,
    /// Every identifier appearing inside an assertion macro.
    pub asserted_idents: KeySet<String>,
}

/// The oracle verdict for one test, as a mathematical value.
#[verifier::ext_equal]
pub struct TestOraclesView {
    pub test: TestIdView,
    pub strength: OracleStrength,
    pub sites: Seq<OracleSiteView>,
    pub findings: Seq<FindingView>,
    pub receiver_calls: Seq<ReceiverCallView>,
    pub asserted_idents: Set<Seq<char>>,
}

impl View for TestOracles {
    type V = TestOraclesView;

    open spec fn view(&self) -> TestOraclesView {
        TestOraclesView {
            test: self.test@,
            strength: self.strength,
            sites: order::views(self.sites@),
            findings: order::views(self.findings@),
            receiver_calls: order::views(self.receiver_calls@),
            asserted_idents: self.asserted_idents@.to_set(),
        }
    }
}

// ---------------------------------------------------------------------------
// Text of source fragments
// ---------------------------------------------------------------------------

/// A source fragment on one line, without the blanks that a token stream has
/// around punctuation.
pub open spec fn normalized(s: Seq<char>) -> Seq<char> {
    let s0 = text::join_of(text::words_of::<AtSpace>(s), " "@);
    let s1 = text::replaced(s0, " . "@, "."@);
    let s2 = text::replaced(s1, " :: "@, "::"@);
    let s3 = text::replaced(s2, " ("@, "("@);
    let s4 = text::replaced(s3, "( "@, "("@);
    let s5 = text::replaced(s4, " )"@, ")"@);
    let s6 = text::replaced(s5, " ,"@, ","@);
    text::replaced(s6, " !"@, "!"@)
}

/// Normalizes a source fragment.
pub fn normalize(s: &str) -> (r: String)
    ensures
        r@ == normalized(s@),
{
    proof {
        reveal_strlit(" . ");
        reveal_strlit(" :: ");
        reveal_strlit(" (");
        reveal_strlit("( ");
        reveal_strlit(" )");
        reveal_strlit(" ,");
        reveal_strlit(" !");
    }
    let words = text::words::<AtSpace>(s);
    let s0 = text::join(&words, " ");
    let s1 = text::replace(s0.as_str(), " . ", ".");
    let s2 = text::replace(s1.as_str(), " :: ", "::");
    let s3 = text::replace(s2.as_str(), " (", "(");
    let s4 = text::replace(s3.as_str(), "( ", "(");
    let s5 = text::replace(s4.as_str(), " )", ")");
    let s6 = text::replace(s5.as_str(), " ,", ",");
    text::replace(s6.as_str(), " !", "!")
}

/// Cut at white space and brackets.
pub struct AtBracket;

impl Cut for AtBracket {
    open spec fn cuts(c: char) -> bool {
        text::is_space(c) || c == '(' || c == ')' || c == ',' || c == '{' || c == '}' || c == '['
            || c == ']'
    }

    fn cut(c: char) -> bool {
        text::space(c) || c == '(' || c == ')' || c == ',' || c == '{' || c == '}' || c == '[' || c
            == ']'
    }
}

/// What stands behind the first comma of the arguments of `matches!` has no
/// brackets, or has `..`, or has a `_` of its own.
pub open spec fn looks_wild(body: Seq<char>) -> bool {
    match text::halves(body, ","@) {
        Some((_, after)) => {
            ||| !text::has(after, "("@) && !text::has(after, "{"@)
            ||| text::has(after, ".."@)
            ||| text::pieces_of::<AtBracket>(after).contains("_"@)
        },
        None => false,
    }
}

/// The arguments of `matches!` have a pattern that wildcards the payload away. It
/// looks like one, or is a bare path to a variant without a guard. And it observes
/// nothing more: it binds no field and tests no value.
pub open spec fn wildcards(body: Seq<char>) -> bool {
    let ts = tokens::tokens_of(body);
    match tokens::pattern_of(ts) {
        Some(pattern) => {
            &&& !tokens::observes(pattern)
            &&& looks_wild(body) || (tokens::is_bare(pattern) && !ts.contains("if"@))
        },
        None => looks_wild(body),
    }
}

fn seems_wild(body: &str) -> (r: bool)
    ensures
        r == looks_wild(body@),
{
    match text::split_once(body, ",") {
        Some((_, after)) => {
            // A bare variant path (`Foo::Bar`) checks the discriminant and nothing else.
            if !text::contains(after.as_str(), "(") && !text::contains(after.as_str(), "{") {
                return true;
            }
            // `Foo::Bar { .. }` and `Foo::Bar(..)` discard every field.
            if text::contains(after.as_str(), "..") {
                return true;
            }
            // So does a standalone `_`, but an identifier that merely contains an
            // underscore (`Foo::Bar(my_value)`) binds a real field.
            let pieces = text::pieces::<AtBracket>(after.as_str());
            text::any_text_is(&pieces, "_")
        },
        None => false,
    }
}

/// Whether the pattern side of a `matches!` wildcards away the payload.
pub fn pattern_is_wildcard(body: &str) -> (r: bool)
    ensures
        r == wildcards(body@),
{
    let all = tokens::tokens(body);
    match tokens::pattern(&all) {
        Some(pattern) => {
            if tokens::observes_more(&pattern) {
                return false;
            }
            seems_wild(body) || (tokens::bare(&pattern) && !text::any_text_is(&all, "if"))
        },
        None => seems_wild(body),
    }
}

/// Cut at what is no part of an identifier.
pub struct AtNonWord;

impl Cut for AtNonWord {
    open spec fn cuts(c: char) -> bool {
        !text::is_alnum(c) && c != '_'
    }

    fn cut(c: char) -> bool {
        !text::alnum(c) && c != '_'
    }
}

/// The words of a list that do not begin with a number.
pub open spec fn not_numbers(words: Seq<Seq<char>>) -> Seq<Seq<char>>
    decreases words.len(),
{
    if words.len() == 0 {
        Seq::empty()
    } else if words.last().len() > 0 && text::is_number(words.last()[0]) {
        not_numbers(words.drop_last())
    } else {
        not_numbers(words.drop_last()).push(words.last())
    }
}

/// The identifier-shaped words of a token string.
pub open spec fn identifiers_of(tokens: Seq<char>) -> Seq<Seq<char>> {
    not_numbers(text::words_of::<AtNonWord>(tokens))
}

/// Pulls identifier-shaped words out of a token string.
pub fn identifiers(tokens: &str) -> (r: Vec<String>)
    ensures
        text::texts(r@) == identifiers_of(tokens@),
{
    let words = text::words::<AtNonWord>(tokens);
    let ghost all = text::texts(words@);
    let mut out: Vec<String> = Vec::new();
    let mut i: usize = 0;
    while i < words.len()
        invariant
            i <= words@.len(),
            all == text::texts(words@),
            text::texts(out@) == not_numbers(all.take(i as int)),
        decreases words@.len() - i,
    {
        let ghost before = text::texts(out@);
        assert(all.take(i as int + 1).drop_last() =~= all.take(i as int));
        assert(all[i as int] == words@[i as int]@);
        let cs = text::chars_of(words[i].as_str());
        if !(cs.len() > 0 && text::number(cs[0])) {
            out.push(words[i].clone());
            assert(text::texts(out@) =~= before.push(all[i as int]));
        }
        i += 1;
    }
    assert(all.take(all.len() as int) =~= all);
    out
}

// ---------------------------------------------------------------------------
// Judging an assertion
// ---------------------------------------------------------------------------

/// What an assertion is worth, and what is wrong with it.
#[verifier::ext_equal]
pub struct Judgement {
    pub strength: OracleStrength,
    /// The rule that fires, and the fragment it quotes.
    pub flaw: Option<(Rule, Seq<char>)>,
}

/// An assertion with nothing wrong.
pub open spec fn sound(strength: OracleStrength) -> Judgement {
    Judgement { strength, flaw: None }
}

/// An assertion for which a rule fires.
pub open spec fn flawed(strength: OracleStrength, rule: Rule, quote: Seq<char>) -> Judgement {
    Judgement { strength, flaw: Some((rule, quote)) }
}

/// What an executable judgement says.
struct Verdict {
    strength: OracleStrength,
    flaw: Option<(Rule, String)>,
}

spec fn verdict_of(v: Verdict) -> Judgement {
    Judgement {
        strength: v.strength,
        flaw: match v.flaw {
            Some((rule, quote)) => Some((rule, quote@)),
            None => None,
        },
    }
}

/// A method that looks at a discriminant alone.
pub open spec fn is_discriminant(method: Seq<char>) -> bool {
    ||| method == "is_ok"@
    ||| method == "is_err"@
    ||| method == "is_some"@
    ||| method == "is_none"@
}

/// The assertion `name!(condition)` as text.
pub open spec fn quoted(name: Seq<char>, e: ExpressionView) -> Seq<char> {
    name + "!("@ + normalized(e.text) + ")"@
}

/// `assert!(cond)`: everything depends on what `cond` is.
pub open spec fn judge_condition(e: ExpressionView, name: Seq<char>) -> Judgement
    decreases e,
{
    match e.shape {
        ShapeView::Literal => flawed(
            OracleStrength::Absent,
            Rule::TautologicalAssert,
            quoted(name, e),
        ),
        ShapeView::MethodCall(_, method, _) => if is_discriminant(method) {
            flawed(OracleStrength::Weak, Rule::DiscriminantOnly, quoted(name, e))
        } else {
            sound(OracleStrength::Partial)
        },
        ShapeView::Macro(inner, tokens) => if inner == Some("matches"@) && wildcards(tokens) {
            flawed(OracleStrength::Weak, Rule::MatchesWildcard, quoted(name, e))
        } else {
            sound(OracleStrength::Partial)
        },
        ShapeView::Binary(left, right) => if normalized(left) == normalized(right) {
            flawed(OracleStrength::Absent, Rule::TautologicalAssert, quoted(name, e))
        } else {
            sound(OracleStrength::Strong)
        },
        ShapeView::Unary(inner) => judge_condition(*inner, name),
        _ => sound(OracleStrength::Partial),
    }
}

fn quote_assertion(name: &str, e: &Expression) -> (r: String)
    ensures
        r@ == quoted(name@, e@),
{
    let mut out = text::owned(name);
    out.append("!(");
    out.append(normalize(e.text.as_str()).as_str());
    out.append(")");
    out
}

fn discriminant(method: &str) -> (r: bool)
    ensures
        r == is_discriminant(method@),
{
    text::same(method, "is_ok") || text::same(method, "is_err") || text::same(method, "is_some")
        || text::same(method, "is_none")
}

fn classify_condition(e: &Expression, name: &str) -> (r: Verdict)
    ensures
        verdict_of(r) == judge_condition(e@, name@),
    decreases e,
{
    match &e.shape {
        Shape::Literal => Verdict {
            strength: OracleStrength::Absent,
            flaw: Some((Rule::TautologicalAssert, quote_assertion(name, e))),
        },
        Shape::MethodCall(_, method, _) => {
            if discriminant(method.as_str()) {
                Verdict {
                    strength: OracleStrength::Weak,
                    flaw: Some((Rule::DiscriminantOnly, quote_assertion(name, e))),
                }
            } else {
                // Every other predicate observes something real about a value,
                // but only one property of it.
                Verdict { strength: OracleStrength::Partial, flaw: None }
            }
        },
        Shape::Macro(inner, tokens) => {
            if text::option_is(inner, "matches") && pattern_is_wildcard(tokens.as_str()) {
                Verdict {
                    strength: OracleStrength::Weak,
                    flaw: Some((Rule::MatchesWildcard, quote_assertion(name, e))),
                }
            } else {
                Verdict { strength: OracleStrength::Partial, flaw: None }
            }
        },
        // A real comparison against something.
        Shape::Binary(left, right) => {
            let left = normalize(left.as_str());
            let right = normalize(right.as_str());
            if text::same(left.as_str(), right.as_str()) {
                Verdict {
                    strength: OracleStrength::Absent,
                    flaw: Some((Rule::TautologicalAssert, quote_assertion(name, e))),
                }
            } else {
                Verdict { strength: OracleStrength::Strong, flaw: None }
            }
        },
        Shape::Unary(inner) => classify_condition(inner, name),
        _ => Verdict { strength: OracleStrength::Partial, flaw: None },
    }
}

/// A call that makes a value from scratch or hands one on.
pub open spec fn is_constructor(s: Seq<char>) -> bool {
    ||| s == "new"@
    ||| s == "default"@
    ||| s == "from"@
    ||| s == "into"@
    ||| s == "with_capacity"@
    ||| s == "to_string"@
    ||| s == "to_owned"@
    ||| s == "as_str"@
    ||| s == "clone"@
    ||| s == "vec"@
    ||| s == "some"@
    ||| s == "ok"@
}

fn constructor(s: &str) -> (r: bool)
    ensures
        r == is_constructor(s@),
{
    text::same(s, "new") || text::same(s, "default") || text::same(s, "from") || text::same(
        s,
        "into",
    ) || text::same(s, "with_capacity") || text::same(s, "to_string") || text::same(s, "to_owned")
        || text::same(s, "as_str") || text::same(s, "clone") || text::same(s, "vec") || text::same(
        s,
        "some",
    ) || text::same(s, "ok")
}

/// The first call on the one side that is made on the other side too and is no
/// constructor.
pub open spec fn shared_call(a: Seq<Seq<char>>, b: Seq<Seq<char>>) -> Option<Seq<char>>
    decreases a.len(),
{
    if a.len() == 0 {
        None
    } else if b.contains(a[0]) && !is_constructor(text::lower_of(a[0])) {
        Some(a[0])
    } else {
        shared_call(a.skip(1), b)
    }
}

/// Function or method names called on *both* sides of an equality assertion.
///
/// Constructors are excluded: `assert_eq!(got, Config::default())` compares an
/// implementation against a known starting point, which is a legitimate
/// expectation. `assert_eq!(parse(a), parse(b))` is not.
pub fn shared_calls(actual: &Arg, expected: &Arg) -> (r: Option<String>)
    ensures
        text::option_text(r) == shared_call(actual@.calls, expected@.calls),
{
    let ghost a = actual@.calls;
    let mut i: usize = 0;
    assert(a.skip(0) =~= a);
    while i < actual.calls.len()
        invariant
            i <= actual.calls@.len(),
            a == actual@.calls,
            shared_call(a, expected@.calls) == shared_call(a.skip(i as int), expected@.calls),
        decreases actual.calls@.len() - i,
    {
        assert(a.skip(i as int)[0] == actual.calls@[i as int]@);
        assert(a.skip(i as int).skip(1) =~= a.skip(i + 1));
        let call = actual.calls[i].as_str();
        if text::any_text_is(&expected.calls, call) && !constructor(
            text::ascii_lower(call).as_str(),
        ) {
            return Some(text::owned(call));
        }
        i += 1;
    }
    None
}

/// `assert_eq!(actual, expected)`: strong unless the two sides are the same
/// expression, or the expectation is computed by the code under test.
pub open spec fn judge_equality(m: MacView) -> Judgement {
    if m.args.len() < 2 {
        sound(OracleStrength::Partial)
    } else {
        let a = normalized(m.args[0].expr.text);
        let e = normalized(m.args[1].expr.text);
        if a == e {
            flawed(
                OracleStrength::Absent,
                Rule::TautologicalAssert,
                "assert_eq!("@ + a + ", "@ + e + ")"@,
            )
        } else {
            match shared_call(m.args[0].calls, m.args[1].calls) {
                Some(call) => flawed(
                    OracleStrength::Weak,
                    Rule::ComputedExpectation,
                    "both sides call `"@ + call + "`: "@ + m.tokens,
                ),
                None => sound(OracleStrength::Strong),
            }
        }
    }
}

fn classify_equality(m: &Mac) -> (r: Verdict)
    ensures
        verdict_of(r) == judge_equality(m@),
{
    if m.args.len() < 2 {
        // Not two expressions: the raw tokens are all there is.
        return Verdict { strength: OracleStrength::Partial, flaw: None };
    }
    assert(m@.args[0] == m.args@[0]@);
    assert(m@.args[1] == m.args@[1]@);
    let actual = normalize(m.args[0].expr.text.as_str());
    let expected = normalize(m.args[1].expr.text.as_str());
    if text::same(actual.as_str(), expected.as_str()) {
        let mut quote = text::owned("assert_eq!(");
        quote.append(actual.as_str());
        quote.append(", ");
        quote.append(expected.as_str());
        quote.append(")");
        return Verdict {
            strength: OracleStrength::Absent,
            flaw: Some((Rule::TautologicalAssert, quote)),
        };
    }
    // The expectation should be written down, not computed by the same
    // function that produced the actual value.
    match shared_calls(&m.args[0], &m.args[1]) {
        Some(call) => {
            let mut quote = text::owned("both sides call `");
            quote.append(call.as_str());
            quote.append("`: ");
            quote.append(m.tokens.as_str());
            Verdict {
                strength: OracleStrength::Weak,
                flaw: Some((Rule::ComputedExpectation, quote)),
            }
        },
        None => Verdict { strength: OracleStrength::Strong, flaw: None },
    }
}

/// What an assertion macro is worth.
pub open spec fn judge(m: MacView, name: Seq<char>) -> Judgement {
    if name == "assert"@ || name == "debug_assert"@ {
        if m.args.len() == 0 {
            sound(OracleStrength::Weak)
        } else {
            judge_condition(m.args[0].expr, name)
        }
    } else if name == "assert_eq"@ || name == "assert_ne"@ || name == "debug_assert_eq"@ || name
        == "debug_assert_ne"@ {
        judge_equality(m)
    } else if (name == "assert_matches"@ || name == "debug_assert_matches"@) && wildcards(m.tokens) {
        flawed(
            OracleStrength::Weak,
            Rule::MatchesWildcard,
            name + "!("@ + m.tokens + ")"@,
        )
    } else {
        sound(OracleStrength::Partial)
    }
}

fn assert_macro(m: &Mac, name: &str) -> (r: Verdict)
    ensures
        verdict_of(r) == judge(m@, name@),
{
    if text::same(name, "assert") || text::same(name, "debug_assert") {
        if m.args.len() == 0 {
            return Verdict { strength: OracleStrength::Weak, flaw: None };
        }
        assert(m@.args[0] == m.args@[0]@);
        return classify_condition(&m.args[0].expr, name);
    }
    if text::same(name, "assert_eq") || text::same(name, "assert_ne") || text::same(
        name,
        "debug_assert_eq",
    ) || text::same(name, "debug_assert_ne") {
        return classify_equality(m);
    }
    if (text::same(name, "assert_matches") || text::same(name, "debug_assert_matches"))
        && pattern_is_wildcard(m.tokens.as_str()) {
        let mut quote = text::owned(name);
        quote.append("!(");
        quote.append(m.tokens.as_str());
        quote.append(")");
        return Verdict {
            strength: OracleStrength::Weak,
            flaw: Some((Rule::MatchesWildcard, quote)),
        };
    }
    // Snapshots among them: the value is fully observed, but the expectation was
    // recorded from an implementation rather than written by hand.
    Verdict { strength: OracleStrength::Partial, flaw: None }
}

// ---------------------------------------------------------------------------
// Reading a body
// ---------------------------------------------------------------------------

/// What the audit reads in a body.
#[verifier::ext_equal]
pub struct Reading {
    pub sites: Seq<OracleSiteView>,
    pub findings: Seq<FindingView>,
    pub calls: Seq<ReceiverCallView>,
    /// The identifiers in assertions.
    pub idents: Seq<Seq<char>>,
    /// How many of the sites fail by a panic alone.
    pub panics: nat,
}

impl Reading {
    /// Nothing.
    pub open spec fn nothing() -> Reading {
        Reading {
            sites: Seq::empty(),
            findings: Seq::empty(),
            calls: Seq::empty(),
            idents: Seq::empty(),
            panics: 0,
        }
    }

    /// This, and then `other`.
    pub open spec fn and(self, other: Reading) -> Reading {
        Reading {
            sites: self.sites + other.sites,
            findings: self.findings + other.findings,
            calls: self.calls + other.calls,
            idents: self.idents + other.idents,
            panics: self.panics + other.panics,
        }
    }
}

/// A finding that is about no particular symbol.
pub open spec fn fires(rule: Rule, test: TestIdView, line: u32, snippet: Seq<char>) -> FindingView {
    FindingView { rule, test, line, symbol: None, snippet }
}

/// A macro of this name is an assertion.
pub open spec fn is_assertion(name: Seq<char>) -> bool {
    ||| text::begins(name, "assert"@)
    ||| text::begins(name, "debug_assert"@)
    ||| text::begins(name, "prop_assert"@)
    ||| text::begins(name, "expect_that"@)
    ||| text::begins(name, "verify_that"@)
}

fn assertion(name: &str) -> (r: bool)
    ensures
        r == is_assertion(name@),
{
    text::starts_with(name, "assert") || text::starts_with(name, "debug_assert")
        || text::starts_with(name, "prop_assert") || text::starts_with(name, "expect_that")
        || text::starts_with(name, "verify_that")
}

/// What a macro call gives. One that is no assertion gives nothing: a bare
/// `panic!` reached unconditionally is no oracle and one in a branch is, and the
/// two cannot be told apart statically.
pub open spec fn read_macro(m: MacView, test: TestIdView) -> Reading {
    let name = match m.name {
        Some(name) => name,
        None => Seq::empty(),
    };
    match m.line {
        Some(line) => if is_assertion(name) {
            let judgement = judge(m, name);
            Reading {
                sites: seq![
                    OracleSiteView {
                        line: line as u32,
                        kind: name + "!"@,
                        strength: judgement.strength,
                    },
                ],
                findings: match judgement.flaw {
                    Some((rule, quote)) => seq![fires(rule, test, line as u32, normalized(quote))],
                    None => Seq::empty(),
                },
                idents: identifiers_of(m.tokens),
                ..Reading::nothing()
            }
        } else {
            Reading::nothing()
        },
        None => Reading::nothing(),
    }
}

/// A method that fails by a panic.
pub open spec fn is_unwrap(method: Seq<char>) -> bool {
    method == "unwrap"@ || method == "expect"@ || method == "unwrap_err"@
}

/// What a method call gives.
pub open spec fn read_call(receiver: Option<Seq<char>>, method: Seq<char>, line: usize) -> Reading {
    Reading {
        calls: match receiver {
            Some(r) => seq![ReceiverCallView { receiver: r, method, line: line as u32 }],
            None => Seq::empty(),
        },
        sites: if is_unwrap(method) {
            seq![
                OracleSiteView {
                    line: line as u32,
                    kind: "."@ + method + "()"@,
                    strength: OracleStrength::Weak,
                },
            ]
        } else {
            Seq::empty()
        },
        panics: if is_unwrap(method) {
            1
        } else {
            0
        },
        ..Reading::nothing()
    }
}

/// What a `let` gives: one that runs a call and observes nothing is flagged.
pub open spec fn read_local(
    wild: bool,
    line: usize,
    init: Option<ExpressionView>,
    test: TestIdView,
) -> Reading {
    match init {
        Some(e) => if wild && (e.shape is Call || e.shape is MethodCall || e.shape is Macro) {
            Reading {
                findings: seq![
                    fires(
                        Rule::DiscardedResult,
                        test,
                        line as u32,
                        normalized("let _ = "@ + normalized(e.text) + ";"@),
                    ),
                ],
                ..Reading::nothing()
            }
        } else {
            Reading::nothing()
        },
        None => Reading::nothing(),
    }
}

/// What one place in a body gives.
pub open spec fn read_node(n: NodeView, test: TestIdView) -> Reading {
    match n {
        NodeView::Macro(m) => read_macro(m, test),
        NodeView::MethodCall(receiver, method, line) => read_call(receiver, method, line),
        NodeView::Try(line) => Reading {
            sites: seq![
                OracleSiteView { line: line as u32, kind: "?"@, strength: OracleStrength::Weak },
            ],
            panics: 1,
            ..Reading::nothing()
        },
        NodeView::Local(wild, line, init) => read_local(wild, line, init, test),
        NodeView::ItemBegin | NodeView::ItemEnd => Reading::nothing(),
    }
}

/// How many items declared inside a body are open behind its places.
pub open spec fn items_open(nodes: Seq<NodeView>) -> nat
    decreases nodes.len(),
{
    if nodes.len() == 0 {
        0
    } else {
        let before = items_open(nodes.drop_last());
        match nodes.last() {
            NodeView::ItemBegin => before + 1,
            NodeView::ItemEnd => if before > 0 {
                (before - 1) as nat
            } else {
                0
            },
            _ => before,
        }
    }
}

/// What the places of a body give, in order. A place in an item declared inside
/// (a helper function of a test) gives nothing.
pub open spec fn read_nodes(nodes: Seq<NodeView>, test: TestIdView) -> Reading
    decreases nodes.len(),
{
    if nodes.len() == 0 {
        Reading::nothing()
    } else {
        let before = read_nodes(nodes.drop_last(), test);
        if items_open(nodes.drop_last()) > 0 {
            before
        } else {
            before.and(read_node(nodes.last(), test))
        }
    }
}

/// Reads the oracles of a body.
struct Scan {
    test: TestId,
    sites: Vec<OracleSite>,
    findings: Vec<Finding>,
    receiver_calls: Vec<ReceiverCall>,
    idents: Vec<String>,
    /// Oracles whose only failure mode is a panic (`unwrap`, `expect`, `?`).
    panic_only_sites: usize,
}

impl Scan {
    spec fn reading(self) -> Reading {
        Reading {
            sites: order::views(self.sites@),
            findings: order::views(self.findings@),
            calls: order::views(self.receiver_calls@),
            idents: text::texts(self.idents@),
            panics: self.panic_only_sites as nat,
        }
    }

    /// Each panic is one of the sites.
    spec fn counted(self) -> bool {
        self.panic_only_sites <= self.sites@.len()
    }

    fn flag(&mut self, rule: Rule, line: u32, snippet: &str)
        ensures
            final(self).test@ == old(self).test@,
            final(self).counted() == old(self).counted(),
            final(self).reading() == old(self).reading().and(
                Reading {
                    findings: seq![fires(rule, old(self).test@, line, normalized(snippet@))],
                    ..Reading::nothing()
                },
            ),
    {
        let ghost before = self.reading();
        let f = Finding {
            rule,
            test: self.test.copy(),
            line,
            symbol: None,
            snippet: normalize(snippet),
        };
        let ghost fv = f@;
        self.findings.push(f);
        assert(self.reading() =~= before.and(
            Reading { findings: seq![fv], ..Reading::nothing() },
        ));
    }

    fn macro_call(&mut self, m: &Mac)
        requires
            old(self).counted(),
        ensures
            final(self).test@ == old(self).test@,
            final(self).counted(),
            final(self).reading() == old(self).reading().and(read_macro(m@, old(self).test@)),
    {
        let ghost before = self.reading();
        let ghost whole = read_macro(m@, self.test@);
        assert(before.and(Reading::nothing()) =~= before);
        let name = match &m.name {
            Some(name) => name.clone(),
            None => String::new(),
        };
        assert(name@ =~= match m@.name {
            Some(name) => name,
            None => Seq::empty(),
        });
        let line: u32 = match m.line {
            Some(line) => line as u32,
            None => {
                return;
            },
        };
        if assertion(name.as_str()) {
            // Any identifier named inside an assertion counts as observed. This
            // is what makes the post-state check possible: if the receiver of a
            // `&mut self` call never appears in an assertion, nothing looked at
            // the state that call existed to change.
            let mut idents = identifiers(m.tokens.as_str());
            let ghost iv = text::texts(idents@);
            self.idents.append(&mut idents);
            assert(text::texts(self.idents@) =~= before.idents + iv);
            let verdict = assert_macro(m, name.as_str());
            if let Some((rule, quote)) = &verdict.flaw {
                self.flag(*rule, line, quote.as_str());
            }
            let site = OracleSite {
                line,
                kind: text::joined(name.as_str(), "!"),
                strength: verdict.strength,
            };
            let ghost sv = site@;
            self.sites.push(site);
            assert(order::views(self.sites@) =~= before.sites + seq![sv]);
            assert(self.reading() =~= before.and(whole));
        }
    }

    fn method_call(&mut self, receiver: &Option<String>, method: &str, line: usize)
        requires
            old(self).counted(),
        ensures
            final(self).test@ == old(self).test@,
            final(self).counted(),
            final(self).reading() == old(self).reading().and(
                read_call(text::option_text(*receiver), method@, line),
            ),
    {
        let ghost before = self.reading();
        if let Some(r) = receiver {
            let call = ReceiverCall {
                receiver: r.clone(),
                method: text::owned(method),
                line: line as u32,
            };
            let ghost cv = call@;
            self.receiver_calls.push(call);
            assert(order::views(self.receiver_calls@) =~= before.calls + seq![cv]);
        }
        if text::same(method, "unwrap") || text::same(method, "expect") || text::same(
            method,
            "unwrap_err",
        ) {
            let mut kind = text::owned(".");
            kind.append(method);
            kind.append("()");
            let site = OracleSite { line: line as u32, kind, strength: OracleStrength::Weak };
            let ghost sv = site@;
            self.sites.push(site);
            let n: usize = self.sites.len();
            self.panic_only_sites = self.panic_only_sites + 1;
            assert(order::views(self.sites@) =~= before.sites + seq![sv]);
        }
        assert(self.reading() =~= before.and(
            read_call(text::option_text(*receiver), method@, line),
        ));
    }

    fn node(&mut self, n: &Node)
        requires
            old(self).counted(),
        ensures
            final(self).test@ == old(self).test@,
            final(self).counted(),
            final(self).reading() == old(self).reading().and(read_node(n@, old(self).test@)),
    {
        let ghost before = self.reading();
        assert(before.and(Reading::nothing()) =~= before);
        match n {
            Node::Macro(m) => self.macro_call(m),
            Node::MethodCall(receiver, method, line) => self.method_call(
                receiver,
                method.as_str(),
                *line,
            ),
            Node::Try(line) => {
                let site = OracleSite {
                    line: *line as u32,
                    kind: text::owned("?"),
                    strength: OracleStrength::Weak,
                };
                let ghost sv = site@;
                self.sites.push(site);
                let n: usize = self.sites.len();
                self.panic_only_sites = self.panic_only_sites + 1;
                assert(order::views(self.sites@) =~= before.sites + seq![sv]);
                assert(self.reading() =~= before.and(
                    Reading { sites: seq![sv], panics: 1, ..Reading::nothing() },
                ));
            },
            Node::Local(wild, line, init) => {
                if let Some(e) = init {
                    let runs = match &e.shape {
                        Shape::Call | Shape::MethodCall(_, _, _) | Shape::Macro(_, _) => true,
                        _ => false,
                    };
                    assert(runs == (e@.shape is Call || e@.shape is MethodCall
                        || e@.shape is Macro));
                    if *wild && runs {
                        let mut snippet = text::owned("let _ = ");
                        snippet.append(normalize(e.text.as_str()).as_str());
                        snippet.append(";");
                        self.flag(Rule::DiscardedResult, *line as u32, snippet.as_str());
                    }
                }
            },
            Node::ItemBegin | Node::ItemEnd => {},
        }
    }

    fn nodes(&mut self, nodes: &Vec<Node>)
        requires
            old(self).counted(),
        ensures
            final(self).test@ == old(self).test@,
            final(self).counted(),
            final(self).reading() == old(self).reading().and(
                read_nodes(nodes@.map_values(|n: Node| n@), old(self).test@),
            ),
    {
        let ghost all = nodes@.map_values(|n: Node| n@);
        let ghost before = self.reading();
        let ghost test = self.test@;
        let mut open: usize = 0;
        let mut i: usize = 0;
        assert(before.and(Reading::nothing()) =~= before);
        while i < nodes.len()
            invariant
                i <= nodes@.len(),
                open <= i,
                open == items_open(all.take(i as int)),
                all == nodes@.map_values(|n: Node| n@),
                self.test@ == test,
                self.counted(),
                self.reading() == before.and(read_nodes(all.take(i as int), test)),
            decreases nodes@.len() - i,
        {
            assert(all.take(i as int + 1).drop_last() =~= all.take(i as int));
            assert(all[i as int] == nodes@[i as int]@);
            let ghost a = read_nodes(all.take(i as int), test);
            let ghost b = read_node(all[i as int], test);
            // Helper functions declared inside a test are no part of its oracles.
            if open == 0 {
                self.node(&nodes[i]);
                assert(before.and(a).and(b) =~= before.and(a.and(b)));
            }
            match &nodes[i] {
                Node::ItemBegin => {
                    open += 1;
                },
                Node::ItemEnd => {
                    if open > 0 {
                        open -= 1;
                    }
                },
                _ => {},
            }
            i += 1;
        }
        assert(all.take(all.len() as int) =~= all);
    }
}

// ---------------------------------------------------------------------------
// Analyzing a test
// ---------------------------------------------------------------------------

/// What a test's body gives; nothing where it could not be read.
pub open spec fn read_test(t: TestItemView) -> Reading {
    match t.body {
        Some(body) => read_nodes(body.nodes, t.id),
        None => Reading::nothing(),
    }
}

/// Every oracle of a test, in the order in which it was found: those of the body,
/// and its `#[should_panic]`, which is an oracle of two very different qualities.
pub open spec fn oracle_sites(t: TestItemView) -> Seq<OracleSiteView> {
    let body = read_test(t).sites;
    match t.should_panic {
        Some(ShouldPanic::Qualified) => body.push(
            OracleSiteView {
                line: t.span.start,
                kind: "should_panic(expected)"@,
                strength: OracleStrength::Partial,
            },
        ),
        Some(ShouldPanic::Unqualified) => body.push(
            OracleSiteView {
                line: t.span.start,
                kind: "should_panic"@,
                strength: OracleStrength::Weak,
            },
        ),
        None => body,
    }
}

/// Every oracle in the body is a panic on failure, and no panic is expected by
/// name: nothing inspects a value.
pub open spec fn only_unwraps(t: TestItemView) -> bool {
    let read = read_test(t);
    read.sites.len() > 0 && read.panics == read.sites.len() && t.should_panic != Some(
        ShouldPanic::Qualified,
    )
}

/// Every finding on a test that needs no claim to be made.
pub open spec fn oracle_findings(t: TestItemView) -> Seq<FindingView> {
    let read = read_test(t);
    let panics = if t.should_panic == Some(ShouldPanic::Unqualified) {
        seq![
            fires(
                Rule::ShouldPanicUnqualified,
                t.id,
                t.span.start,
                normalized("#[should_panic]"@),
            ),
        ]
    } else {
        Seq::empty()
    };
    let whole = if oracle_sites(t).len() == 0 && t.body is Some {
        seq![fires(Rule::NoOracle, t.id, t.span.start, Seq::empty())]
    } else if only_unwraps(t) {
        seq![fires(Rule::UnwrapOnly, t.id, oracle_sites(t)[0].line, Seq::empty())]
    } else {
        Seq::empty()
    };
    let ignored = if t.is_ignored {
        seq![fires(Rule::IgnoredTest, t.id, t.span.start, Seq::empty())]
    } else {
        Seq::empty()
    };
    read.findings + panics + whole + ignored
}

/// The strongest of a list of oracles.
pub open spec fn strongest(sites: Seq<OracleSiteView>) -> OracleStrength
    decreases sites.len(),
{
    if sites.len() == 0 {
        OracleStrength::Absent
    } else {
        let before = strongest(sites.drop_last());
        if sites.last().strength.rank() > before.rank() {
            sites.last().strength
        } else {
            before
        }
    }
}

/// The oracle verdict for a test.
pub open spec fn oracles_of(t: TestItemView) -> TestOraclesView {
    TestOraclesView {
        test: t.id,
        strength: strongest(oracle_sites(t)),
        sites: order::sorted::<OracleSite>(oracle_sites(t)),
        findings: oracle_findings(t),
        receiver_calls: read_test(t).calls,
        asserted_idents: read_test(t).idents.to_set(),
    }
}

/// Puts the words of a list in order.
fn ident_set(idents: Vec<String>) -> (r: KeySet<String>)
    ensures
        r.wf(),
        r@.to_set() == text::texts(idents@).to_set(),
{
    let ghost all = text::texts(idents@);
    let mut set: KeySet<String> = KeySet::new();
    let mut i: usize = 0;
    while i < idents.len()
        invariant
            i <= idents@.len(),
            all == text::texts(idents@),
            set.wf(),
            forall|x: Seq<char>| #[trigger] set@.contains(x) <==> all.take(i as int).contains(x),
        decreases idents@.len() - i,
    {
        let ghost front = all.take(i as int);
        let ghost more = all.take(i as int + 1);
        assert(all[i as int] == idents@[i as int]@);
        set.insert(idents[i].clone());
        assert forall|x: Seq<char>| #[trigger] set@.contains(x) <==> more.contains(x) by {
            if front.contains(x) {
                let k = choose|k: int| 0 <= k < front.len() && front[k] == x;
                assert(more[k] == x);
            }
            if more.contains(x) {
                let k = choose|k: int| 0 <= k < more.len() && more[k] == x;
                if k < i {
                    assert(front[k] == x);
                }
            }
            if x == all[i as int] {
                assert(more[i as int] == x);
            }
        }
        i += 1;
    }
    assert(all.take(all.len() as int) =~= all);
    assert(set@.to_set() =~= all.to_set());
    set
}

/// The strongest oracle of a list.
fn best(sites: &Vec<OracleSite>) -> (r: OracleStrength)
    ensures
        r == strongest(order::views(sites@)),
{
    let ghost all = order::views(sites@);
    let mut r = OracleStrength::Absent;
    let mut i: usize = 0;
    while i < sites.len()
        invariant
            i <= sites@.len(),
            all == order::views(sites@),
            r == strongest(all.take(i as int)),
        decreases sites@.len() - i,
    {
        assert(all.take(i as int + 1).drop_last() =~= all.take(i as int));
        assert(all[i as int] == sites@[i as int]@);
        if sites[i].strength.level() > r.level() {
            r = sites[i].strength;
        }
        i += 1;
    }
    assert(all.take(all.len() as int) =~= all);
    r
}

/// Analyzes one test's oracles.
///
/// A test whose body is `None` is reported as *unanalyzed* rather than as
/// having no oracle, so an unparseable doctest does not become a finding.
pub fn analyze_test(test: &TestItem) -> (r: TestOracles)
    ensures
        r.asserted_idents.wf(),
        r@ == oracles_of(test@),
{
    assert(test@ =~= TestItemView { body: syntax::option_body(test.body), ..test@ });
    analyze_body(test, &test.body)
}

/// Analyzes the oracles of a test with this body.
fn analyze_body(test: &TestItem, body: &Option<Body>) -> (r: TestOracles)
    ensures
        r.asserted_idents.wf(),
        r@ == oracles_of(TestItemView { body: syntax::option_body(*body), ..test@ }),
{
    let ghost t = TestItemView { body: syntax::option_body(*body), ..test@ };
    let mut scan = Scan {
        test: test.id.copy(),
        sites: Vec::new(),
        findings: Vec::new(),
        receiver_calls: Vec::new(),
        idents: Vec::new(),
        panic_only_sites: 0,
    };
    assert(scan.reading() =~= Reading::nothing());
    if let Some(body) = body {
        scan.nodes(&body.nodes);
        assert(Reading::nothing().and(read_test(t)) =~= read_test(t));
    }
    let ghost read = scan.reading();
    assert(read == read_test(t));
    let body_sites: usize = scan.sites.len();
    let all_panics = body_sites > 0 && scan.panic_only_sites == body_sites;

    // `#[should_panic]` is itself an oracle, of two very different qualities.
    match test.should_panic {
        Some(ShouldPanic::Qualified) => {
            scan.sites.push(
                OracleSite {
                    line: test.span.start,
                    kind: text::owned("should_panic(expected)"),
                    strength: OracleStrength::Partial,
                },
            );
        },
        Some(ShouldPanic::Unqualified) => {
            scan.sites.push(
                OracleSite {
                    line: test.span.start,
                    kind: text::owned("should_panic"),
                    strength: OracleStrength::Weak,
                },
            );
            scan.flag(Rule::ShouldPanicUnqualified, test.span.start, "#[should_panic]");
        },
        None => {},
    }
    assert(order::views(scan.sites@) =~= oracle_sites(t));
    let ghost panics = if t.should_panic == Some(ShouldPanic::Unqualified) {
        seq![
            fires(
                Rule::ShouldPanicUnqualified,
                t.id,
                t.span.start,
                normalized("#[should_panic]"@),
            ),
        ]
    } else {
        Seq::empty()
    };
    assert(order::views(scan.findings@) =~= read.findings + panics);

    let mut findings = scan.findings;
    let sites = scan.sites;
    let ghost had = order::views(findings@);
    let ghost mut whole: Seq<FindingView> = Seq::empty();
    assert(had + whole =~= had);
    if sites.len() == 0 && body.is_some() {
        // A `None` body means the source could not be parsed, not that the test
        // asserts nothing. Do not invent a finding.
        let f = Finding {
            rule: Rule::NoOracle,
            test: test.id.copy(),
            line: test.span.start,
            symbol: None,
            snippet: String::new(),
        };
        assert(f.snippet@ =~= Seq::<char>::empty());
        proof {
            whole = seq![f@];
        }
        findings.push(f);
    } else if all_panics && test.should_panic != Some(ShouldPanic::Qualified) {
        // Every oracle present is a panic-on-failure, nothing inspects a value.
        assert(order::views(sites@)[0] == sites@[0]@);
        let f = Finding {
            rule: Rule::UnwrapOnly,
            test: test.id.copy(),
            line: sites[0].line,
            symbol: None,
            snippet: String::new(),
        };
        assert(f.snippet@ =~= Seq::<char>::empty());
        proof {
            whole = seq![f@];
        }
        findings.push(f);
    }
    assert(order::views(findings@) =~= had + whole);
    let ghost had2 = order::views(findings@);
    let ghost mut ignored: Seq<FindingView> = Seq::empty();
    assert(had2 + ignored =~= had2);
    if test.is_ignored {
        let f = Finding {
            rule: Rule::IgnoredTest,
            test: test.id.copy(),
            line: test.span.start,
            symbol: None,
            snippet: String::new(),
        };
        assert(f.snippet@ =~= Seq::<char>::empty());
        proof {
            ignored = seq![f@];
        }
        findings.push(f);
    }
    assert(order::views(findings@) =~= had2 + ignored);
    assert(order::views(findings@) =~= oracle_findings(t));
    let strength = best(&sites);
    let r = TestOracles {
        test: test.id.copy(),
        strength,
        sites: order::sort_stable(sites),
        findings,
        receiver_calls: scan.receiver_calls,
        asserted_idents: ident_set(scan.idents),
    };
    assert(r@ =~= oracles_of(t));
    r
}

// ---------------------------------------------------------------------------
// Results without a payload
// ---------------------------------------------------------------------------

/// Every inventoried symbol with this name returns a result that wraps `()`, and
/// there is one.
pub open spec fn returns_no_payload(symbols: Seq<SymbolView>, name: Seq<char>) -> bool {
    &&& exists|i: int| 0 <= i < symbols.len() && (#[trigger] symbols[i]).name == name
    &&& forall|i: int|
        0 <= i < symbols.len() && (#[trigger] symbols[i]).name == name
            ==> symbols[i].returns_unit_ok
}

fn no_payload(symbols: &Vec<Symbol>, name: &str) -> (r: bool)
    ensures
        r == returns_no_payload(order::views(symbols@), name@),
{
    let ghost all = order::views(symbols@);
    let mut found = false;
    let mut i: usize = 0;
    while i < symbols.len()
        invariant
            i <= symbols@.len(),
            all == order::views(symbols@),
            found <==> exists|k: int| 0 <= k < i && (#[trigger] all[k]).name == name@,
            forall|k: int| 0 <= k < i && (#[trigger] all[k]).name == name@ ==> all[k].returns_unit_ok,
        decreases symbols@.len() - i,
    {
        assert(all[i as int] == symbols@[i as int]@);
        if text::same(symbols[i].name.as_str(), name) {
            if !symbols[i].returns_unit_ok {
                return false;
            }
            found = true;
        }
        i += 1;
    }
    found
}

/// The function or method whose result `is_ok()` or `is_some()` is asked of.
pub open spec fn asked_of(arg: ArgView) -> Option<Seq<char>> {
    match arg.expr.shape {
        ShapeView::MethodCall(receiver, method, _) => if method == "is_ok"@ || method
            == "is_some"@ {
            match receiver.shape {
                ShapeView::MethodCall(_, inner, _) => Some(inner),
                ShapeView::Call => if arg.calls.len() > 1 {
                    Some(arg.calls[1])
                } else {
                    None
                },
                _ => None,
            }
        } else {
            None
        },
        _ => None,
    }
}

fn asked(arg: &Arg) -> (r: Option<String>)
    ensures
        text::option_text(r) == asked_of(arg@),
{
    proof {
        reveal_with_fuel(Expression::model, 3);
    }
    match &arg.expr.shape {
        Shape::MethodCall(receiver, method, _) => {
            if text::same(method.as_str(), "is_ok") || text::same(method.as_str(), "is_some") {
                match &receiver.shape {
                    Shape::MethodCall(_, inner, _) => Some(inner.clone()),
                    Shape::Call => if arg.calls.len() > 1 {
                        assert(arg@.calls[1] == arg.calls@[1]@);
                        Some(arg.calls[1].clone())
                    } else {
                        None
                    },
                    _ => None,
                }
            } else {
                None
            }
        },
        _ => None,
    }
}

/// An assertion's argument as it is to be read: where it asks whether there is a
/// success of a result that wraps `()`, it compares with the one success there is.
pub open spec fn settled_arg(symbols: Seq<SymbolView>, arg: ArgView) -> ArgView {
    match asked_of(arg) {
        Some(name) if returns_no_payload(symbols, name) => ArgView {
            expr: ExpressionView {
                shape: ShapeView::Binary(arg.expr.text, "Ok(())"@),
                ..arg.expr
            },
            ..arg
        },
        _ => arg,
    }
}

/// A macro call as it is to be read.
pub open spec fn settled_macro(symbols: Seq<SymbolView>, m: MacView) -> MacView {
    MacView { args: m.args.map_values(|a: ArgView| settled_arg(symbols, a)), ..m }
}

/// A place in a body as it is to be read: in the condition of an assertion a
/// success without a payload is all there is to see.
pub open spec fn settled_node(symbols: Seq<SymbolView>, n: NodeView) -> NodeView {
    match n {
        NodeView::Macro(m) => if m.name == Some("assert"@) || m.name == Some("debug_assert"@) {
            NodeView::Macro(settled_macro(symbols, m))
        } else {
            n
        },
        _ => n,
    }
}

/// A body as it is to be read.
pub open spec fn settled_body(symbols: Seq<SymbolView>, b: BodyView) -> BodyView {
    BodyView { nodes: b.nodes.map_values(|n: NodeView| settled_node(symbols, n)), ..b }
}

/// A test as it is to be read.
pub open spec fn settled(symbols: Seq<SymbolView>, t: TestItemView) -> TestItemView {
    TestItemView {
        body: match t.body {
            Some(b) => Some(settled_body(symbols, b)),
            None => None,
        },
        ..t
    }
}

/// The verdicts for the tests of an inventory.
pub open spec fn oracles_in(inv: InventoryView) -> Seq<TestOraclesView> {
    inv.tests.map_values(|t: TestItemView| oracles_of(settled(inv.symbols, t)))
}

fn settle_macro(symbols: &Vec<Symbol>, m: &Mac) -> (r: Mac)
    ensures
        r@ == settled_macro(order::views(symbols@), m@),
{
    let ghost all = order::views(symbols@);
    let mut args: Vec<Arg> = Vec::new();
    let mut i: usize = 0;
    while i < m.args.len()
        invariant
            i <= m.args@.len(),
            all == order::views(symbols@),
            args@.len() == i,
            forall|k: int| 0 <= k < i ==> (#[trigger] args@[k])@ == settled_arg(all, m.args@[k]@),
        decreases m.args@.len() - i,
    {
        let arg = &m.args[i];
        let mut copy = arg.copy();
        if let Some(name) = asked(arg) {
            if no_payload(symbols, name.as_str()) {
                copy.expr =
                Expression {
                    text: arg.expr.text.clone(),
                    shape: Shape::Binary(arg.expr.text.clone(), text::owned("Ok(())")),
                };
            }
        }
        assert(copy@ =~= settled_arg(all, arg@));
        args.push(copy);
        i += 1;
    }
    let r = Mac {
        name: text::copy_option(&m.name),
        line: m.line,
        tokens: m.tokens.clone(),
        args,
    };
    assert(r@.args =~= settled_macro(all, m@).args);
    r
}

fn settle_body(symbols: &Vec<Symbol>, body: &Body) -> (r: Body)
    ensures
        r@ == settled_body(order::views(symbols@), body@),
{
    let ghost all = order::views(symbols@);
    let mut r = body.copy();
    let mut nodes: Vec<Node> = Vec::new();
    let mut i: usize = 0;
    while i < body.nodes.len()
        invariant
            i <= body.nodes@.len(),
            all == order::views(symbols@),
            nodes@.len() == i,
            forall|k: int|
                0 <= k < i ==> (#[trigger] nodes@[k])@ == settled_node(all, body.nodes@[k]@),
        decreases body.nodes@.len() - i,
    {
        let node = match &body.nodes[i] {
            Node::Macro(m) => if text::option_is(&m.name, "assert") || text::option_is(
                &m.name,
                "debug_assert",
            ) {
                Node::Macro(settle_macro(symbols, m))
            } else {
                body.nodes[i].copy()
            },
            _ => body.nodes[i].copy(),
        };
        nodes.push(node);
        i += 1;
    }
    r.nodes = nodes;
    assert(r@.nodes =~= settled_body(all, body@).nodes);
    r
}

/// Analyzes every test in the inventory.
///
/// A result that wraps `()` carries no payload, so a check of its success looks at
/// everything there is, and is no check of a discriminant alone.
pub fn analyze(inv: &Inventory) -> (r: Vec<TestOracles>)
    ensures
        order::views(r@) == oracles_in(inv@),
        forall|i: int| 0 <= i < r@.len() ==> (#[trigger] r@[i]).asserted_idents.wf(),
{
    let ghost symbols = inv@.symbols;
    let mut out: Vec<TestOracles> = Vec::new();
    let mut i: usize = 0;
    while i < inv.tests.len()
        invariant
            i <= inv.tests@.len(),
            symbols == inv@.symbols,
            out@.len() == i,
            forall|k: int|
                0 <= k < i ==> (#[trigger] out@[k])@ == oracles_of(
                    settled(symbols, inv.tests@[k]@),
                ) && out@[k].asserted_idents.wf(),
        decreases inv.tests@.len() - i,
    {
        let test = &inv.tests[i];
        let body = match &test.body {
            Some(b) => Some(settle_body(&inv.symbols, b)),
            None => None,
        };
        assert(syntax::option_body(body) == settled(symbols, test@).body);
        out.push(analyze_body(test, &body));
        i += 1;
    }
    assert(order::views(out@) =~= oracles_in(inv@));
    out
}

/// A check of the success of a result that wraps `()` is a complete oracle, and
/// nothing is wrong with it.
pub proof fn law_unit_results_are_complete(symbols: Seq<SymbolView>, m: MacView, name: Seq<char>)
    requires
        name == "assert"@ || name == "debug_assert"@,
        m.args.len() > 0,
        asked_of(m.args[0]) is Some,
        returns_no_payload(symbols, asked_of(m.args[0])->0),
        normalized(m.args[0].expr.text) != normalized("Ok(())"@),
    ensures
        judge(settled_macro(symbols, m), name) == sound(OracleStrength::Strong),
{
    assert(settled_macro(symbols, m).args[0] == settled_arg(symbols, m.args[0]));
}

// ---------------------------------------------------------------------------
// Does the oracle have the right *shape* for what it claims?
// ---------------------------------------------------------------------------

/// The first call of a method.
pub open spec fn first_call(calls: Seq<ReceiverCallView>, method: Seq<char>) -> Option<
    ReceiverCallView,
>
    decreases calls.len(),
{
    if calls.len() == 0 {
        None
    } else if calls[0].method == method {
        Some(calls[0])
    } else {
        first_call(calls.skip(1), method)
    }
}

/// The symbols that a test claims directly, in the order of the claims.
pub open spec fn direct_claims(claims: Seq<ClaimView>, test: TestIdView) -> Seq<SymbolIdView>
    decreases claims.len(),
{
    if claims.len() == 0 {
        Seq::empty()
    } else if claims.last().test == test && claims.last().kind.direct() {
        direct_claims(claims.drop_last(), test).push(claims.last().symbol)
    } else {
        direct_claims(claims.drop_last(), test)
    }
}

/// The finding that a test on a symbol gives: the symbol takes `&mut self`, the
/// test calls it on a binding, and no assertion mentions that binding.
pub open spec fn mismatch(s: Option<SymbolView>, o: TestOraclesView) -> Option<FindingView> {
    match s {
        Some(s) => if s.required_oracle.needs_post_state() && s.self_kind == SelfKind::RefMut {
            match first_call(o.receiver_calls, s.name) {
                Some(call) => if o.asserted_idents.contains(call.receiver) {
                    None
                } else {
                    Some(
                        FindingView {
                            rule: Rule::OracleShapeMismatch,
                            test: o.test,
                            line: call.line,
                            symbol: Some(s.path),
                            snippet: "`"@ + call.receiver + "."@ + call.method + "(..)` mutates `"@
                                + call.receiver + "`, which no assertion observes"@,
                        },
                    )
                },
                None => None,
            }
        } else {
            None
        },
        None => None,
    }
}

/// The findings that a test gives on a list of symbols.
pub open spec fn mismatches_on(
    symbols: Seq<SymbolView>,
    ids: Seq<SymbolIdView>,
    o: TestOraclesView,
) -> Seq<FindingView>
    decreases ids.len(),
{
    if ids.len() == 0 {
        Seq::empty()
    } else {
        let before = mismatches_on(symbols, ids.drop_last(), o);
        match mismatch(inventory::symbol_with(symbols, ids.last()), o) {
            Some(f) => before.push(f),
            None => before,
        }
    }
}

/// The findings that a list of tests gives.
pub open spec fn mismatches_of(
    symbols: Seq<SymbolView>,
    claims: Seq<ClaimView>,
    oracles: Seq<TestOraclesView>,
) -> Seq<FindingView>
    decreases oracles.len(),
{
    if oracles.len() == 0 {
        Seq::empty()
    } else {
        mismatches_of(symbols, claims, oracles.drop_last()) + mismatches_on(
            symbols,
            direct_claims(claims, oracles.last().test),
            oracles.last(),
        )
    }
}

fn find_call<'a>(calls: &'a Vec<ReceiverCall>, method: &str) -> (r: Option<&'a ReceiverCall>)
    ensures
        match r {
            Some(c) => first_call(order::views(calls@), method@) == Some(c@),
            None => first_call(order::views(calls@), method@) is None,
        },
{
    let ghost all = order::views(calls@);
    let mut i: usize = 0;
    assert(all.skip(0) =~= all);
    while i < calls.len()
        invariant
            i <= calls@.len(),
            all == order::views(calls@),
            first_call(all, method@) == first_call(all.skip(i as int), method@),
        decreases calls@.len() - i,
    {
        assert(all.skip(i as int)[0] == calls@[i as int]@);
        assert(all.skip(i as int).skip(1) =~= all.skip(i + 1));
        if text::same(calls[i].method.as_str(), method) {
            return Some(&calls[i]);
        }
        i += 1;
    }
    None
}

/// The view of an optional finding.
pub open spec fn option_finding(f: Option<Finding>) -> Option<FindingView> {
    match f {
        Some(f) => Some(f@),
        None => None,
    }
}

/// Checks one test against one symbol that it claims directly.
fn check_shape(s: Option<&Symbol>, result: &TestOracles) -> (r: Option<Finding>)
    ensures
        option_finding(r) == mismatch(
            match s {
                Some(s) => Some(s@),
                None => None,
            },
            result@,
        ),
{
    let s = match s {
        Some(s) => s,
        None => {
            return None;
        },
    };
    if s.required_oracle != RequiredOracle::PostState && s.required_oracle != RequiredOracle::Both {
        return None;
    }
    if s.self_kind != SelfKind::RefMut {
        // A mutated `&mut` argument would need dataflow.
        return None;
    }
    // Did this test actually call it, on something that has a name?
    let call = match find_call(&result.receiver_calls, s.name.as_str()) {
        Some(call) => call,
        None => {
            return None;
        },
    };
    let seen = result.asserted_idents.contains(&call.receiver);
    assert(seen == result@.asserted_idents.contains(call@.receiver));
    if seen {
        return None;
    }
    let mut snippet = text::owned("`");
    snippet.append(call.receiver.as_str());
    snippet.append(".");
    snippet.append(call.method.as_str());
    snippet.append("(..)` mutates `");
    snippet.append(call.receiver.as_str());
    snippet.append("`, which no assertion observes");
    Some(
        Finding {
            rule: Rule::OracleShapeMismatch,
            test: result.test.copy(),
            line: call.line,
            symbol: Some(s.path.clone()),
            snippet,
        },
    )
}

/// Flags tests whose oracles cannot observe what the claimed symbol changes.
///
/// This rule exists because Rust puts effects in the type. A `fn(&mut self)`
/// communicates its result by mutating the receiver, so a test that only
/// inspects return values is structurally blind to it, however many assertions
/// it contains and whatever its coverage says.
///
/// The check is deliberately narrow: it fires only on *direct* claims (a
/// same-file test module, or a doctest), only when the symbol takes `&mut self`,
/// and only when the test demonstrably calls it on a named binding that no
/// assertion ever mentions.
pub fn shape_mismatches(inv: &Inventory, claims: &ClaimMap, oracles: &Vec<TestOracles>) -> (r: Vec<
    Finding,
>)
    ensures
        order::views(r@) == mismatches_of(inv@.symbols, claims@, order::views(oracles@)),
{
    let ghost all = order::views(oracles@);
    let ghost edges = claims@;
    let mut findings: Vec<Finding> = Vec::new();
    let mut i: usize = 0;
    assert(order::views(findings@) =~= mismatches_of(inv@.symbols, edges, all.take(0)));
    while i < oracles.len()
        invariant
            i <= oracles@.len(),
            all == order::views(oracles@),
            edges == claims@,
            order::views(findings@) == mismatches_of(inv@.symbols, edges, all.take(i as int)),
        decreases oracles@.len() - i,
    {
        let ghost before = order::views(findings@);
        assert(all.take(i as int + 1).drop_last() =~= all.take(i as int));
        assert(all[i as int] == oracles@[i as int]@);
        let result = &oracles[i];
        let mut k: usize = 0;
        assert(before + mismatches_on(
            inv@.symbols,
            direct_claims(edges.take(0), result@.test),
            result@,
        ) =~= before);
        while k < claims.claims.len()
            invariant
                k <= claims.claims@.len(),
                edges == claims@,
                order::views(findings@) == before + mismatches_on(
                    inv@.symbols,
                    direct_claims(edges.take(k as int), result@.test),
                    result@,
                ),
            decreases claims.claims@.len() - k,
        {
            let ghost sofar = order::views(findings@);
            let ghost ids = direct_claims(edges.take(k as int), result@.test);
            let ghost had = mismatches_on(inv@.symbols, ids, result@);
            assert(edges.take(k as int + 1).drop_last() =~= edges.take(k as int));
            assert(edges[k as int] == claims.claims@[k as int]@);
            let claim = &claims.claims[k];
            if claim.kind.is_direct() && claim.test.same(&result.test) {
                assert(ids.push(claim@.symbol).drop_last() =~= ids);
                if let Some(f) = check_shape(inv.symbol(&claim.symbol), result) {
                    let ghost fv = f@;
                    findings.push(f);
                    assert(order::views(findings@) =~= sofar.push(fv));
                    assert(sofar.push(fv) =~= before + had.push(fv));
                }
            }
            k += 1;
        }
        assert(edges.take(edges.len() as int) =~= edges);
        i += 1;
    }
    assert(all.take(all.len() as int) =~= all);
    findings
}

// ---------------------------------------------------------------------------
// Laws
// ---------------------------------------------------------------------------

/// Every rule is found by its id and by its name, and no two rules share either.
pub proof fn law_rules_are_found(rule: Rule, other: Rule)
    ensures
        rule.answers_to(text::lower_of(text::trim_of(rule.id_of()))),
        rule.answers_to(text::lower_of(text::trim_of(rule.name_of()))),
        rule != other ==> rule.id_of() != other.id_of() && rule.name_of() != other.name_of(),
{
    lemma_rule_texts(rule);
    lemma_trimmed(rule.id_of());
    lemma_trimmed(rule.name_of());
    if rule.id_of() == other.id_of() {
        lemma_one_rule(rule, other, text::lower_of(rule.id_of()));
    }
    if rule.name_of() == other.name_of() {
        lemma_one_rule(rule, other, rule.name_of());
    }
}

proof fn lemma_trimmed(s: Seq<char>)
    requires
        s.len() > 0,
        !text::is_space(s[0]),
        !text::is_space(s.last()),
    ensures
        text::trim_of(s) == s,
{
}

proof fn lemma_rule_texts(rule: Rule)
    ensures
        rule.id_of().len() > 0,
        !text::is_space(rule.id_of()[0]),
        !text::is_space(rule.id_of().last()),
        rule.name_of().len() > 0,
        !text::is_space(rule.name_of()[0]),
        !text::is_space(rule.name_of().last()),
        text::lower_of(rule.name_of()) == rule.name_of(),
{
    reveal_strlit("ORC001");
    reveal_strlit("ORC002");
    reveal_strlit("ORC003");
    reveal_strlit("ORC004");
    reveal_strlit("ORC005");
    reveal_strlit("ORC006");
    reveal_strlit("ORC007");
    reveal_strlit("ORC008");
    reveal_strlit("ORC009");
    reveal_strlit("ORC010");
    reveal_strlit("no-oracle");
    reveal_strlit("discriminant-only");
    reveal_strlit("unwrap-only");
    reveal_strlit("matches-wildcard");
    reveal_strlit("should-panic-unqualified");
    reveal_strlit("discarded-result");
    reveal_strlit("tautological-assert");
    reveal_strlit("ignored-test");
    reveal_strlit("computed-expectation");
    reveal_strlit("oracle-shape-mismatch");
    let name = rule.name_of();
    assert(text::lower_of(name) =~= name);
}

/// A test is judged by its best oracle: none of its oracles is stronger than the
/// test, and a test with an oracle is as strong as one of them.
pub proof fn law_strength_is_the_best(sites: Seq<OracleSiteView>)
    ensures
        forall|i: int|
            0 <= i < sites.len() ==> (#[trigger] sites[i]).strength.rank() <= strongest(
                sites,
            ).rank(),
        sites.len() == 0 ==> strongest(sites) == OracleStrength::Absent,
        sites.len() > 0 ==> exists|i: int|
            0 <= i < sites.len() && (#[trigger] sites[i]).strength == strongest(sites),
    decreases sites.len(),
{
    if sites.len() > 0 {
        let front = sites.drop_last();
        law_strength_is_the_best(front);
        assert forall|i: int| 0 <= i < sites.len() implies (#[trigger] sites[i]).strength.rank()
            <= strongest(sites).rank() by {
            if i < front.len() {
                assert(front[i] == sites[i]);
            }
        }
        if sites.last().strength.rank() > strongest(front).rank() || front.len() == 0 {
            assert(sites[sites.len() - 1].strength == strongest(sites)
                || strongest(sites).rank() == 0);
            if front.len() == 0 && sites.last().strength.rank() == 0 {
                assert(sites[0].strength == OracleStrength::Absent);
            }
        } else {
            let i = choose|i: int|
                0 <= i < front.len() && (#[trigger] front[i]).strength == strongest(front);
            assert(sites[i].strength == strongest(sites));
        }
    }
}

/// A test whose body could not be read is not reported as having no oracle.
pub proof fn law_unread_is_not_flagged(t: TestItemView)
    requires
        t.body is None,
    ensures
        forall|i: int|
            0 <= i < oracle_findings(t).len() ==> (#[trigger] oracle_findings(t)[i]).rule
                != Rule::NoOracle,
{
}

/// A finding on a test's own oracles is one of that test.
pub proof fn law_findings_name_their_test(t: TestItemView)
    ensures
        forall|i: int|
            0 <= i < oracle_findings(t).len() ==> (#[trigger] oracle_findings(t)[i]).test == t.id,
{
    if t.body is Some {
        lemma_read_tests(t.body->0.nodes, t.id);
    }
}

proof fn lemma_read_tests(nodes: Seq<NodeView>, test: TestIdView)
    ensures
        forall|i: int|
            0 <= i < read_nodes(nodes, test).findings.len() ==> (#[trigger] read_nodes(
                nodes,
                test,
            ).findings[i]).test == test,
    decreases nodes.len(),
{
    if nodes.len() > 0 {
        lemma_read_tests(nodes.drop_last(), test);
        let a = read_nodes(nodes.drop_last(), test).findings;
        let b = read_node(nodes.last(), test).findings;
        assert forall|i: int| 0 <= i < (a + b).len() implies (#[trigger] (a + b)[i]).test
            == test by {
            if i < a.len() {
                assert(a[i].test == test);
            } else {
                assert(b[i - a.len()].test == test);
            }
        }
    }
}

/// Every item that ends among these places began among them.
pub open spec fn well_nested(nodes: Seq<NodeView>) -> bool {
    forall|k: int|
        0 <= k < nodes.len() && (#[trigger] nodes[k]) is ItemEnd ==> items_open(nodes.take(k)) > 0
}

proof fn lemma_read_inside(a: Seq<NodeView>, inner: Seq<NodeView>, test: TestIdView)
    requires
        well_nested(inner),
    ensures
        read_nodes(a + seq![NodeView::ItemBegin] + inner, test) == read_nodes(a, test),
        items_open(a + seq![NodeView::ItemBegin] + inner) == items_open(a) + 1 + items_open(inner),
    decreases inner.len(),
{
    let all = a + seq![NodeView::ItemBegin] + inner;
    if inner.len() == 0 {
        assert(all.drop_last() =~= a);
        assert(all.last() == NodeView::ItemBegin);
        assert(read_nodes(a, test).and(Reading::nothing()) =~= read_nodes(a, test));
    } else {
        let front = inner.drop_last();
        assert forall|k: int| 0 <= k < front.len() && (#[trigger] front[k]) is ItemEnd implies items_open(
            front.take(k),
        ) > 0 by {
            assert(inner[k] == front[k]);
            assert(inner.take(k) =~= front.take(k));
        }
        lemma_read_inside(a, front, test);
        assert(all.drop_last() =~= a + seq![NodeView::ItemBegin] + front);
        assert(all.last() == inner.last());
        assert(inner[inner.len() - 1] == inner.last());
        assert(inner.take(inner.len() - 1) =~= front);
    }
}

/// An item declared inside a body, with all that it contains, gives nothing: the
/// body reads the same without it.
pub proof fn law_nested_items_are_not_read(
    a: Seq<NodeView>,
    inner: Seq<NodeView>,
    b: Seq<NodeView>,
    test: TestIdView,
)
    requires
        well_nested(inner),
        items_open(inner) == 0,
    ensures
        read_nodes(a + seq![NodeView::ItemBegin] + inner + seq![NodeView::ItemEnd] + b, test)
            == read_nodes(a + b, test),
        items_open(a + seq![NodeView::ItemBegin] + inner + seq![NodeView::ItemEnd] + b)
            == items_open(a + b),
    decreases b.len(),
{
    let head = a + seq![NodeView::ItemBegin] + inner;
    let item = head + seq![NodeView::ItemEnd];
    if b.len() == 0 {
        lemma_read_inside(a, inner, test);
        assert(item + b =~= item);
        assert(item.drop_last() =~= head);
        assert(item.last() == NodeView::ItemEnd);
        assert(a + b =~= a);
    } else {
        law_nested_items_are_not_read(a, inner, b.drop_last(), test);
        assert((item + b).drop_last() =~= item + b.drop_last());
        assert((a + b).drop_last() =~= a + b.drop_last());
    }
}

/// A finding of a list is of a rule.
pub open spec fn fired(fs: Seq<FindingView>, rule: Rule) -> bool {
    exists|i: int| 0 <= i < fs.len() && (#[trigger] fs[i]).rule == rule
}

/// A rule that fires at one place of a body.
pub open spec fn is_local(rule: Rule) -> bool {
    ||| rule == Rule::DiscriminantOnly
    ||| rule == Rule::MatchesWildcard
    ||| rule == Rule::DiscardedResult
    ||| rule == Rule::TautologicalAssert
    ||| rule == Rule::ComputedExpectation
}

proof fn lemma_judge_is_local(m: MacView, name: Seq<char>)
    ensures
        judge(m, name).flaw matches Some(f) ==> is_local(f.0),
{
    if m.args.len() > 0 {
        lemma_condition_is_local(m.args[0].expr, name);
    }
}

proof fn lemma_condition_is_local(e: ExpressionView, name: Seq<char>)
    ensures
        judge_condition(e, name).flaw matches Some(f) ==> is_local(f.0),
    decreases e,
{
    match e.shape {
        ShapeView::Unary(inner) => {
            lemma_condition_is_local(*inner, name);
        },
        _ => {},
    }
}

proof fn lemma_body_rules(nodes: Seq<NodeView>, test: TestIdView)
    ensures
        forall|i: int|
            0 <= i < read_nodes(nodes, test).findings.len() ==> is_local(
                (#[trigger] read_nodes(nodes, test).findings[i]).rule,
            ),
    decreases nodes.len(),
{
    if nodes.len() > 0 {
        lemma_body_rules(nodes.drop_last(), test);
        let a = read_nodes(nodes.drop_last(), test).findings;
        let b = read_node(nodes.last(), test).findings;
        match nodes.last() {
            NodeView::Macro(m) => {
                lemma_judge_is_local(
                    m,
                    match m.name {
                        Some(name) => name,
                        None => Seq::empty(),
                    },
                );
            },
            _ => {},
        }
        assert forall|i: int| 0 <= i < (a + b).len() implies is_local(
            (#[trigger] (a + b)[i]).rule,
        ) by {
            if i < a.len() {
                assert(is_local(a[i].rule));
            } else {
                assert(is_local(b[i - a.len()].rule));
            }
        }
    }
}

/// When the rules on a whole test fire: the body was read and nothing in the test
/// can fail; everything in the body that can fail is a panic, and no panic is
/// expected by name; any panic passes; the test does not run. The rule on the
/// shape of an oracle takes a claim, and never fires here.
pub proof fn law_rules_on_the_whole_test(t: TestItemView)
    ensures
        fired(oracle_findings(t), Rule::NoOracle) <==> t.body is Some && oracle_sites(t).len() == 0,
        fired(oracle_findings(t), Rule::UnwrapOnly) <==> only_unwraps(t),
        fired(oracle_findings(t), Rule::ShouldPanicUnqualified) <==> t.should_panic == Some(
            ShouldPanic::Unqualified,
        ),
        fired(oracle_findings(t), Rule::IgnoredTest) <==> t.is_ignored,
        !fired(oracle_findings(t), Rule::OracleShapeMismatch),
{
    let fs = oracle_findings(t);
    let body = read_test(t).findings;
    if t.body is Some {
        lemma_body_rules(t.body->0.nodes, t.id);
    }
    let n = body.len() as int;
    assert forall|i: int| 0 <= i < n implies is_local((#[trigger] fs[i]).rule) by {
        assert(fs[i] == body[i]);
    }
    let p: int = if t.should_panic == Some(ShouldPanic::Unqualified) { 1 } else { 0 };
    let w: int = if (oracle_sites(t).len() == 0 && t.body is Some) || only_unwraps(t) {
        1
    } else {
        0
    };
    if t.should_panic == Some(ShouldPanic::Unqualified) {
        assert(fs[n].rule == Rule::ShouldPanicUnqualified);
    }
    if oracle_sites(t).len() == 0 && t.body is Some {
        assert(fs[n + p].rule == Rule::NoOracle);
    } else if only_unwraps(t) {
        assert(fs[n + p].rule == Rule::UnwrapOnly);
    }
    if t.is_ignored {
        assert(fs[n + p + w].rule == Rule::IgnoredTest);
    }
    assert forall|i: int| n <= i < fs.len() implies {
        let r = (#[trigger] fs[i]).rule;
        ||| i == n && p == 1 && r == Rule::ShouldPanicUnqualified
        ||| i == n + p && w == 1 && (r == Rule::NoOracle || r == Rule::UnwrapOnly)
        ||| i == n + p + w && t.is_ignored && r == Rule::IgnoredTest
    } by {}
}

/// An ignored test is judged like any other: only the finding that says so is
/// added.
pub proof fn law_ignoring_keeps_the_oracles(t: TestItemView)
    requires
        t.is_ignored,
    ensures
        ({
            let run = oracles_of(TestItemView { is_ignored: false, ..t });
            let ignored = oracles_of(t);
            &&& ignored.strength == run.strength
            &&& ignored.sites == run.sites
            &&& ignored.findings.drop_last() == run.findings
        }),
{
    let awake = TestItemView { is_ignored: false, ..t };
    assert(read_test(awake) == read_test(t));
    assert(oracle_findings(t).drop_last() =~= oracle_findings(awake));
}

/// What a mismatch says of its symbol and its test: the symbol takes `&mut self`,
/// and no assertion of the test mentions the binding that the call was made on.
pub proof fn law_mismatch(s: SymbolView, o: TestOraclesView, f: FindingView)
    requires
        mismatch(Some(s), o) == Some(f),
    ensures
        f.rule == Rule::OracleShapeMismatch,
        f.test == o.test,
        f.symbol == Some(s.path),
        s.self_kind == SelfKind::RefMut,
        unobserved(o, s.name, f.line),
{
    lemma_first_call(o.receiver_calls, s.name);
}

/// The test calls a method, at a line, on a binding that no assertion mentions.
pub open spec fn unobserved(o: TestOraclesView, method: Seq<char>, line: u32) -> bool {
    exists|i: int|
        0 <= i < o.receiver_calls.len() && (#[trigger] o.receiver_calls[i]).method == method
            && o.receiver_calls[i].line == line && !o.asserted_idents.contains(
            o.receiver_calls[i].receiver,
        )
}

/// A test claims a symbol directly.
pub open spec fn directly_claims(edges: Seq<ClaimView>, test: TestIdView, id: SymbolIdView) -> bool {
    exists|k: int|
        0 <= k < edges.len() && (#[trigger] edges[k]).test == test && edges[k].symbol == id
            && edges[k].kind.direct()
}

/// A finding says of a test that it is blind to a symbol it answers for.
pub open spec fn says_blind(
    symbols: Seq<SymbolView>,
    edges: Seq<ClaimView>,
    o: TestOraclesView,
    f: FindingView,
) -> bool {
    exists|s: SymbolView| #[trigger]
        symbols.contains(s) && f.symbol == Some(s.path) && f.test == o.test && directly_claims(
            edges,
            o.test,
            s.id,
        ) && s.self_kind == SelfKind::RefMut && unobserved(o, s.name, f.line)
}

proof fn lemma_symbol_with(symbols: Seq<SymbolView>, id: SymbolIdView)
    ensures
        inventory::symbol_with(symbols, id) matches Some(s) ==> symbols.contains(s) && s.id == id,
    decreases symbols.len(),
{
    if symbols.len() > 0 {
        let front = symbols.drop_last();
        lemma_symbol_with(front, id);
        match inventory::symbol_with(front, id) {
            Some(s) => {
                let k = choose|k: int| 0 <= k < front.len() && front[k] == s;
                assert(symbols[k] == s);
            },
            None => {
                assert(symbols[symbols.len() - 1] == symbols.last());
            },
        }
    }
}

proof fn lemma_direct_claims(edges: Seq<ClaimView>, test: TestIdView, k: int)
    requires
        0 <= k < direct_claims(edges, test).len(),
    ensures
        directly_claims(edges, test, direct_claims(edges, test)[k]),
    decreases edges.len(),
{
    if edges.len() > 0 {
        let front = edges.drop_last();
        let before = direct_claims(front, test);
        if k < before.len() {
            lemma_direct_claims(front, test, k);
            let id = before[k];
            assert(direct_claims(edges, test)[k] == id);
            let j = choose|j: int|
                0 <= j < front.len() && (#[trigger] front[j]).test == test && front[j].symbol == id
                    && front[j].kind.direct();
            assert(edges[j] == front[j]);
        } else {
            assert(edges[edges.len() - 1] == edges.last());
        }
    }
}

proof fn lemma_mismatches_on(
    symbols: Seq<SymbolView>,
    edges: Seq<ClaimView>,
    ids: Seq<SymbolIdView>,
    o: TestOraclesView,
)
    requires
        forall|k: int| 0 <= k < ids.len() ==> directly_claims(edges, o.test, #[trigger] ids[k]),
    ensures
        forall|k: int|
            0 <= k < mismatches_on(symbols, ids, o).len() ==> says_blind(
                symbols,
                edges,
                o,
                #[trigger] mismatches_on(symbols, ids, o)[k],
            ),
    decreases ids.len(),
{
    if ids.len() > 0 {
        let front = ids.drop_last();
        assert forall|k: int| 0 <= k < front.len() implies directly_claims(
            edges,
            o.test,
            #[trigger] front[k],
        ) by {
            assert(front[k] == ids[k]);
        }
        lemma_mismatches_on(symbols, edges, front, o);
        let before = mismatches_on(symbols, front, o);
        let all = mismatches_on(symbols, ids, o);
        let found = inventory::symbol_with(symbols, ids.last());
        lemma_symbol_with(symbols, ids.last());
        assert(ids[ids.len() - 1] == ids.last());
        assert forall|k: int| 0 <= k < all.len() implies says_blind(
            symbols,
            edges,
            o,
            #[trigger] all[k],
        ) by {
            if k < before.len() {
                assert(all[k] == before[k]);
            } else {
                law_mismatch(found->0, o, all[k]);
                assert(symbols.contains(found->0));
            }
        }
    }
}

/// The rule on the shape of an oracle fires only on a direct claim, only when the
/// symbol takes `&mut self`, and only when the test calls it on a binding that no
/// assertion mentions.
pub proof fn law_mismatches_are_narrow(
    symbols: Seq<SymbolView>,
    edges: Seq<ClaimView>,
    oracles: Seq<TestOraclesView>,
    k: int,
)
    requires
        0 <= k < mismatches_of(symbols, edges, oracles).len(),
    ensures
        exists|i: int|
            0 <= i < oracles.len() && says_blind(
                symbols,
                edges,
                #[trigger] oracles[i],
                mismatches_of(symbols, edges, oracles)[k],
            ),
    decreases oracles.len(),
{
    if oracles.len() > 0 {
        let front = oracles.drop_last();
        let o = oracles.last();
        let before = mismatches_of(symbols, edges, front);
        let all = mismatches_of(symbols, edges, oracles);
        let ids = direct_claims(edges, o.test);
        if k < before.len() {
            law_mismatches_are_narrow(symbols, edges, front, k);
            assert(all[k] == before[k]);
            let i = choose|i: int|
                0 <= i < front.len() && says_blind(symbols, edges, #[trigger] front[i], before[k]);
            assert(oracles[i] == front[i]);
        } else {
            assert forall|j: int| 0 <= j < ids.len() implies directly_claims(
                edges,
                o.test,
                #[trigger] ids[j],
            ) by {
                lemma_direct_claims(edges, o.test, j);
            }
            lemma_mismatches_on(symbols, edges, ids, o);
            assert(all[k] == mismatches_on(symbols, ids, o)[k - before.len()]);
            assert(oracles[oracles.len() - 1] == o);
        }
    }
}

proof fn lemma_first_call(calls: Seq<ReceiverCallView>, method: Seq<char>)
    ensures
        match first_call(calls, method) {
            Some(c) => exists|i: int|
                0 <= i < calls.len() && #[trigger] calls[i] == c && c.method == method,
            None => forall|i: int|
                0 <= i < calls.len() ==> (#[trigger] calls[i]).method != method,
        },
    decreases calls.len(),
{
    if calls.len() > 0 && calls[0].method != method {
        let rest = calls.skip(1);
        lemma_first_call(rest, method);
        match first_call(rest, method) {
            Some(c) => {
                let i = choose|i: int|
                    0 <= i < rest.len() && #[trigger] rest[i] == c && c.method == method;
                assert(calls[i + 1] == c);
            },
            None => {
                assert forall|i: int| 0 <= i < calls.len() implies (#[trigger] calls[i]).method
                    != method by {
                    if i > 0 {
                        assert(rest[i - 1] == calls[i]);
                    }
                }
            },
        }
    }
}

} // verus!
