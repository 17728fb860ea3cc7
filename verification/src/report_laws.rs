//! What the reports count, show and leave out.

use vstd::prelude::*;
use crate::claims::{ClaimKind, ClaimView};
use crate::cli;
use crate::cli::DenyLevel;
use crate::coverage::{CoverageMap, SymbolCoverage};
use crate::inventory;
use crate::inventory::{TestIdView, TestItemView, TestKind};
use crate::lint::{Finding, FindingView, OracleStrength, Rule, Severity, TestOracles, TestOraclesView};
use crate::lint_laws::stronger;
use crate::mutation::{MutationMap, Verification};
use crate::order;
use crate::report;
use crate::report::{ExecutionState, ReportView, SummaryView};
use crate::symbol::{ReturnShape, SymbolView, Triviality};
use crate::text;

verus! {

// ---------------------------------------------------------------------------
// Severities
// ---------------------------------------------------------------------------

/// A rule of high severity: the test cannot tell right from wrong.
pub open spec fn is_high(rule: Rule) -> bool {
    ||| rule == Rule::NoOracle
    ||| rule == Rule::DiscriminantOnly
    ||| rule == Rule::TautologicalAssert
    ||| rule == Rule::ComputedExpectation
    ||| rule == Rule::OracleShapeMismatch
}

/// A rule of low severity.
pub open spec fn is_low(rule: Rule) -> bool {
    rule == Rule::DiscardedResult || rule == Rule::IgnoredTest
}

/// The counts of findings by severity.
pub proof fn law_counts_by_severity(fs: Seq<FindingView>)
    ensures
        report::with_severity(fs, Severity::High) == fs.filter(|f: FindingView| is_high(f.rule)).len(),
        report::with_severity(fs, Severity::Low) == fs.filter(|f: FindingView| is_low(f.rule)).len(),
        report::with_severity(fs, Severity::Medium) == fs.filter(
            |f: FindingView| !is_high(f.rule) && !is_low(f.rule),
        ).len(),
    decreases fs.len(),
{
    reveal(Seq::filter);
    if fs.len() > 0 {
        law_counts_by_severity(fs.drop_last());
    }
}

/// What a floor keeps: everything at the lowest, all but what is low at the middle
/// one, and only what is high at the highest; each in the order it had.
pub proof fn law_floors(fs: Seq<FindingView>)
    ensures
        report::at_least(fs, Severity::Low) == fs,
        report::at_least(fs, Severity::Medium) == fs.filter(|f: FindingView| !is_low(f.rule)),
        report::at_least(fs, Severity::High) == fs.filter(|f: FindingView| is_high(f.rule)),
    decreases fs.len(),
{
    reveal(Seq::filter);
    if fs.len() > 0 {
        law_floors(fs.drop_last());
        assert(report::at_least(fs, Severity::Low) =~= fs);
    }
}

/// Of two findings of a report the less severe never stands first. Of two equally
/// severe ones, the one in the file that comes first does, and in one file the one
/// on the earlier line.
pub proof fn law_the_worst_comes_first(tests: Seq<TestOraclesView>, i: int, j: int)
    requires
        0 <= i < j < report::ordered_findings(tests).len(),
    ensures
        ({
            let a = report::ordered_findings(tests)[i];
            let b = report::ordered_findings(tests)[j];
            &&& is_high(b.rule) ==> is_high(a.rule)
            &&& is_low(a.rule) ==> is_low(b.rule)
            &&& (is_high(a.rule) == is_high(b.rule) && is_low(a.rule) == is_low(b.rule)) ==> {
                &&& !text::earlier(b.test.file, a.test.file)
                &&& a.test.file == b.test.file ==> a.line <= b.line
            }
        }),
{
    order::lemma_sorted::<Finding>(report::gathered(tests));
    let all = report::ordered_findings(tests);
    let a = all[i];
    let b = all[j];
    assert(<Finding as order::Ranked>::ranks(a, b));
    if text::earlier(a.test.file, b.test.file) && text::earlier(b.test.file, a.test.file) {
        text::lemma_earlier_transitive(a.test.file, b.test.file, a.test.file);
    }
    text::lemma_earlier_irreflexive(a.test.file);
    text::lemma_earlier_irreflexive(b.test.file);
}

// ---------------------------------------------------------------------------
// Counts
// ---------------------------------------------------------------------------

/// A strength is counted once for each test that has it.
pub proof fn law_counts_by_strength(tests: Seq<TestOraclesView>, k: OracleStrength)
    ensures
        report::with_strength(tests, k) == tests.filter(|t: TestOraclesView| t.strength == k).len(),
    decreases tests.len(),
{
    reveal(Seq::filter);
    if tests.len() > 0 {
        law_counts_by_strength(tests.drop_last(), k);
    }
}

/// The symbols worth scoring are those with logic, in order, and the accessors are
/// counted apart from them and from what is empty.
pub proof fn law_counts_of_symbols(symbols: Seq<SymbolView>)
    ensures
        inventory::scorable_of(symbols) == symbols.filter(
            |s: SymbolView| s.triviality == Triviality::Normal,
        ),
        report::accessors(symbols) == symbols.filter(
            |s: SymbolView| s.triviality == Triviality::Accessor,
        ).len(),
    decreases symbols.len(),
{
    reveal(Seq::filter);
    if symbols.len() > 0 {
        law_counts_of_symbols(symbols.drop_last());
    }
}

/// The doctests are counted among the tests.
pub proof fn law_counts_of_doctests(tests: Seq<TestItemView>)
    ensures
        report::doctests(tests) == tests.filter(
            |t: TestItemView| t.kind == TestKind::Doctest,
        ).len(),
    decreases tests.len(),
{
    reveal(Seq::filter);
    if tests.len() > 0 {
        law_counts_of_doctests(tests.drop_last());
    }
}

/// The findings of two lists of verdicts are those of the one and then those of
/// the other, and those of one verdict are its own.
pub proof fn law_findings_are_gathered(
    a: Seq<TestOraclesView>,
    b: Seq<TestOraclesView>,
    t: TestOraclesView,
)
    ensures
        report::gathered(a + b) == report::gathered(a) + report::gathered(b),
        report::gathered(seq![t]) == t.findings,
    decreases b.len(),
{
    assert(seq![t].drop_last() =~= Seq::<TestOraclesView>::empty());
    assert(report::gathered(seq![t].drop_last()) =~= Seq::<FindingView>::empty());
    assert(report::gathered(seq![t]) =~= t.findings);
    if b.len() == 0 {
        assert(a + b =~= a);
        assert(report::gathered(a) + report::gathered(b) =~= report::gathered(a));
    } else {
        law_findings_are_gathered(a, b.drop_last(), t);
        assert((a + b).drop_last() =~= a + b.drop_last());
        assert((a + b).last() == b.last());
        assert(report::gathered(a + b) =~= report::gathered(a) + report::gathered(b));
    }
}

// ---------------------------------------------------------------------------
// Verdicts
// ---------------------------------------------------------------------------

/// Of two verdicts the stronger never stands first.
pub proof fn law_the_weakest_comes_first(tests: Seq<TestOraclesView>, i: int, j: int)
    requires
        0 <= i < j < order::sorted::<&TestOracles>(tests).len(),
    ensures
        ({
            let a = order::sorted::<&TestOracles>(tests)[i];
            let b = order::sorted::<&TestOracles>(tests)[j];
            &&& !stronger(a.strength, b.strength)
            &&& a.strength == b.strength ==> !text::earlier(b.test.path, a.test.path)
        }),
{
    order::lemma_sorted::<&TestOracles>(tests);
    let all = order::sorted::<&TestOracles>(tests);
    assert(<&TestOracles as order::Ranked>::ranks(all[i], all[j]));
}

/// A verdict is shown where everything is asked for, where it is worth less than a
/// partial one, and where something was found; a partial or strong one without a
/// finding is not.
pub proof fn law_shown_verdicts(t: TestOraclesView)
    ensures
        report::worth_showing(t, true),
        report::worth_showing(t, false) <==> t.strength == OracleStrength::Absent || t.strength
            == OracleStrength::Weak || t.findings.len() > 0,
{
}

/// Verdicts are shown one by one.
pub proof fn law_verdicts_are_shown_apart(
    tests: Seq<TestOraclesView>,
    t: TestOraclesView,
    verbose: bool,
)
    ensures
        report::verdict_lines(Seq::empty(), verbose).len() == 0,
        report::worth_showing(t, verbose) ==> report::verdict_lines(tests.push(t), verbose)
            == report::verdict_lines(tests, verbose) + report::verdict_line(t),
        !report::worth_showing(t, verbose) ==> report::verdict_lines(tests.push(t), verbose)
            == report::verdict_lines(tests, verbose),
{
    assert(tests.push(t).drop_last() =~= tests);
}

/// Asking for everything adds the reasoning to a finding, and changes nothing else
/// of what is shown of it.
pub proof fn law_verbose_findings(f: FindingView)
    ensures
        report::finding_text(f, true) == report::finding_text(f, false) + ("         "@
            + report::wrapped(f.rule.why_of(), 9, 78) + "\n"@),
{
    let short = report::finding_text(f, false);
    assert(short + Seq::<char>::empty() =~= short);
}

/// What is shown of a finding begins with its severity and its line, and names its
/// rule and its test.
pub proof fn law_finding_heads(f: FindingView, verbose: bool)
    ensures
        ({
            let mark = if is_high(f.rule) {
                "high"@
            } else if is_low(f.rule) {
                "low "@
            } else {
                "med "@
            };
            text::begins(
                report::finding_text(f, verbose),
                "  "@ + mark + ":"@ + text::padded(text::decimal_of(f.line as nat), 5) + " "@
                    + f.rule.id_of() + " "@ + text::padded(f.rule.name_of(), 24) + " "@
                    + crate::claims::leaf_of(f.test.path) + "\n"@,
            )
        }),
{
    let mark = if is_high(f.rule) {
        "high"@
    } else if is_low(f.rule) {
        "low "@
    } else {
        "med "@
    };
    let head = "  "@ + mark + ":"@ + text::padded(text::decimal_of(f.line as nat), 5) + " "@
        + f.rule.id_of() + " "@ + text::padded(f.rule.name_of(), 24) + " "@
        + crate::claims::leaf_of(f.test.path) + "\n"@;
    assert(report::severity_mark(f.rule.weight()) == mark);
    let on = match f.symbol {
        Some(s) => "         on "@ + s + "\n"@,
        None => Seq::empty(),
    };
    let quote = if f.snippet.len() == 0 {
        Seq::empty()
    } else {
        "         "@ + report::truncated(f.snippet, 96) + "\n"@
    };
    let reason = if verbose {
        "         "@ + report::wrapped(f.rule.why_of(), 9, 78) + "\n"@
    } else {
        Seq::empty()
    };
    let all = report::finding_text(f, verbose);
    assert(all == head + on + quote + reason);
    assert(all.subrange(0, head.len() as int) =~= head);
}

// ---------------------------------------------------------------------------
// Execution
// ---------------------------------------------------------------------------

/// What is known of a symbol that ran and of one that did not. One that ran is
/// executed, unless replacing its body would not compile. One that did not is
/// unexecuted, and the claim on it unbacked where an example or a test module of
/// its file makes one.
pub proof fn law_states_of_symbols(s: SymbolView, cov: CoverageMap, edges: Seq<ClaimView>)
    ensures
        ({
            let state = report::state_in(s, cov, edges);
            let ran = cov.ran(s.id);
            let beyond = s.is_const || s.returns == ReturnShape::ImplTrait || s.returns
                == ReturnShape::Never;
            let claimed = exists|i: int|
                0 <= i < edges.len() && (#[trigger] edges[i]).symbol == s.id && (edges[i].kind
                    == ClaimKind::Doctest || edges[i].kind == ClaimKind::SameFileTestModule);
            &&& state == ExecutionState::Executed <==> ran && !beyond
            &&& state == ExecutionState::NoViableMutant <==> ran && beyond
            &&& state == ExecutionState::ClaimedButUnexecuted <==> !ran && claimed
            &&& state == ExecutionState::Unexecuted <==> !ran && !claimed
        }),
{
}

/// A state is counted once for each symbol in it.
pub proof fn law_counts_of_states(
    symbols: Seq<SymbolView>,
    cov: CoverageMap,
    edges: Seq<ClaimView>,
    k: ExecutionState,
)
    ensures
        report::in_state(symbols, cov, edges, k) == symbols.filter(
            |s: SymbolView| report::state_in(s, cov, edges) == k,
        ).len(),
    decreases symbols.len(),
{
    reveal(Seq::filter);
    if symbols.len() > 0 {
        law_counts_of_states(symbols.drop_last(), cov, edges, k);
    }
}

/// The symbols of a file that are shown: all of them where everything is asked for,
/// and otherwise those that are not simply executed.
pub proof fn law_shown_symbols(
    symbols: Seq<SymbolView>,
    file: Seq<char>,
    cov: CoverageMap,
    edges: Seq<ClaimView>,
    verbose: bool,
)
    ensures
        report::symbol_lines(symbols, file, cov, edges, verbose) == symbols.filter(
            |s: SymbolView|
                s.id.file == file && (verbose || report::state_in(s, cov, edges)
                    != ExecutionState::Executed),
        ).map_values(
            |s: SymbolView|
                report::symbol_line(
                    s,
                    report::state_in(s, cov, edges),
                    report::evidence_for(cov, s.id),
                    verbose,
                ),
        ),
    decreases symbols.len(),
{
    reveal(Seq::filter);
    let shown = |s: SymbolView|
        s.id.file == file && (verbose || report::state_in(s, cov, edges)
            != ExecutionState::Executed);
    let line = |s: SymbolView|
        report::symbol_line(
            s,
            report::state_in(s, cov, edges),
            report::evidence_for(cov, s.id),
            verbose,
        );
    let all = symbols.filter(shown);
    if symbols.len() == 0 {
        assert(all.map_values(line) =~= Seq::<Seq<char>>::empty());
    } else {
        let front = symbols.drop_last();
        let before = front.filter(shown);
        law_shown_symbols(front, file, cov, edges, verbose);
        if shown(symbols.last()) {
            assert(all == before.push(symbols.last()));
            assert(all.map_values(line) =~= before.map_values(line).push(line(symbols.last())));
        }
    }
}

// ---------------------------------------------------------------------------
// Text
// ---------------------------------------------------------------------------

/// A noun agrees with its count: it stands alone behind one, and has an `s` behind
/// every other count.
pub proof fn law_plurals(n: nat, noun: Seq<char>)
    ensures
        n == 1 ==> report::counted(n, noun) == "1 "@ + noun,
        n != 1 ==> report::counted(n, noun) == text::decimal_of(n) + " "@ + noun + "s"@,
{
    reveal_strlit("1 ");
    reveal_strlit(" ");
    if n == 1 {
        assert(text::decimal_of(1) =~= seq!['1']) by {
            assert(text::decimal_of(1).len() == 1);
            assert(text::decimal_of(1)[0] as u32 == 49);
        }
        assert(seq!['1'] + " "@ =~= "1 "@);
    }
}

/// The section of unclaimed symbols: none where there are none, all of them where
/// everything is asked for or there are fifteen at most, and else the first fifteen
/// and how many are left.
pub proof fn law_unclaimed_sections(paths: Seq<Seq<char>>, verbose: bool)
    ensures
        paths.len() == 0 ==> report::unclaimed_text(paths, verbose).len() == 0,
        ({
            let title = "\nunclaimed symbols ("@ + text::decimal_of(paths.len())
                + ") -- no test speaks for these at all\n"@;
            &&& 0 < paths.len() && (verbose || paths.len() < 16) ==> report::unclaimed_text(
                paths,
                verbose,
            ) == title + report::name_lines(paths)
            &&& paths.len() >= 16 && !verbose ==> report::unclaimed_text(paths, verbose) == title
                + report::name_lines(paths.take(15)) + ("  ... and "@ + text::decimal_of(
                (paths.len() - 15) as nat,
            ) + " more\n"@)
        }),
{
    let title = "\nunclaimed symbols ("@ + text::decimal_of(paths.len())
        + ") -- no test speaks for these at all\n"@;
    let some = title + report::name_lines(paths);
    assert(some + Seq::<char>::empty() =~= some);
}

/// Names are listed one on each line, indented.
pub proof fn law_name_lines(names: Seq<Seq<char>>, name: Seq<char>)
    ensures
        report::name_lines(Seq::empty()).len() == 0,
        report::name_lines(names.push(name)) == report::name_lines(names) + "  "@ + name + "\n"@,
{
    assert(names.push(name).drop_last() =~= names);
    let a = report::name_lines(names);
    assert(a + ("  "@ + name + "\n"@) =~= a + "  "@ + name + "\n"@);
}

/// The last two segments of a path are kept.
pub proof fn law_leaf_paths(front: Seq<char>, a: Seq<char>, b: Seq<char>)
    requires
        !a.contains(':'),
        !b.contains(':'),
        !text::has(front + "::"@ + a + "::"@ + b, "::<"@),
    ensures
        report::leaf_path_of(front + "::"@ + a + "::"@ + b) == a + "::"@ + b,
        !text::has(a + "::"@ + b, "::<"@) ==> report::leaf_path_of(a + "::"@ + b) == a + "::"@ + b,
        !text::has(a, "::<"@) ==> report::leaf_path_of(a) == a,
{
    reveal_strlit("::");
    reveal_strlit("::<");
    let pair = "::"@;
    let whole = front + pair + a + pair + b;
    let head = front + pair + a;
    text::lemma_last_at(whole, "::<"@, whole.len() - 3);
    assert(text::last_occurrence(whole, "::<"@) is None) by {
        if let Some(i) = text::last_occurrence(whole, "::<"@) {
            assert(text::occurs_at(whole, "::<"@, i));
        }
    }
    assert(head + pair + b =~= whole);
    lemma_last_pair(head, b);
    lemma_last_pair(front, a);
    assert(whole.take(head.len() as int) =~= head);
    assert(whole.skip(front.len() as int + 2) =~= a + pair + b);
    let two = a + pair + b;
    lemma_last_pair(a, b);
    assert(two.take(a.len() as int) =~= a);
    lemma_no_pair(a);
    if !text::has(two, "::<"@) {
        text::lemma_last_at(two, "::<"@, two.len() - 3);
        if let Some(i) = text::last_occurrence(two, "::<"@) {
            assert(text::occurs_at(two, "::<"@, i));
        }
    }
    if !text::has(a, "::<"@) {
        text::lemma_last_at(a, "::<"@, a.len() - 3);
        if let Some(i) = text::last_occurrence(a, "::<"@) {
            assert(text::occurs_at(a, "::<"@, i));
        }
    }
}

proof fn lemma_no_pair(s: Seq<char>)
    requires
        !s.contains(':'),
    ensures
        text::last_occurrence(s, "::"@) is None,
{
    reveal_strlit("::");
    text::lemma_last_at(s, "::"@, s.len() - 2);
    if let Some(i) = text::last_occurrence(s, "::"@) {
        assert(s.subrange(i, i + 2)[0] == s[i]);
        assert("::"@[0] == ':');
        assert(s.contains(s[i]));
    }
}

proof fn lemma_last_pair(a: Seq<char>, b: Seq<char>)
    requires
        !b.contains(':'),
    ensures
        text::last_occurrence(a + "::"@ + b, "::"@) == Some(a.len() as int),
{
    reveal_strlit("::");
    let pair = "::"@;
    let s = a + pair + b;
    let n = a.len() as int;
    text::lemma_last_at(s, pair, s.len() - 2);
    assert(s.subrange(n, n + 2) =~= pair);
    assert(text::occurs_at(s, pair, n));
    if let Some(i) = text::last_occurrence(s, pair) {
        if i > n {
            assert(s.subrange(i, i + 2)[1] == s[i + 1]);
            assert(pair[1] == ':');
            assert(s[i + 1] == b[i + 1 - n - 2]);
            assert(b.contains(b[i + 1 - n - 2]));
        }
    }
}

// ---------------------------------------------------------------------------
// The command line
// ---------------------------------------------------------------------------

/// What is worth noting about a symbol: that there is nothing to score, and why;
/// that replacing its body would not compile; and its examples.
pub proof fn law_inventory_notes(s: SymbolView)
    ensures
        cli::notes_on(s).contains("accessor"@) <==> s.triviality == Triviality::Accessor,
        cli::notes_on(s).contains("empty"@) <==> s.triviality == Triviality::Empty,
        cli::notes_on(s).contains("type-enforced?"@) <==> s.is_const || s.returns
            == ReturnShape::ImplTrait || s.returns == ReturnShape::Never,
        s.doctests > 0 ==> cli::notes_on(s).contains(
            text::decimal_of(s.doctests as nat) + " doctest(s)"@,
        ),
{
    reveal_strlit("accessor");
    reveal_strlit("empty");
    reveal_strlit("type-enforced?");
    reveal_strlit(" doctest(s)");
    let notes = cli::notes_on(s);
    let d = text::decimal_of(s.doctests as nat) + " doctest(s)"@;
    let beyond = s.is_const || s.returns == ReturnShape::ImplTrait || s.returns
        == ReturnShape::Never;
    assert("accessor"@[7] == 'r' && "empty"@[4] == 'y' && "type-enforced?"@[13] == '?');
    assert("accessor"@.len() == 8 && "empty"@.len() == 5 && "type-enforced?"@.len() == 14);
    assert(d[d.len() - 1] == ')');
    assert(d != "accessor"@ && d != "empty"@ && d != "type-enforced?"@) by {
        assert(d.last() == ')');
    }
    let n0: int = if s.triviality == Triviality::Normal {
        0
    } else {
        1
    };
    let n1: int = if beyond {
        n0 + 1
    } else {
        n0
    };
    if s.triviality == Triviality::Accessor {
        assert(notes[0] == "accessor"@);
    }
    if s.triviality == Triviality::Empty {
        assert(notes[0] == "empty"@);
    }
    if beyond {
        assert(notes[n0] == "type-enforced?"@);
    }
    if s.doctests > 0 {
        assert(notes[n1] == d);
    }
    assert forall|i: int| 0 <= i < notes.len() implies {
        ||| i == 0 && s.triviality == Triviality::Accessor && #[trigger] notes[i] == "accessor"@
        ||| i == 0 && s.triviality == Triviality::Empty && notes[i] == "empty"@
        ||| i == n0 && beyond && notes[i] == "type-enforced?"@
        ||| i == n1 && s.doctests > 0 && notes[i] == d
    } by {
    }
}

/// The inventory shows the symbols one by one: those with logic, or all where
/// everything is asked for.
pub proof fn law_inventory_lines(symbols: Seq<SymbolView>, s: SymbolView, verbose: bool)
    ensures
        cli::inventory_lines(Seq::empty(), verbose).len() == 0,
        verbose || s.triviality == Triviality::Normal ==> cli::inventory_lines(
            symbols.push(s),
            verbose,
        ) == cli::inventory_lines(symbols, verbose) + cli::inventory_line(s),
        !verbose && s.triviality != Triviality::Normal ==> cli::inventory_lines(
            symbols.push(s),
            verbose,
        ) == cli::inventory_lines(symbols, verbose),
{
    assert(symbols.push(s).drop_last() =~= symbols);
}

/// A symbol without a claimant is shown as unclaimed. One with claimants is shown
/// with all of them where everything is asked for or there are four at most, and
/// else with the first four and how many are left.
pub proof fn law_claim_sections(
    s: SymbolView,
    claimants: Seq<(TestIdView, ClaimKind)>,
    verbose: bool,
)
    ensures
        claimants.len() == 0 ==> cli::claim_section(s, claimants, verbose) == text::padded(
            report::truncated(s.path, 52),
            52,
        ) + " UNCLAIMED\n"@,
        claimants.len() > 0 && (verbose || claimants.len() < 5) ==> cli::claim_section(
            s,
            claimants,
            verbose,
        ) == s.path + "\n"@ + cli::claimant_lines(claimants),
        claimants.len() >= 5 && !verbose ==> cli::claim_section(s, claimants, verbose) == s.path
            + "\n"@ + cli::claimant_lines(claimants.take(4)) + ("    ... and "@ + text::decimal_of(
            (claimants.len() - 4) as nat,
        ) + " more\n"@),
{
}

/// A symbol whose file the run never examined is not shown, and every other is,
/// with its path and its state.
pub proof fn law_verdict_lines(s: SymbolView, map: MutationMap)
    ensures
        map.state_of(s) == Verification::OutOfScope ==> cli::verdict_line(s, map).len() == 0,
        map.state_of(s) != Verification::OutOfScope ==> text::begins(
            cli::verdict_line(s, map),
            text::padded(s.path, 50) + " "@ + text::padded(
                match map.state_of(s) {
                    Verification::Verified => "verified"@,
                    Verification::PseudoTested => "PSEUDO-TESTED"@,
                    Verification::NoViableMutant => "no viable mutant"@,
                    Verification::Inconclusive => "inconclusive"@,
                    Verification::NotMutated => "not mutated"@,
                    Verification::OutOfScope => "out of scope"@,
                },
                18,
            ),
        ),
{
    if map.state_of(s) != Verification::OutOfScope {
        let head = text::padded(s.path, 50) + " "@ + text::padded(map.state_of(s).name_of(), 18);
        let all = cli::verdict_line(s, map);
        assert(all.subrange(0, head.len() as int) =~= head);
    }
}

/// How many findings make a run fail: none where nothing is denied, all of them at
/// the lowest level, those that are not low at the middle one, and those that are
/// high at the highest.
pub proof fn law_denials(fs: Seq<FindingView>)
    ensures
        cli::denials(fs, DenyLevel::Never) == 0,
        cli::denials(fs, DenyLevel::Low) == fs.len(),
        cli::denials(fs, DenyLevel::Medium) == fs.filter(|f: FindingView| !is_low(f.rule)).len(),
        cli::denials(fs, DenyLevel::High) == fs.filter(|f: FindingView| is_high(f.rule)).len(),
{
    law_floors(fs);
}

/// What the states and the strengths are called.
pub proof fn law_labels(state: ExecutionState, strength: OracleStrength)
    ensures
        state.name_of() == match state {
            ExecutionState::Unexecuted => "unexecuted"@,
            ExecutionState::ClaimedButUnexecuted => "claimed, not run"@,
            ExecutionState::Executed => "executed"@,
            ExecutionState::NoViableMutant => "no viable mutant"@,
        },
        strength.name_of() == match strength {
            OracleStrength::Absent => "none"@,
            OracleStrength::Weak => "weak"@,
            OracleStrength::Partial => "partial"@,
            OracleStrength::Strong => "strong"@,
        },
{
}

/// The totals of an audit name each strength with its count, the findings by
/// severity, and the unclaimed symbols among those worth scoring.
pub proof fn law_totals(s: SummaryView)
    ensures
        report::totals_text(s) == "\nsummary\n  oracle strength   "@ + ("strong "@
            + text::decimal_of(report::strength_count(s.strength, OracleStrength::Strong)))
            + "   "@ + ("partial "@ + text::decimal_of(
            report::strength_count(s.strength, OracleStrength::Partial),
        )) + "   "@ + ("weak "@ + text::decimal_of(
            report::strength_count(s.strength, OracleStrength::Weak),
        )) + "   "@ + ("none "@ + text::decimal_of(
            report::strength_count(s.strength, OracleStrength::Absent),
        )) + "\n  findings          "@ + text::decimal_of(s.findings_high) + " high, "@
            + text::decimal_of(s.findings_medium) + " medium, "@ + text::decimal_of(s.findings_low)
            + " low\n  unclaimed         "@ + text::decimal_of(s.symbols_unclaimed) + " of "@
            + text::decimal_of(s.symbols_scorable) + " scorable symbols\n"@,
{
    reveal_strlit("strong");
    reveal_strlit("strong ");
    reveal_strlit("partial");
    reveal_strlit("partial ");
    reveal_strlit("weak");
    reveal_strlit("weak ");
    reveal_strlit("none");
    reveal_strlit("none ");
    reveal_strlit(" ");
    assert("strong"@ + " "@ =~= "strong "@);
    assert("partial"@ + " "@ =~= "partial "@);
    assert("weak"@ + " "@ =~= "weak "@);
    assert("none"@ + " "@ =~= "none "@);
}

/// The parts of an audit, in their order.
pub proof fn law_audit_parts(r: ReportView, verbose: bool)
    ensures
        report::audit_text(r, verbose) == report::head_text(r.summary) + report::failures_text(
            r.parse_failures,
        ) + report::findings_text(r.findings, verbose) + report::verdicts_text(r.tests, verbose)
            + report::unclaimed_text(r.unclaimed, verbose) + report::totals_text(r.summary)
            + report::AUDIT_NOTE@,
        r.findings.len() == 0 ==> report::findings_text(r.findings, verbose) == "no findings.\n\n"@,
        r.parse_failures.len() == 0 ==> report::failures_text(r.parse_failures).len() == 0,
{
}

/// The findings of a file are shown under it and under no other, in their order.
pub proof fn law_findings_of_a_file(
    fs: Seq<FindingView>,
    f: FindingView,
    file: Seq<char>,
    verbose: bool,
)
    ensures
        report::file_findings(Seq::empty(), file, verbose).len() == 0,
        f.test.file == file ==> report::file_findings(fs.push(f), file, verbose)
            == report::file_findings(fs, file, verbose) + report::finding_text(f, verbose),
        f.test.file != file ==> report::file_findings(fs.push(f), file, verbose)
            == report::file_findings(fs, file, verbose),
{
    assert(fs.push(f).drop_last() =~= fs);
}

/// What is noted of the evidence for a symbol: several entries only where
/// everything is asked for, and closures only where one never ran.
pub proof fn law_evidence_notes(cov: SymbolCoverage)
    ensures
        report::notes_on(cov, false).len() == if cov.nested_uncovered > 0 { 1nat } else { 0 },
        report::notes_on(cov, true).len() == report::notes_on(cov, false).len() + if cov.entries
            > 1 { 1nat } else { 0 },
        cov.execution_count == 0 <==> report::times(cov) == "-"@,
{
    reveal_strlit("-");
    reveal_strlit("x");
    if cov.execution_count > 0 {
        let d = text::decimal_of(cov.execution_count as nat);
        let t = report::times(cov);
        assert(t.last() == 'x');
        assert("-"@.last() == '-');
    }
}

} // verus!
