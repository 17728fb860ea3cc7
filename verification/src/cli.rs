//! What the command line decides and prints.

use vstd::prelude::*;
use crate::claims;
use crate::claims::{ClaimKind, ClaimMap, ClaimView, Claimant};
use crate::inventory;
use crate::inventory::{Inventory, InventoryView, TestId, TestIdView};
use crate::lint::{FindingView, Severity};
use crate::mutation::{MutationMap, SymbolVerdict, Verification};
use crate::order;
use crate::report;
use crate::report::Report;
use crate::symbol::{RequiredOracle, Symbol, SymbolKind, SymbolView, Triviality};
use crate::text;

verus! {

// ---------------------------------------------------------------------------
// Failing a run
// ---------------------------------------------------------------------------

/// Which findings make a run fail.
#[derive(Clone, Copy, Debug, PartialEq, Eq, PartialOrd, Ord, Structural)]
pub enum DenyLevel {
    /// Every finding.
    Low,
    /// Those of medium severity and above.
    Medium,
    /// Those of high severity.
    High,
    /// None.
    Never,
}

/// The severity at which findings begin to make a run fail.
pub fn floor(deny: DenyLevel) -> (r: Option<Severity>)
    ensures
        r == match deny {
            DenyLevel::Low => Some(Severity::Low),
            DenyLevel::Medium => Some(Severity::Medium),
            DenyLevel::High => Some(Severity::High),
            DenyLevel::Never => None::<Severity>,
        },
{
    match deny {
        DenyLevel::Low => Some(Severity::Low),
        DenyLevel::Medium => Some(Severity::Medium),
        DenyLevel::High => Some(Severity::High),
        DenyLevel::Never => None,
    }
}

/// How many of a list of findings make a run fail.
pub open spec fn denials(fs: Seq<FindingView>, deny: DenyLevel) -> nat {
    match deny {
        DenyLevel::Low => report::at_least(fs, Severity::Low).len(),
        DenyLevel::Medium => report::at_least(fs, Severity::Medium).len(),
        DenyLevel::High => report::at_least(fs, Severity::High).len(),
        DenyLevel::Never => 0,
    }
}

/// How many findings make a run fail. None do at [`DenyLevel::Never`].
pub fn denied(report: &Report, deny: DenyLevel) -> (r: usize)
    ensures
        r == match deny {
            DenyLevel::Low => report::at_least(report@.findings, Severity::Low).len(),
            DenyLevel::Medium => report::at_least(report@.findings, Severity::Medium).len(),
            DenyLevel::High => report::at_least(report@.findings, Severity::High).len(),
            DenyLevel::Never => 0,
        },
        r == denials(report@.findings, deny),
{
    match floor(deny) {
        Some(floor) => report.findings_at_least(floor).len(),
        None => 0,
    }
}

/// What a failing run says.
pub fn denial(n: usize) -> (r: String)
    ensures
        r@ == "\n"@ + text::decimal_of(n as nat) + " finding(s) at or above the --deny threshold"@,
{
    let mut out = text::owned("\n");
    out.append(text::count(n).as_str());
    out.append(" finding(s) at or above the --deny threshold");
    out
}

// ---------------------------------------------------------------------------
// The inventory
// ---------------------------------------------------------------------------

/// The name of a kind of symbol.
pub open spec fn kind_name(k: SymbolKind) -> Seq<char> {
    match k {
        SymbolKind::Free => "free"@,
        SymbolKind::Inherent => "inherent"@,
        SymbolKind::TraitImpl => "traitimpl"@,
        SymbolKind::TraitDefault => "traitdefault"@,
    }
}

fn show_kind(k: SymbolKind) -> (r: &'static str)
    ensures
        r@ == kind_name(k),
{
    match k {
        SymbolKind::Free => "free",
        SymbolKind::Inherent => "inherent",
        SymbolKind::TraitImpl => "traitimpl",
        SymbolKind::TraitDefault => "traitdefault",
    }
}

/// The name of what a test must observe.
pub open spec fn oracle_name(o: RequiredOracle) -> Seq<char> {
    match o {
        RequiredOracle::ReturnValue => "returnvalue"@,
        RequiredOracle::PostState => "poststate"@,
        RequiredOracle::Both => "both"@,
        RequiredOracle::SideChannel => "sidechannel"@,
    }
}

fn show_oracle(o: RequiredOracle) -> (r: &'static str)
    ensures
        r@ == oracle_name(o),
{
    match o {
        RequiredOracle::ReturnValue => "returnvalue",
        RequiredOracle::PostState => "poststate",
        RequiredOracle::Both => "both",
        RequiredOracle::SideChannel => "sidechannel",
    }
}

/// What is worth noting about a symbol.
pub open spec fn notes_on(s: SymbolView) -> Seq<Seq<char>> {
    let trivial = match s.triviality {
        Triviality::Normal => Seq::<Seq<char>>::empty(),
        Triviality::Accessor => seq!["accessor"@],
        Triviality::Empty => seq!["empty"@],
    };
    let enforced = if s.unviable() {
        seq!["type-enforced?"@]
    } else {
        Seq::<Seq<char>>::empty()
    };
    let doctests = if s.doctests > 0 {
        seq![text::decimal_of(s.doctests as nat) + " doctest(s)"@]
    } else {
        Seq::<Seq<char>>::empty()
    };
    trivial + enforced + doctests
}

/// The line for a symbol.
pub open spec fn inventory_line(s: SymbolView) -> Seq<char> {
    text::padded(report::truncated(s.path, 52), 52) + " "@ + text::padded(kind_name(s.kind), 12)
        + " "@ + text::padded(oracle_name(s.required_oracle), 13) + " "@ + text::join_of(
        notes_on(s),
        ", "@,
    ) + "\n"@
}

fn show_symbol(s: &Symbol) -> (r: String)
    ensures
        r@ == inventory_line(s@),
{
    let mut notes: Vec<String> = Vec::new();
    match s.triviality {
        Triviality::Normal => {},
        Triviality::Accessor => {
            notes.push(text::owned("accessor"));
        },
        Triviality::Empty => {
            notes.push(text::owned("empty"));
        },
    }
    if s.likely_unviable_to_mutate() {
        notes.push(text::owned("type-enforced?"));
    }
    if s.doctests > 0 {
        let mut note = text::count(s.doctests);
        note.append(" doctest(s)");
        notes.push(note);
    }
    assert(text::texts(notes@) =~= notes_on(s@));
    let mut out = text::pad(report::truncate(s.path.as_str(), 52).as_str(), 52);
    out.append(" ");
    out.append(text::pad(show_kind(s.kind), 12).as_str());
    out.append(" ");
    out.append(text::pad(show_oracle(s.required_oracle), 13).as_str());
    out.append(" ");
    out.append(text::join(&notes, ", ").as_str());
    out.append("\n");
    out
}

/// The lines for symbols: those worth scoring, or all.
pub open spec fn inventory_lines(symbols: Seq<SymbolView>, verbose: bool) -> Seq<char>
    decreases symbols.len(),
{
    if symbols.len() == 0 {
        Seq::empty()
    } else if verbose || symbols.last().scorable() {
        inventory_lines(symbols.drop_last(), verbose) + inventory_line(symbols.last())
    } else {
        inventory_lines(symbols.drop_last(), verbose)
    }
}

/// The inventory as a table.
pub open spec fn inventory_text(inv: InventoryView, verbose: bool) -> Seq<char> {
    text::padded("SYMBOL"@, 52) + " "@ + text::padded("KIND"@, 12) + " "@ + text::padded(
        "NEEDS"@,
        13,
    ) + " NOTES\n"@ + inventory_lines(inv.symbols, verbose)
}

/// Renders the testable symbols and the oracle shape each one requires.
pub fn render_inventory(inv: &Inventory, verbose: bool) -> (r: String)
    ensures
        r@ == inventory_text(inv@, verbose),
{
    let ghost all = inv@.symbols;
    let mut out = text::pad("SYMBOL", 52);
    out.append(" ");
    out.append(text::pad("KIND", 12).as_str());
    out.append(" ");
    out.append(text::pad("NEEDS", 13).as_str());
    out.append(" NOTES\n");
    let ghost start = out@;
    let mut i: usize = 0;
    assert(start + inventory_lines(all.take(0), verbose) =~= start);
    while i < inv.symbols.len()
        invariant
            i <= inv.symbols@.len(),
            all == inv@.symbols,
            out@ == start + inventory_lines(all.take(i as int), verbose),
        decreases inv.symbols@.len() - i,
    {
        let ghost before = inventory_lines(all.take(i as int), verbose);
        assert(all.take(i as int + 1).drop_last() =~= all.take(i as int));
        assert(all[i as int] == inv.symbols@[i as int]@);
        let s = &inv.symbols[i];
        if verbose || s.triviality.is_scorable() {
            let line = show_symbol(s);
            out.append(line.as_str());
            assert(start + before + line@ =~= start + (before + line@));
        }
        i += 1;
    }
    assert(all.take(all.len() as int) =~= all);
    out
}

// ---------------------------------------------------------------------------
// The claims
// ---------------------------------------------------------------------------

/// The name of a kind of claim.
pub open spec fn claim_name(k: ClaimKind) -> Seq<char> {
    match k {
        ClaimKind::Doctest => "doctest"@,
        ClaimKind::SameFileTestModule => "samefiletestmodule"@,
        ClaimKind::NameSimilarity => "namesimilarity"@,
        ClaimKind::IntegrationSurface => "integrationsurface"@,
    }
}

fn show_claim(k: ClaimKind) -> (r: &'static str)
    ensures
        r@ == claim_name(k),
{
    match k {
        ClaimKind::Doctest => "doctest",
        ClaimKind::SameFileTestModule => "samefiletestmodule",
        ClaimKind::NameSimilarity => "namesimilarity",
        ClaimKind::IntegrationSurface => "integrationsurface",
    }
}

/// One line for each claimant.
pub open spec fn claimant_lines(claimants: Seq<(TestIdView, ClaimKind)>) -> Seq<char>
    decreases claimants.len(),
{
    if claimants.len() == 0 {
        Seq::empty()
    } else {
        claimant_lines(claimants.drop_last()) + ("    "@ + text::padded(
            claim_name(claimants.last().1),
            22,
        ) + " "@ + claimants.last().0.path + "\n"@)
    }
}

/// The lines for a symbol: who claims it, the first four unless everything is
/// asked for, or that nobody does.
pub open spec fn claim_section(
    s: SymbolView,
    claimants: Seq<(TestIdView, ClaimKind)>,
    verbose: bool,
) -> Seq<char> {
    if claimants.len() == 0 {
        text::padded(report::truncated(s.path, 52), 52) + " UNCLAIMED\n"@
    } else if verbose || claimants.len() <= 4 {
        s.path + "\n"@ + claimant_lines(claimants)
    } else {
        s.path + "\n"@ + claimant_lines(claimants.take(4)) + ("    ... and "@ + text::decimal_of(
            (claimants.len() - 4) as nat,
        ) + " more\n"@)
    }
}

/// Who claims a symbol, the strongest first.
pub open spec fn claimants_of(edges: Seq<ClaimView>, s: SymbolView) -> Seq<
    (TestIdView, ClaimKind),
> {
    order::sorted::<Claimant>(claims::edges_to(edges, s.id))
}

/// The sections of a list of symbols.
pub open spec fn claim_sections(
    symbols: Seq<SymbolView>,
    edges: Seq<ClaimView>,
    verbose: bool,
) -> Seq<char>
    decreases symbols.len(),
{
    if symbols.len() == 0 {
        Seq::empty()
    } else {
        claim_sections(symbols.drop_last(), edges, verbose) + claim_section(
            symbols.last(),
            claimants_of(edges, symbols.last()),
            verbose,
        )
    }
}

fn show_claimants(claimants: &Vec<(&TestId, ClaimKind)>, n: usize) -> (r: String)
    requires
        n <= claimants@.len(),
    ensures
        r@ == claimant_lines(order::views(claimants@).take(n as int)),
{
    let ghost all = order::views(claimants@);
    let mut out = String::new();
    let mut i: usize = 0;
    assert(out@ =~= claimant_lines(all.take(0)));
    while i < n
        invariant
            i <= n <= claimants@.len(),
            all == order::views(claimants@),
            out@ == claimant_lines(all.take(i as int)),
        decreases n - i,
    {
        assert(all.take(i as int + 1).drop_last() =~= all.take(i as int));
        assert(all[i as int] == (claimants@[i as int].0@, claimants@[i as int].1));
        let mut line = text::owned("    ");
        line.append(text::pad(show_claim(claimants[i].1), 22).as_str());
        line.append(" ");
        line.append(claimants[i].0.path.as_str());
        line.append("\n");
        out.append(line.as_str());
        i += 1;
    }
    out
}

fn show_claims_on(s: &Symbol, claims: &ClaimMap, verbose: bool) -> (r: String)
    ensures
        r@ == claim_section(s@, claimants_of(claims@, s@), verbose),
{
    let claimants = claims.claimants(&s.id);
    let ghost all = order::views(claimants@);
    assert(all.len() == claimants@.len());
    let n: usize = claimants.len();
    if n == 0 {
        let mut out = text::pad(report::truncate(s.path.as_str(), 52).as_str(), 52);
        out.append(" UNCLAIMED\n");
        return out;
    }
    let shown: usize = if verbose || n <= 4 {
        n
    } else {
        4
    };
    assert(all.take(n as int) =~= all);
    let mut out = s.path.clone();
    out.append("\n");
    out.append(show_claimants(&claimants, shown).as_str());
    if shown < n {
        let mut rest = text::owned("    ... and ");
        rest.append(text::count(n - 4).as_str());
        rest.append(" more\n");
        out.append(rest.as_str());
    }
    out
}

/// Renders which tests claim which symbols, and what nothing claims.
pub fn render_claims(inv: &Inventory, claims: &ClaimMap, verbose: bool) -> (r: String)
    ensures
        r@ == claim_sections(inventory::scorable_of(inv@.symbols), claims@, verbose),
{
    let scorable = inv.scorable();
    let ghost all = inventory::scorable_of(inv@.symbols);
    let mut out = String::new();
    let mut i: usize = 0;
    assert(out@ =~= claim_sections(all.take(0), claims@, verbose));
    while i < scorable.len()
        invariant
            i <= scorable@.len(),
            all == inventory::symbol_views(scorable@),
            out@ == claim_sections(all.take(i as int), claims@, verbose),
        decreases scorable@.len() - i,
    {
        assert(all.take(i as int + 1).drop_last() =~= all.take(i as int));
        assert(all[i as int] == scorable@[i as int]@);
        out.append(show_claims_on(scorable[i], claims, verbose).as_str());
        i += 1;
    }
    assert(all.take(all.len() as int) =~= all);
    out
}

// ---------------------------------------------------------------------------
// What a mutation run established
// ---------------------------------------------------------------------------

/// The paths of tests.
pub open spec fn test_paths(tests: Seq<TestIdView>) -> Seq<Seq<char>> {
    tests.map_values(|t: TestIdView| t.path)
}

/// What a state rests on: who killed a mutant, or which mutants survived.
pub open spec fn verdict_detail(v: Option<SymbolVerdict>) -> Seq<char> {
    match v {
        Some(v) => match v@.supports() {
            Verification::Verified => "killed by "@ + text::join_of(
                test_paths(v.killed_by@),
                ", "@,
            ),
            Verification::PseudoTested => text::decimal_of(v.missed as nat) + " survived: "@
                + text::join_of(text::texts(v.survivors@), ", "@),
            _ => Seq::empty(),
        },
        None => Seq::empty(),
    }
}

/// The line for a symbol, where the run examined its file.
pub open spec fn verdict_line(s: SymbolView, map: MutationMap) -> Seq<char> {
    let state = map.state_of(s);
    if state == Verification::OutOfScope {
        Seq::empty()
    } else {
        text::padded(s.path, 50) + " "@ + text::padded(state.name_of(), 18) + " "@ + verdict_detail(
            order::lookup(map.verdicts@, s.id),
        ) + "\n"@
    }
}

/// The lines for symbols.
pub open spec fn verdict_lines(symbols: Seq<SymbolView>, map: MutationMap) -> Seq<char>
    decreases symbols.len(),
{
    if symbols.len() == 0 {
        Seq::empty()
    } else {
        verdict_lines(symbols.drop_last(), map) + verdict_line(symbols.last(), map)
    }
}

fn show_detail(v: Option<&SymbolVerdict>) -> (r: String)
    ensures
        r@ == verdict_detail(
            match v {
                Some(v) => Some(*v),
                None => None,
            },
        ),
{
    match v {
        Some(v) => match v.verification() {
            Verification::Verified => {
                let mut who: Vec<String> = Vec::new();
                let mut i: usize = 0;
                while i < v.killed_by.items.len()
                    invariant
                        i <= v.killed_by.items@.len(),
                        who@.len() == i,
                        forall|k: int|
                            0 <= k < i ==> (#[trigger] who@[k])@ == test_paths(v.killed_by@)[k],
                    decreases v.killed_by.items@.len() - i,
                {
                    who.push(v.killed_by.items[i].path.clone());
                    i += 1;
                }
                assert(text::texts(who@) =~= test_paths(v.killed_by@));
                let mut out = text::owned("killed by ");
                out.append(text::join(&who, ", ").as_str());
                out
            },
            Verification::PseudoTested => {
                let mut out = text::count(v.missed);
                out.append(" survived: ");
                out.append(text::join(&v.survivors, ", ").as_str());
                out
            },
            _ => String::new(),
        },
        None => String::new(),
    }
}

/// Renders the verdict on every scorable symbol that the run examined.
pub fn render_verdicts(inv: &Inventory, map: &MutationMap) -> (r: String)
    ensures
        r@ == verdict_lines(inventory::scorable_of(inv@.symbols), *map) + "\n"@ + text::decimal_of(
            map.total_mutants as nat,
        ) + " mutants evaluated across "@ + text::decimal_of(map.verdicts@.len()) + " symbols\n"@,
{
    let scorable = inv.scorable();
    let ghost all = inventory::scorable_of(inv@.symbols);
    let mut out = String::new();
    let mut i: usize = 0;
    assert(out@ =~= verdict_lines(all.take(0), *map));
    while i < scorable.len()
        invariant
            i <= scorable@.len(),
            all == inventory::symbol_views(scorable@),
            out@ == verdict_lines(all.take(i as int), *map),
        decreases scorable@.len() - i,
    {
        let ghost before = out@;
        assert(all.take(i as int + 1).drop_last() =~= all.take(i as int));
        assert(all[i as int] == scorable@[i as int]@);
        let s = scorable[i];
        let state = map.verification_of(s);
        if state != Verification::OutOfScope {
            let mut line = text::pad(s.path.as_str(), 50);
            line.append(" ");
            line.append(text::pad(state.label(), 18).as_str());
            line.append(" ");
            line.append(show_detail(map.verdicts.get(&s.id)).as_str());
            line.append("\n");
            out.append(line.as_str());
        } else {
            assert(before + Seq::<char>::empty() =~= before);
        }
        i += 1;
    }
    assert(all.take(all.len() as int) =~= all);
    out.append("\n");
    out.append(text::count(map.total_mutants).as_str());
    out.append(" mutants evaluated across ");
    out.append(text::count(map.verdicts.len()).as_str());
    out.append(" symbols\n");
    out
}

} // verus!
