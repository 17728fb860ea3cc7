//! What a mutation run says of a symbol, in terms of the symbol's own mutants.

use vstd::prelude::*;
use crate::attribution;
use crate::attribution_laws::{law_names_resolve, means};
use crate::inventory;
use crate::inventory::{InventoryView, TestIdView};
use crate::mutation;
use crate::mutation::{
    MutantOutcome, MutantView, MutationMap, RawOutcome, RunEnd, SymbolVerdictView, Verification,
};
use crate::symbol::{SymbolIdView, SymbolView, Triviality};
use crate::text;
use crate::text::AtSpace;

verus! {

// ---------------------------------------------------------------------------
// Whose mutant
// ---------------------------------------------------------------------------

/// A symbol of a file stands around a line.
pub open spec fn around(s: SymbolView, file: Seq<char>, line: u32) -> bool {
    s.id.file == file && s.span.start <= line && line <= s.span.end
}

/// The symbol at an index is the innermost around a line: it has the fewest lines
/// of those that are around it, and is the first of those that have so few.
pub open spec fn innermost_at(symbols: Seq<SymbolView>, file: Seq<char>, line: u32, k: int) -> bool {
    &&& 0 <= k < symbols.len()
    &&& around(symbols[k], file, line)
    &&& forall|j: int|
        0 <= j < symbols.len() && around(#[trigger] symbols[j], file, line) ==> {
            let mine = symbols[k].span.end - symbols[k].span.start;
            let other = symbols[j].span.end - symbols[j].span.start;
            mine < other || (mine == other && k <= j)
        }
}

/// The innermost symbol around a line is found exactly where there is one.
pub proof fn law_innermost_is_found(
    symbols: Seq<SymbolView>,
    file: Seq<char>,
    line: u32,
    s: SymbolView,
)
    ensures
        inventory::innermost_of(symbols, file, line) == Some(s) <==> exists|k: int| #[trigger]
            innermost_at(symbols, file, line, k) && symbols[k] == s,
        inventory::innermost_of(symbols, file, line) is None <==> forall|k: int|
            0 <= k < symbols.len() ==> !around(#[trigger] symbols[k], file, line),
{
    lemma_innermost(symbols, file, line);
    if exists|k: int| #[trigger] innermost_at(symbols, file, line, k) && symbols[k] == s {
        let k = choose|k: int| #[trigger] innermost_at(symbols, file, line, k) && symbols[k] == s;
        let j = choose|j: int| #[trigger]
            innermost_at(symbols, file, line, j) && inventory::innermost_of(symbols, file, line)
                == Some(symbols[j]);
        assert(around(symbols[k], file, line));
        assert(around(symbols[j], file, line));
        assert(j == k);
    }
}

proof fn lemma_innermost(symbols: Seq<SymbolView>, file: Seq<char>, line: u32)
    ensures
        match inventory::innermost_of(symbols, file, line) {
            Some(s) => exists|k: int| #[trigger]
                innermost_at(symbols, file, line, k) && inventory::innermost_of(
                    symbols,
                    file,
                    line,
                ) == Some(symbols[k]),
            None => forall|k: int|
                0 <= k < symbols.len() ==> !around(#[trigger] symbols[k], file, line),
        },
    decreases symbols.len(),
{
    if symbols.len() > 0 {
        let front = symbols.drop_last();
        let n = symbols.len() - 1;
        lemma_innermost(front, file, line);
        let before = inventory::innermost_of(front, file, line);
        let now = inventory::innermost_of(symbols, file, line);
        if before is Some {
            let k = choose|k: int| #[trigger]
                innermost_at(front, file, line, k) && before == Some(front[k]);
            assert(front[k] == symbols[k]);
            assert(around(front[k], file, line));
            if now == before {
                assert forall|j: int|
                    0 <= j < symbols.len() && around(#[trigger] symbols[j], file, line) implies {
                    let mine = symbols[k].span.end - symbols[k].span.start;
                    let other = symbols[j].span.end - symbols[j].span.start;
                    mine < other || (mine == other && k <= j)
                } by {
                    if j < n {
                        assert(front[j] == symbols[j]);
                    }
                }
                assert(innermost_at(symbols, file, line, k));
            } else {
                assert forall|j: int|
                    0 <= j < symbols.len() && around(#[trigger] symbols[j], file, line) implies {
                    let mine = symbols[n].span.end - symbols[n].span.start;
                    let other = symbols[j].span.end - symbols[j].span.start;
                    mine < other || (mine == other && n <= j)
                } by {
                    if j < n {
                        assert(front[j] == symbols[j]);
                    }
                }
                assert(innermost_at(symbols, file, line, n));
            }
        } else {
            assert forall|j: int| 0 <= j < n implies !around(
                #[trigger] symbols[j],
                file,
                line,
            ) by {
                assert(front[j] == symbols[j]);
            }
            if now is Some {
                assert(innermost_at(symbols, file, line, n));
            }
        }
    }
}

/// A mutant is one of a symbol: the symbol has logic to be scored, and is the
/// innermost around the mutant.
pub open spec fn mutant_of(inv: InventoryView, m: MutantView, id: SymbolIdView) -> bool {
    exists|k: int| #[trigger]
        innermost_at(inv.symbols, m.file, m.line, k) && inv.symbols[k].id == id
            && inv.symbols[k].triviality == Triviality::Normal
}

proof fn lemma_mutant_of(inv: InventoryView, m: MutantView, id: SymbolIdView)
    ensures
        mutation::belongs(inv, m, id) <==> mutant_of(inv, m, id),
{
    let o = inventory::innermost_of(inv.symbols, m.file, m.line);
    if mutation::belongs(inv, m, id) {
        law_innermost_is_found(inv.symbols, m.file, m.line, o->0);
    }
    if mutant_of(inv, m, id) {
        let k = choose|k: int| #[trigger]
            innermost_at(inv.symbols, m.file, m.line, k) && inv.symbols[k].id == id
                && inv.symbols[k].triviality == Triviality::Normal;
        law_innermost_is_found(inv.symbols, m.file, m.line, inv.symbols[k]);
    }
}

// ---------------------------------------------------------------------------
// What the mutants come to
// ---------------------------------------------------------------------------

/// The mutants of a symbol that came out a given way, in the order of the run.
pub open spec fn mutants_of(
    inv: InventoryView,
    mutants: Seq<MutantView>,
    id: SymbolIdView,
    outcome: MutantOutcome,
) -> Seq<MutantView> {
    mutants.filter(|m: MutantView| mutant_of(inv, m, id) && m.outcome == outcome)
}

/// Some mutant of a symbol came out a given way.
pub open spec fn some_mutant(
    inv: InventoryView,
    mutants: Seq<MutantView>,
    id: SymbolIdView,
    outcome: MutantOutcome,
) -> bool {
    exists|i: int|
        0 <= i < mutants.len() && mutant_of(inv, #[trigger] mutants[i], id) && mutants[i].outcome
            == outcome
}

/// A verdict counts the mutants of its symbol by how they came out, and lists the
/// replacements that nothing noticed, in the order of the run.
pub proof fn law_verdicts_count_outcomes(
    inv: InventoryView,
    mutants: Seq<MutantView>,
    id: SymbolIdView,
)
    ensures
        ({
            let v = mutation::verdict_of(inv, mutants, id);
            &&& v.caught == mutants_of(inv, mutants, id, MutantOutcome::Caught).len()
            &&& v.missed == mutants_of(inv, mutants, id, MutantOutcome::Missed).len()
            &&& v.unviable == mutants_of(inv, mutants, id, MutantOutcome::Unviable).len()
            &&& v.other == mutants_of(inv, mutants, id, MutantOutcome::Timeout).len() + mutants_of(
                inv,
                mutants,
                id,
                MutantOutcome::Failure,
            ).len()
            &&& v.survivors == mutants_of(inv, mutants, id, MutantOutcome::Missed).map_values(
                |m: MutantView| m.replacement,
            )
        }),
    decreases mutants.len(),
{
    reveal(Seq::filter);
    let replaced = |m: MutantView| m.replacement;
    let missed = mutants_of(inv, mutants, id, MutantOutcome::Missed);
    if mutants.len() > 0 {
        let front = mutants.drop_last();
        law_verdicts_count_outcomes(inv, front, id);
        lemma_mutant_of(inv, mutants.last(), id);
        let before = mutants_of(inv, front, id, MutantOutcome::Missed);
        if missed != before {
            assert(missed == before.push(mutants.last()));
            assert(missed.map_values(replaced) =~= before.map_values(replaced).push(
                mutants.last().replacement,
            ));
        }
    } else {
        assert(missed.map_values(replaced) =~= Seq::<Seq<char>>::empty());
    }
}

proof fn lemma_some(
    inv: InventoryView,
    mutants: Seq<MutantView>,
    id: SymbolIdView,
    outcome: MutantOutcome,
)
    ensures
        mutants_of(inv, mutants, id, outcome).len() > 0 <==> some_mutant(inv, mutants, id, outcome),
    decreases mutants.len(),
{
    reveal(Seq::filter);
    if mutants.len() > 0 {
        let front = mutants.drop_last();
        lemma_some(inv, front, id, outcome);
        if some_mutant(inv, front, id, outcome) {
            let i = choose|i: int|
                0 <= i < front.len() && mutant_of(inv, #[trigger] front[i], id) && front[i].outcome
                    == outcome;
            assert(mutants[i] == front[i]);
        }
        if some_mutant(inv, mutants, id, outcome) {
            let i = choose|i: int|
                0 <= i < mutants.len() && mutant_of(inv, #[trigger] mutants[i], id)
                    && mutants[i].outcome == outcome;
            if i < front.len() {
                assert(front[i] == mutants[i]);
            }
        }
        if mutant_of(inv, mutants.last(), id) && mutants.last().outcome == outcome {
            assert(mutants[mutants.len() - 1] == mutants.last());
        }
    }
}

/// What a verdict supports follows from the symbol's mutants. It is verified where
/// one was caught. It is pseudo-tested where none was caught and one was missed,
/// whatever became of the rest. It has no viable mutant where it has mutants and
/// every one of them failed to compile.
pub proof fn law_verdicts(inv: InventoryView, mutants: Seq<MutantView>, id: SymbolIdView)
    ensures
        ({
            let v = mutation::verdict_of(inv, mutants, id).supports();
            &&& v == Verification::Verified <==> some_mutant(
                inv,
                mutants,
                id,
                MutantOutcome::Caught,
            )
            &&& v == Verification::PseudoTested <==> !some_mutant(
                inv,
                mutants,
                id,
                MutantOutcome::Caught,
            ) && some_mutant(inv, mutants, id, MutantOutcome::Missed)
            &&& v == Verification::NoViableMutant <==> {
                &&& exists|i: int| 0 <= i < mutants.len() && mutant_of(inv, #[trigger] mutants[i], id)
                &&& forall|i: int|
                    0 <= i < mutants.len() && mutant_of(inv, #[trigger] mutants[i], id)
                        ==> mutants[i].outcome == MutantOutcome::Unviable
            }
            &&& v == Verification::Inconclusive <==> {
                &&& !some_mutant(inv, mutants, id, MutantOutcome::Caught)
                &&& !some_mutant(inv, mutants, id, MutantOutcome::Missed)
                &&& some_mutant(inv, mutants, id, MutantOutcome::Timeout) || some_mutant(
                    inv,
                    mutants,
                    id,
                    MutantOutcome::Failure,
                )
            }
            &&& v == Verification::NotMutated <==> forall|i: int|
                0 <= i < mutants.len() ==> !mutant_of(inv, #[trigger] mutants[i], id)
            &&& v != Verification::OutOfScope
        }),
{
    law_verdicts_count_outcomes(inv, mutants, id);
    lemma_some(inv, mutants, id, MutantOutcome::Caught);
    lemma_some(inv, mutants, id, MutantOutcome::Missed);
    lemma_some(inv, mutants, id, MutantOutcome::Unviable);
    lemma_some(inv, mutants, id, MutantOutcome::Timeout);
    lemma_some(inv, mutants, id, MutantOutcome::Failure);
    if exists|i: int| 0 <= i < mutants.len() && mutant_of(inv, #[trigger] mutants[i], id) {
        let i = choose|i: int|
            0 <= i < mutants.len() && mutant_of(inv, #[trigger] mutants[i], id);
        assert(some_mutant(inv, mutants, id, mutants[i].outcome));
    }
    assert forall|i: int|
        0 <= i < mutants.len() && mutant_of(inv, #[trigger] mutants[i], id) implies some_mutant(
        inv,
        mutants,
        id,
        mutants[i].outcome,
    ) by {
    }
}

/// What counts add up to, whichever mutants they count: a caught mutant decides,
/// a missed one decides where none was caught, and mutants that failed to compile
/// decide only where there is nothing else.
pub proof fn law_counts_decide(v: SymbolVerdictView)
    ensures
        v.supports() == Verification::Verified <==> v.caught > 0,
        v.supports() == Verification::PseudoTested <==> v.caught == 0 && v.missed > 0,
        v.supports() == Verification::NoViableMutant <==> v.unviable > 0 && v.total() == v.unviable,
        v.supports() == Verification::Inconclusive <==> v.caught + v.missed == 0 && v.other > 0,
        v.supports() == Verification::NotMutated <==> v.total() == 0,
{
}

/// What a run says of a symbol: nothing where no mutant stands in the symbol's
/// file, and otherwise what the symbol's own mutants say.
pub proof fn law_states(
    map: MutationMap,
    inv: InventoryView,
    mutants: Seq<MutantView>,
    s: SymbolView,
)
    requires
        map.joins(inv, mutants),
    ensures
        map.state_of(s) == Verification::OutOfScope <==> forall|i: int|
            0 <= i < mutants.len() ==> (#[trigger] mutants[i]).file != s.id.file,
        map.state_of(s) == Verification::Verified <==> some_mutant(
            inv,
            mutants,
            s.id,
            MutantOutcome::Caught,
        ),
        map.state_of(s) == Verification::PseudoTested <==> !some_mutant(
            inv,
            mutants,
            s.id,
            MutantOutcome::Caught,
        ) && some_mutant(inv, mutants, s.id, MutantOutcome::Missed),
        map.state_of(s) == Verification::NoViableMutant <==> {
            &&& exists|i: int| 0 <= i < mutants.len() && mutant_of(inv, #[trigger] mutants[i], s.id)
            &&& forall|i: int|
                0 <= i < mutants.len() && mutant_of(inv, #[trigger] mutants[i], s.id)
                    ==> mutants[i].outcome == MutantOutcome::Unviable
        },
        map.state_of(s) == Verification::NotMutated ==> forall|i: int|
            0 <= i < mutants.len() ==> !mutant_of(inv, #[trigger] mutants[i], s.id),
{
    assert(mutation::verdict_in(map.verdicts@, s.id) == mutation::verdict_due(inv, mutants, s.id));
    law_verdicts(inv, mutants, s.id);
    mutation::law_scope(map, inv, mutants, s);
    if exists|i: int| 0 <= i < mutants.len() && (#[trigger] mutants[i]).file == s.id.file {
        assert(mutation::examined(mutants, s.id.file));
    }
}

// ---------------------------------------------------------------------------
// Killers
// ---------------------------------------------------------------------------

proof fn lemma_killers(inv: InventoryView, names: Seq<Seq<char>>, t: TestIdView)
    ensures
        mutation::killers(inv, names).contains(t) <==> exists|j: int|
            0 <= j < names.len() && means(inv.tests, #[trigger] names[j], t),
    decreases names.len(),
{
    if names.len() > 0 {
        let front = names.drop_last();
        let n = names.len() - 1;
        lemma_killers(inv, front, t);
        law_names_resolve(inv, names.last(), t);
        assert(names[n] == names.last());
        if exists|j: int| 0 <= j < front.len() && means(inv.tests, #[trigger] front[j], t) {
            let j = choose|j: int| 0 <= j < front.len() && means(inv.tests, #[trigger] front[j], t);
            assert(names[j] == front[j]);
        }
        if exists|j: int| 0 <= j < names.len() && means(inv.tests, #[trigger] names[j], t) {
            let j = choose|j: int| 0 <= j < names.len() && means(inv.tests, #[trigger] names[j], t);
            if j < n {
                assert(front[j] == names[j]);
            }
        }
    }
}

proof fn lemma_unknown(inv: InventoryView, names: Seq<Seq<char>>, w: Seq<char>)
    ensures
        mutation::unknown(inv, names).contains(w) <==> names.contains(w) && !means_one(inv, w),
    decreases names.len(),
{
    if names.len() > 0 {
        let front = names.drop_last();
        let n = names.len() - 1;
        lemma_unknown(inv, front, w);
        lemma_means_one(inv, names.last());
        assert(names[n] == names.last());
        if front.contains(w) {
            let j = choose|j: int| 0 <= j < front.len() && front[j] == w;
            assert(names[j] == w);
        }
        if names.contains(w) {
            let j = choose|j: int| 0 <= j < names.len() && names[j] == w;
            if j < n {
                assert(front[j] == w);
            }
        }
    }
}

/// A name is that of one test.
pub open spec fn means_one(inv: InventoryView, w: Seq<char>) -> bool {
    exists|t: TestIdView| #[trigger] means(inv.tests, w, t)
}

proof fn lemma_means_one(inv: InventoryView, w: Seq<char>)
    ensures
        attribution::resolved(inv, w) is Ok <==> means_one(inv, w),
{
    if means_one(inv, w) {
        let t = choose|t: TestIdView| #[trigger] means(inv.tests, w, t);
        law_names_resolve(inv, w, t);
    }
    if let Ok(t) = attribution::resolved(inv, w) {
        law_names_resolve(inv, w, t);
    }
}

/// A caught mutant of a symbol names a test in its log.
pub open spec fn killed_by_test(
    inv: InventoryView,
    m: MutantView,
    id: SymbolIdView,
    t: TestIdView,
) -> bool {
    &&& mutant_of(inv, m, id)
    &&& m.outcome == MutantOutcome::Caught
    &&& exists|j: int|
        0 <= j < m.killed_by.len() && means(inv.tests, #[trigger] m.killed_by[j], t)
}

/// A symbol's killers are the tests that the logs of its caught mutants name: a
/// test is among them exactly where one such log has a name that is the test's and
/// no other's.
pub proof fn law_killers_are_tests(
    inv: InventoryView,
    mutants: Seq<MutantView>,
    id: SymbolIdView,
    t: TestIdView,
)
    ensures
        mutation::verdict_of(inv, mutants, id).killed_by.contains(t) <==> exists|i: int|
            0 <= i < mutants.len() && killed_by_test(inv, #[trigger] mutants[i], id, t),
    decreases mutants.len(),
{
    if mutants.len() > 0 {
        let front = mutants.drop_last();
        let n = mutants.len() - 1;
        law_killers_are_tests(inv, front, id, t);
        lemma_mutant_of(inv, mutants.last(), id);
        lemma_killers(inv, mutants.last().killed_by, t);
        assert(mutants[n] == mutants.last());
        if exists|i: int| 0 <= i < front.len() && killed_by_test(inv, #[trigger] front[i], id, t) {
            let i = choose|i: int|
                0 <= i < front.len() && killed_by_test(inv, #[trigger] front[i], id, t);
            assert(mutants[i] == front[i]);
        }
        if exists|i: int| 0 <= i < mutants.len() && killed_by_test(inv, #[trigger] mutants[i], id, t) {
            let i = choose|i: int|
                0 <= i < mutants.len() && killed_by_test(inv, #[trigger] mutants[i], id, t);
            if i < n {
                assert(front[i] == mutants[i]);
            }
        }
    }
}

/// A name stands in the log of a caught mutant that some symbol is around, and is
/// no one test's.
pub open spec fn names_nobody(inv: InventoryView, m: MutantView, w: Seq<char>) -> bool {
    &&& exists|k: int| 0 <= k < inv.symbols.len() && around(#[trigger] inv.symbols[k], m.file, m.line)
    &&& m.outcome == MutantOutcome::Caught
    &&& m.killed_by.contains(w)
    &&& !means_one(inv, w)
}

/// The names that are kept as unresolved are exactly those.
pub proof fn law_unknown_killers_are_kept(
    inv: InventoryView,
    mutants: Seq<MutantView>,
    w: Seq<char>,
)
    ensures
        mutation::unknown_killers(inv, mutants).contains(w) <==> exists|i: int|
            0 <= i < mutants.len() && names_nobody(inv, #[trigger] mutants[i], w),
    decreases mutants.len(),
{
    if mutants.len() > 0 {
        let front = mutants.drop_last();
        let n = mutants.len() - 1;
        let m = mutants.last();
        law_unknown_killers_are_kept(inv, front, w);
        lemma_innermost(inv.symbols, m.file, m.line);
        lemma_unknown(inv, m.killed_by, w);
        assert(mutants[n] == m);
        if exists|i: int| 0 <= i < front.len() && names_nobody(inv, #[trigger] front[i], w) {
            let i = choose|i: int| 0 <= i < front.len() && names_nobody(inv, #[trigger] front[i], w);
            assert(mutants[i] == front[i]);
        }
        if exists|i: int| 0 <= i < mutants.len() && names_nobody(inv, #[trigger] mutants[i], w) {
            let i = choose|i: int|
                0 <= i < mutants.len() && names_nobody(inv, #[trigger] mutants[i], w);
            if i < n {
                assert(front[i] == mutants[i]);
            }
        }
        if mutation::owner(inv, m) is Some {
            let k = choose|k: int| #[trigger] innermost_at(inv.symbols, m.file, m.line, k);
            assert(around(inv.symbols[k], m.file, m.line));
        }
    }
}

/// The mutants that are kept apart are those that no symbol is around, in the
/// order of the run.
pub proof fn law_unattributed_mutants(inv: InventoryView, mutants: Seq<MutantView>)
    ensures
        mutation::ownerless(inv, mutants) == mutants.filter(
            |m: MutantView|
                forall|k: int|
                    0 <= k < inv.symbols.len() ==> !around(
                        #[trigger] inv.symbols[k],
                        m.file,
                        m.line,
                    ),
        ),
    decreases mutants.len(),
{
    reveal(Seq::filter);
    if mutants.len() > 0 {
        law_unattributed_mutants(inv, mutants.drop_last());
        let m = mutants.last();
        lemma_innermost(inv.symbols, m.file, m.line);
        if mutation::owner(inv, m) is Some {
            let k = choose|k: int| #[trigger] innermost_at(inv.symbols, m.file, m.line, k);
            assert(around(inv.symbols[k], m.file, m.line));
        }
    }
}

// ---------------------------------------------------------------------------
// Reading the tool's output
// ---------------------------------------------------------------------------

/// Five summaries are outcomes, and no other is.
pub proof fn law_summaries(summary: Seq<char>)
    ensures
        mutation::outcome_named(summary) == Some(MutantOutcome::Caught) <==> summary
            == "CaughtMutant"@,
        mutation::outcome_named(summary) == Some(MutantOutcome::Missed) <==> summary
            == "MissedMutant"@,
        mutation::outcome_named(summary) == Some(MutantOutcome::Unviable) <==> summary
            == "Unviable"@,
        mutation::outcome_named(summary) == Some(MutantOutcome::Timeout) <==> summary == "Timeout"@,
        mutation::outcome_named(summary) == Some(MutantOutcome::Failure) <==> summary == "Failure"@,
{
    reveal_strlit("CaughtMutant");
    reveal_strlit("MissedMutant");
    reveal_strlit("Unviable");
    reveal_strlit("Timeout");
    reveal_strlit("Failure");
    assert("CaughtMutant"@[0] == 'C');
    assert("MissedMutant"@[0] == 'M');
    assert("Unviable"@[0] == 'U');
    assert("Timeout"@[0] == 'T');
    assert("Failure"@[0] == 'F');
}

/// An outcome reports a mutant exactly where it has one and its summary is an
/// outcome; the baseline run has none. Only a mutant that was caught has killers:
/// those that its log names.
pub proof fn law_reports(o: RawOutcome)
    ensures
        mutation::reported(o) is Some <==> o.mutant is Some && mutation::outcome_named(
            o.summary@,
        ) is Some,
        mutation::reported(o) matches Some(m) ==> {
            &&& Some(m.outcome) == mutation::outcome_named(o.summary@)
            &&& m.file == o.mutant->0.file@
            &&& m.line == o.mutant->0.line
            &&& m.column == o.mutant->0.column
            &&& m.replacement == o.mutant->0.replacement@
            &&& m.genre == o.mutant->0.genre@
            &&& o.mutant->0.function_name is Some ==> m.function_name
                == o.mutant->0.function_name->0@
            &&& o.mutant->0.function_name is None ==> m.function_name.len() == 0
            &&& m.outcome == MutantOutcome::Caught && o.log is Some ==> m.killed_by
                == mutation::killers_in(o.log->0@)
            &&& m.outcome != MutantOutcome::Caught || o.log is None ==> m.killed_by.len() == 0
        },
{
}

/// The outcomes of a run are read one by one, in order.
pub proof fn law_reports_are_read_apart(a: Seq<RawOutcome>, o: RawOutcome)
    ensures
        mutation::all_reported(Seq::empty()).len() == 0,
        mutation::reported(o) is None ==> mutation::all_reported(a.push(o))
            == mutation::all_reported(a),
        mutation::reported(o) is Some ==> mutation::all_reported(a.push(o))
            == mutation::all_reported(a) + seq![mutation::reported(o)->0],
{
    assert(a.push(o).drop_last() =~= a);
    if let Some(m) = mutation::reported(o) {
        assert(mutation::all_reported(a).push(m) =~= mutation::all_reported(a) + seq![m]);
    }
}

/// A line of the harness names a failing test exactly where it is `test`, the name
/// and ` ... FAILED`, and nothing else.
pub proof fn law_harness_lines(line: Seq<char>, name: Seq<char>)
    ensures
        mutation::named_by_harness(line) == Some(name) <==> line == "test "@ + name
            + " ... FAILED"@,
{
    reveal_strlit("test ");
    reveal_strlit(" ... FAILED");
    let a = "test "@;
    let b = " ... FAILED"@;
    let whole = a + name + b;
    if line == whole {
        assert(line.subrange(0, 5) =~= a);
        let rest = line.skip(5);
        assert(rest =~= name + b);
        assert(rest.subrange(rest.len() - b.len(), rest.len() as int) =~= b);
        assert(rest.take(rest.len() - b.len()) =~= name);
    }
    if mutation::named_by_harness(line) == Some(name) {
        assert(line.subrange(0, 5) == a);
        let rest = line.skip(5);
        let n = rest.len() - b.len();
        assert(rest.subrange(n, n + b.len()) == b);
        assert(rest.take(n) == name);
        assert(line =~= line.subrange(0, 5) + (rest.take(n) + rest.subrange(n, n + b.len())));
        assert(a + (name + b) =~= whole);
    }
}

/// A panic names the thread between the first pair of quotes behind `thread`.
pub proof fn law_panic_lines(line: Seq<char>, name: Seq<char>)
    ensures
        mutation::named_by_panic(line) == Some(name) <==> !name.contains('\'') && text::begins(
            line,
            "thread '"@ + name + "'"@,
        ),
{
    reveal_strlit("thread '");
    reveal_strlit("'");
    let a = "thread '"@;
    let q = "'"@;
    let head = a + name + q;
    let rest = line.skip(8);
    text::lemma_first_at(rest, q, 0);
    if text::begins(line, head) && !name.contains('\'') {
        assert(line.subrange(0, head.len() as int) == head);
        assert forall|i: int| 0 <= i < head.len() implies #[trigger] line[i] == head[i] by {
            assert(line.subrange(0, head.len() as int)[i] == line[i]);
        }
        assert(line.subrange(0, 8) =~= a);
        let n = name.len() as int;
        assert(rest.subrange(n, n + 1) =~= q) by {
            assert(line[8 + n] == head[8 + n]);
        }
        assert(text::occurs_at(rest, q, n));
        assert(rest.take(n) =~= name) by {
            assert forall|i: int| 0 <= i < n implies #[trigger] rest.take(n)[i] == name[i] by {
                assert(line[8 + i] == head[8 + i]);
            }
        }
        assert forall|j: int| 0 <= j < n implies !#[trigger] text::occurs_at(rest, q, j) by {
            if text::occurs_at(rest, q, j) {
                assert(rest.subrange(j, j + 1)[0] == rest[j]);
                assert(rest.take(n)[j] == rest[j]);
                assert(name[j] == '\'');
                assert(name.contains('\''));
            }
        }
    }
    if mutation::named_by_panic(line) == Some(name) {
        assert(line.subrange(0, 8) == a);
        let n = text::first_at(rest, q, 0)->0;
        assert(rest.take(n) == name);
        assert(rest.subrange(n, n + 1) == q);
        assert(rest.subrange(n, n + 1)[0] == rest[n]);
        assert(line.subrange(0, head.len() as int) =~= head) by {
            assert forall|i: int| 0 <= i < head.len() implies #[trigger] line.subrange(
                0,
                head.len() as int,
            )[i] == head[i] by {
                if i < 8 {
                    assert(line.subrange(0, 8)[i] == line[i]);
                } else if i < 8 + n {
                    assert(rest.take(n)[i - 8] == line[i]);
                }
            }
        }
        if name.contains('\'') {
            let j = choose|j: int| 0 <= j < name.len() && name[j] == '\'';
            assert(rest.take(n)[j] == rest[j]);
            assert(rest.subrange(j, j + 1) =~= q);
            assert(text::occurs_at(rest, q, j));
        }
    }
}

/// A summary line of the runner names a failing test exactly where it begins by
/// saying so and its last word is a path, or a time in brackets and a binary stand
/// before it; the test is that last word.
pub proof fn law_runner_lines(line: Seq<char>, name: Seq<char>)
    ensures
        mutation::named_by_runner(line) == Some(name) <==> {
            let words = text::words_of::<AtSpace>(line);
            &&& text::begins(line, "FAIL "@) || text::begins(line, "TRY 1 FAIL"@)
            &&& words.len() > 0
            &&& name == words[words.len() - 1]
            &&& text::has(name, "::"@) || exists|i: int|
                0 <= i && i + 2 < words.len() && text::ends(#[trigger] words[i], "]"@)
        },
{
    let words = text::words_of::<AtSpace>(line);
    if words.len() > 0 {
        assert(words.last() == words[words.len() - 1]);
    }
    if mutation::names_both(words) {
        let i = choose|i: int| 0 <= i < words.len() - 2 && text::ends(#[trigger] words[i], "]"@);
        assert(i + 2 < words.len());
    }
    if exists|i: int| 0 <= i && i + 2 < words.len() && text::ends(#[trigger] words[i], "]"@) {
        let i = choose|i: int| 0 <= i && i + 2 < words.len() && text::ends(#[trigger] words[i], "]"@);
        assert(0 <= i < words.len() - 2);
    }
}

/// A line names a failing test itself.
pub open spec fn names_failure(line: Seq<char>, name: Seq<char>) -> bool {
    mutation::named_by_runner(text::trim_of(line)) == Some(name) || mutation::named_by_harness(
        text::trim_of(line),
    ) == Some(name)
}

proof fn lemma_named_in(lines: Seq<Seq<char>>, name: Seq<char>)
    ensures
        mutation::named_in(lines).contains(name) <==> exists|i: int|
            0 <= i < lines.len() && names_failure(#[trigger] lines[i], name),
    decreases lines.len(),
{
    if lines.len() > 0 {
        let front = lines.drop_last();
        let n = lines.len() - 1;
        lemma_named_in(front, name);
        assert(lines[n] == lines.last());
        let t = text::trim_of(lines.last());
        let before = mutation::named_in(front);
        let mid = match mutation::named_by_runner(t) {
            Some(w) => mutation::noted(before, w),
            None => before,
        };
        if let Some(w) = mutation::named_by_runner(t) {
            lemma_noted(before, w, name);
        }
        if let Some(w) = mutation::named_by_harness(t) {
            lemma_noted(mid, w, name);
        }
        if exists|i: int| 0 <= i < front.len() && names_failure(#[trigger] front[i], name) {
            let i = choose|i: int| 0 <= i < front.len() && names_failure(#[trigger] front[i], name);
            assert(lines[i] == front[i]);
        }
        if exists|i: int| 0 <= i < lines.len() && names_failure(#[trigger] lines[i], name) {
            let i = choose|i: int| 0 <= i < lines.len() && names_failure(#[trigger] lines[i], name);
            if i < n {
                assert(front[i] == lines[i]);
            }
        }
    }
}

proof fn lemma_noted(found: Seq<Seq<char>>, w: Seq<char>, name: Seq<char>)
    ensures
        mutation::noted(found, w).contains(name) <==> found.contains(name) || name == w,
{
    let all = mutation::noted(found, w);
    if !found.contains(w) {
        assert(all[found.len() as int] == w);
        if found.contains(name) {
            let k = choose|k: int| 0 <= k < found.len() && found[k] == name;
            assert(all[k] == name);
        }
        if all.contains(name) {
            let k = choose|k: int| 0 <= k < all.len() && all[k] == name;
            if k < found.len() {
                assert(found[k] == name);
            }
        }
    }
}

/// Where some line of a log names a failing test, the killers are exactly the
/// tests that lines name.
pub proof fn law_killers_are_named(log: Seq<char>, name: Seq<char>)
    requires
        exists|i: int, other: Seq<char>|
            0 <= i < text::lines_of(log).len() && #[trigger] names_failure(
                text::lines_of(log)[i],
                other,
            ),
    ensures
        mutation::killers_in(log).contains(name) <==> exists|i: int|
            0 <= i < text::lines_of(log).len() && names_failure(
                #[trigger] text::lines_of(log)[i],
                name,
            ),
{
    let lines = text::lines_of(log);
    let (i, other) = choose|i: int, other: Seq<char>|
        0 <= i < lines.len() && #[trigger] names_failure(lines[i], other);
    lemma_named_in(lines, other);
    lemma_named_in(lines, name);
    assert(mutation::named_in(lines).contains(other));
}

/// The thread that panicked, as a line of a log has it.
pub open spec fn thread_at(lines: Seq<Seq<char>>, i: int) -> Option<Seq<char>> {
    mutation::named_by_panic(text::trim_of(lines[i]))
}

/// A name is a path.
pub open spec fn is_path(name: Seq<char>) -> bool {
    text::has(name, "::"@)
}

/// A name is that of a thread that runs no test.
pub open spec fn runs_no_test(name: Seq<char>) -> bool {
    name == "main"@ || name == "<unnamed>"@
}

proof fn lemma_panicking(lines: Seq<Seq<char>>, bare: bool)
    ensures
        match mutation::panicking(lines, bare) {
            Some(name) => {
                &&& exists|i: int|
                    0 <= i < lines.len() && #[trigger] thread_at(lines, i) == Some(name)
                &&& bare ==> !runs_no_test(name)
                &&& !bare ==> is_path(name)
            },
            None => forall|i: int|
                0 <= i < lines.len() && (#[trigger] thread_at(lines, i)) is Some ==> if bare {
                    runs_no_test(thread_at(lines, i)->0)
                } else {
                    !is_path(thread_at(lines, i)->0)
                },
        },
    decreases lines.len(),
{
    if lines.len() > 0 {
        let rest = lines.skip(1);
        lemma_panicking(rest, bare);
        assert forall|i: int| 0 <= i < rest.len() implies #[trigger] thread_at(rest, i)
            == thread_at(lines, i + 1) by {
            assert(rest[i] == lines[i + 1]);
        }
        let here = thread_at(lines, 0);
        if here is Some && (if bare {
            !runs_no_test(here->0)
        } else {
            is_path(here->0)
        }) {
            assert(mutation::panicking(lines, bare) == here);
        } else {
            assert(mutation::panicking(lines, bare) == mutation::panicking(rest, bare));
            match mutation::panicking(rest, bare) {
                Some(name) => {
                    let i = choose|i: int|
                        0 <= i < rest.len() && #[trigger] thread_at(rest, i) == Some(name);
                    assert(thread_at(lines, i + 1) == Some(name));
                },
                None => {
                    assert forall|i: int|
                        0 <= i < lines.len() && (#[trigger] thread_at(
                            lines,
                            i,
                        )) is Some implies if bare {
                        runs_no_test(thread_at(lines, i)->0)
                    } else {
                        !is_path(thread_at(lines, i)->0)
                    } by {
                        if i > 0 {
                            assert(thread_at(rest, i - 1) == thread_at(lines, i));
                        }
                    }
                },
            }
        }
    }
}

/// Where no line of a log names a failing test, at most one thread that panicked
/// is taken for the killer. It is never `main` or an unnamed one, and a name that
/// is a path goes before one that is not. None is taken only where no other thread
/// panicked.
pub proof fn law_panics_stand_in(log: Seq<char>)
    requires
        forall|i: int, name: Seq<char>|
            0 <= i < text::lines_of(log).len() ==> !#[trigger] names_failure(
                text::lines_of(log)[i],
                name,
            ),
    ensures
        mutation::killers_in(log).len() <= 1,
        mutation::killers_in(log).len() == 1 ==> {
            let name = mutation::killers_in(log)[0];
            &&& exists|i: int|
                0 <= i < text::lines_of(log).len() && #[trigger] thread_at(text::lines_of(log), i)
                    == Some(name)
            &&& is_path(name) || !runs_no_test(name)
            &&& !is_path(name) ==> forall|i: int|
                0 <= i < text::lines_of(log).len() && (#[trigger] thread_at(
                    text::lines_of(log),
                    i,
                )) is Some ==> !is_path(thread_at(text::lines_of(log), i)->0)
        },
        mutation::killers_in(log).len() == 0 ==> forall|i: int|
            0 <= i < text::lines_of(log).len() && (#[trigger] thread_at(
                text::lines_of(log),
                i,
            )) is Some ==> runs_no_test(thread_at(text::lines_of(log), i)->0),
{
    let lines = text::lines_of(log);
    lemma_panicking(lines, false);
    lemma_panicking(lines, true);
    let named = mutation::named_in(lines);
    if named.len() > 0 {
        assert(named.contains(named[0]));
        lemma_named_in(lines, named[0]);
        let i = choose|i: int| 0 <= i < lines.len() && names_failure(#[trigger] lines[i], named[0]);
        assert(!names_failure(text::lines_of(log)[i], named[0]));
    }
}

/// A run has a result exactly where its exit code is zero or one. Every other code
/// is a failure with that code, and none is a signal.
pub proof fn law_run_ends(code: Option<i32>, c: i32)
    ensures
        mutation::end_of(code) == RunEnd::Complete <==> code == Some(0i32) || code == Some(1i32),
        mutation::end_of(code) == RunEnd::Signalled <==> code is None,
        mutation::end_of(code) == RunEnd::Failed(c) <==> code == Some(c) && c != 0 && c != 1,
{
}

} // verus!
