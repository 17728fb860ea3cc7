//! Which tests would actually *fail* if a symbol broke.
//!
//! Coverage says a symbol ran; attribution says which test ran it; only mutation
//! says whether anything would notice it breaking. The mutation tool replaces a
//! function body with a type-appropriate default: if no test notices the entire
//! body vanishing, no test will notice a subtler fault either.
//!
//! # Attribution caveat
//!
//! The runner may cancel the run on the first failure, so a log names *a* test
//! that killed the mutant, not every test that would have. `verified by X` should
//! be read as "X is sufficient", never "X is the only one".

use vstd::prelude::*;
use crate::attribution;
use crate::inventory;
use crate::inventory::{Inventory, InventoryView, TestId, TestIdView};
use crate::order;
use crate::order::{Key, KeySet, Table};
use crate::symbol::{Symbol, SymbolId, SymbolIdView, SymbolView};
use crate::text;
use crate::text::AtSpace;

verus! {

/// What came of one mutant.
#[derive(Clone, Copy, Debug, PartialEq, Eq, PartialOrd, Ord, Structural)]
pub enum MutantOutcome {
    /// A test failed. The symbol is verified against this mutation.
    Caught,
    /// Every test still passed with the body destroyed.
    Missed,
    /// The mutant did not compile. Not a gap and not a pass: see
    /// [`Verification::NoViableMutant`].
    Unviable,
    /// The suite hung, usually because the mutation removed a loop's exit.
    Timeout,
    /// The mutation tool could not evaluate it.
    Failure,
}

/// The outcome that a summary names.
pub open spec fn outcome_named(summary: Seq<char>) -> Option<MutantOutcome> {
    if summary == "CaughtMutant"@ {
        Some(MutantOutcome::Caught)
    } else if summary == "MissedMutant"@ {
        Some(MutantOutcome::Missed)
    } else if summary == "Unviable"@ {
        Some(MutantOutcome::Unviable)
    } else if summary == "Timeout"@ {
        Some(MutantOutcome::Timeout)
    } else if summary == "Failure"@ {
        Some(MutantOutcome::Failure)
    } else {
        None
    }
}

impl MutantOutcome {
    /// Reads the outcome off the summary in the tool's output.
    pub fn from_summary(summary: &str) -> (r: Option<Self>)
        ensures
            r == outcome_named(summary@),
    {
        if text::same(summary, "CaughtMutant") {
            Some(MutantOutcome::Caught)
        } else if text::same(summary, "MissedMutant") {
            Some(MutantOutcome::Missed)
        } else if text::same(summary, "Unviable") {
            Some(MutantOutcome::Unviable)
        } else if text::same(summary, "Timeout") {
            Some(MutantOutcome::Timeout)
        } else if text::same(summary, "Failure") {
            Some(MutantOutcome::Failure)
        } else {
            None
        }
    }
}

/// One mutant that was evaluated.
#[derive(Clone, Debug)]
pub struct Mutant {
    pub file: String,
    /// As the mutation tool names it, e.g. `Config::set_retries`.
    pub function_name: String,
    /// Start of the *replaced span*, which lies inside the function body. This
    /// is what the join goes by: it falls within the inventory's `LineSpan` for
    /// the enclosing symbol, the same containment used for coverage.
    pub line: u32,
    pub column: u32,
    pub replacement: String,
    pub genre: String,
    pub outcome: MutantOutcome,
    /// Tests observed failing in this mutant's log.
    pub killed_by: Vec<String>,
}

/// One mutant, as a mathematical value.
#[verifier::ext_equal]
pub struct MutantView {
    pub file: Seq<char>,
    pub function_name: Seq<char>,
    pub line: u32,
    pub column: u32,
    pub replacement: Seq<char>,
    pub genre: Seq<char>,
    pub outcome: MutantOutcome,
    pub killed_by: Seq<Seq<char>>,
}

impl View for Mutant {
    type V = MutantView;

    open spec fn view(&self) -> MutantView {
        MutantView {
            file: self.file@,
            function_name: self.function_name@,
            line: self.line,
            column: self.column,
            replacement: self.replacement@,
            genre: self.genre@,
            outcome: self.outcome,
            killed_by: text::texts(self.killed_by@),
        }
    }
}

impl Mutant {
    /// A copy of the mutant.
    pub fn copy(&self) -> (r: Self)
        ensures
            r@ == self@,
    {
        Mutant {
            file: self.file.clone(),
            function_name: self.function_name.clone(),
            line: self.line,
            column: self.column,
            replacement: self.replacement.clone(),
            genre: self.genre.clone(),
            outcome: self.outcome,
            killed_by: text::copy_texts(&self.killed_by),
        }
    }
}

/// What the evidence supports for one symbol.
#[derive(Clone, Copy, Debug, PartialEq, Eq, PartialOrd, Ord, Structural)]
pub enum Verification {
    /// At least one mutant was caught: some test fails when this breaks.
    Verified,
    /// Viable mutants existed and every one survived. Covered, and unverified.
    PseudoTested,
    /// Every mutant failed to compile, so body replacement cannot score this.
    /// Part type enforcement, part operator weakness.
    NoViableMutant,
    /// Mutants were evaluated, and the suite hung or could not be run on those that
    /// compiled.
    Inconclusive,
    /// No mutant was generated for this symbol.
    NotMutated,
    /// The run never examined the symbol's file at all.
    OutOfScope,
}

impl Verification {
    /// The label in a report.
    pub open spec fn name_of(self) -> Seq<char> {
        match self {
            Verification::Verified => "verified"@,
            Verification::PseudoTested => "PSEUDO-TESTED"@,
            Verification::NoViableMutant => "no viable mutant"@,
            Verification::Inconclusive => "inconclusive"@,
            Verification::NotMutated => "not mutated"@,
            Verification::OutOfScope => "out of scope"@,
        }
    }

    /// The label in a report.
    pub fn label(self) -> (r: &'static str)
        ensures
            r@ == self.name_of(),
    {
        match self {
            Verification::Verified => "verified",
            Verification::PseudoTested => "PSEUDO-TESTED",
            Verification::NoViableMutant => "no viable mutant",
            Verification::Inconclusive => "inconclusive",
            Verification::NotMutated => "not mutated",
            Verification::OutOfScope => "out of scope",
        }
    }
}

/// What the mutants of one symbol came to.
pub struct SymbolVerdict {
    pub caught: usize,
    pub missed: usize,
    pub unviable: usize,
    pub other: usize,
    /// Tests seen killing a mutant of this symbol. Sufficient, not exhaustive.
    pub killed_by: KeySet<TestId>,
    /// Surviving mutants, for a report that can say *what* went unnoticed.
    pub survivors: Vec<String>,
}

/// What the mutants of one symbol came to, as a mathematical value.
#[verifier::ext_equal]
pub struct SymbolVerdictView {
    pub caught: nat,
    pub missed: nat,
    pub unviable: nat,
    pub other: nat,
    pub killed_by: Set<TestIdView>,
    pub survivors: Seq<Seq<char>>,
}

impl View for SymbolVerdict {
    type V = SymbolVerdictView;

    open spec fn view(&self) -> SymbolVerdictView {
        SymbolVerdictView {
            caught: self.caught as nat,
            missed: self.missed as nat,
            unviable: self.unviable as nat,
            other: self.other as nat,
            killed_by: self.killed_by@.to_set(),
            survivors: text::texts(self.survivors@),
        }
    }
}

impl SymbolVerdictView {
    /// No mutant at all.
    pub open spec fn nothing() -> SymbolVerdictView {
        SymbolVerdictView {
            caught: 0,
            missed: 0,
            unviable: 0,
            other: 0,
            killed_by: Set::empty(),
            survivors: Seq::empty(),
        }
    }

    /// How many mutants there were.
    pub open spec fn total(self) -> nat {
        self.caught + self.missed + self.unviable + self.other
    }

    /// What that says about the symbol.
    pub open spec fn supports(self) -> Verification {
        if self.caught > 0 {
            Verification::Verified
        } else if self.missed > 0 {
            Verification::PseudoTested
        } else if self.other > 0 {
            Verification::Inconclusive
        } else if self.unviable > 0 {
            Verification::NoViableMutant
        } else {
            Verification::NotMutated
        }
    }
}

impl Default for SymbolVerdict {
    fn default() -> (r: Self)
        ensures
            r.killed_by.wf(),
            r@ == SymbolVerdictView::nothing(),
    {
        let r = SymbolVerdict {
            caught: 0,
            missed: 0,
            unviable: 0,
            other: 0,
            killed_by: KeySet::new(),
            survivors: Vec::new(),
        };
        assert(r@ =~= SymbolVerdictView::nothing());
        r
    }
}

impl SymbolVerdict {
    /// What the mutants say about the symbol.
    pub fn verification(&self) -> (r: Verification)
        ensures
            r == self@.supports(),
    {
        if self.caught > 0 {
            Verification::Verified
        } else if self.missed > 0 {
            Verification::PseudoTested
        } else if self.other > 0 {
            Verification::Inconclusive
        } else if self.unviable > 0 {
            Verification::NoViableMutant
        } else {
            Verification::NotMutated
        }
    }

    /// A copy of the verdict.
    pub fn copy(&self) -> (r: Self)
        ensures
            r@ == self@,
            r.killed_by@ == self.killed_by@,
    {
        SymbolVerdict {
            caught: self.caught,
            missed: self.missed,
            unviable: self.unviable,
            other: self.other,
            killed_by: self.killed_by.copy(),
            survivors: text::copy_texts(&self.survivors),
        }
    }
}

// ---------------------------------------------------------------------------
// Joining mutants onto symbols
// ---------------------------------------------------------------------------

/// The tests that the names of a list resolve to. Ambiguous names are dropped
/// rather than guessed.
pub open spec fn killers(inv: InventoryView, names: Seq<Seq<char>>) -> Set<TestIdView>
    decreases names.len(),
{
    if names.len() == 0 {
        Set::empty()
    } else {
        let before = killers(inv, names.drop_last());
        match attribution::resolved(inv, names.last()) {
            Ok(id) => before.insert(id),
            Err(_) => before,
        }
    }
}

/// The names of a list that resolve to no test.
pub open spec fn unknown(inv: InventoryView, names: Seq<Seq<char>>) -> Set<Seq<char>>
    decreases names.len(),
{
    if names.len() == 0 {
        Set::empty()
    } else {
        let before = unknown(inv, names.drop_last());
        match attribution::resolved(inv, names.last()) {
            Ok(_) => before,
            Err(_) => before.insert(names.last()),
        }
    }
}

/// The symbol that a mutant is one of: the innermost around it, so that a mutant
/// inside a closure is one of the function that defines the closure.
pub open spec fn owner(inv: InventoryView, m: MutantView) -> Option<SymbolView> {
    inventory::innermost_of(inv.symbols, m.file, m.line)
}

/// A mutant is one of a symbol that is scored.
pub open spec fn scored(inv: InventoryView, m: MutantView) -> bool {
    owner(inv, m) is Some && owner(inv, m)->0.scorable()
}

/// A mutant counts for a symbol.
pub open spec fn belongs(inv: InventoryView, m: MutantView, id: SymbolIdView) -> bool {
    scored(inv, m) && owner(inv, m)->0.id == id
}

/// A verdict with one more mutant.
pub open spec fn with_mutant(inv: InventoryView, v: SymbolVerdictView, m: MutantView) -> SymbolVerdictView {
    match m.outcome {
        MutantOutcome::Caught => SymbolVerdictView {
            caught: v.caught + 1,
            killed_by: v.killed_by.union(killers(inv, m.killed_by)),
            ..v
        },
        MutantOutcome::Missed => SymbolVerdictView {
            missed: v.missed + 1,
            survivors: v.survivors.push(m.replacement),
            ..v
        },
        MutantOutcome::Unviable => SymbolVerdictView { unviable: v.unviable + 1, ..v },
        _ => SymbolVerdictView { other: v.other + 1, ..v },
    }
}

/// What the mutants of one symbol come to.
pub open spec fn verdict_of(inv: InventoryView, mutants: Seq<MutantView>, id: SymbolIdView) -> SymbolVerdictView
    decreases mutants.len(),
{
    if mutants.len() == 0 {
        SymbolVerdictView::nothing()
    } else {
        let before = verdict_of(inv, mutants.drop_last(), id);
        if belongs(inv, mutants.last(), id) {
            with_mutant(inv, before, mutants.last())
        } else {
            before
        }
    }
}

/// The mutants that are of no inventoried symbol.
pub open spec fn ownerless(inv: InventoryView, mutants: Seq<MutantView>) -> Seq<MutantView>
    decreases mutants.len(),
{
    if mutants.len() == 0 {
        Seq::empty()
    } else if owner(inv, mutants.last()) is None {
        ownerless(inv, mutants.drop_last()).push(mutants.last())
    } else {
        ownerless(inv, mutants.drop_last())
    }
}

/// The names of killers, of mutants that are some symbol's, that resolve to no
/// test.
pub open spec fn unknown_killers(inv: InventoryView, mutants: Seq<MutantView>) -> Set<Seq<char>>
    decreases mutants.len(),
{
    if mutants.len() == 0 {
        Set::empty()
    } else {
        let before = unknown_killers(inv, mutants.drop_last());
        let m = mutants.last();
        if owner(inv, m) is Some && m.outcome == MutantOutcome::Caught {
            before.union(unknown(inv, m.killed_by))
        } else {
            before
        }
    }
}

/// The run examined a file: one of its mutants is there.
pub open spec fn examined(mutants: Seq<MutantView>, file: Seq<char>) -> bool {
    exists|i: int| 0 <= i < mutants.len() && (#[trigger] mutants[i]).file == file
}

/// The evidence of a mutation run, joined onto an inventory.
pub struct MutationMap {
    /// What the mutants of each scorable symbol came to.
    pub verdicts: Table<SymbolId, SymbolVerdict>,
    /// Every mutant that was evaluated, those of symbols that are not scored and
    /// of no inventoried symbol included.
    pub total_mutants: usize,
    /// Mutants that fell in no inventory span: macro bodies, or code the
    /// inventory skipped. Reported rather than dropped.
    pub unattributed: Vec<Mutant>,
    /// Killer names from logs that matched no inventoried test.
    pub unresolved_killers: KeySet<String>,
    /// The files that the run examined.
    pub examined_files: KeySet<String>,
}

/// What a table of verdicts holds for a symbol.
pub open spec fn verdict_in(s: Seq<(SymbolIdView, SymbolVerdict)>, id: SymbolIdView) -> Option<
    SymbolVerdictView,
> {
    match order::lookup(s, id) {
        Some(v) => Some(v@),
        None => None,
    }
}

/// What a table of verdicts should hold for a symbol.
pub open spec fn verdict_due(inv: InventoryView, mutants: Seq<MutantView>, id: SymbolIdView) -> Option<
    SymbolVerdictView,
> {
    let v = verdict_of(inv, mutants, id);
    if v.total() == 0 {
        None
    } else {
        Some(v)
    }
}

impl MutationMap {
    /// The table and the sets are in order.
    pub open spec fn wf(self) -> bool {
        &&& self.verdicts.wf()
        &&& self.unresolved_killers.wf()
        &&& self.examined_files.wf()
        &&& forall|id: SymbolIdView|
            (#[trigger] order::lookup(self.verdicts@, id)) is Some ==> order::lookup(
                self.verdicts@,
                id,
            )->0.killed_by.wf()
    }

    /// The map holds what a run says about an inventory.
    pub open spec fn joins(self, inv: InventoryView, mutants: Seq<MutantView>) -> bool {
        &&& self.wf()
        &&& forall|id: SymbolIdView| #[trigger]
            verdict_in(self.verdicts@, id) == verdict_due(inv, mutants, id)
        &&& self.total_mutants == mutants.len()
        &&& order::views(self.unattributed@) == ownerless(inv, mutants)
        &&& self.unresolved_killers@.to_set() == unknown_killers(inv, mutants)
        &&& forall|file: Seq<char>| #[trigger]
            self.examined_files@.contains(file) <==> examined(mutants, file)
    }

    /// What the map says about a symbol: nothing where its file was not examined.
    pub open spec fn state_of(self, s: SymbolView) -> Verification {
        match verdict_in(self.verdicts@, s.id) {
            Some(v) => v.supports(),
            None => if self.examined_files@.contains(s.id.file) {
                Verification::NotMutated
            } else {
                Verification::OutOfScope
            },
        }
    }
}

proof fn lemma_verdict_bound(inv: InventoryView, mutants: Seq<MutantView>, id: SymbolIdView)
    ensures
        verdict_of(inv, mutants, id).total() <= mutants.len(),
        verdict_of(inv, mutants, id).total() == 0 ==> verdict_of(inv, mutants, id)
            == SymbolVerdictView::nothing(),
    decreases mutants.len(),
{
    if mutants.len() > 0 {
        lemma_verdict_bound(inv, mutants.drop_last(), id);
    }
}

/// Sorts the names of killers into tests and unknown names.
fn resolve_killers(
    inv: &Inventory,
    names: &Vec<String>,
    tests: &mut KeySet<TestId>,
    unresolved: &mut KeySet<String>,
)
    requires
        old(tests).wf(),
        old(unresolved).wf(),
    ensures
        final(tests).wf(),
        final(unresolved).wf(),
        final(tests)@.to_set() == old(tests)@.to_set().union(
            killers(inv@, text::texts(names@)),
        ),
        final(unresolved)@.to_set() == old(unresolved)@.to_set().union(
            unknown(inv@, text::texts(names@)),
        ),
{
    let ghost all = text::texts(names@);
    let ghost t0 = tests@.to_set();
    let ghost u0 = unresolved@.to_set();
    let mut i: usize = 0;
    assert(t0.union(killers(inv@, all.take(0))) =~= t0);
    assert(u0.union(unknown(inv@, all.take(0))) =~= u0);
    while i < names.len()
        invariant
            i <= names@.len(),
            all == text::texts(names@),
            tests.wf(),
            unresolved.wf(),
            tests@.to_set() == t0.union(killers(inv@, all.take(i as int))),
            unresolved@.to_set() == u0.union(unknown(inv@, all.take(i as int))),
        decreases names@.len() - i,
    {
        let ghost t1 = tests@;
        let ghost u1 = unresolved@;
        let ghost k1 = killers(inv@, all.take(i as int));
        let ghost n1 = unknown(inv@, all.take(i as int));
        assert(all.take(i as int + 1).drop_last() =~= all.take(i as int));
        assert(all[i as int] == names@[i as int]@);
        match attribution::resolve_name(inv, names[i].as_str()) {
            Ok(id) => {
                let ghost iv = id@;
                tests.insert(id);
                assert(tests@.to_set() =~= t1.to_set().insert(iv));
                assert(t0.union(k1).insert(iv) =~= t0.union(k1.insert(iv)));
            },
            Err(_) => {
                let ghost nv = all[i as int];
                unresolved.insert(names[i].clone());
                assert(unresolved@.to_set() =~= u1.to_set().insert(nv));
                assert(u0.union(n1).insert(nv) =~= u0.union(n1.insert(nv)));
            },
        }
        i += 1;
    }
    assert(all.take(all.len() as int) =~= all);
}

impl MutationMap {
    /// Joins mutants onto the inventory by span containment.
    pub fn build(inv: &Inventory, mutants: &Vec<Mutant>) -> (r: Self)
        ensures
            r.joins(inv@, order::views(mutants@)),
    {
        let ghost iv = inv@;
        let ghost all = order::views(mutants@);
        let mut verdicts: Table<SymbolId, SymbolVerdict> = Table::new();
        let mut unattributed: Vec<Mutant> = Vec::new();
        let mut unresolved: KeySet<String> = KeySet::new();
        let mut files: KeySet<String> = KeySet::new();
        let mut i: usize = 0;
        assert(unresolved@.to_set() =~= unknown_killers(iv, all.take(0)));
        assert(order::views(unattributed@) =~= ownerless(iv, all.take(0)));
        while i < mutants.len()
            invariant
                i <= mutants@.len(),
                iv == inv@,
                all == order::views(mutants@),
                verdicts.wf(),
                unresolved.wf(),
                files.wf(),
                forall|id: SymbolIdView|
                    (#[trigger] order::lookup(verdicts@, id)) is Some ==> order::lookup(
                        verdicts@,
                        id,
                    )->0.killed_by.wf(),
                forall|id: SymbolIdView| #[trigger]
                    verdict_in(verdicts@, id) == verdict_due(iv, all.take(i as int), id),
                order::views(unattributed@) == ownerless(iv, all.take(i as int)),
                unresolved@.to_set() == unknown_killers(iv, all.take(i as int)),
                forall|file: Seq<char>| #[trigger]
                    files@.contains(file) <==> examined(all.take(i as int), file),
            decreases mutants@.len() - i,
        {
            let ghost front = all.take(i as int);
            let ghost more = all.take(i as int + 1);
            let n: usize = mutants.len();
            assert(more.drop_last() =~= front);
            assert(more.last() == mutants@[i as int]@);
            let mutant = &mutants[i];
            let ghost m = mutant@;
            let ghost had_files = files@;
            files.insert(mutant.file.clone());
            proof {
                assert forall|file: Seq<char>| #[trigger] files@.contains(file) <==> examined(
                    more,
                    file,
                ) by {
                    assert(had_files.contains(file) <==> examined(front, file));
                    if examined(front, file) {
                        let k = choose|k: int|
                            0 <= k < front.len() && (#[trigger] front[k]).file == file;
                        assert(more[k].file == file);
                    }
                    if examined(more, file) {
                        let k = choose|k: int|
                            0 <= k < more.len() && (#[trigger] more[k]).file == file;
                        if k < i {
                            assert(front[k].file == file);
                        }
                    }
                    if file == m.file {
                        assert(more[i as int].file == file);
                    }
                }
            }
            let ghost had = order::views(unattributed@);
            match inventory::innermost(&inv.symbols, mutant.file.as_str(), mutant.line) {
                None => {
                    unattributed.push(mutant.copy());
                    assert(order::views(unattributed@) =~= had.push(m));
                    assert forall|id: SymbolIdView| #[trigger]
                        verdict_in(verdicts@, id) == verdict_due(iv, more, id) by {
                        assert(verdict_in(verdicts@, id) == verdict_due(iv, front, id));
                    }
                },
                Some(symbol) if !symbol.triviality.is_scorable() => {
                    if mutant.outcome == MutantOutcome::Caught {
                        let mut unused: KeySet<TestId> = KeySet::new();
                        resolve_killers(inv, &mutant.killed_by, &mut unused, &mut unresolved);
                    }
                    assert forall|id: SymbolIdView| #[trigger]
                        verdict_in(verdicts@, id) == verdict_due(iv, more, id) by {
                        assert(verdict_in(verdicts@, id) == verdict_due(iv, front, id));
                    }
                },
                Some(symbol) => {
                    let ghost key = symbol.id@;
                    proof {
                        lemma_verdict_bound(iv, front, key);
                        assert(verdict_in(verdicts@, key) == verdict_due(iv, front, key));
                    }
                    let mut verdict = match verdicts.get(&symbol.id) {
                        Some(v) => v.copy(),
                        None => SymbolVerdict::default(),
                    };
                    assert(verdict@ == verdict_of(iv, front, key));
                    assert(verdict.killed_by.wf());
                    let ghost before = verdict@;
                    match mutant.outcome {
                        MutantOutcome::Caught => {
                            verdict.caught = verdict.caught + 1;
                            resolve_killers(
                                inv,
                                &mutant.killed_by,
                                &mut verdict.killed_by,
                                &mut unresolved,
                            );
                        },
                        MutantOutcome::Missed => {
                            verdict.missed = verdict.missed + 1;
                            verdict.survivors.push(mutant.replacement.clone());
                            assert(text::texts(verdict.survivors@) =~= before.survivors.push(
                                m.replacement,
                            ));
                        },
                        MutantOutcome::Unviable => {
                            verdict.unviable = verdict.unviable + 1;
                        },
                        _ => {
                            verdict.other = verdict.other + 1;
                        },
                    }
                    assert(verdict@ =~= with_mutant(iv, before, m));
                    let ghost now = verdict;
                    let ghost earlier = verdicts@;
                    verdicts.put(symbol.id.copy(), verdict);
                    proof {
                        assert(belongs(iv, m, key));
                        assert forall|id: SymbolIdView| #[trigger]
                            verdict_in(verdicts@, id) == verdict_due(iv, more, id) by {
                            assert(verdict_in(earlier, id) == verdict_due(iv, front, id));
                            assert(order::lookup(verdicts@, id) == if id == key {
                                Some(now)
                            } else {
                                order::lookup(earlier, id)
                            });
                        }
                    }
                },
            }
            i += 1;
        }
        assert(all.take(all.len() as int) =~= all);
        MutationMap {
            verdicts,
            total_mutants: mutants.len(),
            unattributed,
            unresolved_killers: unresolved,
            examined_files: files,
        }
    }

    /// What the mutants of a symbol came to.
    pub fn verdict(&self, id: &SymbolId) -> (r: SymbolVerdict)
        ensures
            r@ == match verdict_in(self.verdicts@, id@) {
                Some(v) => v,
                None => SymbolVerdictView::nothing(),
            },
    {
        match self.verdicts.get(id) {
            Some(v) => v.copy(),
            None => SymbolVerdict::default(),
        }
    }

    /// What the mutants of a symbol say about it. Whether its file was examined
    /// at all is not asked: see [`MutationMap::verification_of`].
    pub fn verification(&self, id: &SymbolId) -> (r: Verification)
        ensures
            r == match verdict_in(self.verdicts@, id@) {
                Some(v) => v.supports(),
                None => Verification::NotMutated,
            },
    {
        match self.verdicts.get(id) {
            Some(v) => v.verification(),
            None => Verification::NotMutated,
        }
    }

    /// What the run says about a symbol. This tells "examined and produced
    /// nothing" from "never looked at".
    pub fn verification_of(&self, symbol: &Symbol) -> (r: Verification)
        ensures
            r == self.state_of(symbol@),
    {
        match self.verdicts.get(&symbol.id) {
            Some(v) => v.verification(),
            None => if self.examined_files.contains(&symbol.id.file) {
                Verification::NotMutated
            } else {
                Verification::OutOfScope
            },
        }
    }
}

// ---------------------------------------------------------------------------
// Laws
// ---------------------------------------------------------------------------

/// A symbol counts as verified exactly when a test failed on one of its mutants:
/// a symbol that cannot be scored never does.
pub proof fn law_verified(inv: InventoryView, mutants: Seq<MutantView>, id: SymbolIdView)
    ensures
        verdict_of(inv, mutants, id).supports() == Verification::Verified <==> exists|i: int|
            0 <= i < mutants.len() && belongs(inv, #[trigger] mutants[i], id)
                && mutants[i].outcome == MutantOutcome::Caught,
    decreases mutants.len(),
{
    if mutants.len() > 0 {
        let front = mutants.drop_last();
        law_verified(inv, front, id);
        if exists|i: int|
            0 <= i < front.len() && belongs(inv, #[trigger] front[i], id) && front[i].outcome
                == MutantOutcome::Caught {
            let i = choose|i: int|
                0 <= i < front.len() && belongs(inv, #[trigger] front[i], id) && front[i].outcome
                    == MutantOutcome::Caught;
            assert(mutants[i] == front[i]);
        }
        if exists|i: int|
            0 <= i < mutants.len() && belongs(inv, #[trigger] mutants[i], id)
                && mutants[i].outcome == MutantOutcome::Caught {
            let i = choose|i: int|
                0 <= i < mutants.len() && belongs(inv, #[trigger] mutants[i], id)
                    && mutants[i].outcome == MutantOutcome::Caught;
            if i < front.len() {
                assert(front[i] == mutants[i]);
            }
        }
        if verdict_of(inv, mutants, id).caught > 0 && verdict_of(inv, front, id).caught == 0 {
            assert(mutants[mutants.len() - 1] == mutants.last());
        }
    }
}

/// Only a file that the run examined can have a symbol that counts as verified,
/// pseudo-tested, or without a viable mutant.
pub proof fn law_scope(map: MutationMap, inv: InventoryView, mutants: Seq<MutantView>, s: SymbolView)
    requires
        map.joins(inv, mutants),
    ensures
        map.state_of(s) == Verification::OutOfScope <==> !examined(mutants, s.id.file),
{
    assert(map.examined_files@.contains(s.id.file) <==> examined(mutants, s.id.file));
    assert(verdict_in(map.verdicts@, s.id) == verdict_due(inv, mutants, s.id));
    lemma_verdict_file(inv, mutants, s.id);
}

proof fn lemma_verdict_file(inv: InventoryView, mutants: Seq<MutantView>, id: SymbolIdView)
    ensures
        verdict_of(inv, mutants, id).total() > 0 ==> examined(mutants, id.file),
    decreases mutants.len(),
{
    if mutants.len() > 0 {
        let front = mutants.drop_last();
        let m = mutants.last();
        lemma_verdict_file(inv, front, id);
        if examined(front, id.file) {
            let k = choose|k: int| 0 <= k < front.len() && (#[trigger] front[k]).file == id.file;
            assert(mutants[k].file == id.file);
        }
        if belongs(inv, m, id) {
            inventory::law_innermost(inv.symbols, m.file, m.line);
            assert(mutants[mutants.len() - 1].file == id.file);
        }
    }
}

/// How many mutants are of a symbol.
pub open spec fn owned(inv: InventoryView, mutants: Seq<MutantView>, id: SymbolIdView) -> nat
    decreases mutants.len(),
{
    if mutants.len() == 0 {
        0
    } else if belongs(inv, mutants.last(), id) {
        owned(inv, mutants.drop_last(), id) + 1
    } else {
        owned(inv, mutants.drop_last(), id)
    }
}

/// A verdict counts every mutant of its symbol, each once.
pub proof fn law_every_mutant_counts(inv: InventoryView, mutants: Seq<MutantView>, id: SymbolIdView)
    ensures
        verdict_of(inv, mutants, id).total() == owned(inv, mutants, id),
        verdict_of(inv, mutants, id).survivors.len() == verdict_of(inv, mutants, id).missed,
    decreases mutants.len(),
{
    if mutants.len() > 0 {
        law_every_mutant_counts(inv, mutants.drop_last(), id);
    }
}

/// The symbol that each mutant counts for, if any.
pub open spec fn owners(inv: InventoryView, mutants: Seq<MutantView>) -> Seq<Option<SymbolIdView>> {
    mutants.map_values(
        |m: MutantView|
            if scored(inv, m) {
                Some(owner(inv, m)->0.id)
            } else {
                None
            },
    )
}

/// How many mutants are of a symbol that is not scored.
pub open spec fn unscored(inv: InventoryView, mutants: Seq<MutantView>) -> nat
    decreases mutants.len(),
{
    if mutants.len() == 0 {
        0
    } else {
        let before = unscored(inv, mutants.drop_last());
        if owner(inv, mutants.last()) is Some && !scored(inv, mutants.last()) {
            before + 1
        } else {
            before
        }
    }
}

proof fn lemma_owned_marks(inv: InventoryView, mutants: Seq<MutantView>, id: SymbolIdView)
    ensures
        verdict_of(inv, mutants, id).total() == order::marked(owners(inv, mutants), id),
    decreases mutants.len(),
{
    if mutants.len() > 0 {
        let front = mutants.drop_last();
        lemma_owned_marks(inv, front, id);
        assert(owners(inv, mutants).drop_last() =~= owners(inv, front));
    }
}

proof fn lemma_unowned(inv: InventoryView, mutants: Seq<MutantView>)
    ensures
        order::unmarked(owners(inv, mutants)) == ownerless(inv, mutants).len() + unscored(
            inv,
            mutants,
        ),
    decreases mutants.len(),
{
    if mutants.len() > 0 {
        let front = mutants.drop_last();
        lemma_unowned(inv, front);
        assert(owners(inv, mutants).drop_last() =~= owners(inv, front));
    }
}

/// The mutants that the verdicts count, those of no inventoried symbol and those of
/// symbols that are not scored are all the mutants there are.
pub proof fn law_no_mutant_is_lost(map: MutationMap, inv: InventoryView, mutants: Seq<MutantView>)
    requires
        map.joins(inv, mutants),
    ensures
        order::total_in(map.verdicts@, |v: SymbolVerdict| v@.total()) + map.unattributed@.len()
            + unscored(inv, mutants) == map.total_mutants,
{
    let table = map.verdicts@;
    let marks = owners(inv, mutants);
    let ks = order::keys(table);
    let f = |v: SymbolVerdict| v@.total();
    let g = |id: SymbolIdView| order::marked(marks, id);
    order::lemma_keys::<SymbolId, SymbolVerdict>(table);
    assert forall|i: int| 0 <= i < table.len() implies f((#[trigger] table[i]).1) == g(table[i].0) by {
        let id = table[i].0;
        assert(verdict_in(table, id) == verdict_due(inv, mutants, id));
        assert(order::lookup(table, id) == Some(table[i].1));
        lemma_owned_marks(inv, mutants, id);
    }
    order::lemma_total_by_key(table, f, g);
    assert forall|i: int| 0 <= i < marks.len() && (#[trigger] marks[i]) is Some implies ks.contains(
        marks[i]->0,
    ) by {
        let id = marks[i]->0;
        lemma_owned_marks(inv, mutants, id);
        order::lemma_marked(marks, i, id);
        assert(verdict_in(table, id) == verdict_due(inv, mutants, id));
        assert(order::lookup(table, id) is Some);
    }
    order::lemma_counted_by_key(ks, marks);
    lemma_unowned(inv, mutants);
    assert(order::views(map.unattributed@).len() == map.unattributed@.len());
}

// ---------------------------------------------------------------------------
// Reading the tool's output
// ---------------------------------------------------------------------------

/// The names found so far, and one more unless it is among them.
pub open spec fn noted(found: Seq<Seq<char>>, name: Seq<char>) -> Seq<Seq<char>> {
    if found.contains(name) {
        found
    } else {
        found.push(name)
    }
}

/// Two words or more stand behind the time that a summary line gives in square
/// brackets: a binary and a test.
pub open spec fn names_both(words: Seq<Seq<char>>) -> bool {
    exists|i: int| 0 <= i < words.len() - 2 && text::ends(#[trigger] words[i], "]"@)
}

/// The test that a runner's summary line names: the last word of a line that
/// says `FAIL`, where it is a path or stands behind a time and a binary.
pub open spec fn named_by_runner(line: Seq<char>) -> Option<Seq<char>> {
    let words = text::words_of::<AtSpace>(line);
    if (text::begins(line, "FAIL "@) || text::begins(line, "TRY 1 FAIL"@)) && words.len() > 0 && (
    text::has(words.last(), "::"@) || names_both(words)) {
        Some(words.last())
    } else {
        None
    }
}

/// The test that the harness's own line names: `test <name> ... FAILED`.
pub open spec fn named_by_harness(line: Seq<char>) -> Option<Seq<char>> {
    match text::after_prefix(line, "test "@) {
        Some(rest) => text::before_suffix(rest, " ... FAILED"@),
        None => None,
    }
}

/// The names found so far, and those that one more line names.
pub open spec fn after_line(found: Seq<Seq<char>>, line: Seq<char>) -> Seq<Seq<char>> {
    let found = match named_by_runner(line) {
        Some(name) => noted(found, name),
        None => found,
    };
    match named_by_harness(line) {
        Some(name) => noted(found, name),
        None => found,
    }
}

/// The failing tests that the lines of a log name.
pub open spec fn named_in(lines: Seq<Seq<char>>) -> Seq<Seq<char>>
    decreases lines.len(),
{
    if lines.len() == 0 {
        Seq::empty()
    } else {
        after_line(named_in(lines.drop_last()), text::trim_of(lines.last()))
    }
}

/// The panicking thread that a line names.
pub open spec fn named_by_panic(line: Seq<char>) -> Option<Seq<char>> {
    match text::after_prefix(line, "thread '"@) {
        Some(rest) => match text::halves(rest, "'"@) {
            Some((name, _)) => Some(name),
            None => None,
        },
        None => None,
    }
}

/// A thread with this name can be a test's: its name is a path, or, where `bare`,
/// at least not that of a thread that runs no test.
pub open spec fn is_test_thread(name: Seq<char>, bare: bool) -> bool {
    if bare {
        name != "main"@ && name != "<unnamed>"@
    } else {
        text::has(name, "::"@)
    }
}

/// The first panicking thread that the lines of a log name and that can be a
/// test's.
pub open spec fn panicking(lines: Seq<Seq<char>>, bare: bool) -> Option<Seq<char>>
    decreases lines.len(),
{
    if lines.len() == 0 {
        None
    } else {
        match named_by_panic(text::trim_of(lines[0])) {
            Some(name) if is_test_thread(name, bare) => Some(name),
            _ => panicking(lines.skip(1), bare),
        }
    }
}

/// The failing tests that the lines of a log name; without any, the first panicking
/// thread whose name is a path, and without one the first with a bare name.
pub open spec fn killers_of(lines: Seq<Seq<char>>) -> Seq<Seq<char>> {
    let named = named_in(lines);
    if named.len() > 0 {
        named
    } else {
        match panicking(lines, false) {
            Some(name) => seq![name],
            None => match panicking(lines, true) {
                Some(name) => seq![name],
                None => named,
            },
        }
    }
}

/// The failing tests that a log names.
pub open spec fn killers_in(log: Seq<char>) -> Seq<Seq<char>> {
    killers_of(text::lines_of(log))
}

fn note(found: &mut Vec<String>, name: &str)
    ensures
        text::texts(final(found)@) == noted(text::texts(old(found)@), name@),
{
    let ghost before = text::texts(found@);
    if !text::any_text_is(found, name) {
        found.push(text::owned(name));
        assert(text::texts(found@) =~= before.push(name@));
    }
}

fn both_named(words: &Vec<String>) -> (r: bool)
    ensures
        r == names_both(text::texts(words@)),
{
    let ghost all = text::texts(words@);
    let n: usize = words.len();
    let mut i: usize = 0;
    while n > 2 && i < n - 2
        invariant
            n == words@.len(),
            all == text::texts(words@),
            n > 2 ==> i <= n - 2,
            n <= 2 ==> i == 0,
            forall|k: int| 0 <= k < i ==> !text::ends(#[trigger] all[k], "]"@),
        decreases n - i,
    {
        assert(all[i as int] == words@[i as int]@);
        if text::ends_with(words[i].as_str(), "]") {
            return true;
        }
        i += 1;
    }
    false
}

fn runner_names(line: &str) -> (r: Option<String>)
    ensures
        text::option_text(r) == named_by_runner(line@),
{
    if text::starts_with(line, "FAIL ") || text::starts_with(line, "TRY 1 FAIL") {
        let words = text::words::<AtSpace>(line);
        if words.len() > 0 {
            let last: usize = words.len() - 1;
            assert(text::texts(words@)[last as int] == words@[last as int]@);
            if text::contains(words[last].as_str(), "::") || both_named(&words) {
                return Some(words[last].clone());
            }
        }
    }
    None
}

fn harness_names(line: &str) -> (r: Option<String>)
    ensures
        text::option_text(r) == named_by_harness(line@),
{
    match text::strip_prefix(line, "test ") {
        Some(rest) => text::strip_suffix(rest.as_str(), " ... FAILED"),
        None => None,
    }
}

fn panic_names(line: &str) -> (r: Option<String>)
    ensures
        text::option_text(r) == named_by_panic(line@),
{
    match text::strip_prefix(line, "thread '") {
        Some(rest) => match text::split_once(rest.as_str(), "'") {
            Some((name, _)) => Some(name),
            None => None,
        },
        None => None,
    }
}

/// Finds the first panicking thread that can be a test's.
fn find_panicking(lines: &Vec<String>, bare: bool) -> (r: Option<String>)
    ensures
        text::option_text(r) == panicking(text::texts(lines@), bare),
{
    let ghost all = text::texts(lines@);
    let mut k: usize = 0;
    assert(all.skip(0) =~= all);
    while k < lines.len()
        invariant
            k <= lines@.len(),
            all == text::texts(lines@),
            panicking(all, bare) == panicking(all.skip(k as int), bare),
        decreases lines@.len() - k,
    {
        assert(all.skip(k as int)[0] == lines@[k as int]@);
        assert(all.skip(k as int).skip(1) =~= all.skip(k + 1));
        let line = text::trim(lines[k].as_str());
        if let Some(name) = panic_names(line.as_str()) {
            let fits = if bare {
                !text::same(name.as_str(), "main") && !text::same(name.as_str(), "<unnamed>")
            } else {
                text::contains(name.as_str(), "::")
            };
            if fits {
                return Some(name);
            }
        }
        k += 1;
    }
    None
}

fn only(name: String) -> (r: Vec<String>)
    ensures
        text::texts(r@) == seq![name@],
{
    let ghost nv = name@;
    let mut out: Vec<String> = Vec::new();
    out.push(name);
    assert(text::texts(out@) =~= seq![nv]);
    out
}

/// Extracts failing test names from a mutant's test-run log.
///
/// Handles the runner's `FAIL [ 0.00s] (1/4) <binary> <test>` summary lines and
/// the harness's `test <name> ... FAILED`, falling back to the panicking thread
/// name, which both set to the test path.
pub fn killers_from_log(log: &str) -> (r: Vec<String>)
    ensures
        text::texts(r@) == killers_in(log@),
{
    let lines = text::lines(log);
    let ghost all = text::texts(lines@);
    let mut found: Vec<String> = Vec::new();
    let mut i: usize = 0;
    assert(text::texts(found@) =~= named_in(all.take(0)));
    while i < lines.len()
        invariant
            i <= lines@.len(),
            all == text::texts(lines@),
            text::texts(found@) == named_in(all.take(i as int)),
        decreases lines@.len() - i,
    {
        assert(all.take(i as int + 1).drop_last() =~= all.take(i as int));
        assert(all[i as int] == lines@[i as int]@);
        let line = text::trim(lines[i].as_str());
        if let Some(name) = runner_names(line.as_str()) {
            note(&mut found, name.as_str());
        }
        if let Some(name) = harness_names(line.as_str()) {
            note(&mut found, name.as_str());
        }
        i += 1;
    }
    assert(all.take(all.len() as int) =~= all);
    if found.len() == 0 {
        if let Some(name) = find_panicking(&lines, false) {
            return only(name);
        }
        if let Some(name) = find_panicking(&lines, true) {
            return only(name);
        }
    }
    found
}

// ---------------------------------------------------------------------------
// Laws of the log
// ---------------------------------------------------------------------------

/// The names that one line mentions.
pub open spec fn mentioned_by(line: Seq<char>) -> Seq<Seq<char>> {
    let first = match named_by_runner(line) {
        Some(name) => seq![name],
        None => Seq::empty(),
    };
    match named_by_harness(line) {
        Some(name) => first.push(name),
        None => first,
    }
}

/// The names that the lines of a log mention, with every repeat.
pub open spec fn mentioned(lines: Seq<Seq<char>>) -> Seq<Seq<char>>
    decreases lines.len(),
{
    if lines.len() == 0 {
        Seq::empty()
    } else {
        mentioned(lines.drop_last()) + mentioned_by(text::trim_of(lines.last()))
    }
}

/// A list mentions one name before it first mentions another.
pub open spec fn mentions_first(all: Seq<Seq<char>>, a: Seq<char>, b: Seq<char>) -> bool {
    exists|k: int| 0 <= k < all.len() && #[trigger] all[k] == a && !all.take(k).contains(b)
}

/// A list holds what another mentions, each once, in the order of first mention.
pub open spec fn lists_once(r: Seq<Seq<char>>, all: Seq<Seq<char>>) -> bool {
    &&& r.no_duplicates()
    &&& forall|name: Seq<char>| #[trigger] r.contains(name) <==> all.contains(name)
    &&& forall|i: int, j: int|
        #![trigger r[i], r[j]]
        0 <= i < j < r.len() ==> mentions_first(all, r[i], r[j])
}

proof fn lemma_lists_once(r: Seq<Seq<char>>, all: Seq<Seq<char>>, name: Seq<char>)
    requires
        lists_once(r, all),
    ensures
        lists_once(noted(r, name), all.push(name)),
{
    let r2 = noted(r, name);
    let all2 = all.push(name);
    assert(all2[all.len() as int] == name);
    assert(r2.no_duplicates()) by {
        assert forall|i: int, j: int| 0 <= i < r2.len() && 0 <= j < r2.len() && i != j implies r2[i]
            != r2[j] by {
            if i < r.len() {
                assert(r.contains(r[i]));
            }
            if j < r.len() {
                assert(r.contains(r[j]));
            }
        }
    }
    assert forall|x: Seq<char>| #[trigger] r2.contains(x) <==> all2.contains(x) by {
        assert(r.contains(x) <==> all.contains(x));
        if all.contains(x) {
            let k = choose|k: int| 0 <= k < all.len() && all[k] == x;
            assert(all2[k] == x);
        }
        if all2.contains(x) {
            let k = choose|k: int| 0 <= k < all2.len() && all2[k] == x;
            if k < all.len() {
                assert(all[k] == x);
            }
        }
        if !r.contains(name) {
            assert(r2[r.len() as int] == name);
            if r.contains(x) {
                let k = choose|k: int| 0 <= k < r.len() && r[k] == x;
                assert(r2[k] == x);
            }
            if r2.contains(x) {
                let k = choose|k: int| 0 <= k < r2.len() && r2[k] == x;
                if k < r.len() {
                    assert(r[k] == x);
                }
            }
        }
    }
    assert forall|i: int, j: int|
        #![trigger r2[i], r2[j]]
        0 <= i < j < r2.len() implies mentions_first(all2, r2[i], r2[j]) by {
        assert(r2[i] == r[i]);
        if j < r.len() {
            assert(r2[j] == r[j]);
            assert(mentions_first(all, r[i], r[j]));
            let k = choose|k: int|
                0 <= k < all.len() && #[trigger] all[k] == r[i] && !all.take(k).contains(r[j]);
            assert(all2[k] == r2[i]);
            assert(all2.take(k) =~= all.take(k));
        } else {
            assert(r.contains(r[i]));
            let k = choose|k: int| 0 <= k < all.len() && all[k] == r[i];
            assert(all2[k] == r2[i]);
            if all2.take(k).contains(name) {
                let m = choose|m: int| 0 <= m < k && all2.take(k)[m] == name;
                assert(all[m] == name);
                assert(all.contains(name));
            }
        }
    }
}

proof fn lemma_named_once(lines: Seq<Seq<char>>)
    ensures
        lists_once(named_in(lines), mentioned(lines)),
    decreases lines.len(),
{
    if lines.len() > 0 {
        let front = lines.drop_last();
        lemma_named_once(front);
        let line = text::trim_of(lines.last());
        let r0 = named_in(front);
        let m0 = mentioned(front);
        let (r1, m1) = match named_by_runner(line) {
            Some(name) => (noted(r0, name), m0.push(name)),
            None => (r0, m0),
        };
        if let Some(name) = named_by_runner(line) {
            lemma_lists_once(r0, m0, name);
        }
        let m2 = match named_by_harness(line) {
            Some(name) => m1.push(name),
            None => m1,
        };
        if let Some(name) = named_by_harness(line) {
            lemma_lists_once(r1, m1, name);
        }
        assert(mentioned(lines) =~= m2);
    }
}

/// The killers of a log have no repeats. Where any line names one, they are the
/// names that its lines mention, in the order of first mention; where none does,
/// there is at most one, a panicking thread's.
pub proof fn law_killers_are_listed_once(log: Seq<char>)
    ensures
        killers_in(log).no_duplicates(),
        mentioned(text::lines_of(log)).len() > 0 ==> lists_once(
            killers_in(log),
            mentioned(text::lines_of(log)),
        ),
        mentioned(text::lines_of(log)).len() == 0 ==> killers_in(log).len() <= 1,
{
    let lines = text::lines_of(log);
    lemma_named_once(lines);
    let all = mentioned(lines);
    if all.len() > 0 {
        assert(all.contains(all[0]));
        assert(named_in(lines).contains(all[0]));
    } else if named_in(lines).len() > 0 {
        assert(named_in(lines).contains(named_in(lines)[0]));
    }
}

proof fn lemma_named_append(a: Seq<Seq<char>>, b: Seq<Seq<char>>)
    requires
        forall|k: int| 0 <= k < mentioned(b).len() ==> named_in(a).contains(
            #[trigger] mentioned(b)[k],
        ),
    ensures
        named_in(a + b) == named_in(a),
    decreases b.len(),
{
    if b.len() == 0 {
        assert(a + b =~= a);
    } else {
        let front = b.drop_last();
        let line = text::trim_of(b.last());
        assert((a + b).drop_last() =~= a + front);
        let more = mentioned(b);
        assert forall|k: int| 0 <= k < mentioned(front).len() implies named_in(a).contains(
            #[trigger] mentioned(front)[k],
        ) by {
            assert(more[k] == mentioned(front)[k]);
        }
        lemma_named_append(a, front);
        let n = mentioned(front).len() as int;
        let here = mentioned_by(line);
        if let Some(name) = named_by_runner(line) {
            assert(more[n] == here[0]);
            assert(here[0] == name);
        }
        if let Some(name) = named_by_harness(line) {
            assert(more[n + here.len() - 1] == here[here.len() - 1]);
            assert(here.last() == name);
        }
    }
}

proof fn lemma_panicking_append(a: Seq<Seq<char>>, b: Seq<Seq<char>>, bare: bool)
    ensures
        panicking(a + b, bare) == match panicking(a, bare) {
            Some(name) => Some(name),
            None => panicking(b, bare),
        },
    decreases a.len(),
{
    if a.len() == 0 {
        assert(a + b =~= b);
    } else {
        assert((a + b)[0] == a[0]);
        assert((a + b).skip(1) =~= a.skip(1) + b);
        lemma_panicking_append(a.skip(1), b, bare);
    }
}

/// A log that is repeated names the same killers.
pub proof fn law_repeating_a_log_changes_nothing(log: Seq<char>)
    requires
        text::whole_lines(log),
    ensures
        killers_in(log + log) == killers_in(log),
{
    let lines = text::lines_of(log);
    text::lemma_lines_append(log, log);
    lemma_named_once(lines);
    assert forall|k: int| 0 <= k < mentioned(lines).len() implies named_in(lines).contains(
        #[trigger] mentioned(lines)[k],
    ) by {
        assert(mentioned(lines).contains(mentioned(lines)[k]));
    }
    lemma_named_append(lines, lines);
    lemma_panicking_append(lines, lines, false);
    lemma_panicking_append(lines, lines, true);
}

proof fn lemma_named_without(a: Seq<Seq<char>>, t: Seq<char>, b: Seq<Seq<char>>)
    requires
        named_by_runner(text::trim_of(t)) is None,
        named_by_harness(text::trim_of(t)) is None,
    ensures
        named_in(a + seq![t] + b) == named_in(a + b),
    decreases b.len(),
{
    if b.len() == 0 {
        assert((a + seq![t] + b).drop_last() =~= a);
        assert((a + seq![t] + b).last() == t);
        assert(a + b =~= a);
    } else {
        lemma_named_without(a, t, b.drop_last());
        assert((a + seq![t] + b).drop_last() =~= a + seq![t] + b.drop_last());
        assert((a + b).drop_last() =~= a + b.drop_last());
    }
}

/// A line that names a thread names no test by itself.
proof fn lemma_thread_line(line: Seq<char>)
    requires
        text::begins(line, "thread '"@),
    ensures
        named_by_runner(line) is None,
        named_by_harness(line) is None,
{
    reveal_strlit("thread '");
    reveal_strlit("FAIL ");
    reveal_strlit("TRY 1 FAIL");
    reveal_strlit("test ");
    assert(line[0] == "thread '"@[0]);
    assert(line[1] == "thread '"@[1]);
    if text::begins(line, "FAIL "@) {
        assert(line[0] == "FAIL "@[0]);
    }
    if text::begins(line, "TRY 1 FAIL"@) {
        assert(line[0] == "TRY 1 FAIL"@[0]);
    }
    if text::begins(line, "test "@) {
        assert(line[1] == "test "@[1]);
    }
}

/// The name of a panicking thread matters only where no line names a failing test:
/// where one does, a line about a thread may be added anywhere.
pub proof fn law_threads_are_a_fallback(a: Seq<char>, t: Seq<char>, b: Seq<char>)
    requires
        text::whole_lines(a),
        !t.contains('\n'),
        text::begins(text::trim_of(t), "thread '"@),
        mentioned(text::lines_of(a + b)).len() > 0,
    ensures
        killers_in(a + t + seq!['\n'] + b) == killers_in(a + b),
{
    let line = t + seq!['\n'];
    let all = text::lines_of(a + b);
    text::lemma_one_line(t);
    text::lemma_lines_append(line, b);
    text::lemma_lines_append(a, line + b);
    text::lemma_lines_append(a, b);
    assert(a + t + seq!['\n'] + b =~= a + (line + b));
    let x = text::without_return(t);
    text::lemma_trim_return(t);
    lemma_thread_line(text::trim_of(x));
    let la = text::lines_of(a);
    let lb = text::lines_of(b);
    assert(la + (seq![x] + lb) =~= la + seq![x] + lb);
    lemma_named_without(la, x, lb);
    lemma_named_once(all);
    assert(mentioned(all).contains(mentioned(all)[0]));
    assert(named_in(all).contains(mentioned(all)[0]));
}

/// A line `test <name> ... FAILED` makes its test a killer.
pub proof fn law_failed_tests_are_killers(log: Seq<char>, i: int, name: Seq<char>)
    requires
        0 <= i < text::lines_of(log).len(),
        named_by_harness(text::trim_of(text::lines_of(log)[i])) == Some(name),
    ensures
        killers_in(log).contains(name),
{
    let lines = text::lines_of(log);
    lemma_mentions(lines, i);
    law_killers_are_listed_once(log);
    let here = mentioned_by(text::trim_of(lines[i]));
    assert(here.last() == name);
    assert(here[here.len() - 1] == name);
    assert(mentioned(lines).contains(name));
}

proof fn lemma_mentions(lines: Seq<Seq<char>>, i: int)
    requires
        0 <= i < lines.len(),
    ensures
        forall|k: int|
            0 <= k < mentioned_by(text::trim_of(lines[i])).len() ==> mentioned(lines).contains(
                #[trigger] mentioned_by(text::trim_of(lines[i]))[k],
            ),
    decreases lines.len(),
{
    let front = lines.drop_last();
    let here = mentioned_by(text::trim_of(lines[i]));
    if i < front.len() {
        lemma_mentions(front, i);
        assert(front[i] == lines[i]);
        assert forall|k: int| 0 <= k < here.len() implies mentioned(lines).contains(
            #[trigger] here[k],
        ) by {
            assert(mentioned(front).contains(here[k]));
            let m = choose|m: int| 0 <= m < mentioned(front).len() && mentioned(front)[m] == here[k];
            assert(mentioned(lines)[m] == here[k]);
        }
    } else {
        let n = mentioned(front).len() as int;
        assert forall|k: int| 0 <= k < here.len() implies mentioned(lines).contains(
            #[trigger] here[k],
        ) by {
            assert(mentioned(lines)[n + k] == here[k]);
        }
    }
}

/// A mutant as the tool reports it.
#[derive(Clone, Debug)]
pub struct RawMutant {
    pub file: String,
    pub function_name: Option<String>,
    pub line: u32,
    pub column: u32,
    pub replacement: String,
    pub genre: String,
}

/// One outcome as the tool reports it.
#[derive(Clone, Debug)]
pub struct RawOutcome {
    pub summary: String,
    /// The mutant it is the outcome of; none for the baseline run.
    pub mutant: Option<RawMutant>,
    /// The log of the run, where there is one.
    pub log: Option<String>,
}

/// The mutant that an outcome reports, if it reports one that was evaluated. Who
/// killed it is read off the log of a mutant that was caught.
pub open spec fn reported(o: RawOutcome) -> Option<MutantView> {
    match (o.mutant, outcome_named(o.summary@)) {
        (Some(m), Some(outcome)) => Some(
            MutantView {
                file: m.file@,
                function_name: match m.function_name {
                    Some(name) => name@,
                    None => Seq::empty(),
                },
                line: m.line,
                column: m.column,
                replacement: m.replacement@,
                genre: m.genre@,
                outcome,
                killed_by: match o.log {
                    Some(log) => if outcome == MutantOutcome::Caught {
                        killers_in(log@)
                    } else {
                        Seq::empty()
                    },
                    None => Seq::empty(),
                },
            },
        ),
        _ => None,
    }
}

/// The mutants that the outcomes of a run report.
pub open spec fn all_reported(outcomes: Seq<RawOutcome>) -> Seq<MutantView>
    decreases outcomes.len(),
{
    if outcomes.len() == 0 {
        Seq::empty()
    } else {
        match reported(outcomes.last()) {
            Some(m) => all_reported(outcomes.drop_last()).push(m),
            None => all_reported(outcomes.drop_last()),
        }
    }
}

fn read_outcome(o: &RawOutcome) -> (r: Option<Mutant>)
    ensures
        match r {
            Some(m) => reported(*o) == Some(m@),
            None => reported(*o) is None,
        },
{
    let raw = match &o.mutant {
        Some(raw) => raw,
        None => {
            return None;
        },
    };
    let outcome = match MutantOutcome::from_summary(o.summary.as_str()) {
        Some(outcome) => outcome,
        None => {
            return None;
        },
    };
    let killed_by = match &o.log {
        Some(log) => if outcome == MutantOutcome::Caught {
            killers_from_log(log.as_str())
        } else {
            Vec::new()
        },
        None => Vec::new(),
    };
    let function_name = match &raw.function_name {
        Some(name) => name.clone(),
        None => String::new(),
    };
    let m = Mutant {
        file: raw.file.clone(),
        function_name,
        line: raw.line,
        column: raw.column,
        replacement: raw.replacement.clone(),
        genre: raw.genre.clone(),
        outcome,
        killed_by,
    };
    assert(m@ =~= reported(*o)->0);
    Some(m)
}

/// Reads the mutants of a run off its outcomes. The baseline run is no mutant.
pub fn read_outcomes(outcomes: &Vec<RawOutcome>) -> (r: Vec<Mutant>)
    ensures
        order::views(r@) == all_reported(outcomes@),
{
    let mut mutants: Vec<Mutant> = Vec::new();
    let mut i: usize = 0;
    assert(order::views(mutants@) =~= all_reported(outcomes@.take(0)));
    while i < outcomes.len()
        invariant
            i <= outcomes@.len(),
            order::views(mutants@) == all_reported(outcomes@.take(i as int)),
        decreases outcomes@.len() - i,
    {
        let ghost before = order::views(mutants@);
        assert(outcomes@.take(i as int + 1).drop_last() =~= outcomes@.take(i as int));
        if let Some(m) = read_outcome(&outcomes[i]) {
            let ghost mv = m@;
            mutants.push(m);
            assert(order::views(mutants@) =~= before.push(mv));
        }
        i += 1;
    }
    assert(outcomes@.take(outcomes@.len() as int) =~= outcomes@);
    mutants
}

/// How a run of the mutation tool ended.
#[derive(Clone, Copy, Debug, PartialEq, Eq, Structural)]
pub enum RunEnd {
    /// It has a result: every mutant was caught, or some survived, which is the
    /// interesting case and no failure.
    Complete,
    /// It failed, with this exit code.
    Failed(i32),
    /// A signal ended it.
    Signalled,
}

/// How a run with this exit code ended.
pub open spec fn end_of(code: Option<i32>) -> RunEnd {
    match code {
        Some(c) => if c == 0 || c == 1 {
            RunEnd::Complete
        } else {
            RunEnd::Failed(c)
        },
        None => RunEnd::Signalled,
    }
}

/// Reads how a run ended off its exit code.
pub fn run_end(code: Option<i32>) -> (r: RunEnd)
    ensures
        r == match code {
            Some(c) => if c == 0 || c == 1 {
                RunEnd::Complete
            } else {
                RunEnd::Failed(c)
            },
            None => RunEnd::Signalled,
        },
        r == end_of(code),
{
    match code {
        Some(c) => if c == 0 || c == 1 {
            RunEnd::Complete
        } else {
            RunEnd::Failed(c)
        },
        None => RunEnd::Signalled,
    }
}

} // verus!
