//! Which *test* runs which symbol.
//!
//! Coverage answers "does anything execute this symbol". That is a bit per
//! symbol, and a bit is not enough to say anything about an individual test. The
//! edge *test executes symbol* is what makes the per-test verdict possible, and
//! it is the prerequisite for attributing a mutation kill to the test that
//! caught it.
//!
//! The runner runs every test in its own process, so a profile can be isolated
//! per test without any cooperation from the test harness. For each test, in
//! turn: [`AttributionMap::begin`] says which inventoried test it is, the caller
//! profiles it, and [`AttributionMap::finish`] takes up what ran.

use vstd::prelude::*;
use crate::coverage;
use crate::coverage::{CoverageData, CoverageMap, SymbolCoverage};
use crate::inventory::{Inventory, InventoryView, TestId, TestIdView, TestItemView};
use crate::order;
use crate::order::{Key, KeySet, Ranked, Table};
use crate::symbol::{SymbolId, SymbolIdView};
use crate::text;

verus! {

/// A test as the runner addresses it.
#[derive(Clone, Debug, PartialEq, Eq, PartialOrd, Ord)]
pub struct NextestId {
    /// e.g. `oracle-core` for a lib test, `oracle-core::pipeline` for an
    /// integration test binary.
    pub binary_id: String,
    /// e.g. `config::tests::test_parse`, or a bare function name in an
    /// integration test.
    pub testcase: String,
}

/// A test as the runner addresses it, as a mathematical value.
#[verifier::ext_equal]
pub struct NextestIdView {
    pub binary_id: Seq<char>,
    pub testcase: Seq<char>,
}

impl View for NextestId {
    type V = NextestIdView;

    open spec fn view(&self) -> NextestIdView {
        NextestIdView { binary_id: self.binary_id@, testcase: self.testcase@ }
    }
}

impl NextestIdView {
    /// This test is listed before `other`.
    pub open spec fn listed_before(self, other: NextestIdView) -> bool {
        text::earlier(self.binary_id, other.binary_id) || (self.binary_id == other.binary_id
            && text::earlier(self.testcase, other.testcase))
    }
}

impl Ranked for NextestId {
    open spec fn ranks(a: NextestIdView, b: NextestIdView) -> bool {
        !b.listed_before(a)
    }

    proof fn le_total(a: NextestIdView, b: NextestIdView) {
        order::lemma_not_after_total::<String>(a.binary_id, b.binary_id);
        order::lemma_not_after_total::<String>(a.testcase, b.testcase);
        text::lemma_earlier_irreflexive(a.binary_id);
    }

    proof fn le_transitive(a: NextestIdView, b: NextestIdView, c: NextestIdView) {
        order::lemma_not_after_transitive::<String>(a.binary_id, b.binary_id, c.binary_id);
        text::lemma_earlier_total(a.binary_id, b.binary_id);
        text::lemma_earlier_total(b.binary_id, c.binary_id);
        if a.binary_id == b.binary_id && b.binary_id == c.binary_id {
            order::lemma_not_after_transitive::<String>(a.testcase, b.testcase, c.testcase);
        } else if a.binary_id == c.binary_id {
            order::lemma_not_after_total::<String>(a.binary_id, b.binary_id);
        }
    }

    fn may_precede(&self, other: &Self) -> bool {
        if text::comes_before(other.binary_id.as_str(), self.binary_id.as_str()) {
            return false;
        }
        !(text::same(self.binary_id.as_str(), other.binary_id.as_str()) && text::comes_before(
            other.testcase.as_str(),
            self.testcase.as_str(),
        ))
    }
}

impl NextestIdView {
    /// The filter expression that selects exactly this test.
    pub open spec fn selector(self) -> Seq<char> {
        "test(="@ + self.testcase + ")"@
    }
}

impl NextestId {
    /// The filter expression that selects exactly this test.
    pub fn filter(&self) -> (r: String)
        ensures
            r@ == "test(="@ + self@.testcase + ")"@,
            r@ == self@.selector(),
    {
        let mut out = text::owned("test(=");
        out.append(self.testcase.as_str());
        out.append(")");
        out
    }
}

/// Puts the tests that the runner lists in order.
pub fn listed(tests: Vec<NextestId>) -> (r: Vec<NextestId>)
    ensures
        order::views(r@) == order::sorted::<NextestId>(order::views(tests@)),
{
    order::sort_stable(tests)
}

// ---------------------------------------------------------------------------
// Resolving a name
// ---------------------------------------------------------------------------

/// Why a name did not resolve to one test.
#[derive(Clone, Copy, Debug, PartialEq, Eq, Structural)]
pub enum Ambiguity {
    /// No inventoried test has that name.
    NoMatch,
    /// So many have.
    Several(usize),
}

/// The runner's name for a test is the end of the inventory's path for it, from
/// the beginning of a segment on.
pub open spec fn is_named(path: Seq<char>, testcase: Seq<char>) -> bool {
    text::ends(path, "::"@ + testcase) || path == testcase
}

/// The inventoried tests that a name could mean.
pub open spec fn tests_named(tests: Seq<TestItemView>, testcase: Seq<char>) -> Seq<TestIdView>
    decreases tests.len(),
{
    if tests.len() == 0 {
        Seq::empty()
    } else if is_named(tests.last().id.path, testcase) {
        tests_named(tests.drop_last(), testcase).push(tests.last().id)
    } else {
        tests_named(tests.drop_last(), testcase)
    }
}

/// The test that a name means, where it can mean but one.
pub open spec fn resolved(inv: InventoryView, testcase: Seq<char>) -> Result<TestIdView, Ambiguity> {
    let found = tests_named(inv.tests, testcase);
    if found.len() == 0 {
        Err(Ambiguity::NoMatch)
    } else if found.len() == 1 {
        Ok(found[0])
    } else {
        Err(Ambiguity::Several(found.len() as usize))
    }
}

/// The view of a resolution.
pub open spec fn resolution(r: Result<TestId, Ambiguity>) -> Result<TestIdView, Ambiguity> {
    match r {
        Ok(id) => Ok(id@),
        Err(e) => Err(e),
    }
}

/// Resolves a test's name, as a log or a listing has it.
pub fn resolve_name(inv: &Inventory, testcase: &str) -> (r: Result<TestId, Ambiguity>)
    ensures
        resolution(r) == resolved(inv@, testcase@),
{
    let suffix = text::joined("::", testcase);
    let ghost all = inv@.tests;
    let mut found: Vec<&TestId> = Vec::new();
    let mut i: usize = 0;
    while i < inv.tests.len()
        invariant
            i <= inv.tests@.len(),
            all == inv@.tests,
            suffix@ == "::"@ + testcase@,
            found@.map_values(|t: &TestId| t@) == tests_named(all.take(i as int), testcase@),
        decreases inv.tests@.len() - i,
    {
        let ghost before = found@.map_values(|t: &TestId| t@);
        assert(all.take(i as int + 1).drop_last() =~= all.take(i as int));
        assert(all[i as int] == inv.tests@[i as int]@);
        let id = &inv.tests[i].id;
        if text::ends_with(id.path.as_str(), suffix.as_str()) || text::same(
            id.path.as_str(),
            testcase,
        ) {
            found.push(id);
            assert(found@.map_values(|t: &TestId| t@) =~= before.push(id@));
        }
        i += 1;
    }
    assert(all.take(all.len() as int) =~= all);
    let ghost views = found@.map_values(|t: &TestId| t@);
    if found.len() == 0 {
        Err(Ambiguity::NoMatch)
    } else if found.len() == 1 {
        assert(views[0] == found@[0]@);
        Ok(found[0].copy())
    } else {
        Err(Ambiguity::Several(found.len()))
    }
}

/// Resolves a runner's test name to an inventoried test.
///
/// The runner addresses a lib test as `config::tests::test_parse` while the
/// inventory writes `mycrate::config::tests::test_parse`, so the runner's name is
/// a suffix of ours. An integration test is a bare function name, which is only
/// unique within its binary: a name that resolves to more than one inventoried
/// test is an ambiguity rather than a guess, because a wrong edge here is worse
/// than a missing one.
pub fn resolve(inv: &Inventory, test: &NextestId) -> (r: Result<TestId, Ambiguity>)
    ensures
        resolution(r) == resolved(inv@, test@.testcase),
{
    resolve_name(inv, test.testcase.as_str())
}

/// A name resolves to a test only if that test has it and no other place in the
/// inventory does.
pub proof fn law_resolution_is_unique(tests: Seq<TestItemView>, testcase: Seq<char>, i: int, j: int)
    requires
        tests_named(tests, testcase).len() == 1,
        0 <= i < tests.len(),
        0 <= j < tests.len(),
        is_named(tests[i].id.path, testcase),
        is_named(tests[j].id.path, testcase),
    ensures
        i == j,
        tests_named(tests, testcase)[0] == tests[i].id,
    decreases tests.len(),
{
    let front = tests.drop_last();
    let last = tests.len() - 1;
    if i < last && j < last {
        lemma_named_member(front, testcase, i);
        law_resolution_is_unique(front, testcase, i, j);
    } else if i < last {
        lemma_named_member(front, testcase, i);
    } else if j < last {
        lemma_named_member(front, testcase, j);
    }
}

proof fn lemma_named_member(tests: Seq<TestItemView>, testcase: Seq<char>, i: int)
    requires
        0 <= i < tests.len(),
        is_named(tests[i].id.path, testcase),
    ensures
        tests_named(tests, testcase).len() > 0,
    decreases tests.len(),
{
    if i < tests.len() - 1 {
        lemma_named_member(tests.drop_last(), testcase, i);
    }
}

// ---------------------------------------------------------------------------
// The map
// ---------------------------------------------------------------------------

/// Which test executes which symbol.
pub struct AttributionMap {
    /// symbol -> the tests that execute it.
    pub executed_by: Table<SymbolId, KeySet<TestId>>,
    /// test -> the symbols it executes.
    pub executes: Table<TestId, KeySet<SymbolId>>,
    /// The runner's test names that matched no inventoried test. Reported rather
    /// than dropped: a mismatch here silently hollows out the whole map.
    pub unmatched_tests: Vec<String>,
    /// The runner's names that matched more than one inventoried test, and so were
    /// skipped rather than guessed at.
    pub ambiguous_tests: Vec<String>,
}

impl AttributionMap {
    /// The tables and the sets in them are in order.
    pub open spec fn wf(self) -> bool {
        &&& self.executed_by.wf()
        &&& self.executes.wf()
        &&& forall|s: SymbolIdView|
            (#[trigger] order::lookup(self.executed_by@, s)) is Some ==> order::lookup(
                self.executed_by@,
                s,
            )->0.wf()
        &&& forall|t: TestIdView|
            (#[trigger] order::lookup(self.executes@, t)) is Some ==> order::lookup(
                self.executes@,
                t,
            )->0.wf()
    }

    /// The map lists the symbol under the test.
    pub open spec fn runs(self, test: TestIdView, s: SymbolIdView) -> bool {
        match order::lookup(self.executes@, test) {
            Some(set) => set@.contains(s),
            None => false,
        }
    }

    /// The map lists the test under the symbol.
    pub open spec fn run_by(self, s: SymbolIdView, test: TestIdView) -> bool {
        match order::lookup(self.executed_by@, s) {
            Some(set) => set@.contains(test),
            None => false,
        }
    }

    /// Both tables list the same edges.
    pub open spec fn symmetric(self) -> bool {
        forall|t: TestIdView, s: SymbolIdView| #[trigger] self.runs(t, s) <==> self.run_by(s, t)
    }

    /// A map without edges.
    pub fn new() -> (r: Self)
        ensures
            r.wf(),
            r.symmetric(),
            r.executed_by@ == Seq::<(SymbolIdView, KeySet<TestId>)>::empty(),
            r.executes@ == Seq::<(TestIdView, KeySet<SymbolId>)>::empty(),
            r.unmatched_tests@ == Seq::<String>::empty(),
            r.ambiguous_tests@ == Seq::<String>::empty(),
    {
        AttributionMap {
            executed_by: Table::new(),
            executes: Table::new(),
            unmatched_tests: Vec::new(),
            ambiguous_tests: Vec::new(),
        }
    }

    /// Tests that run this symbol.
    pub fn tests_for(&self, symbol: &SymbolId) -> (r: Option<&KeySet<TestId>>)
        ensures
            match r {
                Some(set) => order::lookup(self.executed_by@, symbol@) == Some(*set),
                None => order::lookup(self.executed_by@, symbol@) is None,
            },
    {
        self.executed_by.get(symbol)
    }

    /// Symbols this test runs. The denominator for "and verifies how many?"
    pub fn symbols_for(&self, test: &TestId) -> (r: Option<&KeySet<SymbolId>>)
        ensures
            match r {
                Some(set) => order::lookup(self.executes@, test@) == Some(*set),
                None => order::lookup(self.executes@, test@) is None,
            },
    {
        self.executes.get(test)
    }

    /// Takes up the symbols that a test runs.
    pub fn record(&mut self, test: &TestId, symbols: KeySet<SymbolId>)
        requires
            old(self).wf(),
            symbols.wf(),
        ensures
            final(self).wf(),
            final(self).unmatched_tests@ == old(self).unmatched_tests@,
            final(self).ambiguous_tests@ == old(self).ambiguous_tests@,
            forall|t: TestIdView| #[trigger]
                order::lookup(final(self).executes@, t) == if t == test@ {
                    Some(symbols)
                } else {
                    order::lookup(old(self).executes@, t)
                },
            forall|s: SymbolIdView|
                (#[trigger] order::lookup(final(self).executed_by@, s)) is Some <==> (order::lookup(
                    old(self).executed_by@,
                    s,
                ) is Some || symbols@.contains(s)),
            forall|s: SymbolIdView, t: TestIdView| #[trigger]
                final(self).run_by(s, t) <==> old(self).run_by(s, t) || (t == test@
                    && symbols@.contains(s)),
    {
        let ghost all = symbols@;
        let ghost key = test@;
        let ghost before = *self;
        let mut i: usize = 0;
        while i < symbols.items.len()
            invariant
                i <= symbols.items@.len(),
                all == symbols@,
                key == test@,
                self.wf(),
                self.executes@ == before.executes@,
                self.unmatched_tests@ == before.unmatched_tests@,
                self.ambiguous_tests@ == before.ambiguous_tests@,
                forall|s: SymbolIdView|
                    (#[trigger] order::lookup(self.executed_by@, s)) is Some <==> (order::lookup(
                        before.executed_by@,
                        s,
                    ) is Some || all.take(i as int).contains(s)),
                forall|s: SymbolIdView, t: TestIdView| #[trigger]
                    self.run_by(s, t) <==> before.run_by(s, t) || (t == key && all.take(
                        i as int,
                    ).contains(s)),
            decreases symbols.items@.len() - i,
        {
            let ghost front = all.take(i as int);
            let ghost more = all.take(i as int + 1);
            let ghost here = *self;
            assert(all[i as int] == symbols.items@[i as int]@);
            let symbol = &symbols.items[i];
            let ghost s0 = symbol@;
            let mut tests = match self.executed_by.get(symbol) {
                Some(set) => set.copy(),
                None => KeySet::new(),
            };
            let ghost had = tests@;
            tests.insert(test.copy());
            let ghost now = tests;
            self.executed_by.put(symbol.copy(), tests);
            proof {
                assert forall|s: SymbolIdView|
                    (#[trigger] order::lookup(self.executed_by@, s)) is Some <==> (order::lookup(
                        before.executed_by@,
                        s,
                    ) is Some || more.contains(s)) by {
                    lemma_take_member(all, i as int, s);
                    assert(order::lookup(here.executed_by@, s) is Some <==> (order::lookup(
                        before.executed_by@,
                        s,
                    ) is Some || front.contains(s)));
                }
                assert forall|s: SymbolIdView, t: TestIdView| #[trigger]
                    self.run_by(s, t) <==> before.run_by(s, t) || (t == key && more.contains(
                        s,
                    )) by {
                    lemma_take_member(all, i as int, s);
                    assert(here.run_by(s, t) <==> before.run_by(s, t) || (t == key
                        && front.contains(s)));
                    if s == s0 {
                        assert(order::lookup(self.executed_by@, s) == Some(now));
                        assert(now@.contains(t) <==> had.contains(t) || t == key);
                    } else {
                        assert(order::lookup(self.executed_by@, s) == order::lookup(
                            here.executed_by@,
                            s,
                        ));
                    }
                }
            }
            i += 1;
        }
        assert(all.take(all.len() as int) =~= all);
        let ghost here = *self;
        self.executes.put(test.copy(), symbols);
        proof {
            assert forall|s: SymbolIdView, t: TestIdView| #[trigger]
                self.run_by(s, t) <==> before.run_by(s, t) || (t == key && all.contains(s)) by {
                assert(here.run_by(s, t) == self.run_by(s, t));
            }
        }
    }

    /// Says which inventoried test to profile for a test of the runner. One that
    /// resolves to no test or to several is noted, and there is none to profile.
    pub fn begin(&mut self, inv: &Inventory, test: &NextestId) -> (r: Option<TestId>)
        ensures
            final(self).executed_by == old(self).executed_by,
            final(self).executes == old(self).executes,
            match resolved(inv@, test@.testcase) {
                Ok(id) => {
                    &&& r is Some
                    &&& r->0@ == id
                    &&& final(self).unmatched_tests@ == old(self).unmatched_tests@
                    &&& final(self).ambiguous_tests@ == old(self).ambiguous_tests@
                },
                Err(Ambiguity::NoMatch) => {
                    &&& r is None
                    &&& text::texts(final(self).unmatched_tests@) == text::texts(
                        old(self).unmatched_tests@,
                    ).push(test@.testcase)
                    &&& final(self).ambiguous_tests@ == old(self).ambiguous_tests@
                },
                Err(Ambiguity::Several(_)) => {
                    &&& r is None
                    &&& final(self).unmatched_tests@ == old(self).unmatched_tests@
                    &&& text::texts(final(self).ambiguous_tests@) == text::texts(
                        old(self).ambiguous_tests@,
                    ).push(test@.testcase)
                },
            },
    {
        let ghost unmatched = text::texts(self.unmatched_tests@);
        let ghost ambiguous = text::texts(self.ambiguous_tests@);
        match resolve(inv, test) {
            Ok(id) => Some(id),
            Err(Ambiguity::NoMatch) => {
                self.unmatched_tests.push(test.testcase.clone());
                assert(text::texts(self.unmatched_tests@) =~= unmatched.push(test@.testcase));
                None
            },
            Err(Ambiguity::Several(_)) => {
                self.ambiguous_tests.push(test.testcase.clone());
                assert(text::texts(self.ambiguous_tests@) =~= ambiguous.push(test@.testcase));
                None
            },
        }
    }

    /// Takes up what a test's own profile says that it ran. Where the counts of
    /// the profile do not fit in 64 bits, nothing is taken up.
    pub fn finish(&mut self, inv: &Inventory, test: &TestId, data: &CoverageData) -> (r: bool)
        requires
            old(self).wf(),
        ensures
            final(self).wf(),
            r == coverage::counts_fit(inv@, data@),
            !r ==> *final(self) == *old(self),
            r ==> {
                &&& final(self).unmatched_tests@ == old(self).unmatched_tests@
                &&& final(self).ambiguous_tests@ == old(self).ambiguous_tests@
                &&& order::lookup(final(self).executes@, test@) is Some
                &&& forall|s: SymbolIdView| #[trigger]
                    final(self).runs(test@, s) <==> coverage::symbol_tally(inv@, data@, s).count > 0
                &&& forall|t: TestIdView|
                    t != test@ ==> #[trigger] order::lookup(final(self).executes@, t)
                        == order::lookup(old(self).executes@, t)
                &&& forall|s: SymbolIdView, t: TestIdView| #[trigger]
                    final(self).run_by(s, t) <==> old(self).run_by(s, t) || (t == test@
                        && coverage::symbol_tally(inv@, data@, s).count > 0)
            },
    {
        match CoverageMap::try_join(inv, data) {
            Some(map) => {
                let symbols = executed_symbols(&map);
                proof {
                    assert forall|s: SymbolIdView| #[trigger]
                        symbols@.contains(s) <==> coverage::symbol_tally(inv@, data@, s).count
                            > 0 by {
                        coverage::lemma_tally_bounds(inv@, data@, s);
                        assert(order::lookup(map.symbols@, s) == coverage::evidence(
                            inv@,
                            data@,
                            s,
                        ));
                        assert(coverage::symbol_tally(inv@, data@, s).count <= u64::MAX);
                    }
                }
                self.record(test, symbols);
                true
            },
            None => false,
        }
    }
}

proof fn lemma_take_member<A>(s: Seq<A>, i: int, x: A)
    requires
        0 <= i < s.len(),
    ensures
        s.take(i + 1).contains(x) <==> s.take(i).contains(x) || x == s[i],
{
    let front = s.take(i);
    let more = s.take(i + 1);
    if front.contains(x) {
        let k = choose|k: int| 0 <= k < front.len() && front[k] == x;
        assert(more[k] == x);
    }
    if more.contains(x) {
        let k = choose|k: int| 0 <= k < more.len() && more[k] == x;
        if k < i {
            assert(front[k] == x);
        }
    }
    if x == s[i] {
        assert(more[i] == x);
    }
}

/// The symbols that ran.
fn executed_symbols(map: &CoverageMap) -> (r: KeySet<SymbolId>)
    requires
        map.wf(),
    ensures
        r.wf(),
        forall|s: SymbolIdView| #[trigger] r@.contains(s) <==> map.ran(s),
{
    let ghost all = map.symbols@;
    let mut out: KeySet<SymbolId> = KeySet::new();
    let mut i: usize = 0;
    while i < map.symbols.entries.len()
        invariant
            i <= map.symbols.entries@.len(),
            map.wf(),
            all == map.symbols@,
            out.wf(),
            forall|s: SymbolIdView| #[trigger]
                out@.contains(s) <==> exists|k: int|
                    0 <= k < i && (#[trigger] all[k]).0 == s && all[k].1.execution_count > 0,
        decreases map.symbols.entries@.len() - i,
    {
        let ghost before = out@;
        let entry = &map.symbols.entries[i];
        assert(all[i as int] == (entry.0@, entry.1));
        let ran = entry.1.executed();
        if ran {
            out.insert(entry.0.copy());
        }
        assert forall|s: SymbolIdView| #[trigger] out@.contains(s) <==> exists|k: int|
            0 <= k < i + 1 && (#[trigger] all[k]).0 == s && all[k].1.execution_count > 0 by {
            assert(before.contains(s) <==> exists|k: int|
                0 <= k < i && (#[trigger] all[k]).0 == s && all[k].1.execution_count > 0);
            if ran && s == all[i as int].0 {
                assert(all[i as int].1.execution_count > 0);
            }
        }
        i += 1;
    }
    proof {
        assert forall|s: SymbolIdView| #[trigger] out@.contains(s) <==> map.ran(s) by {
            order::lemma_entry_lookup::<SymbolId, SymbolCoverage>(all, s);
            if out@.contains(s) {
                let k = choose|k: int|
                    0 <= k < all.len() && (#[trigger] all[k]).0 == s && all[k].1.execution_count
                        > 0;
                assert(all[k] == (s, all[k].1));
                assert(all.contains((s, all[k].1)));
            }
            if map.ran(s) {
                let v = order::lookup(all, s)->0;
                let k = choose|k: int| 0 <= k < all.len() && all[k] == (s, v);
                assert(all[k].0 == s);
            }
        }
    }
    out
}

/// A test that is recorded once, after others that were, leaves both tables with
/// the same edges.
pub proof fn law_edges_stay_symmetric(
    before: AttributionMap,
    after: AttributionMap,
    test: TestIdView,
    symbols: KeySet<SymbolId>,
)
    requires
        before.symmetric(),
        order::lookup(before.executes@, test) is None,
        forall|t: TestIdView| #[trigger]
            order::lookup(after.executes@, t) == if t == test {
                Some(symbols)
            } else {
                order::lookup(before.executes@, t)
            },
        forall|s: SymbolIdView, t: TestIdView| #[trigger]
            after.run_by(s, t) <==> before.run_by(s, t) || (t == test && symbols@.contains(s)),
    ensures
        after.symmetric(),
{
    assert forall|t: TestIdView, s: SymbolIdView| #[trigger] after.runs(t, s) <==> after.run_by(
        s,
        t,
    ) by {
        assert(before.runs(t, s) <==> before.run_by(s, t));
        assert(order::lookup(after.executes@, t) == if t == test {
            Some(symbols)
        } else {
            order::lookup(before.executes@, t)
        });
    }
}

} // verus!
