//! Which symbols actually run.
//!
//! Instrumented coverage is natively *function*-granular: its report carries an
//! execution count and source regions per function, so the symbol layer is the
//! native unit here and the line view is the derived one.
//!
//! # The join
//!
//! Coverage names are mangled and monomorphized; inventory names are what was
//! written. They are never compared. Each coverage entry is placed by the start
//! line of its first region, and the inventory span that contains that line
//! claims it:
//!
//! - An entry starting *exactly* at a symbol's `fn` line is an entry for it. A
//!   generic function produces one per monomorphization, and their counts sum to
//!   the symbol's total executions.
//! - An entry starting *inside* the body is nested: a closure, an `async` block,
//!   a generator. Its count is tracked separately, because a closure that never
//!   ran inside a function that did is a real and interesting signal, but adding
//!   it to the parent's count would be meaningless.
//! - An entry matching no span at all is macro or derive output. It is counted
//!   and reported rather than silently dropped.

use vstd::prelude::*;
use crate::inventory;
use crate::inventory::{Inventory, InventoryView, TestId, TestIdView, TestItem, TestItemView};
use crate::order;
use crate::order::{Key, Table};
use crate::symbol::{Symbol, SymbolId, SymbolIdView, SymbolView};
use crate::text;
use crate::text::Cut;

verus! {

/// One function of a coverage report, reduced to what the join needs.
#[derive(Clone, Debug)]
pub struct CoverageFunction {
    /// Mangled and monomorphized. Kept for diagnostics only, never joined on.
    pub name: String,
    /// How many times this entry was executed.
    pub count: u64,
    /// Relative to the workspace root, matching `SymbolId::file`.
    pub file: String,
    /// Start line of the entry's first region, which is what places it.
    pub start_line: u32,
}

/// One function of a coverage report, as a mathematical value.
#[verifier::ext_equal]
pub struct CoverageFunctionView {
    pub name: Seq<char>,
    pub count: u64,
    pub file: Seq<char>,
    pub start_line: u32,
}

impl View for CoverageFunction {
    type V = CoverageFunctionView;

    open spec fn view(&self) -> CoverageFunctionView {
        CoverageFunctionView {
            name: self.name@,
            count: self.count,
            file: self.file@,
            start_line: self.start_line,
        }
    }
}

/// Every function entry of a coverage report.
#[derive(Clone, Debug)]
pub struct CoverageData {
    /// The entries, in report order.
    pub functions: Vec<CoverageFunction>,
}

impl View for CoverageData {
    type V = Seq<CoverageFunctionView>;

    open spec fn view(&self) -> Seq<CoverageFunctionView> {
        order::views(self.functions@)
    }
}

/// Execution evidence for one inventory symbol.
#[derive(Clone, Copy, Debug, PartialEq, Eq, Structural)]
pub struct SymbolCoverage {
    /// Total executions, summed across every coverage entry for this symbol.
    pub execution_count: u64,
    /// How many coverage entries collapsed onto this one source definition.
    ///
    /// Greater than one has two causes that the report cannot distinguish: a
    /// generic function monomorphized several times, or the same function
    /// compiled into several binaries. Either way the counts sum to total
    /// executions, but this is not a count of generic instantiations.
    pub entries: usize,
    /// Closures and `async` blocks defined inside the body.
    pub nested: usize,
    /// ...of which never ran. An uncovered closure inside a covered function is
    /// an error path nothing exercised.
    pub nested_uncovered: usize,
}

/// A symbol that nothing is known of.
pub open spec fn unseen() -> SymbolCoverage {
    SymbolCoverage { execution_count: 0, entries: 0, nested: 0, nested_uncovered: 0 }
}

impl Default for SymbolCoverage {
    fn default() -> (r: Self)
        ensures
            r == unseen(),
    {
        SymbolCoverage { execution_count: 0, entries: 0, nested: 0, nested_uncovered: 0 }
    }
}

impl SymbolCoverage {
    /// Whether any test reached this symbol.
    pub fn executed(&self) -> (r: bool)
        ensures
            r == (self.execution_count > 0),
    {
        self.execution_count > 0
    }
}

/// Coverage joined onto an inventory.
pub struct CoverageMap {
    /// Per-symbol execution evidence.
    pub symbols: Table<SymbolId, SymbolCoverage>,
    /// Execution counts for inventoried test functions, which per-test attribution
    /// builds on.
    pub tests: Table<TestId, u64>,
    /// Entries that matched no inventory span: macro expansions and derive
    /// output, which have no source definition of their own.
    pub unmatched: usize,
    /// Inventory files that the coverage report never mentions, usually because
    /// the crate was not built or the report is stale.
    pub files_without_coverage: Vec<String>,
}

// ---------------------------------------------------------------------------
// Placing an entry
// ---------------------------------------------------------------------------

/// The first symbol of a file that is defined at a line.
pub open spec fn defined_at(symbols: Seq<SymbolView>, file: Seq<char>, line: u32) -> Option<
    SymbolView,
>
    decreases symbols.len(),
{
    if symbols.len() == 0 {
        None
    } else if symbols[0].id.file == file && symbols[0].span.start == line {
        Some(symbols[0])
    } else {
        defined_at(symbols.skip(1), file, line)
    }
}

/// The first test of a file around a line.
pub open spec fn test_at(tests: Seq<TestItemView>, file: Seq<char>, line: u32) -> Option<
    TestItemView,
>
    decreases tests.len(),
{
    if tests.len() == 0 {
        None
    } else if tests[0].id.file == file && tests[0].span.covers(line) {
        Some(tests[0])
    } else {
        test_at(tests.skip(1), file, line)
    }
}

/// What a coverage entry belongs to.
#[verifier::ext_equal]
pub enum Placement {
    /// An entry for a symbol.
    Entry(SymbolIdView),
    /// Something nested in a symbol's body.
    Nested(SymbolIdView),
    /// A test.
    Test(TestIdView),
    /// Nothing that was inventoried.
    Unmatched,
}

/// Where an entry belongs: to the symbol defined at its line, or else to the
/// innermost one around it, or else to the test around it.
pub open spec fn placement(inv: InventoryView, f: CoverageFunctionView) -> Placement {
    match defined_at(inv.symbols, f.file, f.start_line) {
        Some(s) => Placement::Entry(s.id),
        None => match inventory::innermost_of(inv.symbols, f.file, f.start_line) {
            Some(s) => Placement::Nested(s.id),
            None => match test_at(inv.tests, f.file, f.start_line) {
                Some(t) => Placement::Test(t.id),
                None => Placement::Unmatched,
            },
        },
    }
}

/// What a coverage entry belongs to, borrowed from the inventory.
enum Placed<'a> {
    Entry(&'a SymbolId),
    Nested(&'a SymbolId),
    Test(&'a TestId),
    Unmatched,
}

spec fn placed_as(p: Placed) -> Placement {
    match p {
        Placed::Entry(id) => Placement::Entry(id@),
        Placed::Nested(id) => Placement::Nested(id@),
        Placed::Test(id) => Placement::Test(id@),
        Placed::Unmatched => Placement::Unmatched,
    }
}

fn find_defined<'a>(symbols: &'a Vec<Symbol>, file: &str, line: u32) -> (r: Option<&'a Symbol>)
    ensures
        match r {
            Some(s) => defined_at(order::views(symbols@), file@, line) == Some(s@),
            None => defined_at(order::views(symbols@), file@, line) is None,
        },
{
    let ghost all = order::views(symbols@);
    let mut i: usize = 0;
    assert(all.skip(0) =~= all);
    while i < symbols.len()
        invariant
            i <= symbols@.len(),
            all == order::views(symbols@),
            defined_at(all, file@, line) == defined_at(all.skip(i as int), file@, line),
        decreases symbols@.len() - i,
    {
        assert(all.skip(i as int)[0] == symbols@[i as int]@);
        assert(all.skip(i as int).skip(1) =~= all.skip(i + 1));
        let s = &symbols[i];
        if s.span.start == line && text::same(s.id.file.as_str(), file) {
            return Some(s);
        }
        i += 1;
    }
    None
}

fn find_test<'a>(tests: &'a Vec<TestItem>, file: &str, line: u32) -> (r: Option<&'a TestItem>)
    ensures
        match r {
            Some(t) => test_at(order::views(tests@), file@, line) == Some(t@),
            None => test_at(order::views(tests@), file@, line) is None,
        },
{
    let ghost all = order::views(tests@);
    let mut i: usize = 0;
    assert(all.skip(0) =~= all);
    while i < tests.len()
        invariant
            i <= tests@.len(),
            all == order::views(tests@),
            test_at(all, file@, line) == test_at(all.skip(i as int), file@, line),
        decreases tests@.len() - i,
    {
        assert(all.skip(i as int)[0] == tests@[i as int]@);
        assert(all.skip(i as int).skip(1) =~= all.skip(i + 1));
        let t = &tests[i];
        if t.span.contains(line) && text::same(t.id.file.as_str(), file) {
            return Some(t);
        }
        i += 1;
    }
    None
}

fn place<'a>(inv: &'a Inventory, f: &CoverageFunction) -> (r: Placed<'a>)
    ensures
        placed_as(r) == placement(inv@, f@),
{
    if let Some(s) = find_defined(&inv.symbols, f.file.as_str(), f.start_line) {
        return Placed::Entry(&s.id);
    }
    if let Some(s) = inventory::innermost(&inv.symbols, f.file.as_str(), f.start_line) {
        return Placed::Nested(&s.id);
    }
    if let Some(t) = find_test(&inv.tests, f.file.as_str(), f.start_line) {
        return Placed::Test(&t.id);
    }
    Placed::Unmatched
}

// ---------------------------------------------------------------------------
// Tallying
// ---------------------------------------------------------------------------

/// What the entries of a report add up to for one symbol.
#[verifier::ext_equal]
pub struct Tally {
    pub count: nat,
    pub entries: nat,
    pub nested: nat,
    pub uncovered: nat,
}

/// What the entries of a report add up to for one symbol.
pub open spec fn symbol_tally(
    inv: InventoryView,
    fs: Seq<CoverageFunctionView>,
    id: SymbolIdView,
) -> Tally
    decreases fs.len(),
{
    if fs.len() == 0 {
        Tally { count: 0, entries: 0, nested: 0, uncovered: 0 }
    } else {
        let t = symbol_tally(inv, fs.drop_last(), id);
        let f = fs.last();
        if placement(inv, f) == Placement::Entry(id) {
            Tally { count: t.count + f.count as nat, entries: t.entries + 1, ..t }
        } else if placement(inv, f) == Placement::Nested(id) {
            Tally {
                nested: t.nested + 1,
                uncovered: if f.count == 0 {
                    t.uncovered + 1
                } else {
                    t.uncovered
                },
                ..t
            }
        } else {
            t
        }
    }
}

/// What the entries of a report add up to for one test: how many there are, and
/// their counts.
pub open spec fn test_tally(
    inv: InventoryView,
    fs: Seq<CoverageFunctionView>,
    id: TestIdView,
) -> (nat, nat)
    decreases fs.len(),
{
    if fs.len() == 0 {
        (0, 0)
    } else {
        let t = test_tally(inv, fs.drop_last(), id);
        let f = fs.last();
        if placement(inv, f) == Placement::Test(id) {
            (t.0 + 1, t.1 + f.count as nat)
        } else {
            t
        }
    }
}

/// How many entries belong to nothing that was inventoried.
pub open spec fn unmatched_in(inv: InventoryView, fs: Seq<CoverageFunctionView>) -> nat
    decreases fs.len(),
{
    if fs.len() == 0 {
        0
    } else {
        let before = unmatched_in(inv, fs.drop_last());
        if placement(inv, fs.last()) == Placement::Unmatched {
            before + 1
        } else {
            before
        }
    }
}

/// The counts of each symbol and of each test fit in 64 bits.
pub open spec fn counts_fit(inv: InventoryView, fs: Seq<CoverageFunctionView>) -> bool {
    &&& forall|id: SymbolIdView| (#[trigger] symbol_tally(inv, fs, id)).count <= u64::MAX
    &&& forall|id: TestIdView| (#[trigger] test_tally(inv, fs, id)).1 <= u64::MAX
}

/// The evidence for a symbol, if the report has any.
pub open spec fn evidence(
    inv: InventoryView,
    fs: Seq<CoverageFunctionView>,
    id: SymbolIdView,
) -> Option<SymbolCoverage> {
    let t = symbol_tally(inv, fs, id);
    if t.entries + t.nested == 0 {
        None
    } else {
        Some(
            SymbolCoverage {
                execution_count: t.count as u64,
                entries: t.entries as usize,
                nested: t.nested as usize,
                nested_uncovered: t.uncovered as usize,
            },
        )
    }
}

/// The executions of a test, if the report has any entry for it.
pub open spec fn test_evidence(
    inv: InventoryView,
    fs: Seq<CoverageFunctionView>,
    id: TestIdView,
) -> Option<u64> {
    let t = test_tally(inv, fs, id);
    if t.0 == 0 {
        None
    } else {
        Some(t.1 as u64)
    }
}

/// The report mentions a file.
pub open spec fn mentions(fs: Seq<CoverageFunctionView>, file: Seq<char>) -> bool {
    exists|i: int| 0 <= i < fs.len() && (#[trigger] fs[i]).file == file
}

/// A file defines something that coverage could be about.
pub open spec fn defines(inv: InventoryView, file: Seq<char>) -> bool {
    ||| exists|i: int| 0 <= i < inv.symbols.len() && (#[trigger] inv.symbols[i]).id.file == file
    ||| exists|i: int| 0 <= i < inv.tests.len() && (#[trigger] inv.tests[i]).id.file == file
}

/// The files of a list that define something and that the report never mentions.
pub open spec fn missing_files(
    inv: InventoryView,
    fs: Seq<CoverageFunctionView>,
    files: Seq<Seq<char>>,
) -> Seq<Seq<char>>
    decreases files.len(),
{
    if files.len() == 0 {
        Seq::empty()
    } else {
        let before = missing_files(inv, fs, files.drop_last());
        if !mentions(fs, files.last()) && defines(inv, files.last()) {
            before.push(files.last())
        } else {
            before
        }
    }
}

impl CoverageMap {
    /// The tables are in order.
    pub open spec fn wf(self) -> bool {
        self.symbols.wf() && self.tests.wf()
    }

    /// The map holds what a report says about an inventory.
    pub open spec fn joins(self, inv: InventoryView, fs: Seq<CoverageFunctionView>) -> bool {
        &&& self.wf()
        &&& forall|id: SymbolIdView| #[trigger]
            order::lookup(self.symbols@, id) == evidence(inv, fs, id)
        &&& forall|id: TestIdView| #[trigger]
            order::lookup(self.tests@, id) == test_evidence(inv, fs, id)
        &&& self.unmatched == unmatched_in(inv, fs)
        &&& text::texts(self.files_without_coverage@) == missing_files(inv, fs, inv.files)
    }
}

/// No more entries are tallied than there are.
pub proof fn lemma_tally_bounds(inv: InventoryView, fs: Seq<CoverageFunctionView>, id: SymbolIdView)
    ensures
        symbol_tally(inv, fs, id).entries + symbol_tally(inv, fs, id).nested <= fs.len(),
        symbol_tally(inv, fs, id).uncovered <= symbol_tally(inv, fs, id).nested,
        symbol_tally(inv, fs, id).entries == 0 ==> symbol_tally(inv, fs, id).count == 0,
    decreases fs.len(),
{
    if fs.len() > 0 {
        lemma_tally_bounds(inv, fs.drop_last(), id);
    }
}

/// A tally only grows.
proof fn lemma_tally_grows(
    inv: InventoryView,
    fs: Seq<CoverageFunctionView>,
    n: int,
    id: SymbolIdView,
    t: TestIdView,
)
    requires
        0 <= n <= fs.len(),
    ensures
        symbol_tally(inv, fs.take(n), id).count <= symbol_tally(inv, fs, id).count,
        test_tally(inv, fs.take(n), t).1 <= test_tally(inv, fs, t).1,
    decreases fs.len() - n,
{
    if n == fs.len() {
        assert(fs.take(n) =~= fs);
    } else {
        lemma_tally_grows(inv, fs, n + 1, id, t);
        assert(fs.take(n + 1).drop_last() =~= fs.take(n));
    }
}

proof fn lemma_unmatched_bound(inv: InventoryView, fs: Seq<CoverageFunctionView>)
    ensures
        unmatched_in(inv, fs) <= fs.len(),
    decreases fs.len(),
{
    if fs.len() > 0 {
        lemma_unmatched_bound(inv, fs.drop_last());
    }
}

fn file_mentioned(functions: &Vec<CoverageFunction>, file: &str) -> (r: bool)
    ensures
        r == mentions(order::views(functions@), file@),
{
    let ghost all = order::views(functions@);
    let mut i: usize = 0;
    while i < functions.len()
        invariant
            i <= functions@.len(),
            all == order::views(functions@),
            forall|k: int| 0 <= k < i ==> (#[trigger] all[k]).file != file@,
        decreases functions@.len() - i,
    {
        assert(all[i as int] == functions@[i as int]@);
        if text::same(functions[i].file.as_str(), file) {
            return true;
        }
        i += 1;
    }
    false
}

fn file_defines(inv: &Inventory, file: &str) -> (r: bool)
    ensures
        r == defines(inv@, file@),
{
    let ghost symbols = inv@.symbols;
    let mut i: usize = 0;
    while i < inv.symbols.len()
        invariant
            i <= inv.symbols@.len(),
            symbols == inv@.symbols,
            forall|k: int| 0 <= k < i ==> (#[trigger] symbols[k]).id.file != file@,
        decreases inv.symbols@.len() - i,
    {
        assert(symbols[i as int] == inv.symbols@[i as int]@);
        if text::same(inv.symbols[i].id.file.as_str(), file) {
            return true;
        }
        i += 1;
    }
    let ghost tests = inv@.tests;
    let mut k: usize = 0;
    while k < inv.tests.len()
        invariant
            k <= inv.tests@.len(),
            tests == inv@.tests,
            forall|j: int| 0 <= j < k ==> (#[trigger] tests[j]).id.file != file@,
        decreases inv.tests@.len() - k,
    {
        assert(tests[k as int] == inv.tests@[k as int]@);
        if text::same(inv.tests[k].id.file.as_str(), file) {
            return true;
        }
        k += 1;
    }
    false
}

fn find_missing(inv: &Inventory, functions: &Vec<CoverageFunction>) -> (r: Vec<String>)
    ensures
        text::texts(r@) == missing_files(inv@, order::views(functions@), inv@.files),
{
    let ghost all = inv@.files;
    let ghost fs = order::views(functions@);
    let mut out: Vec<String> = Vec::new();
    let mut i: usize = 0;
    while i < inv.files.len()
        invariant
            i <= inv.files@.len(),
            all == inv@.files,
            fs == order::views(functions@),
            text::texts(out@) == missing_files(inv@, fs, all.take(i as int)),
        decreases inv.files@.len() - i,
    {
        let ghost before = text::texts(out@);
        assert(all.take(i as int + 1).drop_last() =~= all.take(i as int));
        assert(all[i as int] == inv.files@[i as int]@);
        let file = inv.files[i].as_str();
        if !file_mentioned(functions, file) && file_defines(inv, file) {
            out.push(inv.files[i].clone());
            assert(text::texts(out@) =~= before.push(all[i as int]));
        }
        i += 1;
    }
    assert(all.take(all.len() as int) =~= all);
    out
}

impl CoverageMap {
    /// A map that holds nothing.
    pub fn new() -> (r: Self)
        ensures
            r.wf(),
            r.symbols@ == Seq::<(SymbolIdView, SymbolCoverage)>::empty(),
            r.tests@ == Seq::<(TestIdView, u64)>::empty(),
            r.unmatched == 0,
            r.files_without_coverage@ == Seq::<String>::empty(),
    {
        CoverageMap {
            symbols: Table::new(),
            tests: Table::new(),
            unmatched: 0,
            files_without_coverage: Vec::new(),
        }
    }

    /// Places every coverage entry onto the inventory by span containment, unless
    /// the counts of some symbol or test do not fit in 64 bits.
    pub fn try_join(inv: &Inventory, data: &CoverageData) -> (r: Option<Self>)
        ensures
            match r {
                Some(map) => counts_fit(inv@, data@) && map.joins(inv@, data@),
                None => !counts_fit(inv@, data@),
            },
    {
        let ghost iv = inv@;
        let ghost all = data@;
        let mut symbols: Table<SymbolId, SymbolCoverage> = Table::new();
        let mut tests: Table<TestId, u64> = Table::new();
        let mut unmatched: usize = 0;
        let mut i: usize = 0;
        while i < data.functions.len()
            invariant
                i <= data.functions@.len(),
                iv == inv@,
                all == data@,
                symbols.wf(),
                tests.wf(),
                forall|id: SymbolIdView| #[trigger]
                    order::lookup(symbols@, id) == evidence(iv, all.take(i as int), id),
                forall|id: TestIdView| #[trigger]
                    order::lookup(tests@, id) == test_evidence(iv, all.take(i as int), id),
                unmatched == unmatched_in(iv, all.take(i as int)),
                counts_fit(iv, all.take(i as int)),
            decreases data.functions@.len() - i,
        {
            let ghost front = all.take(i as int);
            let ghost more = all.take(i as int + 1);
            let n: usize = data.functions.len();
            assert(more.drop_last() =~= front);
            assert(more.last() == data.functions@[i as int]@);
            let func = &data.functions[i];
            let ghost f = func@;
            let placed = place(inv, func);
            assert(placement(iv, f) == placed_as(placed));
            proof {
                lemma_unmatched_bound(iv, front);
            }
            match placed {
                Placed::Entry(id) => {
                    let ghost key = id@;
                    proof {
                        lemma_tally_bounds(iv, front, key);
                        assert(symbol_tally(iv, front, key).count <= u64::MAX);
                    }
                    let mut entry = match symbols.get(id) {
                        Some(c) => *c,
                        None => SymbolCoverage::default(),
                    };
                    match entry.execution_count.checked_add(func.count) {
                        Some(sum) => {
                            entry.execution_count = sum;
                            assert(symbol_tally(iv, more, key).count <= u64::MAX);
                        },
                        None => {
                            proof {
                                assert(symbol_tally(iv, more, key).count > u64::MAX);
                                lemma_tally_grows(
                                    iv,
                                    all,
                                    i as int + 1,
                                    key,
                                    TestIdView { file: f.file, line: 0, path: f.file },
                                );
                                assert(symbol_tally(iv, all, key).count > u64::MAX);
                            }
                            return None;
                        },
                    }
                    entry.entries = entry.entries + 1;
                    symbols.put(id.copy(), entry);
                    proof {
                        assert forall|k: SymbolIdView| #[trigger]
                            order::lookup(symbols@, k) == evidence(iv, more, k) by {
                            lemma_tally_bounds(iv, front, k);
                            assert(order::lookup(symbols@, k) == if k == key {
                                Some(entry)
                            } else {
                                evidence(iv, front, k)
                            });
                        }
                    }
                },
                Placed::Nested(id) => {
                    let ghost key = id@;
                    proof {
                        lemma_tally_bounds(iv, front, key);
                        assert(symbol_tally(iv, front, key).count <= u64::MAX);
                    }
                    let mut entry = match symbols.get(id) {
                        Some(c) => *c,
                        None => SymbolCoverage::default(),
                    };
                    entry.nested = entry.nested + 1;
                    if func.count == 0 {
                        entry.nested_uncovered = entry.nested_uncovered + 1;
                    }
                    symbols.put(id.copy(), entry);
                    proof {
                        assert forall|k: SymbolIdView| #[trigger]
                            order::lookup(symbols@, k) == evidence(iv, more, k) by {
                            lemma_tally_bounds(iv, front, k);
                            assert(order::lookup(symbols@, k) == if k == key {
                                Some(entry)
                            } else {
                                evidence(iv, front, k)
                            });
                        }
                    }
                },
                Placed::Test(id) => {
                    let ghost key = id@;
                    assert(test_tally(iv, front, key).1 <= u64::MAX);
                    proof {
                        lemma_test_bounds(iv, front, key);
                    }
                    let count: u64 = match tests.get(id) {
                        Some(c) => *c,
                        None => 0,
                    };
                    match count.checked_add(func.count) {
                        Some(sum) => {
                            tests.put(id.copy(), sum);
                            assert(test_tally(iv, more, key).1 <= u64::MAX);
                            proof {
                                assert forall|k: TestIdView| #[trigger]
                                    order::lookup(tests@, k) == test_evidence(iv, more, k) by {
                                    assert(order::lookup(tests@, k) == if k == key {
                                        Some(sum)
                                    } else {
                                        test_evidence(iv, front, k)
                                    });
                                }
                            }
                        },
                        None => {
                            proof {
                                assert(test_tally(iv, more, key).1 > u64::MAX);
                                lemma_tally_grows(
                                    iv,
                                    all,
                                    i as int + 1,
                                    SymbolIdView { file: f.file, line: 0, col: 0 },
                                    key,
                                );
                                assert(test_tally(iv, all, key).1 > u64::MAX);
                            }
                            return None;
                        },
                    }
                },
                Placed::Unmatched => {
                    unmatched = unmatched + 1;
                },
            }
            proof {
                assert forall|id: SymbolIdView| (#[trigger] symbol_tally(iv, more, id)).count
                    <= u64::MAX by {
                    assert(symbol_tally(iv, front, id).count <= u64::MAX);
                }
                assert forall|id: TestIdView| (#[trigger] test_tally(iv, more, id)).1
                    <= u64::MAX by {
                    assert(test_tally(iv, front, id).1 <= u64::MAX);
                }
            }
            i += 1;
        }
        assert(all.take(all.len() as int) =~= all);
        let files_without_coverage = find_missing(inv, &data.functions);
        Some(CoverageMap { symbols, tests, unmatched, files_without_coverage })
    }

    /// Places every coverage entry onto the inventory by span containment.
    pub fn join(inv: &Inventory, data: &CoverageData) -> (r: Self)
        requires
            counts_fit(inv@, data@),
        ensures
            r.joins(inv@, data@),
    {
        match Self::try_join(inv, data) {
            Some(map) => map,
            None => Self::new(),
        }
    }

    /// Evidence for one symbol, defaulting to "never seen" when absent.
    pub fn for_symbol(&self, id: &SymbolId) -> (r: SymbolCoverage)
        ensures
            r == match order::lookup(self.symbols@, id@) {
                Some(c) => c,
                None => unseen(),
            },
    {
        match self.symbols.get(id) {
            Some(c) => *c,
            None => SymbolCoverage::default(),
        }
    }

    /// A symbol ran.
    pub open spec fn ran(self, id: SymbolIdView) -> bool {
        match order::lookup(self.symbols@, id) {
            Some(c) => c.execution_count > 0,
            None => false,
        }
    }

    /// Whether any test reached this symbol.
    pub fn executed(&self, id: &SymbolId) -> (r: bool)
        ensures
            r == self.ran(id@),
    {
        match self.symbols.get(id) {
            Some(c) => c.executed(),
            None => false,
        }
    }
}

proof fn lemma_test_bounds(inv: InventoryView, fs: Seq<CoverageFunctionView>, id: TestIdView)
    ensures
        test_tally(inv, fs, id).0 == 0 ==> test_tally(inv, fs, id).1 == 0,
    decreases fs.len(),
{
    if fs.len() > 0 {
        lemma_test_bounds(inv, fs.drop_last(), id);
    }
}

// ---------------------------------------------------------------------------
// Laws
// ---------------------------------------------------------------------------

/// A symbol ran exactly when some entry for it did: what is nested in its body
/// does not count.
pub proof fn law_executed(inv: InventoryView, fs: Seq<CoverageFunctionView>, id: SymbolIdView)
    ensures
        symbol_tally(inv, fs, id).count > 0 <==> exists|i: int|
            0 <= i < fs.len() && placement(inv, #[trigger] fs[i]) == Placement::Entry(id)
                && fs[i].count > 0,
    decreases fs.len(),
{
    if fs.len() > 0 {
        let front = fs.drop_last();
        law_executed(inv, front, id);
        if symbol_tally(inv, front, id).count > 0 {
            let i = choose|i: int|
                0 <= i < front.len() && placement(inv, #[trigger] front[i]) == Placement::Entry(id)
                    && front[i].count > 0;
            assert(fs[i] == front[i]);
        }
        if exists|i: int|
            0 <= i < fs.len() && placement(inv, #[trigger] fs[i]) == Placement::Entry(id)
                && fs[i].count > 0 {
            let i = choose|i: int|
                0 <= i < fs.len() && placement(inv, #[trigger] fs[i]) == Placement::Entry(id)
                    && fs[i].count > 0;
            if i < front.len() {
                assert(front[i] == fs[i]);
            }
        } else if symbol_tally(inv, fs, id).count > 0 {
            assert(fs[fs.len() - 1] == fs.last());
        }
    }
}

/// What runs inside a body adds nothing to the symbol's own executions.
pub proof fn law_nested_is_separate(
    inv: InventoryView,
    fs: Seq<CoverageFunctionView>,
    f: CoverageFunctionView,
    id: SymbolIdView,
)
    requires
        placement(inv, f) == Placement::Nested(id),
    ensures
        symbol_tally(inv, fs.push(f), id).count == symbol_tally(inv, fs, id).count,
        symbol_tally(inv, fs.push(f), id).entries == symbol_tally(inv, fs, id).entries,
        symbol_tally(inv, fs.push(f), id).nested == symbol_tally(inv, fs, id).nested + 1,
{
    assert(fs.push(f).drop_last() =~= fs);
}

/// The symbol that each entry is placed on, if any.
pub open spec fn symbol_marks(inv: InventoryView, fs: Seq<CoverageFunctionView>) -> Seq<
    Option<SymbolIdView>,
> {
    fs.map_values(
        |f: CoverageFunctionView|
            match placement(inv, f) {
                Placement::Entry(id) => Some(id),
                Placement::Nested(id) => Some(id),
                _ => None,
            },
    )
}

/// The test that each entry is placed on, if any.
pub open spec fn test_marks(inv: InventoryView, fs: Seq<CoverageFunctionView>) -> Seq<
    Option<TestIdView>,
> {
    fs.map_values(
        |f: CoverageFunctionView|
            match placement(inv, f) {
                Placement::Test(id) => Some(id),
                _ => None,
            },
    )
}

proof fn lemma_symbol_marks(inv: InventoryView, fs: Seq<CoverageFunctionView>, id: SymbolIdView)
    ensures
        symbol_tally(inv, fs, id).entries + symbol_tally(inv, fs, id).nested == order::marked(
            symbol_marks(inv, fs),
            id,
        ),
    decreases fs.len(),
{
    if fs.len() > 0 {
        lemma_symbol_marks(inv, fs.drop_last(), id);
        assert(symbol_marks(inv, fs).drop_last() =~= symbol_marks(inv, fs.drop_last()));
    }
}

proof fn lemma_test_marks(inv: InventoryView, fs: Seq<CoverageFunctionView>, id: TestIdView)
    ensures
        test_tally(inv, fs, id).0 == order::marked(test_marks(inv, fs), id),
    decreases fs.len(),
{
    if fs.len() > 0 {
        lemma_test_marks(inv, fs.drop_last(), id);
        assert(test_marks(inv, fs).drop_last() =~= test_marks(inv, fs.drop_last()));
    }
}

proof fn lemma_unmarked(inv: InventoryView, fs: Seq<CoverageFunctionView>)
    ensures
        order::unmarked(symbol_marks(inv, fs)) + order::unmarked(test_marks(inv, fs)) == fs.len()
            + unmatched_in(inv, fs),
    decreases fs.len(),
{
    if fs.len() > 0 {
        lemma_unmarked(inv, fs.drop_last());
        assert(symbol_marks(inv, fs).drop_last() =~= symbol_marks(inv, fs.drop_last()));
        assert(test_marks(inv, fs).drop_last() =~= test_marks(inv, fs.drop_last()));
    }
}

/// Every entry of a report is counted exactly once: among the entries and the
/// nested ones of the symbols, among those of the tests, or as unmatched.
pub proof fn law_every_entry_counts(
    map: CoverageMap,
    inv: InventoryView,
    fs: Seq<CoverageFunctionView>,
)
    requires
        map.joins(inv, fs),
        fs.len() <= usize::MAX,
    ensures
        order::total_in(map.symbols@, |c: SymbolCoverage| c.entries as nat + c.nested as nat)
            + order::total_over(
            order::keys(map.tests@),
            |id: TestIdView| test_tally(inv, fs, id).0,
        ) + map.unmatched == fs.len(),
{
    let table = map.symbols@;
    let marks = symbol_marks(inv, fs);
    let ks = order::keys(table);
    let f = |c: SymbolCoverage| c.entries as nat + c.nested as nat;
    let g = |id: SymbolIdView| order::marked(marks, id);
    order::lemma_keys::<SymbolId, SymbolCoverage>(table);
    assert forall|i: int| 0 <= i < table.len() implies f((#[trigger] table[i]).1) == g(table[i].0) by {
        let id = table[i].0;
        assert(order::lookup(table, id) == evidence(inv, fs, id));
        lemma_symbol_marks(inv, fs, id);
        lemma_tally_bounds(inv, fs, id);
    }
    order::lemma_total_by_key(table, f, g);
    assert forall|i: int| 0 <= i < marks.len() && (#[trigger] marks[i]) is Some implies ks.contains(
        marks[i]->0,
    ) by {
        let id = marks[i]->0;
        lemma_symbol_marks(inv, fs, id);
        order::lemma_marked(marks, i, id);
        assert(order::lookup(table, id) == evidence(inv, fs, id));
    }
    order::lemma_counted_by_key(ks, marks);
    let tests = map.tests@;
    let tmarks = test_marks(inv, fs);
    let ts = order::keys(tests);
    order::lemma_keys::<TestId, u64>(tests);
    assert forall|i: int| 0 <= i < tmarks.len() && (#[trigger] tmarks[i]) is Some implies ts.contains(
        tmarks[i]->0,
    ) by {
        let id = tmarks[i]->0;
        lemma_test_marks(inv, fs, id);
        order::lemma_marked(tmarks, i, id);
        assert(order::lookup(tests, id) == test_evidence(inv, fs, id));
    }
    order::lemma_counted_by_key(ts, tmarks);
    assert forall|id: TestIdView| #[trigger] test_tally(inv, fs, id).0 == order::marked(tmarks, id) by {
        lemma_test_marks(inv, fs, id);
    }
    assert((|id: TestIdView| test_tally(inv, fs, id).0) =~= (|id: TestIdView|
        order::marked(tmarks, id)));
    lemma_unmarked(inv, fs);
}

/// An entry is placed on something around its line: on a symbol that is defined
/// there, on a symbol that spans it, or on a test that does.
pub proof fn law_placement(inv: InventoryView, f: CoverageFunctionView)
    ensures
        match placement(inv, f) {
            Placement::Entry(id) => exists|i: int|
                0 <= i < inv.symbols.len() && (#[trigger] inv.symbols[i]).id == id && id.file
                    == f.file && inv.symbols[i].span.start == f.start_line,
            Placement::Nested(id) => exists|i: int|
                0 <= i < inv.symbols.len() && (#[trigger] inv.symbols[i]).id == id && id.file
                    == f.file && inv.symbols[i].span.covers(f.start_line),
            Placement::Test(id) => exists|i: int|
                0 <= i < inv.tests.len() && (#[trigger] inv.tests[i]).id == id && id.file == f.file
                    && inv.tests[i].span.covers(f.start_line),
            Placement::Unmatched => {
                &&& forall|i: int|
                    0 <= i < inv.symbols.len() ==> !((#[trigger] inv.symbols[i]).id.file == f.file
                        && inv.symbols[i].span.covers(f.start_line))
                &&& forall|i: int|
                    0 <= i < inv.tests.len() ==> !((#[trigger] inv.tests[i]).id.file == f.file
                        && inv.tests[i].span.covers(f.start_line))
            },
        },
{
    lemma_defined_at(inv.symbols, f.file, f.start_line);
    inventory::law_innermost(inv.symbols, f.file, f.start_line);
    lemma_test_at(inv.tests, f.file, f.start_line);
    match placement(inv, f) {
        Placement::Nested(id) => {
            let s = inventory::innermost_of(inv.symbols, f.file, f.start_line)->0;
            let k = choose|k: int| 0 <= k < inv.symbols.len() && inv.symbols[k] == s;
            assert(inv.symbols[k].id == id);
        },
        _ => {},
    }
}

proof fn lemma_defined_at(symbols: Seq<SymbolView>, file: Seq<char>, line: u32)
    ensures
        match defined_at(symbols, file, line) {
            Some(s) => s.id.file == file && s.span.start == line && exists|i: int|
                0 <= i < symbols.len() && #[trigger] symbols[i] == s,
            None => forall|i: int|
                0 <= i < symbols.len() ==> !((#[trigger] symbols[i]).id.file == file
                    && symbols[i].span.start == line),
        },
    decreases symbols.len(),
{
    if symbols.len() > 0 && !(symbols[0].id.file == file && symbols[0].span.start == line) {
        let rest = symbols.skip(1);
        lemma_defined_at(rest, file, line);
        match defined_at(rest, file, line) {
            Some(s) => {
                let i = choose|i: int| 0 <= i < rest.len() && #[trigger] rest[i] == s;
                assert(symbols[i + 1] == s);
            },
            None => {
                assert forall|i: int| 0 <= i < symbols.len() implies !((
                #[trigger] symbols[i]).id.file == file && symbols[i].span.start == line) by {
                    if i > 0 {
                        assert(rest[i - 1] == symbols[i]);
                    }
                }
            },
        }
    }
}

proof fn lemma_test_at(tests: Seq<TestItemView>, file: Seq<char>, line: u32)
    ensures
        match test_at(tests, file, line) {
            Some(t) => t.id.file == file && t.span.covers(line) && exists|i: int|
                0 <= i < tests.len() && #[trigger] tests[i] == t,
            None => forall|i: int|
                0 <= i < tests.len() ==> !((#[trigger] tests[i]).id.file == file
                    && tests[i].span.covers(line)),
        },
    decreases tests.len(),
{
    if tests.len() > 0 && !(tests[0].id.file == file && tests[0].span.covers(line)) {
        let rest = tests.skip(1);
        lemma_test_at(rest, file, line);
        match test_at(rest, file, line) {
            Some(t) => {
                let i = choose|i: int| 0 <= i < rest.len() && #[trigger] rest[i] == t;
                assert(tests[i + 1] == t);
            },
            None => {
                assert forall|i: int| 0 <= i < tests.len() implies !((#[trigger] tests[i]).id.file
                    == file && tests[i].span.covers(line)) by {
                    if i > 0 {
                        assert(rest[i - 1] == tests[i]);
                    }
                }
            },
        }
    }
}

// ---------------------------------------------------------------------------
// Reading a report
// ---------------------------------------------------------------------------

/// A function as the report has it.
#[derive(Clone, Debug)]
pub struct RawFunction {
    pub name: String,
    pub count: u64,
    pub filenames: Vec<String>,
    /// `[line_start, col_start, line_end, col_end, count, file_id, expanded_file_id, kind]`
    pub regions: Vec<Vec<i64>>,
}

impl RawFunction {
    /// Its first region, where there is one, has a line.
    pub open spec fn readable(self) -> bool {
        self.regions@.len() > 0 ==> self.regions@[0]@.len() > 0
    }

    /// Where its first region starts: the place of the file in its list of files,
    /// and the line. Without a region, or without a file, there is no such place.
    pub open spec fn origin(self) -> Option<(int, u32)> {
        if self.regions@.len() == 0 || self.filenames@.len() == 0 {
            None
        } else {
            let region = self.regions@[0]@;
            let file_id = if region.len() > 5 && region[5] > 0 {
                region[5] as usize as int
            } else {
                0
            };
            let line = if region[0] > 0 {
                region[0] as u32
            } else {
                0
            };
            Some(
                (
                    if file_id < self.filenames@.len() {
                        file_id
                    } else {
                        0
                    },
                    line,
                ),
            )
        }
    }

    /// Finds where the function's first region starts.
    pub fn locate(&self) -> (r: Option<(usize, u32)>)
        requires
            self.readable(),
        ensures
            match r {
                Some((file, line)) => file < self.filenames@.len() && self.origin() == Some(
                    (file as int, line),
                ),
                None => self.origin() is None,
            },
    {
        if self.regions.len() == 0 || self.filenames.len() == 0 {
            return None;
        }
        let region = &self.regions[0];
        let line: u32 = if region[0] > 0 {
            region[0] as u32
        } else {
            0
        };
        let file_id: usize = if region.len() > 5 && region[5] > 0 {
            region[5] as usize
        } else {
            0
        };
        if file_id < self.filenames.len() {
            Some((file_id, line))
        } else {
            Some((0, line))
        }
    }
}

/// A path in the plainest form: absolute, its parts separated by single slashes,
/// none of them `.`.
pub open spec fn plain_path(p: Seq<char>) -> bool {
    &&& text::begins(p, "/"@)
    &&& p.len() > 1
    &&& !text::ends(p, "/"@)
    &&& !text::has(p, "//"@)
    &&& !text::has(p, "/./"@)
    &&& !text::ends(p, "/."@)
    &&& !text::has(p, "\\"@)
}

/// What remains of a path below a directory, both in the plainest form.
pub open spec fn path_below(path: Seq<char>, root: Seq<char>) -> Option<Seq<char>> {
    if path == root {
        Some(Seq::empty())
    } else {
        text::after_prefix(path, root + "/"@)
    }
}

/// Cut at slashes.
pub struct AtSlash;

impl Cut for AtSlash {
    open spec fn cuts(c: char) -> bool {
        c == '/'
    }

    fn cut(c: char) -> bool {
        c == '/'
    }
}

/// The members of a list that are not `.`.
pub open spec fn without_dots(ps: Seq<Seq<char>>) -> Seq<Seq<char>>
    decreases ps.len(),
{
    if ps.len() == 0 {
        Seq::empty()
    } else if ps.last() == "."@ {
        without_dots(ps.drop_last())
    } else {
        without_dots(ps.drop_last()).push(ps.last())
    }
}

/// The parts of a path between its slashes. Repeated slashes and `.` are no parts.
pub open spec fn parts_of(p: Seq<char>) -> Seq<Seq<char>> {
    without_dots(text::words_of::<AtSlash>(p))
}

/// A path from the root, without a backslash. Two slashes in front can mean more
/// than one.
pub open spec fn rooted(p: Seq<char>) -> bool {
    text::begins(p, "/"@) && !text::begins(p, "//"@) && !text::has(p, "\\"@)
}

/// A path from nowhere: neither a slash nor a drive begins it.
pub open spec fn adrift(p: Seq<char>) -> bool {
    !text::begins(p, "/"@) && !text::has(p, "\\"@) && !text::has(p, ":"@)
}

/// `rest` can be what remains of a path below a directory. What remains is a
/// stretch of the path. Of paths from the root there is something exactly where
/// the directory's parts begin the path's, and it has the others; in the plainest
/// form it is what follows the directory and a slash. Of a path from nowhere
/// nothing is below a directory from the root.
pub open spec fn remains(path: Seq<char>, root: Seq<char>, rest: Option<Seq<char>>) -> bool {
    &&& rest is Some ==> text::has(path, rest->0)
    &&& rooted(path) && rooted(root) ==> match rest {
        Some(rest) => parts_of(path) == parts_of(root) + parts_of(rest),
        None => !parts_of(root).is_prefix_of(parts_of(path)),
    }
    &&& plain_path(path) && plain_path(root) ==> rest == path_below(path, root)
    &&& adrift(path) && rooted(root) ==> rest is None
}

/// `Path::strip_prefix`, which compares the paths part by part; what remains is
/// displayed. It is borrowed from the path, and how the paths fall into parts is
/// what `Path::components` says: repeated slashes, a trailing slash and `.` make
/// no difference. Of backslashes and of what can begin a path on some platforms
/// only, nothing is stated.
#[verifier::external_body]
fn below(path: &str, root: &str) -> (r: Option<String>)
    ensures
        remains(path@, root@, text::option_text(r)),
{
    match std::path::Path::new(path).strip_prefix(root) {
        Ok(rest) => Some(rest.display().to_string()),
        Err(_) => None,
    }
}

/// The entry for a function, given what remains of its file's path below the
/// workspace root. A path that is not below the root is kept as it is.
pub open spec fn entry_for(raw: RawFunction, rest: Option<Seq<char>>) -> Option<
    CoverageFunctionView,
> {
    match raw.origin() {
        Some((file, line)) => Some(
            CoverageFunctionView {
                name: raw.name@,
                count: raw.count,
                file: match rest {
                    Some(rest) => rest,
                    None => raw.filenames@[file]@,
                },
                start_line: line,
            },
        ),
        None => None,
    }
}

/// The view of an optional entry.
pub open spec fn option_entry(f: Option<CoverageFunction>) -> Option<CoverageFunctionView> {
    match f {
        Some(f) => Some(f@),
        None => None,
    }
}

/// Makes the entry for a function out of what remains of its file's path.
pub fn entry_of(raw: &RawFunction, rest: Option<String>) -> (r: Option<CoverageFunction>)
    requires
        raw.readable(),
    ensures
        option_entry(r) == entry_for(*raw, text::option_text(rest)),
{
    match raw.locate() {
        Some((file, start_line)) => {
            let file = match rest {
                Some(rest) => rest,
                None => raw.filenames[file].clone(),
            };
            Some(CoverageFunction { name: raw.name.clone(), count: raw.count, file, start_line })
        },
        None => None,
    }
}

/// The functions of a report that have a place.
pub open spec fn with_origin(raws: Seq<RawFunction>) -> Seq<RawFunction>
    decreases raws.len(),
{
    if raws.len() == 0 {
        Seq::empty()
    } else if raws.last().origin() is Some {
        with_origin(raws.drop_last()).push(raws.last())
    } else {
        with_origin(raws.drop_last())
    }
}

/// An entry is the one for a function of the report: its file is what remains of
/// the function's path below the root, or the path itself where nothing does.
pub open spec fn entry_matches(f: CoverageFunctionView, raw: RawFunction, root: Seq<char>) -> bool {
    exists|rest: Option<Seq<char>>|
        {
            &&& #[trigger] entry_for(raw, rest) == Some(f)
            &&& raw.origin() is Some
            &&& remains(raw.filenames@[(raw.origin()->0).0]@, root, rest)
        }
}

/// Reads the functions of a report, their paths relative to the workspace root
/// so that they match `SymbolId::file`. A function without a source region, or
/// without a file, has nothing to be placed by and is left out.
pub fn read_functions(raws: &Vec<RawFunction>, root: &str) -> (r: CoverageData)
    requires
        forall|i: int| 0 <= i < raws@.len() ==> (#[trigger] raws@[i]).readable(),
    ensures
        r@.len() == with_origin(raws@).len(),
        forall|i: int|
            0 <= i < r@.len() ==> entry_matches(#[trigger] r@[i], with_origin(raws@)[i], root@),
{
    let mut functions: Vec<CoverageFunction> = Vec::new();
    let mut i: usize = 0;
    while i < raws.len()
        invariant
            i <= raws@.len(),
            forall|k: int| 0 <= k < raws@.len() ==> (#[trigger] raws@[k]).readable(),
            functions@.len() == with_origin(raws@.take(i as int)).len(),
            forall|k: int|
                0 <= k < functions@.len() ==> entry_matches(
                    (#[trigger] functions@[k])@,
                    with_origin(raws@.take(i as int))[k],
                    root@,
                ),
        decreases raws@.len() - i,
    {
        let ghost front = with_origin(raws@.take(i as int));
        assert(raws@.take(i as int + 1).drop_last() =~= raws@.take(i as int));
        let raw = &raws[i];
        assert(raw.readable());
        if let Some((file, _)) = raw.locate() {
            let rest = below(raw.filenames[file].as_str(), root);
            let ghost rv = text::option_text(rest);
            if let Some(f) = entry_of(raw, rest) {
                assert(entry_for(*raw, rv) == Some(f@));
                assert(entry_matches(f@, *raw, root@));
                functions.push(f);
            }
        }
        i += 1;
    }
    assert(raws@.take(raws@.len() as int) =~= raws@);
    let r = CoverageData { functions };
    assert forall|k: int| 0 <= k < r@.len() implies entry_matches(
        #[trigger] r@[k],
        with_origin(raws@)[k],
        root@,
    ) by {
        assert(r@[k] == functions@[k]@);
    }
    r
}

} // verus!
