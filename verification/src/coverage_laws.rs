//! Where a report's entries belong, and what they add up to.

use vstd::prelude::*;
use crate::coverage;
use crate::coverage::{CoverageFunctionView, CoverageMap, Placement, RawFunction};
use crate::inventory::{InventoryView, TestIdView, TestItemView};
use crate::mutation_laws::{around, innermost_at, law_innermost_is_found};
use crate::symbol::{SymbolIdView, SymbolView};

verus! {

// ---------------------------------------------------------------------------
// Places
// ---------------------------------------------------------------------------

/// The symbol at an index is the first of the file that is defined at a line.
pub open spec fn first_defined(symbols: Seq<SymbolView>, f: CoverageFunctionView, k: int) -> bool {
    &&& 0 <= k < symbols.len()
    &&& symbols[k].id.file == f.file
    &&& symbols[k].span.start == f.start_line
    &&& forall|j: int|
        0 <= j < k ==> !((#[trigger] symbols[j]).id.file == f.file && symbols[j].span.start
            == f.start_line)
}

/// The test at an index is the first of the file around a line.
pub open spec fn first_around(tests: Seq<TestItemView>, f: CoverageFunctionView, k: int) -> bool {
    &&& 0 <= k < tests.len()
    &&& is_around(tests[k], f)
    &&& forall|j: int| 0 <= j < k ==> !is_around(#[trigger] tests[j], f)
}

/// A test of the file stands around a line.
pub open spec fn is_around(t: TestItemView, f: CoverageFunctionView) -> bool {
    t.id.file == f.file && t.span.start <= f.start_line && f.start_line <= t.span.end
}

proof fn lemma_defined(symbols: Seq<SymbolView>, f: CoverageFunctionView)
    ensures
        match coverage::defined_at(symbols, f.file, f.start_line) {
            Some(s) => exists|k: int| #[trigger] first_defined(symbols, f, k) && symbols[k] == s,
            None => forall|k: int| !#[trigger] first_defined(symbols, f, k),
        },
    decreases symbols.len(),
{
    if symbols.len() > 0 {
        let rest = symbols.skip(1);
        lemma_defined(rest, f);
        if symbols[0].id.file == f.file && symbols[0].span.start == f.start_line {
            assert(first_defined(symbols, f, 0));
        } else {
            assert forall|k: int| #[trigger] first_defined(symbols, f, k) implies k > 0
                && first_defined(rest, f, k - 1) by {
                assert forall|j: int| 0 <= j < k - 1 implies !((#[trigger] rest[j]).id.file
                    == f.file && rest[j].span.start == f.start_line) by {
                    assert(rest[j] == symbols[j + 1]);
                }
            }
            if let Some(s) = coverage::defined_at(rest, f.file, f.start_line) {
                let k = choose|k: int| #[trigger] first_defined(rest, f, k) && rest[k] == s;
                assert(symbols[k + 1] == s);
                assert forall|j: int| 0 <= j < k + 1 implies !((#[trigger] symbols[j]).id.file
                    == f.file && symbols[j].span.start == f.start_line) by {
                    if j > 0 {
                        assert(rest[j - 1] == symbols[j]);
                    }
                }
                assert(first_defined(symbols, f, k + 1));
            }
        }
    }
}

proof fn lemma_test_around(tests: Seq<TestItemView>, f: CoverageFunctionView)
    ensures
        match coverage::test_at(tests, f.file, f.start_line) {
            Some(t) => exists|k: int| #[trigger] first_around(tests, f, k) && tests[k] == t,
            None => forall|k: int| !#[trigger] first_around(tests, f, k),
        },
    decreases tests.len(),
{
    if tests.len() > 0 {
        let rest = tests.skip(1);
        lemma_test_around(rest, f);
        if is_around(tests[0], f) {
            assert(first_around(tests, f, 0));
        } else {
            assert forall|k: int| #[trigger] first_around(tests, f, k) implies k > 0
                && first_around(rest, f, k - 1) by {
                assert forall|j: int| 0 <= j < k - 1 implies !is_around(#[trigger] rest[j], f) by {
                    assert(rest[j] == tests[j + 1]);
                }
            }
            if let Some(t) = coverage::test_at(rest, f.file, f.start_line) {
                let k = choose|k: int| #[trigger] first_around(rest, f, k) && rest[k] == t;
                assert(tests[k + 1] == t);
                assert forall|j: int| 0 <= j < k + 1 implies !is_around(#[trigger] tests[j], f) by {
                    if j > 0 {
                        assert(rest[j - 1] == tests[j]);
                    }
                }
                assert(first_around(tests, f, k + 1));
            }
        }
    }
}

/// An entry belongs to the first symbol that is defined at its line. Where none is,
/// it is nested in the innermost symbol around it; where none is around it either,
/// it belongs to the first test around it, and else to nothing.
pub proof fn law_entries_are_placed(inv: InventoryView, f: CoverageFunctionView)
    ensures
        ({
            let p = coverage::placement(inv, f);
            let nowhere = forall|k: int| !#[trigger] first_defined(inv.symbols, f, k);
            let outside = forall|k: int|
                0 <= k < inv.symbols.len() ==> !around(
                    #[trigger] inv.symbols[k],
                    f.file,
                    f.start_line,
                );
            &&& p is Entry <==> !nowhere
            &&& forall|k: int| #[trigger]
                first_defined(inv.symbols, f, k) ==> p == Placement::Entry(inv.symbols[k].id)
            &&& p is Nested <==> nowhere && !outside
            &&& forall|k: int| #[trigger]
                innermost_at(inv.symbols, f.file, f.start_line, k) && nowhere ==> p
                    == Placement::Nested(inv.symbols[k].id)
            &&& p is Test <==> nowhere && outside && exists|k: int| #[trigger]
                first_around(inv.tests, f, k)
            &&& forall|k: int| #[trigger]
                first_around(inv.tests, f, k) && nowhere && outside ==> p == Placement::Test(
                    inv.tests[k].id,
                )
        }),
{
    lemma_defined(inv.symbols, f);
    lemma_test_around(inv.tests, f);
    let p = coverage::placement(inv, f);
    let s = coverage::defined_at(inv.symbols, f.file, f.start_line);
    assert forall|k: int| #[trigger] first_defined(inv.symbols, f, k) implies p
        == Placement::Entry(inv.symbols[k].id) by {
        let j = choose|j: int| #[trigger] first_defined(inv.symbols, f, j) && inv.symbols[j] == s->0;
        assert(inv.symbols[k].id.file == f.file);
        assert(j == k);
    }
    let o = crate::inventory::innermost_of(inv.symbols, f.file, f.start_line);
    law_innermost_is_found(inv.symbols, f.file, f.start_line, o->0);
    assert forall|k: int| #[trigger]
        innermost_at(inv.symbols, f.file, f.start_line, k) && s is None implies p
        == Placement::Nested(inv.symbols[k].id) by {
        law_innermost_is_found(inv.symbols, f.file, f.start_line, inv.symbols[k]);
    }
    assert forall|k: int| #[trigger]
        first_around(inv.tests, f, k) && s is None && o is None implies p == Placement::Test(
        inv.tests[k].id,
    ) by {
        let t = coverage::test_at(inv.tests, f.file, f.start_line);
        let j = choose|j: int| #[trigger] first_around(inv.tests, f, j) && inv.tests[j] == t->0;
        assert(is_around(inv.tests[k], f));
        assert(is_around(inv.tests[j], f));
        assert(j == k);
    }
}

// ---------------------------------------------------------------------------
// Sums
// ---------------------------------------------------------------------------

/// What two reports say of a symbol adds up.
pub proof fn law_reports_add_up(
    inv: InventoryView,
    a: Seq<CoverageFunctionView>,
    b: Seq<CoverageFunctionView>,
    id: SymbolIdView,
)
    ensures
        ({
            let both = coverage::symbol_tally(inv, a + b, id);
            let x = coverage::symbol_tally(inv, a, id);
            let y = coverage::symbol_tally(inv, b, id);
            &&& both.count == x.count + y.count
            &&& both.entries == x.entries + y.entries
            &&& both.nested == x.nested + y.nested
            &&& both.uncovered == x.uncovered + y.uncovered
        }),
    decreases b.len(),
{
    if b.len() == 0 {
        assert(a + b =~= a);
    } else {
        law_reports_add_up(inv, a, b.drop_last(), id);
        assert((a + b).drop_last() =~= a + b.drop_last());
        assert((a + b).last() == b.last());
    }
}

/// What one entry says of a symbol. One of the symbol itself adds its executions
/// and is one entry. One nested in it adds no execution; it is uncovered exactly
/// where it never ran. Every other says nothing.
pub proof fn law_one_entry(inv: InventoryView, f: CoverageFunctionView, id: SymbolIdView)
    ensures
        ({
            let t = coverage::symbol_tally(inv, seq![f], id);
            let own = coverage::placement(inv, f) == Placement::Entry(id);
            let nested = coverage::placement(inv, f) == Placement::Nested(id);
            &&& t.count == if own { f.count as nat } else { 0 }
            &&& t.entries == if own { 1nat } else { 0 }
            &&& t.nested == if nested { 1nat } else { 0 }
            &&& t.uncovered == if nested && f.count == 0 { 1nat } else { 0 }
        }),
{
    assert(seq![f].drop_last() =~= Seq::<CoverageFunctionView>::empty());
    let none = coverage::symbol_tally(inv, seq![f].drop_last(), id);
    assert(none.count == 0 && none.entries == 0 && none.nested == 0 && none.uncovered == 0);
}

/// What two reports say of a test adds up, and so does what belongs to nothing.
pub proof fn law_tests_add_up(
    inv: InventoryView,
    a: Seq<CoverageFunctionView>,
    b: Seq<CoverageFunctionView>,
    id: TestIdView,
)
    ensures
        coverage::test_tally(inv, a + b, id).0 == coverage::test_tally(inv, a, id).0
            + coverage::test_tally(inv, b, id).0,
        coverage::test_tally(inv, a + b, id).1 == coverage::test_tally(inv, a, id).1
            + coverage::test_tally(inv, b, id).1,
        coverage::unmatched_in(inv, a + b) == coverage::unmatched_in(inv, a)
            + coverage::unmatched_in(inv, b),
    decreases b.len(),
{
    if b.len() == 0 {
        assert(a + b =~= a);
    } else {
        law_tests_add_up(inv, a, b.drop_last(), id);
        assert((a + b).drop_last() =~= a + b.drop_last());
        assert((a + b).last() == b.last());
    }
}

/// What one entry says of a test: its executions, where it belongs to the test. An
/// entry that belongs to nothing is counted as that.
pub proof fn law_one_test_entry(inv: InventoryView, f: CoverageFunctionView, id: TestIdView)
    ensures
        coverage::test_tally(inv, seq![f], id) == if coverage::placement(inv, f)
            == Placement::Test(id) {
            (1nat, f.count as nat)
        } else {
            (0nat, 0nat)
        },
        coverage::unmatched_in(inv, seq![f]) == if coverage::placement(inv, f)
            == Placement::Unmatched {
            1nat
        } else {
            0nat
        },
{
    assert(seq![f].drop_last() =~= Seq::<CoverageFunctionView>::empty());
    assert(coverage::test_tally(inv, seq![f].drop_last(), id) == (0nat, 0nat));
    assert(coverage::unmatched_in(inv, seq![f].drop_last()) == 0);
}

/// A joined map has evidence for a symbol exactly where an entry is placed on it or
/// nested in it, and says that it ran exactly where an entry of its own did.
pub proof fn law_evidence(
    map: CoverageMap,
    inv: InventoryView,
    fs: Seq<CoverageFunctionView>,
    id: SymbolIdView,
)
    requires
        map.joins(inv, fs),
        coverage::counts_fit(inv, fs),
    ensures
        crate::order::lookup(map.symbols@, id) is Some <==> exists|i: int|
            0 <= i < fs.len() && (coverage::placement(inv, #[trigger] fs[i]) == Placement::Entry(id)
                || coverage::placement(inv, fs[i]) == Placement::Nested(id)),
        map.ran(id) <==> exists|i: int|
            0 <= i < fs.len() && coverage::placement(inv, #[trigger] fs[i]) == Placement::Entry(id)
                && fs[i].count > 0,
{
    assert(crate::order::lookup(map.symbols@, id) == coverage::evidence(inv, fs, id));
    coverage::law_executed(inv, fs, id);
    lemma_some_entry(inv, fs, id);
    let t = coverage::symbol_tally(inv, fs, id);
    assert(t.count <= u64::MAX);
    coverage::lemma_tally_bounds(inv, fs, id);
}

proof fn lemma_some_entry(inv: InventoryView, fs: Seq<CoverageFunctionView>, id: SymbolIdView)
    ensures
        coverage::symbol_tally(inv, fs, id).entries + coverage::symbol_tally(inv, fs, id).nested > 0
            <==> exists|i: int|
            0 <= i < fs.len() && (coverage::placement(inv, #[trigger] fs[i]) == Placement::Entry(id)
                || coverage::placement(inv, fs[i]) == Placement::Nested(id)),
    decreases fs.len(),
{
    if fs.len() > 0 {
        let front = fs.drop_last();
        let n = fs.len() - 1;
        lemma_some_entry(inv, front, id);
        assert(fs[n] == fs.last());
        if exists|i: int|
            0 <= i < front.len() && (coverage::placement(inv, #[trigger] front[i])
                == Placement::Entry(id) || coverage::placement(inv, front[i]) == Placement::Nested(
                id,
            )) {
            let i = choose|i: int|
                0 <= i < front.len() && (coverage::placement(inv, #[trigger] front[i])
                    == Placement::Entry(id) || coverage::placement(inv, front[i])
                    == Placement::Nested(id));
            assert(fs[i] == front[i]);
        }
        if exists|i: int|
            0 <= i < fs.len() && (coverage::placement(inv, #[trigger] fs[i]) == Placement::Entry(id)
                || coverage::placement(inv, fs[i]) == Placement::Nested(id)) {
            let i = choose|i: int|
                0 <= i < fs.len() && (coverage::placement(inv, #[trigger] fs[i])
                    == Placement::Entry(id) || coverage::placement(inv, fs[i]) == Placement::Nested(
                    id,
                ));
            if i < n {
                assert(front[i] == fs[i]);
            }
        }
    }
}

/// A file is reported as without coverage exactly where it is one of the files, no
/// entry is in it, and a symbol or a test is.
pub proof fn law_files_without_coverage(
    inv: InventoryView,
    fs: Seq<CoverageFunctionView>,
    files: Seq<Seq<char>>,
    file: Seq<char>,
)
    ensures
        coverage::missing_files(inv, fs, files).contains(file) <==> {
            &&& files.contains(file)
            &&& forall|i: int| 0 <= i < fs.len() ==> (#[trigger] fs[i]).file != file
            &&& (exists|i: int|
                0 <= i < inv.symbols.len() && (#[trigger] inv.symbols[i]).id.file == file) || (
            exists|i: int| 0 <= i < inv.tests.len() && (#[trigger] inv.tests[i]).id.file == file)
        },
    decreases files.len(),
{
    let all = coverage::missing_files(inv, fs, files);
    if files.len() > 0 {
        let front = files.drop_last();
        let before = coverage::missing_files(inv, fs, front);
        law_files_without_coverage(inv, fs, front, file);
        assert(files[files.len() - 1] == files.last());
        if front.contains(file) {
            let k = choose|k: int| 0 <= k < front.len() && front[k] == file;
            assert(files[k] == file);
        }
        if files.contains(file) {
            let k = choose|k: int| 0 <= k < files.len() && files[k] == file;
            if k < front.len() {
                assert(front[k] == file);
            }
        }
        if before.contains(file) {
            let k = choose|k: int| 0 <= k < before.len() && before[k] == file;
            assert(all[k] == file);
        }
        if all.contains(file) {
            let k = choose|k: int| 0 <= k < all.len() && all[k] == file;
            if k < before.len() {
                assert(before[k] == file);
            }
        }
        if all.len() > before.len() {
            assert(all[all.len() - 1] == files.last());
        }
        assert(coverage::mentions(fs, files.last()) <==> exists|i: int|
            0 <= i < fs.len() && (#[trigger] fs[i]).file == files.last());
    }
}

// ---------------------------------------------------------------------------
// Reading
// ---------------------------------------------------------------------------

/// An entry is made exactly of a function with a region and a file. It has the
/// function's name and count, the line of the first region where that is positive,
/// and the file that the region names, or the first where it names none.
pub proof fn law_read_entries(raw: RawFunction, rest: Option<Seq<char>>)
    requires
        raw.readable(),
    ensures
        coverage::entry_for(raw, rest) is Some <==> raw.regions@.len() > 0 && raw.filenames@.len()
            > 0,
        coverage::entry_for(raw, rest) matches Some(e) ==> {
            let region = raw.regions@[0]@;
            &&& e.name == raw.name@
            &&& e.count == raw.count
            &&& 0 < region[0] <= u32::MAX ==> e.start_line == region[0]
            &&& region[0] <= 0 ==> e.start_line == 0
            &&& rest is Some ==> e.file == rest->0
            &&& rest is None && region.len() > 5 && 0 <= region[5] < raw.filenames@.len()
                && region[5] <= usize::MAX ==> e.file == raw.filenames@[region[5] as int]@
            &&& rest is None && (region.len() <= 5 || region[5] < 0) ==> e.file
                == raw.filenames@[0]@
        },
{
}

/// The functions that are read are those with a place, in the order of the report.
pub proof fn law_functions_with_a_place(raws: Seq<RawFunction>)
    ensures
        coverage::with_origin(raws) == raws.filter(
            |raw: RawFunction| raw.regions@.len() > 0 && raw.filenames@.len() > 0,
        ),
    decreases raws.len(),
{
    reveal(Seq::filter);
    if raws.len() > 0 {
        law_functions_with_a_place(raws.drop_last());
    }
}

} // verus!
