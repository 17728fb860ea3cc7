//! In which order things are listed.

use vstd::prelude::*;
use crate::attribution::{NextestId, NextestIdView};
use crate::fastmutate::{Edit, EditView};
use crate::inventory::{TestItem, TestItemView};
use crate::order;
use crate::symbol::{Symbol, SymbolView};
use crate::text;

verus! {

/// Symbols are listed by file, those of a file by line, and those of a line by
/// column.
pub proof fn law_symbols_in_order(symbols: Seq<SymbolView>, i: int, j: int)
    requires
        0 <= i < j < order::sorted::<Symbol>(symbols).len(),
    ensures
        ({
            let a = order::sorted::<Symbol>(symbols)[i].id;
            let b = order::sorted::<Symbol>(symbols)[j].id;
            &&& !text::earlier(b.file, a.file)
            &&& a.file == b.file ==> a.line <= b.line
            &&& a.file == b.file && a.line == b.line ==> a.col <= b.col
        }),
{
    order::lemma_sorted::<Symbol>(symbols);
    let all = order::sorted::<Symbol>(symbols);
    assert(<Symbol as order::Ranked>::ranks(all[i], all[j]));
}

/// Tests are listed by file, those of a file by line, and those of a line by path.
pub proof fn law_tests_in_order(tests: Seq<TestItemView>, i: int, j: int)
    requires
        0 <= i < j < order::sorted::<TestItem>(tests).len(),
    ensures
        ({
            let a = order::sorted::<TestItem>(tests)[i].id;
            let b = order::sorted::<TestItem>(tests)[j].id;
            &&& !text::earlier(b.file, a.file)
            &&& a.file == b.file ==> a.line <= b.line
            &&& a.file == b.file && a.line == b.line ==> !text::earlier(b.path, a.path)
        }),
{
    order::lemma_sorted::<TestItem>(tests);
    let all = order::sorted::<TestItem>(tests);
    assert(<TestItem as order::Ranked>::ranks(all[i], all[j]));
}

/// Texts are listed in their own order.
pub proof fn law_texts_in_order(texts: Seq<Seq<char>>, i: int, j: int)
    requires
        0 <= i < j < order::sorted::<String>(texts).len(),
    ensures
        !text::earlier(order::sorted::<String>(texts)[j], order::sorted::<String>(texts)[i]),
{
    order::lemma_sorted::<String>(texts);
    let all = order::sorted::<String>(texts);
    assert(<String as order::Ranked>::ranks(all[i], all[j]));
}

/// The tests of the runner are listed by binary, and those of a binary by name.
pub proof fn law_runner_tests_in_order(tests: Seq<NextestIdView>, i: int, j: int)
    requires
        0 <= i < j < order::sorted::<NextestId>(tests).len(),
    ensures
        ({
            let a = order::sorted::<NextestId>(tests)[i];
            let b = order::sorted::<NextestId>(tests)[j];
            &&& !text::earlier(b.binary_id, a.binary_id)
            &&& a.binary_id == b.binary_id ==> !text::earlier(b.testcase, a.testcase)
        }),
{
    order::lemma_sorted::<NextestId>(tests);
    let all = order::sorted::<NextestId>(tests);
    assert(<NextestId as order::Ranked>::ranks(all[i], all[j]));
}

/// Insertions are made from the end of a file backwards.
pub proof fn law_edits_go_backwards(edits: Seq<EditView>, i: int, j: int)
    requires
        0 <= i < j < order::sorted::<Edit>(edits).len(),
    ensures
        order::sorted::<Edit>(edits)[i].brace >= order::sorted::<Edit>(edits)[j].brace,
{
    order::lemma_sorted::<Edit>(edits);
    let all = order::sorted::<Edit>(edits);
    assert(<Edit as order::Ranked>::ranks(all[i], all[j]));
}

} // verus!
