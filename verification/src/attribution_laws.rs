//! Which test a name means, and which tests run which symbols.

use vstd::prelude::*;
use crate::attribution;
use crate::attribution::{Ambiguity, NextestIdView};
use crate::inventory::{InventoryView, TestIdView, TestItemView};
use crate::text;

verus! {

/// A path is a name, or ends in it behind a pair of colons.
pub open spec fn called(path: Seq<char>, name: Seq<char>) -> bool {
    ||| path == name
    ||| {
        let k = path.len() - name.len();
        &&& k >= 2
        &&& path[k - 2] == ':'
        &&& path[k - 1] == ':'
        &&& forall|i: int| 0 <= i < name.len() ==> path[k + i] == #[trigger] name[i]
    }
}

/// Exactly one place of an inventory has a name, and its test is this one.
#[verifier::opaque]
pub open spec fn means(tests: Seq<TestItemView>, name: Seq<char>, t: TestIdView) -> bool {
    exists|i: int|
        {
            &&& 0 <= i < tests.len()
            &&& called((#[trigger] tests[i]).id.path, name)
            &&& tests[i].id == t
            &&& forall|j: int|
                0 <= j < tests.len() && called((#[trigger] tests[j]).id.path, name) ==> j == i
        }
}

/// No place of an inventory has a name.
pub open spec fn means_nothing(tests: Seq<TestItemView>, name: Seq<char>) -> bool {
    forall|i: int| 0 <= i < tests.len() ==> !called((#[trigger] tests[i]).id.path, name)
}

proof fn lemma_called(path: Seq<char>, name: Seq<char>)
    ensures
        attribution::is_named(path, name) <==> called(path, name),
{
    reveal_strlit("::");
    let tail = "::"@ + name;
    let k = path.len() - name.len();
    if text::ends(path, tail) {
        let end = path.subrange(path.len() - tail.len(), path.len() as int);
        assert(end == tail);
        assert(end[0] == ':' && end[1] == ':');
        assert forall|i: int| 0 <= i < name.len() implies path[k + i] == #[trigger] name[i] by {
            assert(end[i + 2] == tail[i + 2]);
        }
    }
    if called(path, name) && path != name {
        assert(path.subrange(path.len() - tail.len(), path.len() as int) =~= tail) by {
            assert forall|i: int| 0 <= i < tail.len() implies #[trigger] path.subrange(
                path.len() - tail.len(),
                path.len() as int,
            )[i] == tail[i] by {
                if i >= 2 {
                    assert(path[k + (i - 2)] == name[i - 2]);
                }
            }
        }
    }
}

proof fn lemma_tests_named(tests: Seq<TestItemView>, name: Seq<char>)
    ensures
        attribution::tests_named(tests, name).len() == 0 <==> means_nothing(tests, name),
        attribution::tests_named(tests, name).len() == 1 ==> means(
            tests,
            name,
            attribution::tests_named(tests, name)[0],
        ),
        attribution::tests_named(tests, name).len() >= 2 ==> exists|i: int, j: int|
            0 <= i < j < tests.len() && called((#[trigger] tests[i]).id.path, name) && called(
                (#[trigger] tests[j]).id.path,
                name,
            ),
    decreases tests.len(),
{
    reveal(means);
    if tests.len() > 0 {
        let front = tests.drop_last();
        let n = tests.len() - 1;
        lemma_tests_named(front, name);
        lemma_called(tests.last().id.path, name);
        let before = attribution::tests_named(front, name);
        let all = attribution::tests_named(tests, name);
        assert(tests[n] == tests.last());
        assert forall|i: int| 0 <= i < n implies #[trigger] tests[i] == front[i] by {
        }
        if before.len() == 0 {
            assert forall|i: int| 0 <= i < n implies !called(
                (#[trigger] tests[i]).id.path,
                name,
            ) by {
                assert(front[i] == tests[i]);
            }
        } else if before.len() == 1 {
            let i = choose|i: int|
                {
                    &&& 0 <= i < front.len()
                    &&& called((#[trigger] front[i]).id.path, name)
                    &&& front[i].id == before[0]
                    &&& forall|j: int|
                        0 <= j < front.len() && called((#[trigger] front[j]).id.path, name) ==> j
                            == i
                };
            assert(tests[i] == front[i]);
            if all.len() == 1 {
                assert forall|j: int|
                    0 <= j < tests.len() && called((#[trigger] tests[j]).id.path, name) implies j
                    == i by {
                    if j < n {
                        assert(front[j] == tests[j]);
                    }
                }
            } else {
                assert(called(tests[i].id.path, name) && called(tests[n].id.path, name));
            }
        } else {
            let (i, j) = choose|i: int, j: int|
                0 <= i < j < front.len() && called((#[trigger] front[i]).id.path, name) && called(
                    (#[trigger] front[j]).id.path,
                    name,
                );
            assert(tests[i] == front[i] && tests[j] == front[j]);
        }
    }
}

/// A name means a test exactly where the test's path is the name, or ends in it
/// behind a pair of colons, and no other place of the inventory has the name. It
/// means nothing where no place has it.
pub proof fn law_names_resolve(inv: InventoryView, name: Seq<char>, t: TestIdView)
    ensures
        attribution::resolved(inv, name) == Ok::<TestIdView, Ambiguity>(t) <==> means(
            inv.tests,
            name,
            t,
        ),
        attribution::resolved(inv, name) == Err::<TestIdView, Ambiguity>(Ambiguity::NoMatch)
            <==> means_nothing(inv.tests, name),
{
    reveal(means);
    let tests = inv.tests;
    lemma_tests_named(tests, name);
    let found = attribution::tests_named(tests, name);
    if means(tests, name, t) {
        let k = choose|i: int|
            {
                &&& 0 <= i < tests.len()
                &&& called((#[trigger] tests[i]).id.path, name)
                &&& tests[i].id == t
                &&& forall|j: int|
                    0 <= j < tests.len() && called((#[trigger] tests[j]).id.path, name) ==> j == i
            };
        assert(!means_nothing(tests, name));
        if found.len() >= 2 {
            let (i, j) = choose|i: int, j: int|
                0 <= i < j < tests.len() && called((#[trigger] tests[i]).id.path, name) && called(
                    (#[trigger] tests[j]).id.path,
                    name,
                );
            assert(i == k && j == k);
        } else {
            let i = choose|i: int|
                {
                    &&& 0 <= i < tests.len()
                    &&& called((#[trigger] tests[i]).id.path, name)
                    &&& tests[i].id == found[0]
                    &&& forall|j: int|
                        0 <= j < tests.len() && called((#[trigger] tests[j]).id.path, name) ==> j
                            == i
                };
            assert(i == k);
        }
    }
}

/// A filter selects a test by its whole name.
pub proof fn law_filters(test: NextestIdView)
    ensures
        test.selector() == "test(="@ + test.testcase + ")"@,
{
}

} // verus!
