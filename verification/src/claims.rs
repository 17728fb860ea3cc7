//! Which tests *claim* which symbols, computed statically, with no build.
//!
//! In most languages "what does this test claim to test?" is a guess from a
//! naming convention. Rust encodes the answer in the source:
//!
//! - A `#[cfg(test)] mod tests` lives **inside the file** whose items it speaks
//!   for. That is containment, not a heuristic.
//! - A doctest is lexically **attached to the item** it documents. Exact
//!   attribution, at zero cost.
//!
//! A claim is not evidence of anything. It is the denominator: the set a test
//! has taken responsibility for, against which later stages measure what it
//! actually executes and actually verifies.

use vstd::prelude::*;
use crate::inventory;
use crate::inventory::{Inventory, InventoryView, TestId, TestIdView, TestItem, TestItemView, TestKind};
use crate::order;
use crate::order::{Key, KeySet, Ranked};
use crate::symbol::{Symbol, SymbolId, SymbolIdView, SymbolView, Visibility};
use crate::text;

verus! {

/// How a test comes to speak for a symbol.
#[derive(Clone, Copy, Debug, PartialEq, Eq, PartialOrd, Ord, Structural)]
pub enum ClaimKind {
    /// The doctest is attached to this exact item. Certain.
    Doctest,
    /// The test lives in a `#[cfg(test)]` module in the same file. Structural.
    SameFileTestModule,
    /// The test's name contains the symbol's name. Suggestive only.
    NameSimilarity,
    /// An integration test in `tests/`, which can only reach the public API.
    /// Every `pub` symbol in the package is nominally in scope, so this claim
    /// is broad enough to be near-worthless alone; it exists so that a symbol
    /// reachable *only* this way is not reported as entirely unclaimed.
    IntegrationSurface,
}

impl View for ClaimKind {
    type V = ClaimKind;

    open spec fn view(&self) -> ClaimKind {
        *self
    }
}

impl ClaimKind {
    /// Its place in the order, from the most certain on.
    pub open spec fn rank(self) -> int {
        match self {
            ClaimKind::Doctest => 0,
            ClaimKind::SameFileTestModule => 1,
            ClaimKind::NameSimilarity => 2,
            ClaimKind::IntegrationSurface => 3,
        }
    }

    /// Its place in the order, from the most certain on.
    pub fn level(self) -> (r: u8)
        ensures
            r == self.rank(),
    {
        match self {
            ClaimKind::Doctest => 0,
            ClaimKind::SameFileTestModule => 1,
            ClaimKind::NameSimilarity => 2,
            ClaimKind::IntegrationSurface => 3,
        }
    }

    /// How much weight this edge has, in percent.
    pub open spec fn certainty(self) -> int {
        match self {
            ClaimKind::Doctest => 100,
            ClaimKind::SameFileTestModule => 90,
            ClaimKind::NameSimilarity => 70,
            ClaimKind::IntegrationSurface => 20,
        }
    }

    /// How much weight to give this edge when a symbol has several, in percent.
    pub fn confidence(self) -> (r: u8)
        ensures
            r == match self {
                ClaimKind::Doctest => 100u8,
                ClaimKind::SameFileTestModule => 90u8,
                ClaimKind::NameSimilarity => 70u8,
                ClaimKind::IntegrationSurface => 20u8,
            },
            r == self.certainty(),
    {
        match self {
            ClaimKind::Doctest => 100,
            ClaimKind::SameFileTestModule => 90,
            ClaimKind::NameSimilarity => 70,
            ClaimKind::IntegrationSurface => 20,
        }
    }

    /// The edge is specific.
    pub open spec fn direct(self) -> bool {
        self == ClaimKind::Doctest || self == ClaimKind::SameFileTestModule
    }

    /// Whether this edge is specific enough to hold a test responsible for the
    /// symbol in a report.
    pub fn is_direct(self) -> (r: bool)
        ensures
            r == self.direct(),
    {
        match self {
            ClaimKind::Doctest | ClaimKind::SameFileTestModule => true,
            _ => false,
        }
    }
}

/// One test speaking for one symbol.
#[derive(Clone, Debug)]
pub struct Claim {
    pub test: TestId,
    pub symbol: SymbolId,
    pub kind: ClaimKind,
}

/// One test speaking for one symbol, as a mathematical value.
#[verifier::ext_equal]
pub struct ClaimView {
    pub test: TestIdView,
    pub symbol: SymbolIdView,
    pub kind: ClaimKind,
}

impl View for Claim {
    type V = ClaimView;

    open spec fn view(&self) -> ClaimView {
        ClaimView { test: self.test@, symbol: self.symbol@, kind: self.kind }
    }
}

/// Every claim.
#[derive(Clone, Debug)]
pub struct ClaimMap {
    pub claims: Vec<Claim>,
}

impl View for ClaimMap {
    type V = Seq<ClaimView>;

    open spec fn view(&self) -> Seq<ClaimView> {
        order::views(self.claims@)
    }
}

// ---------------------------------------------------------------------------
// Names
// ---------------------------------------------------------------------------

/// The last segment of a path.
pub open spec fn leaf_of(path: Seq<char>) -> Seq<char> {
    match text::last_occurrence(path, "::"@) {
        Some(i) => path.skip(i + 2),
        None => path,
    }
}

/// `mycrate::config::tests::rejects_empty_host` -> `rejects_empty_host`
pub fn leaf_name(path: &str) -> (r: String)
    ensures
        r@ == leaf_of(path@),
{
    let cs = text::chars_of(path);
    let sep = text::chars_of("::");
    proof {
        reveal_strlit("::");
        text::lemma_last_at(path@, "::"@, path@.len() - "::"@.len());
    }
    match text::find_last(&cs, &sep) {
        Some(i) => {
            let n: usize = cs.len();
            assert(cs@.subrange(i + 2, n as int) =~= path@.skip(i + 2));
            text::text_of(vstd::slice::slice_subrange(&cs, i + 2, n))
        },
        None => text::owned(path),
    }
}

/// A word that appears in nearly every test name.
pub open spec fn is_noise(s: Seq<char>) -> bool {
    ||| s == "test"@
    ||| s == "tests"@
    ||| s == "it"@
    ||| s == "should"@
    ||| s == "when"@
    ||| s == "then"@
    ||| s == "case"@
}

fn noise(s: &str) -> (r: bool)
    ensures
        r == is_noise(s@),
{
    text::same(s, "test") || text::same(s, "tests") || text::same(s, "it") || text::same(s, "should")
        || text::same(s, "when") || text::same(s, "then") || text::same(s, "case")
}

/// The words of a name: complete ones, and the last one so far.
#[verifier::ext_equal]
pub struct Words {
    pub done: Seq<Seq<char>>,
    pub current: Seq<char>,
}

impl Words {
    /// With the last word ended.
    pub open spec fn ended(self) -> Words {
        if self.current.len() == 0 {
            self
        } else {
            Words { done: self.done.push(self.current), current: Seq::empty() }
        }
    }
}

/// The words of a name in small letters: a word ends at `_` and `-`, and before
/// a capital letter.
pub open spec fn name_words(name: Seq<char>) -> Words
    decreases name.len(),
{
    if name.len() == 0 {
        Words { done: Seq::empty(), current: Seq::empty() }
    } else {
        let before = name_words(name.drop_last());
        let c = name.last();
        if c == '_' || c == '-' {
            before.ended()
        } else if text::is_capital(c) {
            Words { done: before.ended().done, current: text::lowered(c) }
        } else {
            Words { done: before.done, current: before.current + text::lowered(c) }
        }
    }
}

/// The words of a list that carry meaning.
pub open spec fn without_noise(words: Seq<Seq<char>>) -> Seq<Seq<char>>
    decreases words.len(),
{
    if words.len() == 0 {
        Seq::empty()
    } else if is_noise(words.last()) {
        without_noise(words.drop_last())
    } else {
        without_noise(words.drop_last()).push(words.last())
    }
}

/// The words of a name that carry meaning.
pub open spec fn tokens_of(name: Seq<char>) -> Seq<Seq<char>> {
    without_noise(name_words(name).ended().done)
}

/// Splits `snake_case` and `camelCase` alike into lowercase tokens, dropping
/// the scaffolding words that appear in nearly every test name.
pub fn tokenize(name: &str) -> (r: Vec<String>)
    ensures
        text::texts(r@) == tokens_of(name@),
{
    let cs = text::chars_of(name);
    let mut done: Vec<String> = Vec::new();
    let mut current = String::new();
    let mut i: usize = 0;
    assert(name_words(cs@.take(0)) =~= Words { done: text::texts(done@), current: current@ });
    while i < cs.len()
        invariant
            i <= cs@.len(),
            cs@ == name@,
            name_words(cs@.take(i as int)) == (Words {
                done: text::texts(done@),
                current: current@,
            }),
        decreases cs@.len() - i,
    {
        let ghost before = name_words(cs@.take(i as int));
        assert(cs@.take(i as int + 1).drop_last() =~= cs@.take(i as int));
        let c = cs[i];
        if c == '_' || c == '-' {
            if !current.as_str().is_empty() {
                done.push(current);
                current = String::new();
                assert(text::texts(done@) =~= before.done.push(before.current));
            }
        } else if text::capital(c) {
            if !current.as_str().is_empty() {
                done.push(current);
                assert(text::texts(done@) =~= before.done.push(before.current));
            }
            current = text::lower(c);
        } else {
            current.append(text::lower(c).as_str());
        }
        i += 1;
    }
    assert(cs@.take(cs@.len() as int) =~= cs@);
    let ghost before = name_words(name@);
    if !current.as_str().is_empty() {
        done.push(current);
        assert(text::texts(done@) =~= before.done.push(before.current));
    }
    let ghost all = text::texts(done@);
    assert(all == before.ended().done);
    let mut out: Vec<String> = Vec::new();
    let mut k: usize = 0;
    while k < done.len()
        invariant
            k <= done@.len(),
            all == text::texts(done@),
            text::texts(out@) == without_noise(all.take(k as int)),
        decreases done@.len() - k,
    {
        let ghost sofar = text::texts(out@);
        assert(all.take(k as int + 1).drop_last() =~= all.take(k as int));
        assert(all[k as int] == done@[k as int]@);
        if !noise(done[k].as_str()) {
            out.push(done[k].clone());
            assert(text::texts(out@) =~= sofar.push(all[k as int]));
        }
        k += 1;
    }
    assert(all.take(all.len() as int) =~= all);
    out
}

/// A test name speaks for a symbol name: every token of the latter is one of the
/// former. A name of one or two characters is never spoken for.
pub open spec fn names(test_name: Seq<char>, name: Seq<char>) -> bool {
    &&& tokens_of(name).len() > 0
    &&& name.len() >= 3
    &&& forall|i: int|
        0 <= i < tokens_of(name).len() ==> tokens_of(test_name).contains(
            #[trigger] tokens_of(name)[i],
        )
}

/// Whether a test's name contains a symbol's name.
///
/// Deliberately conservative: `validate` claims `test_validate_rejects_empty` but
/// not `test_parse`.
pub fn name_claims(test_name: &str, name: &str) -> (r: bool)
    ensures
        r == names(test_name@, name@),
{
    let wanted = tokenize(name);
    if wanted.len() == 0 || name.unicode_len() < 3 {
        return false;
    }
    let given = tokenize(test_name);
    let mut i: usize = 0;
    while i < wanted.len()
        invariant
            i <= wanted@.len(),
            text::texts(wanted@) == tokens_of(name@),
            text::texts(given@) == tokens_of(test_name@),
            forall|k: int|
                0 <= k < i ==> tokens_of(test_name@).contains(#[trigger] tokens_of(name@)[k]),
        decreases wanted@.len() - i,
    {
        assert(tokens_of(name@)[i as int] == wanted@[i as int]@);
        if !text::any_text_is(&given, wanted[i].as_str()) {
            return false;
        }
        i += 1;
    }
    true
}

// ---------------------------------------------------------------------------
// Building
// ---------------------------------------------------------------------------

/// The claims that the test module around a test makes on its file's symbols.
pub open spec fn same_file_claims(test: TestItemView, symbols: Seq<SymbolView>) -> Seq<ClaimView>
    decreases symbols.len(),
{
    if symbols.len() == 0 {
        Seq::empty()
    } else {
        let before = same_file_claims(test, symbols.drop_last());
        let s = symbols.last();
        if test.enclosing_test_module is Some && s.id.file == test.id.file {
            before.push(
                ClaimView { test: test.id, symbol: s.id, kind: ClaimKind::SameFileTestModule },
            )
        } else {
            before
        }
    }
}

/// The claims that a unit test's name makes on symbols that its module does not
/// claim already.
pub open spec fn named_claims(test: TestItemView, symbols: Seq<SymbolView>) -> Seq<ClaimView>
    decreases symbols.len(),
{
    if symbols.len() == 0 {
        Seq::empty()
    } else {
        let before = named_claims(test, symbols.drop_last());
        let s = symbols.last();
        if !(s.id.file == test.id.file && test.enclosing_test_module is Some) && names(
            leaf_of(test.id.path),
            s.name,
        ) {
            before.push(ClaimView { test: test.id, symbol: s.id, kind: ClaimKind::NameSimilarity })
        } else {
            before
        }
    }
}

/// The crate that a path begins with.
pub open spec fn crate_of(path: Seq<char>) -> Seq<char> {
    match text::halves(path, "::"@) {
        Some((name, _)) => name,
        None => path,
    }
}

/// Whether two paths begin with the same crate.
fn same_crate(a: &str, b: &str) -> (r: bool)
    ensures
        r == (crate_of(a@) == crate_of(b@)),
{
    text::same(crate_part(a).as_str(), crate_part(b).as_str())
}

fn crate_part(path: &str) -> (r: String)
    ensures
        r@ == crate_of(path@),
{
    match text::split_once(path, "::") {
        Some((name, _)) => name,
        None => text::owned(path),
    }
}

/// An integration test speaks for a symbol: it is public, and either in the same
/// package or named by the test.
pub open spec fn reaches(test: TestItemView, s: SymbolView) -> bool {
    s.visibility == Visibility::Public && (crate_of(s.path) == crate_of(test.id.path) || names(
        leaf_of(test.id.path),
        s.name,
    ))
}

/// The claims that an integration test makes on the public symbols.
pub open spec fn surface_claims(test: TestItemView, symbols: Seq<SymbolView>) -> Seq<ClaimView>
    decreases symbols.len(),
{
    if symbols.len() == 0 {
        Seq::empty()
    } else {
        let before = surface_claims(test, symbols.drop_last());
        let s = symbols.last();
        if reaches(test, s) {
            before.push(
                ClaimView {
                    test: test.id,
                    symbol: s.id,
                    kind: if names(leaf_of(test.id.path), s.name) {
                        ClaimKind::NameSimilarity
                    } else {
                        ClaimKind::IntegrationSurface
                    },
                },
            )
        } else {
            before
        }
    }
}

/// The claims of one test on the symbols worth scoring.
pub open spec fn claims_of_test(test: TestItemView, scorable: Seq<SymbolView>) -> Seq<ClaimView> {
    match test.kind {
        TestKind::Doctest => match test.doctest_target {
            Some(target) => seq![
                ClaimView { test: test.id, symbol: target, kind: ClaimKind::Doctest },
            ],
            None => Seq::empty(),
        },
        TestKind::Unit => same_file_claims(test, scorable) + named_claims(test, scorable),
        TestKind::Integration => surface_claims(test, scorable),
    }
}

/// The claims of a list of tests.
pub open spec fn claims_of_tests(tests: Seq<TestItemView>, scorable: Seq<SymbolView>) -> Seq<
    ClaimView,
>
    decreases tests.len(),
{
    if tests.len() == 0 {
        Seq::empty()
    } else {
        claims_of_tests(tests.drop_last(), scorable) + claims_of_test(tests.last(), scorable)
    }
}

/// Every claim in an inventory.
pub open spec fn claims_in(inv: InventoryView) -> Seq<ClaimView> {
    claims_of_tests(inv.tests, inventory::scorable_of(inv.symbols))
}

fn push_same_file(claims: &mut Vec<Claim>, test: &TestItem, symbols: &Vec<&Symbol>)
    ensures
        order::views(final(claims)@) == order::views(old(claims)@) + same_file_claims(
            test@,
            inventory::symbol_views(symbols@),
        ),
{
    let ghost all = inventory::symbol_views(symbols@);
    let ghost before = order::views(claims@);
    let mut i: usize = 0;
    assert(before + same_file_claims(test@, all.take(0)) =~= before);
    while i < symbols.len()
        invariant
            i <= symbols@.len(),
            all == inventory::symbol_views(symbols@),
            order::views(claims@) == before + same_file_claims(test@, all.take(i as int)),
        decreases symbols@.len() - i,
    {
        let ghost sofar = order::views(claims@);
        assert(all.take(i as int + 1).drop_last() =~= all.take(i as int));
        assert(all[i as int] == symbols@[i as int]@);
        let s = symbols[i];
        if test.enclosing_test_module.is_some() && text::same(
            s.id.file.as_str(),
            test.id.file.as_str(),
        ) {
            let c = Claim {
                test: test.id.copy(),
                symbol: s.id.copy(),
                kind: ClaimKind::SameFileTestModule,
            };
            let ghost cv = c@;
            claims.push(c);
            assert(order::views(claims@) =~= sofar.push(cv));
            assert(sofar.push(cv) =~= before + same_file_claims(test@, all.take(i as int)).push(cv));
        }
        i += 1;
    }
    assert(all.take(all.len() as int) =~= all);
}

fn push_named(claims: &mut Vec<Claim>, test: &TestItem, symbols: &Vec<&Symbol>)
    ensures
        order::views(final(claims)@) == order::views(old(claims)@) + named_claims(
            test@,
            inventory::symbol_views(symbols@),
        ),
{
    let ghost all = inventory::symbol_views(symbols@);
    let ghost before = order::views(claims@);
    let test_name = leaf_name(test.id.path.as_str());
    let mut i: usize = 0;
    assert(before + named_claims(test@, all.take(0)) =~= before);
    while i < symbols.len()
        invariant
            i <= symbols@.len(),
            all == inventory::symbol_views(symbols@),
            test_name@ == leaf_of(test@.id.path),
            order::views(claims@) == before + named_claims(test@, all.take(i as int)),
        decreases symbols@.len() - i,
    {
        let ghost sofar = order::views(claims@);
        assert(all.take(i as int + 1).drop_last() =~= all.take(i as int));
        assert(all[i as int] == symbols@[i as int]@);
        let s = symbols[i];
        let claimed = test.enclosing_test_module.is_some() && text::same(
            s.id.file.as_str(),
            test.id.file.as_str(),
        );
        if !claimed && name_claims(test_name.as_str(), s.name.as_str()) {
            let c = Claim {
                test: test.id.copy(),
                symbol: s.id.copy(),
                kind: ClaimKind::NameSimilarity,
            };
            let ghost cv = c@;
            claims.push(c);
            assert(order::views(claims@) =~= sofar.push(cv));
            assert(sofar.push(cv) =~= before + named_claims(test@, all.take(i as int)).push(cv));
        }
        i += 1;
    }
    assert(all.take(all.len() as int) =~= all);
}

fn push_surface(claims: &mut Vec<Claim>, test: &TestItem, symbols: &Vec<&Symbol>)
    ensures
        order::views(final(claims)@) == order::views(old(claims)@) + surface_claims(
            test@,
            inventory::symbol_views(symbols@),
        ),
{
    let ghost all = inventory::symbol_views(symbols@);
    let ghost before = order::views(claims@);
    let test_name = leaf_name(test.id.path.as_str());
    let mut i: usize = 0;
    assert(before + surface_claims(test@, all.take(0)) =~= before);
    while i < symbols.len()
        invariant
            i <= symbols@.len(),
            all == inventory::symbol_views(symbols@),
            test_name@ == leaf_of(test@.id.path),
            order::views(claims@) == before + surface_claims(test@, all.take(i as int)),
        decreases symbols@.len() - i,
    {
        let ghost sofar = order::views(claims@);
        assert(all.take(i as int + 1).drop_last() =~= all.take(i as int));
        assert(all[i as int] == symbols@[i as int]@);
        let s = symbols[i];
        let named = name_claims(test_name.as_str(), s.name.as_str());
        if s.visibility == Visibility::Public && (named || same_crate(
            s.path.as_str(),
            test.id.path.as_str(),
        )) {
            let kind = if named {
                ClaimKind::NameSimilarity
            } else {
                ClaimKind::IntegrationSurface
            };
            let c = Claim { test: test.id.copy(), symbol: s.id.copy(), kind };
            let ghost cv = c@;
            claims.push(c);
            assert(order::views(claims@) =~= sofar.push(cv));
            assert(sofar.push(cv) =~= before + surface_claims(test@, all.take(i as int)).push(cv));
        }
        i += 1;
    }
    assert(all.take(all.len() as int) =~= all);
}

impl ClaimMap {
    /// Derives every claim from the source.
    pub fn build(inv: &Inventory) -> (r: Self)
        ensures
            r@ == claims_in(inv@),
    {
        let scorable = inv.scorable();
        let ghost symbols = inventory::scorable_of(inv@.symbols);
        let ghost all = inv@.tests;
        let mut claims: Vec<Claim> = Vec::new();
        let mut i: usize = 0;
        assert(order::views(claims@) =~= claims_of_tests(all.take(0), symbols));
        while i < inv.tests.len()
            invariant
                i <= inv.tests@.len(),
                all == inv@.tests,
                symbols == inventory::symbol_views(scorable@),
                order::views(claims@) == claims_of_tests(all.take(i as int), symbols),
            decreases inv.tests@.len() - i,
        {
            let ghost before = order::views(claims@);
            assert(all.take(i as int + 1).drop_last() =~= all.take(i as int));
            assert(all[i as int] == inv.tests@[i as int]@);
            let test = &inv.tests[i];
            match test.kind {
                TestKind::Doctest => {
                    match &test.doctest_target {
                        Some(target) => {
                            let c = Claim {
                                test: test.id.copy(),
                                symbol: target.copy(),
                                kind: ClaimKind::Doctest,
                            };
                            let ghost cv = c@;
                            claims.push(c);
                            assert(order::views(claims@) =~= before + seq![cv]);
                        },
                        None => {
                            assert(before + Seq::<ClaimView>::empty() =~= before);
                        },
                    }
                },
                TestKind::Unit => {
                    push_same_file(&mut claims, test, &scorable);
                    push_named(&mut claims, test, &scorable);
                    assert(order::views(claims@) =~= before + (same_file_claims(test@, symbols)
                        + named_claims(test@, symbols)));
                },
                TestKind::Integration => {
                    push_surface(&mut claims, test, &scorable);
                },
            }
            i += 1;
        }
        assert(all.take(all.len() as int) =~= all);
        ClaimMap { claims }
    }
}

// ---------------------------------------------------------------------------
// Asking
// ---------------------------------------------------------------------------

/// The test speaks for the symbol.
pub open spec fn speaks_for(claims: Seq<ClaimView>, test: TestIdView, symbol: SymbolIdView) -> bool {
    exists|i: int|
        0 <= i < claims.len() && (#[trigger] claims[i]).test == test && claims[i].symbol == symbol
}

/// A test that speaks for a symbol, and how.
pub type Claimant<'a> = (&'a TestId, ClaimKind);

impl<'a> Ranked for Claimant<'a> {
    open spec fn ranks(a: (TestIdView, ClaimKind), b: (TestIdView, ClaimKind)) -> bool {
        a.1.rank() <= b.1.rank()
    }

    proof fn le_total(a: (TestIdView, ClaimKind), b: (TestIdView, ClaimKind)) {
    }

    proof fn le_transitive(
        a: (TestIdView, ClaimKind),
        b: (TestIdView, ClaimKind),
        c: (TestIdView, ClaimKind),
    ) {
    }

    fn may_precede(&self, other: &Self) -> bool {
        self.1.level() <= other.1.level()
    }
}

/// The claims on a symbol, in the order of the map.
pub open spec fn edges_to(claims: Seq<ClaimView>, symbol: SymbolIdView) -> Seq<
    (TestIdView, ClaimKind),
>
    decreases claims.len(),
{
    if claims.len() == 0 {
        Seq::empty()
    } else if claims.last().symbol == symbol {
        edges_to(claims.drop_last(), symbol).push((claims.last().test, claims.last().kind))
    } else {
        edges_to(claims.drop_last(), symbol)
    }
}

/// A symbol is claimed, directly where only that counts.
pub open spec fn is_claimed(claims: Seq<ClaimView>, symbol: SymbolIdView, direct_only: bool) -> bool {
    exists|i: int|
        0 <= i < claims.len() && (#[trigger] claims[i]).symbol == symbol && (!direct_only
            || claims[i].kind.direct())
}

/// The symbols of a list that no claim reaches.
pub open spec fn unclaimed_of(
    claims: Seq<ClaimView>,
    symbols: Seq<SymbolView>,
    direct_only: bool,
) -> Seq<SymbolView>
    decreases symbols.len(),
{
    if symbols.len() == 0 {
        Seq::empty()
    } else if is_claimed(claims, symbols.last().id, direct_only) {
        unclaimed_of(claims, symbols.drop_last(), direct_only)
    } else {
        unclaimed_of(claims, symbols.drop_last(), direct_only).push(symbols.last())
    }
}

impl ClaimMap {
    /// Symbols this test has taken responsibility for.
    pub fn claimed_by(&self, test: &TestId) -> (r: KeySet<SymbolId>)
        ensures
            r.wf(),
            forall|s: SymbolIdView| #[trigger] r@.contains(s) <==> speaks_for(self@, test@, s),
    {
        let ghost all = self@;
        let mut found: KeySet<SymbolId> = KeySet::new();
        let mut i: usize = 0;
        while i < self.claims.len()
            invariant
                i <= self.claims@.len(),
                all == self@,
                found.wf(),
                forall|s: SymbolIdView| #[trigger]
                    found@.contains(s) <==> speaks_for(all.take(i as int), test@, s),
            decreases self.claims@.len() - i,
        {
            let ghost before = found@;
            let ghost front = all.take(i as int);
            let ghost more = all.take(i as int + 1);
            assert(all[i as int] == self.claims@[i as int]@);
            let c = &self.claims[i];
            let mine = c.test.same(test);
            if mine {
                found.insert(c.symbol.copy());
            }
            assert forall|s: SymbolIdView| #[trigger] found@.contains(s) <==> speaks_for(
                more,
                test@,
                s,
            ) by {
                if speaks_for(front, test@, s) {
                    let k = choose|k: int|
                        0 <= k < front.len() && (#[trigger] front[k]).test == test@
                            && front[k].symbol == s;
                    assert(more[k] == front[k]);
                }
                if speaks_for(more, test@, s) {
                    let k = choose|k: int|
                        0 <= k < more.len() && (#[trigger] more[k]).test == test@ && more[k].symbol
                            == s;
                    if k < i {
                        assert(front[k] == more[k]);
                    }
                }
                if mine && s == all[i as int].symbol {
                    assert(more[i as int].symbol == s);
                }
                assert(before.contains(s) <==> speaks_for(front, test@, s));
            }
            i += 1;
        }
        assert(all.take(all.len() as int) =~= all);
        found
    }

    /// Tests that speak for this symbol, strongest edge first.
    pub fn claimants(&self, symbol: &SymbolId) -> (r: Vec<(&TestId, ClaimKind)>)
        ensures
            order::views(r@) == order::sorted::<Claimant>(edges_to(self@, symbol@)),
    {
        let ghost all = self@;
        let mut found: Vec<Claimant> = Vec::new();
        let mut i: usize = 0;
        assert(order::views(found@) =~= edges_to(all.take(0), symbol@));
        while i < self.claims.len()
            invariant
                i <= self.claims@.len(),
                all == self@,
                order::views(found@) == edges_to(all.take(i as int), symbol@),
            decreases self.claims@.len() - i,
        {
            let ghost before = order::views(found@);
            assert(all.take(i as int + 1).drop_last() =~= all.take(i as int));
            assert(all[i as int] == self.claims@[i as int]@);
            let c = &self.claims[i];
            if c.symbol.same(symbol) {
                found.push((&c.test, c.kind));
                assert(order::views(found@) =~= before.push(
                    (all[i as int].test, all[i as int].kind),
                ));
            }
            i += 1;
        }
        assert(all.take(all.len() as int) =~= all);
        order::sort_stable(found)
    }

    /// Whether any claim, or any direct one, reaches the symbol.
    pub(crate) fn claims_symbol(&self, symbol: &SymbolId, direct_only: bool) -> (r: bool)
        ensures
            r == is_claimed(self@, symbol@, direct_only),
    {
        let ghost all = self@;
        let mut i: usize = 0;
        while i < self.claims.len()
            invariant
                i <= self.claims@.len(),
                all == self@,
                forall|k: int|
                    0 <= k < i ==> !((#[trigger] all[k]).symbol == symbol@ && (!direct_only
                        || all[k].kind.direct())),
            decreases self.claims@.len() - i,
        {
            assert(all[i as int] == self.claims@[i as int]@);
            let c = &self.claims[i];
            if (!direct_only || c.kind.is_direct()) && c.symbol.same(symbol) {
                return true;
            }
            i += 1;
        }
        false
    }

    /// Symbols no test claims at all, at or above the given specificity.
    ///
    /// This is a coverage proxy that needs no build: if nothing even *nominally*
    /// speaks for a symbol, no amount of execution data will change that.
    pub fn unclaimed<'a>(&self, inv: &'a Inventory, direct_only: bool) -> (r: Vec<&'a Symbol>)
        ensures
            inventory::symbol_views(r@) == unclaimed_of(
                self@,
                inventory::scorable_of(inv@.symbols),
                direct_only,
            ),
    {
        let scorable = inv.scorable();
        let ghost all = inventory::symbol_views(scorable@);
        let mut out: Vec<&'a Symbol> = Vec::new();
        let mut i: usize = 0;
        assert(inventory::symbol_views(out@) =~= unclaimed_of(self@, all.take(0), direct_only));
        while i < scorable.len()
            invariant
                i <= scorable@.len(),
                all == inventory::symbol_views(scorable@),
                inventory::symbol_views(out@) == unclaimed_of(
                    self@,
                    all.take(i as int),
                    direct_only,
                ),
            decreases scorable@.len() - i,
        {
            let ghost before = inventory::symbol_views(out@);
            assert(all.take(i as int + 1).drop_last() =~= all.take(i as int));
            assert(all[i as int] == scorable@[i as int]@);
            let s: &'a Symbol = scorable[i];
            if !self.claims_symbol(&s.id, direct_only) {
                out.push(s);
                assert(inventory::symbol_views(out@) =~= before.push(all[i as int]));
            }
            i += 1;
        }
        assert(all.take(all.len() as int) =~= all);
        out
    }
}

// ---------------------------------------------------------------------------
// Laws
// ---------------------------------------------------------------------------

/// A symbol is among the unclaimed exactly when it is in the list and no claim
/// reaches it.
pub proof fn law_unclaimed(
    claims: Seq<ClaimView>,
    symbols: Seq<SymbolView>,
    direct_only: bool,
    s: SymbolView,
)
    ensures
        unclaimed_of(claims, symbols, direct_only).contains(s) <==> symbols.contains(s)
            && !is_claimed(claims, s.id, direct_only),
    decreases symbols.len(),
{
    let found = unclaimed_of(claims, symbols, direct_only);
    if symbols.len() > 0 {
        let front = symbols.drop_last();
        let before = unclaimed_of(claims, front, direct_only);
        law_unclaimed(claims, front, direct_only, s);
        if front.contains(s) {
            let k = choose|k: int| 0 <= k < front.len() && front[k] == s;
            assert(symbols[k] == s);
        }
        if symbols.contains(s) {
            let k = choose|k: int| 0 <= k < symbols.len() && symbols[k] == s;
            if k < front.len() {
                assert(front[k] == s);
            }
        }
        if !is_claimed(claims, symbols.last().id, direct_only) {
            if before.contains(s) {
                let k = choose|k: int| 0 <= k < before.len() && before[k] == s;
                assert(found[k] == s);
            }
            if found.contains(s) {
                let k = choose|k: int| 0 <= k < found.len() && found[k] == s;
                if k < before.len() {
                    assert(before[k] == s);
                }
            }
            if s == symbols.last() {
                assert(found[found.len() - 1] == s);
                assert(symbols[symbols.len() - 1] == s);
            }
        }
    }
}

/// What no test claims at all, no test claims directly.
pub proof fn law_unclaimed_directly(
    claims: Seq<ClaimView>,
    symbols: Seq<SymbolView>,
    s: SymbolView,
)
    requires
        unclaimed_of(claims, symbols, false).contains(s),
    ensures
        unclaimed_of(claims, symbols, true).contains(s),
{
    law_unclaimed(claims, symbols, false, s);
    law_unclaimed(claims, symbols, true, s);
    if is_claimed(claims, s.id, true) {
        let i = choose|i: int|
            0 <= i < claims.len() && (#[trigger] claims[i]).symbol == s.id
                && claims[i].kind.direct();
        assert(claims[i].symbol == s.id);
    }
}

/// The tests that speak for a symbol are listed strongest edge first, and each
/// claim on it is listed.
pub proof fn law_claimants(claims: Seq<ClaimView>, symbol: SymbolIdView, test: TestIdView, kind: ClaimKind)
    ensures
        order::in_order::<Claimant>(order::sorted::<Claimant>(edges_to(claims, symbol))),
        order::sorted::<Claimant>(edges_to(claims, symbol)).contains((test, kind))
            <==> claims.contains(ClaimView { test, symbol, kind }),
{
    order::lemma_sorted::<Claimant>(edges_to(claims, symbol));
    lemma_edges(claims, symbol, test, kind);
}

proof fn lemma_edges(claims: Seq<ClaimView>, symbol: SymbolIdView, test: TestIdView, kind: ClaimKind)
    ensures
        edges_to(claims, symbol).contains((test, kind)) <==> claims.contains(
            ClaimView { test, symbol, kind },
        ),
    decreases claims.len(),
{
    let c = ClaimView { test, symbol, kind };
    if claims.len() > 0 {
        let front = claims.drop_last();
        let before = edges_to(front, symbol);
        let edges = edges_to(claims, symbol);
        lemma_edges(front, symbol, test, kind);
        if front.contains(c) {
            let k = choose|k: int| 0 <= k < front.len() && front[k] == c;
            assert(claims[k] == c);
        }
        if claims.contains(c) {
            let k = choose|k: int| 0 <= k < claims.len() && claims[k] == c;
            if k < front.len() {
                assert(front[k] == c);
            }
        }
        if claims.last().symbol == symbol {
            if before.contains((test, kind)) {
                let k = choose|k: int| 0 <= k < before.len() && before[k] == (test, kind);
                assert(edges[k] == (test, kind));
            }
            if edges.contains((test, kind)) {
                let k = choose|k: int| 0 <= k < edges.len() && edges[k] == (test, kind);
                if k < before.len() {
                    assert(before[k] == (test, kind));
                } else {
                    assert(claims[claims.len() - 1] == c);
                }
            }
            if claims.last() == c {
                assert(edges[edges.len() - 1] == (test, kind));
            }
        }
    }
}

/// The reason that a claim has in its test and its symbol.
pub open spec fn justified(c: ClaimView, t: TestItemView, symbols: Seq<SymbolView>) -> bool {
    &&& c.test == t.id
    &&& match c.kind {
        ClaimKind::Doctest => t.kind == TestKind::Doctest && t.doctest_target == Some(c.symbol),
        ClaimKind::SameFileTestModule => t.kind == TestKind::Unit && t.enclosing_test_module is Some
            && c.symbol.file == t.id.file,
        ClaimKind::NameSimilarity => exists|k: int|
            0 <= k < symbols.len() && (#[trigger] symbols[k]).id == c.symbol && names(
                leaf_of(t.id.path),
                symbols[k].name,
            ),
        ClaimKind::IntegrationSurface => t.kind == TestKind::Integration && exists|k: int|
            0 <= k < symbols.len() && (#[trigger] symbols[k]).id == c.symbol
                && symbols[k].visibility == Visibility::Public && crate_of(symbols[k].path)
                == crate_of(t.id.path),
    }
}

proof fn lemma_same_file(t: TestItemView, symbols: Seq<SymbolView>, c: ClaimView)
    requires
        t.kind == TestKind::Unit,
        same_file_claims(t, symbols).contains(c),
    ensures
        c.kind == ClaimKind::SameFileTestModule,
        justified(c, t, symbols),
    decreases symbols.len(),
{
    if symbols.len() > 0 {
        let before = same_file_claims(t, symbols.drop_last());
        let all = same_file_claims(t, symbols);
        let k = choose|k: int| 0 <= k < all.len() && all[k] == c;
        if k < before.len() {
            assert(before[k] == c);
            lemma_same_file(t, symbols.drop_last(), c);
        }
    }
}

proof fn lemma_named(t: TestItemView, symbols: Seq<SymbolView>, c: ClaimView)
    requires
        named_claims(t, symbols).contains(c),
    ensures
        c.kind == ClaimKind::NameSimilarity,
        justified(c, t, symbols),
    decreases symbols.len(),
{
    if symbols.len() > 0 {
        let front = symbols.drop_last();
        let before = named_claims(t, front);
        let all = named_claims(t, symbols);
        let k = choose|k: int| 0 <= k < all.len() && all[k] == c;
        if k < before.len() {
            assert(before[k] == c);
            lemma_named(t, front, c);
            let j = choose|j: int|
                0 <= j < front.len() && (#[trigger] front[j]).id == c.symbol && names(
                    leaf_of(t.id.path),
                    front[j].name,
                );
            assert(symbols[j] == front[j]);
        } else {
            assert(symbols[symbols.len() - 1].id == c.symbol);
        }
    }
}

proof fn lemma_surface(t: TestItemView, symbols: Seq<SymbolView>, c: ClaimView)
    requires
        t.kind == TestKind::Integration,
        surface_claims(t, symbols).contains(c),
    ensures
        justified(c, t, symbols),
    decreases symbols.len(),
{
    if symbols.len() > 0 {
        let front = symbols.drop_last();
        let before = surface_claims(t, front);
        let all = surface_claims(t, symbols);
        let k = choose|k: int| 0 <= k < all.len() && all[k] == c;
        if k < before.len() {
            assert(before[k] == c);
            lemma_surface(t, front, c);
            match c.kind {
                ClaimKind::NameSimilarity => {
                    let j = choose|j: int|
                        0 <= j < front.len() && (#[trigger] front[j]).id == c.symbol && names(
                            leaf_of(t.id.path),
                            front[j].name,
                        );
                    assert(symbols[j] == front[j]);
                },
                ClaimKind::IntegrationSurface => {
                    let j = choose|j: int|
                        0 <= j < front.len() && (#[trigger] front[j]).id == c.symbol
                            && front[j].visibility == Visibility::Public && crate_of(front[j].path)
                            == crate_of(t.id.path);
                    assert(symbols[j] == front[j]);
                },
                _ => {},
            }
        } else {
            assert(symbols[symbols.len() - 1].id == c.symbol);
        }
    }
}

/// Every claim is made by an inventoried test and has its reason there: an
/// example on the symbol itself, a test module in the symbol's file, a name that
/// names it, or a public symbol that an integration test can reach.
pub proof fn law_claims_are_justified(
    tests: Seq<TestItemView>,
    scorable: Seq<SymbolView>,
    c: ClaimView,
)
    requires
        claims_of_tests(tests, scorable).contains(c),
    ensures
        exists|i: int| 0 <= i < tests.len() && justified(c, #[trigger] tests[i], scorable),
    decreases tests.len(),
{
    if tests.len() > 0 {
        let front = tests.drop_last();
        let t = tests.last();
        let before = claims_of_tests(front, scorable);
        let last = claims_of_test(t, scorable);
        let all = claims_of_tests(tests, scorable);
        let k = choose|k: int| 0 <= k < all.len() && all[k] == c;
        if k < before.len() {
            assert(before[k] == c);
            law_claims_are_justified(front, scorable, c);
            let i = choose|i: int|
                0 <= i < front.len() && justified(c, #[trigger] front[i], scorable);
            assert(tests[i] == front[i]);
        } else {
            assert(last[k - before.len()] == c);
            assert(tests[tests.len() - 1] == t);
            match t.kind {
                TestKind::Doctest => {},
                TestKind::Unit => {
                    let same = same_file_claims(t, scorable);
                    let named = named_claims(t, scorable);
                    let j = k - before.len();
                    if j < same.len() {
                        assert(same[j] == c);
                        lemma_same_file(t, scorable, c);
                    } else {
                        assert(named[j - same.len()] == c);
                        lemma_named(t, scorable, c);
                    }
                },
                TestKind::Integration => {
                    lemma_surface(t, scorable, c);
                },
            }
        }
    }
}

/// What one of a list of tests claims, the list claims.
proof fn lemma_claims_gather(
    tests: Seq<TestItemView>,
    scorable: Seq<SymbolView>,
    t: TestItemView,
    c: ClaimView,
)
    requires
        tests.contains(t),
        claims_of_test(t, scorable).contains(c),
    ensures
        claims_of_tests(tests, scorable).contains(c),
    decreases tests.len(),
{
    let front = tests.drop_last();
    let before = claims_of_tests(front, scorable);
    let last = claims_of_test(tests.last(), scorable);
    let all = claims_of_tests(tests, scorable);
    let k = choose|k: int| 0 <= k < tests.len() && tests[k] == t;
    if k < front.len() {
        assert(front[k] == t);
        lemma_claims_gather(front, scorable, t, c);
        let j = choose|j: int| 0 <= j < before.len() && before[j] == c;
        assert(all[j] == c);
    } else {
        let j = choose|j: int| 0 <= j < last.len() && last[j] == c;
        assert(all[before.len() + j] == c);
    }
}

/// A test module in a file speaks, directly, for every symbol worth scoring in
/// that file.
pub proof fn law_test_module_claims_its_file(
    tests: Seq<TestItemView>,
    scorable: Seq<SymbolView>,
    t: TestItemView,
    s: SymbolView,
)
    requires
        tests.contains(t),
        t.kind == TestKind::Unit,
        t.enclosing_test_module is Some,
        scorable.contains(s),
        s.id.file == t.id.file,
    ensures
        claims_of_tests(tests, scorable).contains(
            ClaimView { test: t.id, symbol: s.id, kind: ClaimKind::SameFileTestModule },
        ),
        is_claimed(claims_of_tests(tests, scorable), s.id, true),
{
    lemma_same_file_complete(t, scorable, s);
    let c = ClaimView { test: t.id, symbol: s.id, kind: ClaimKind::SameFileTestModule };
    let same = same_file_claims(t, scorable);
    let k = choose|k: int| 0 <= k < same.len() && same[k] == c;
    assert(claims_of_test(t, scorable)[k] == c);
    lemma_claims_gather(tests, scorable, t, c);
    lemma_claimed(claims_of_tests(tests, scorable), c);
}

/// An example speaks, directly, for the item that it is attached to.
pub proof fn law_doctest_claims_its_item(
    tests: Seq<TestItemView>,
    scorable: Seq<SymbolView>,
    t: TestItemView,
    target: SymbolIdView,
)
    requires
        tests.contains(t),
        t.kind == TestKind::Doctest,
        t.doctest_target == Some(target),
    ensures
        claims_of_tests(tests, scorable).contains(
            ClaimView { test: t.id, symbol: target, kind: ClaimKind::Doctest },
        ),
        is_claimed(claims_of_tests(tests, scorable), target, true),
{
    let c = ClaimView { test: t.id, symbol: target, kind: ClaimKind::Doctest };
    assert(claims_of_test(t, scorable)[0] == c);
    lemma_claims_gather(tests, scorable, t, c);
    lemma_claimed(claims_of_tests(tests, scorable), c);
}

/// A public symbol that is reachable through an integration test of its package
/// only is not entirely unclaimed.
pub proof fn law_public_surface_is_claimed(
    tests: Seq<TestItemView>,
    scorable: Seq<SymbolView>,
    t: TestItemView,
    s: SymbolView,
)
    requires
        tests.contains(t),
        t.kind == TestKind::Integration,
        scorable.contains(s),
        s.visibility == Visibility::Public,
        crate_of(s.path) == crate_of(t.id.path),
    ensures
        is_claimed(claims_of_tests(tests, scorable), s.id, false),
{
    lemma_surface_complete(t, scorable, s);
    let surface = surface_claims(t, scorable);
    let k = choose|k: int| 0 <= k < surface.len() && (#[trigger] surface[k]).symbol == s.id;
    assert(claims_of_test(t, scorable).contains(surface[k]));
    lemma_claims_gather(tests, scorable, t, surface[k]);
    lemma_claimed(claims_of_tests(tests, scorable), surface[k]);
}

/// No two of a list of claims are of the same test on the same symbol.
pub open spec fn single(claims: Seq<ClaimView>) -> bool {
    forall|i: int, j: int|
        #![trigger claims[i], claims[j]]
        0 <= i < j < claims.len() ==> !(claims[i].test == claims[j].test && claims[i].symbol
            == claims[j].symbol)
}

/// No two of a list of symbols have the same identity.
pub open spec fn distinct_symbols(symbols: Seq<SymbolView>) -> bool {
    forall|i: int, j: int|
        #![trigger symbols[i], symbols[j]]
        0 <= i < j < symbols.len() ==> symbols[i].id != symbols[j].id
}

/// No two of a list of tests have the same identity.
pub open spec fn distinct_tests(tests: Seq<TestItemView>) -> bool {
    forall|i: int, j: int|
        #![trigger tests[i], tests[j]]
        0 <= i < j < tests.len() ==> tests[i].id != tests[j].id
}

/// Every claim of a list is one of a test on one of a list of symbols.
spec fn made_on(claims: Seq<ClaimView>, t: TestItemView, symbols: Seq<SymbolView>) -> bool {
    forall|i: int|
        0 <= i < claims.len() ==> (#[trigger] claims[i]).test == t.id && exists|k: int|
            0 <= k < symbols.len() && (#[trigger] symbols[k]).id == claims[i].symbol
}

proof fn lemma_single_grows(
    claims: Seq<ClaimView>,
    t: TestItemView,
    symbols: Seq<SymbolView>,
    c: ClaimView,
)
    requires
        symbols.len() > 0,
        distinct_symbols(symbols),
        single(claims),
        made_on(claims, t, symbols.drop_last()),
        c.test == t.id,
        c.symbol == symbols.last().id,
    ensures
        single(claims),
        made_on(claims, t, symbols),
        single(claims.push(c)),
        made_on(claims.push(c), t, symbols),
{
    let front = symbols.drop_last();
    let more = claims.push(c);
    assert forall|i: int| 0 <= i < claims.len() implies (#[trigger] claims[i]).test == t.id && (
    exists|k: int| 0 <= k < symbols.len() && (#[trigger] symbols[k]).id == claims[i].symbol)
        && claims[i].symbol != c.symbol by {
        let k = choose|k: int| 0 <= k < front.len() && (#[trigger] front[k]).id == claims[i].symbol;
        assert(symbols[k] == front[k]);
        assert(symbols[k].id != symbols[symbols.len() - 1].id);
    }
    assert(symbols[symbols.len() - 1].id == c.symbol);
    assert forall|i: int| 0 <= i < more.len() implies (#[trigger] more[i]).test == t.id && exists|
        k: int,
    |
        0 <= k < symbols.len() && (#[trigger] symbols[k]).id == more[i].symbol by {
        if i < claims.len() {
            assert(more[i] == claims[i]);
        }
    }
    assert forall|i: int, j: int|
        #![trigger more[i], more[j]]
        0 <= i < j < more.len() implies !(more[i].test == more[j].test && more[i].symbol
        == more[j].symbol) by {
        assert(more[i] == claims[i]);
        if j < claims.len() {
            assert(more[j] == claims[j]);
        }
    }
}

proof fn lemma_lists_single(t: TestItemView, symbols: Seq<SymbolView>)
    requires
        distinct_symbols(symbols),
    ensures
        single(same_file_claims(t, symbols)),
        made_on(same_file_claims(t, symbols), t, symbols),
        single(named_claims(t, symbols)),
        made_on(named_claims(t, symbols), t, symbols),
        single(surface_claims(t, symbols)),
        made_on(surface_claims(t, symbols), t, symbols),
    decreases symbols.len(),
{
    if symbols.len() > 0 {
        let front = symbols.drop_last();
        assert forall|i: int, j: int|
            #![trigger front[i], front[j]]
            0 <= i < j < front.len() implies front[i].id != front[j].id by {
            assert(symbols[i] == front[i] && symbols[j] == front[j]);
        }
        lemma_lists_single(t, front);
        let id = symbols.last().id;
        let same = ClaimView { test: t.id, symbol: id, kind: ClaimKind::SameFileTestModule };
        let named = ClaimView { test: t.id, symbol: id, kind: ClaimKind::NameSimilarity };
        let surface = ClaimView { test: t.id, symbol: id, kind: ClaimKind::IntegrationSurface };
        lemma_single_grows(same_file_claims(t, front), t, symbols, same);
        lemma_single_grows(named_claims(t, front), t, symbols, named);
        lemma_single_grows(surface_claims(t, front), t, symbols, named);
        lemma_single_grows(surface_claims(t, front), t, symbols, surface);
    }
}

proof fn lemma_apart(t: TestItemView, symbols: Seq<SymbolView>)
    ensures
        forall|i: int|
            0 <= i < same_file_claims(t, symbols).len() ==> (#[trigger] same_file_claims(
                t,
                symbols,
            )[i]).symbol.file == t.id.file && t.enclosing_test_module is Some,
        forall|i: int|
            0 <= i < named_claims(t, symbols).len() ==> !((#[trigger] named_claims(
                t,
                symbols,
            )[i]).symbol.file == t.id.file && t.enclosing_test_module is Some),
    decreases symbols.len(),
{
    if symbols.len() > 0 {
        lemma_apart(t, symbols.drop_last());
    }
}

proof fn lemma_test_single(t: TestItemView, symbols: Seq<SymbolView>)
    requires
        distinct_symbols(symbols),
    ensures
        single(claims_of_test(t, symbols)),
        forall|i: int|
            0 <= i < claims_of_test(t, symbols).len() ==> (#[trigger] claims_of_test(
                t,
                symbols,
            )[i]).test == t.id,
{
    lemma_lists_single(t, symbols);
    lemma_apart(t, symbols);
    let a = same_file_claims(t, symbols);
    let b = named_claims(t, symbols);
    let all = a + b;
    assert forall|i: int, j: int|
        #![trigger all[i], all[j]]
        0 <= i < j < all.len() implies !(all[i].test == all[j].test && all[i].symbol
        == all[j].symbol) by {
        if j < a.len() {
            assert(all[i] == a[i] && all[j] == a[j]);
        } else if i >= a.len() {
            assert(all[i] == b[i - a.len()] && all[j] == b[j - a.len()]);
        } else {
            assert(all[i] == a[i] && all[j] == b[j - a.len()]);
        }
    }
    assert forall|i: int| 0 <= i < all.len() implies (#[trigger] all[i]).test == t.id by {
        if i < a.len() {
            assert(all[i] == a[i]);
        } else {
            assert(all[i] == b[i - a.len()]);
        }
    }
}

proof fn lemma_claims_tests(tests: Seq<TestItemView>, scorable: Seq<SymbolView>)
    requires
        distinct_symbols(scorable),
        distinct_tests(tests),
    ensures
        single(claims_of_tests(tests, scorable)),
        forall|i: int|
            0 <= i < claims_of_tests(tests, scorable).len() ==> exists|k: int|
                0 <= k < tests.len() && (#[trigger] tests[k]).id == (
                #[trigger] claims_of_tests(tests, scorable)[i]).test,
    decreases tests.len(),
{
    if tests.len() > 0 {
        let front = tests.drop_last();
        assert forall|i: int, j: int|
            #![trigger front[i], front[j]]
            0 <= i < j < front.len() implies front[i].id != front[j].id by {
            assert(tests[i] == front[i] && tests[j] == front[j]);
        }
        lemma_claims_tests(front, scorable);
        let t = tests.last();
        lemma_test_single(t, scorable);
        let a = claims_of_tests(front, scorable);
        let b = claims_of_test(t, scorable);
        let all = a + b;
        assert forall|i: int| 0 <= i < a.len() implies (exists|k: int|
            0 <= k < tests.len() && (#[trigger] tests[k]).id == (#[trigger] a[i]).test)
            && a[i].test != t.id by {
            let k = choose|k: int| 0 <= k < front.len() && (#[trigger] front[k]).id == a[i].test;
            assert(tests[k] == front[k]);
            assert(tests[k].id != tests[tests.len() - 1].id);
        }
        assert forall|i: int, j: int|
            #![trigger all[i], all[j]]
            0 <= i < j < all.len() implies !(all[i].test == all[j].test && all[i].symbol
            == all[j].symbol) by {
            if j < a.len() {
                assert(all[i] == a[i] && all[j] == a[j]);
            } else if i >= a.len() {
                assert(all[i] == b[i - a.len()] && all[j] == b[j - a.len()]);
            } else {
                assert(all[i] == a[i] && all[j] == b[j - a.len()]);
            }
        }
        assert forall|i: int| 0 <= i < all.len() implies exists|k: int|
            0 <= k < tests.len() && (#[trigger] tests[k]).id == (#[trigger] all[i]).test by {
            if i < a.len() {
                assert(all[i] == a[i]);
            } else {
                assert(all[i] == b[i - a.len()]);
                assert(tests[tests.len() - 1].id == all[i].test);
            }
        }
    }
}

proof fn lemma_scorable_distinct(symbols: Seq<SymbolView>)
    requires
        distinct_symbols(symbols),
    ensures
        distinct_symbols(inventory::scorable_of(symbols)),
        forall|i: int|
            0 <= i < inventory::scorable_of(symbols).len() ==> symbols.contains(
                #[trigger] inventory::scorable_of(symbols)[i],
            ),
    decreases symbols.len(),
{
    if symbols.len() > 0 {
        let front = symbols.drop_last();
        assert forall|i: int, j: int|
            #![trigger front[i], front[j]]
            0 <= i < j < front.len() implies front[i].id != front[j].id by {
            assert(symbols[i] == front[i] && symbols[j] == front[j]);
        }
        lemma_scorable_distinct(front);
        let a = inventory::scorable_of(front);
        let all = inventory::scorable_of(symbols);
        assert forall|i: int| 0 <= i < a.len() implies symbols.contains(#[trigger] a[i]) && a[i].id
            != symbols.last().id by {
            let k = choose|k: int| 0 <= k < front.len() && front[k] == a[i];
            assert(symbols[k] == a[i]);
            assert(symbols[k].id != symbols[symbols.len() - 1].id);
        }
        assert(symbols.contains(symbols[symbols.len() - 1]));
        assert forall|i: int, j: int|
            #![trigger all[i], all[j]]
            0 <= i < j < all.len() implies all[i].id != all[j].id by {
            assert(all[i] == a[i]);
            if j < a.len() {
                assert(all[j] == a[j]);
            }
        }
        assert forall|i: int| 0 <= i < all.len() implies symbols.contains(#[trigger] all[i]) by {
            if i < a.len() {
                assert(all[i] == a[i]);
            }
        }
    }
}

/// Where identities are distinct, a test claims a symbol at most once.
pub proof fn law_claims_are_single(inv: InventoryView)
    requires
        distinct_symbols(inv.symbols),
        distinct_tests(inv.tests),
    ensures
        single(claims_in(inv)),
{
    lemma_scorable_distinct(inv.symbols);
    lemma_claims_tests(inv.tests, inventory::scorable_of(inv.symbols));
}

/// A claim of a list claims its symbol.
proof fn lemma_claimed(claims: Seq<ClaimView>, c: ClaimView)
    requires
        claims.contains(c),
    ensures
        is_claimed(claims, c.symbol, false),
        c.kind.direct() ==> is_claimed(claims, c.symbol, true),
{
    let k = choose|k: int| 0 <= k < claims.len() && claims[k] == c;
    assert(claims[k].symbol == c.symbol);
}

proof fn lemma_surface_complete(t: TestItemView, symbols: Seq<SymbolView>, s: SymbolView)
    requires
        symbols.contains(s),
        reaches(t, s),
    ensures
        exists|k: int|
            0 <= k < surface_claims(t, symbols).len() && (#[trigger] surface_claims(
                t,
                symbols,
            )[k]).symbol == s.id,
    decreases symbols.len(),
{
    let all = surface_claims(t, symbols);
    let k = choose|k: int| 0 <= k < symbols.len() && symbols[k] == s;
    let front = symbols.drop_last();
    if k < front.len() {
        assert(front[k] == s);
        lemma_surface_complete(t, front, s);
        let before = surface_claims(t, front);
        let j = choose|j: int| 0 <= j < before.len() && (#[trigger] before[j]).symbol == s.id;
        assert(all[j] == before[j]);
    } else {
        assert(all[all.len() - 1].symbol == s.id);
    }
}

proof fn lemma_same_file_complete(t: TestItemView, symbols: Seq<SymbolView>, s: SymbolView)
    requires
        t.enclosing_test_module is Some,
        symbols.contains(s),
        s.id.file == t.id.file,
    ensures
        same_file_claims(t, symbols).contains(
            ClaimView { test: t.id, symbol: s.id, kind: ClaimKind::SameFileTestModule },
        ),
    decreases symbols.len(),
{
    let c = ClaimView { test: t.id, symbol: s.id, kind: ClaimKind::SameFileTestModule };
    let all = same_file_claims(t, symbols);
    let k = choose|k: int| 0 <= k < symbols.len() && symbols[k] == s;
    let front = symbols.drop_last();
    if k < front.len() {
        assert(front[k] == s);
        lemma_same_file_complete(t, front, s);
        let before = same_file_claims(t, front);
        let j = choose|j: int| 0 <= j < before.len() && before[j] == c;
        assert(all[j] == c);
    } else {
        assert(all[all.len() - 1] == c);
    }
}

} // verus!
