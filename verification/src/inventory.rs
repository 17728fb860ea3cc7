//! Every testable symbol of a workspace, and every test that might speak for one.
//!
//! # Module paths without name resolution
//!
//! `mod` declarations are not resolved. A file's module path is read off its
//! location under `src/`, which is exactly what Rust's own convention encodes:
//! `src/parser/config.rs` is `parser::config`, `src/parser/mod.rs` is `parser`,
//! and `src/lib.rs` is the crate root. Inline `mod foo { .. }` blocks nest
//! further from there.
//!
//! A `.rs` file under `src/` that no `mod` declaration reaches still gets
//! inventoried. That is the safe direction to be wrong in for an audit, and the
//! symbol will simply report as unexecuted once coverage runs.

use vstd::prelude::*;
use crate::lint::Span;
use crate::lower;
use crate::order;
use crate::order::{Key, Ranked, Table};
use crate::symbol;
use crate::symbol::{
    LineSpan, ReturnShape, SelfKind, Symbol, SymbolId, SymbolIdView, SymbolKind, SymbolView,
    Triviality, Visibility,
};
use crate::syntax;
use crate::syntax::{
    Attr, AttrView, Body, BodyView, Definition, DefinitionView, Entry, EntryView, Expression,
    ExpressionView, Func, FuncView, Meta, MetaView, Param, ParamView, Shape, ShapeView, Sig, SigView,
    TraitFunc, TraitFuncView, Ty, TyShape, TyShapeView, TyView, Vis, VisView,
};
use crate::text;
use crate::text::Cut;

verus! {

/// Where a test lives, which decides how its claim is derived.
#[derive(Clone, Copy, Debug, PartialEq, Eq, Structural)]
pub enum TestKind {
    /// `#[test]` inside the crate, conventionally in a `#[cfg(test)] mod tests`.
    Unit,
    /// A `#[test]` in `tests/`, compiled as a separate binary against the public API.
    Integration,
    /// A fenced example in a doc comment. Attribution is exact and free: the
    /// doctest is lexically attached to the item it documents.
    Doctest,
}

/// How a test is addressed. `path` is written to match what the test runner
/// lists, so attribution can join on it without a fuzzy match.
#[derive(Clone, Debug, PartialEq, Eq, PartialOrd, Ord)]
pub struct TestId {
    /// Source file, relative to the workspace root.
    pub file: String,
    /// 1-based line of the test function's name.
    pub line: u32,
    /// e.g. `mycrate::config::tests::rejects_empty_host`
    pub path: String,
}

/// How a test is addressed, as a mathematical value.
#[verifier::ext_equal]
pub struct TestIdView {
    pub file: Seq<char>,
    pub line: u32,
    pub path: Seq<char>,
}

impl View for TestId {
    type V = TestIdView;

    open spec fn view(&self) -> TestIdView {
        TestIdView { file: self.file@, line: self.line, path: self.path@ }
    }
}

impl Key for TestId {
    open spec fn precedes(a: TestIdView, b: TestIdView) -> bool {
        text::earlier(a.file, b.file) || (a.file == b.file && (a.line < b.line || (a.line == b.line
            && text::earlier(a.path, b.path))))
    }

    proof fn lt_irreflexive(a: TestIdView) {
        text::lemma_earlier_irreflexive(a.file);
        text::lemma_earlier_irreflexive(a.path);
    }

    proof fn lt_transitive(a: TestIdView, b: TestIdView, c: TestIdView) {
        if text::earlier(a.file, b.file) && text::earlier(b.file, c.file) {
            text::lemma_earlier_transitive(a.file, b.file, c.file);
        }
        if text::earlier(a.path, b.path) && text::earlier(b.path, c.path) {
            text::lemma_earlier_transitive(a.path, b.path, c.path);
        }
    }

    proof fn lt_total(a: TestIdView, b: TestIdView) {
        text::lemma_earlier_total(a.file, b.file);
        text::lemma_earlier_total(a.path, b.path);
        if a.file == b.file && a.line == b.line && a.path == b.path {
            assert(a =~= b);
        }
    }

    fn before(&self, other: &Self) -> bool {
        if text::comes_before(self.file.as_str(), other.file.as_str()) {
            return true;
        }
        if !text::same(self.file.as_str(), other.file.as_str()) {
            return false;
        }
        self.line < other.line || (self.line == other.line && text::comes_before(
            self.path.as_str(),
            other.path.as_str(),
        ))
    }

    fn same(&self, other: &Self) -> bool {
        let r = text::same(self.file.as_str(), other.file.as_str()) && self.line == other.line
            && text::same(self.path.as_str(), other.path.as_str());
        assert(r ==> self@ =~= other@);
        r
    }

    fn copy(&self) -> Self {
        TestId { file: self.file.clone(), line: self.line, path: self.path.clone() }
    }
}

/// Whether a `#[should_panic]` attribute names the panic it expects.
#[derive(Clone, Copy, Debug, PartialEq, Eq, Structural)]
pub enum ShouldPanic {
    /// `#[should_panic]` with no `expected = "..."`. Passes on *any* panic,
    /// including one raised by an unrelated bug on the way to the code under test.
    Unqualified,
    /// `#[should_panic(expected = "...")]`. A real, if coarse, oracle.
    Qualified,
}

/// One test, and everything needed to judge its oracles.
pub struct TestItem {
    /// How the test is addressed.
    pub id: TestId,
    /// Unit, integration, or doctest.
    pub kind: TestKind,
    /// Full extent of the test function.
    pub span: LineSpan,
    /// Where the test function's name stands.
    pub name_span: Span,
    /// `#[ignore]`: it does not run in a default `cargo test`.
    pub is_ignored: bool,
    /// `async fn`, so it needs a runtime attribute to execute.
    pub is_async: bool,
    /// The `#[should_panic]` attribute, if present, and whether it is qualified.
    pub should_panic: Option<ShouldPanic>,
    /// Module path of the enclosing `#[cfg(test)] mod`, when there is one. This
    /// is the claim edge Rust gives for free: a test module lives *inside* the
    /// file whose symbols it speaks for.
    pub enclosing_test_module: Option<String>,
    /// For `Doctest`, the symbol the example is attached to. An exact claim.
    pub doctest_target: Option<SymbolId>,
    /// The body, for the oracle lint. `None` where it could not be read.
    pub body: Option<Body>,
}

/// One test, as a mathematical value.
#[verifier::ext_equal]
pub struct TestItemView {
    pub id: TestIdView,
    pub kind: TestKind,
    pub span: LineSpan,
    pub name_span: Span,
    pub is_ignored: bool,
    pub is_async: bool,
    pub should_panic: Option<ShouldPanic>,
    pub enclosing_test_module: Option<Seq<char>>,
    pub doctest_target: Option<SymbolIdView>,
    pub body: Option<BodyView>,
}

/// The view of an optional symbol identity.
pub open spec fn option_symbol(id: Option<SymbolId>) -> Option<SymbolIdView> {
    match id {
        Some(id) => Some(id@),
        None => None,
    }
}

impl View for TestItem {
    type V = TestItemView;

    open spec fn view(&self) -> TestItemView {
        TestItemView {
            id: self.id@,
            kind: self.kind,
            span: self.span,
            name_span: self.name_span,
            is_ignored: self.is_ignored,
            is_async: self.is_async,
            should_panic: self.should_panic,
            enclosing_test_module: text::option_text(self.enclosing_test_module),
            doctest_target: option_symbol(self.doctest_target),
            body: syntax::option_body(self.body),
        }
    }
}

impl Ranked for TestItem {
    open spec fn ranks(a: TestItemView, b: TestItemView) -> bool {
        !TestId::precedes(b.id, a.id)
    }

    proof fn le_total(a: TestItemView, b: TestItemView) {
        order::lemma_not_after_total::<TestId>(a.id, b.id);
    }

    proof fn le_transitive(a: TestItemView, b: TestItemView, c: TestItemView) {
        order::lemma_not_after_transitive::<TestId>(a.id, b.id, c.id);
    }

    fn may_precede(&self, other: &Self) -> bool {
        !other.id.before(&self.id)
    }
}

/// Every symbol and test in a workspace.
pub struct Inventory {
    /// Absolute workspace root. Coverage reports use absolute paths; symbol
    /// identities are relative to this, so the join needs it.
    pub root: String,
    /// Testable symbols, sorted by definition site.
    pub symbols: Vec<Symbol>,
    /// Tests, including doctests, sorted by definition site.
    pub tests: Vec<TestItem>,
    /// Source files parsed, relative to the workspace root.
    pub files: Vec<String>,
    /// Files that failed to parse, with the reason. Reported rather than
    /// swallowed: a crate that cannot be parsed is a crate that cannot be audited.
    pub parse_failures: Table<String, String>,
}

/// Every symbol and test in a workspace, as a mathematical value.
#[verifier::ext_equal]
pub struct InventoryView {
    pub root: Seq<char>,
    pub symbols: Seq<SymbolView>,
    pub tests: Seq<TestItemView>,
    pub files: Seq<Seq<char>>,
    pub parse_failures: Seq<(Seq<char>, Seq<char>)>,
}

/// The entries of a table of texts.
pub open spec fn text_entries(s: Seq<(Seq<char>, String)>) -> Seq<(Seq<char>, Seq<char>)> {
    s.map_values(|e: (Seq<char>, String)| (e.0, e.1@))
}

impl View for Inventory {
    type V = InventoryView;

    open spec fn view(&self) -> InventoryView {
        InventoryView {
            root: self.root@,
            symbols: order::views(self.symbols@),
            tests: order::views(self.tests@),
            files: text::texts(self.files@),
            parse_failures: text_entries(self.parse_failures@),
        }
    }
}

/// The first symbol of a list with the given identity.
pub open spec fn symbol_with(symbols: Seq<SymbolView>, id: SymbolIdView) -> Option<SymbolView>
    decreases symbols.len(),
{
    if symbols.len() == 0 {
        None
    } else {
        match symbol_with(symbols.drop_last(), id) {
            Some(s) => Some(s),
            None => if symbols.last().id == id {
                Some(symbols.last())
            } else {
                None
            },
        }
    }
}

/// The symbols of a list that are worth scoring.
pub open spec fn scorable_of(symbols: Seq<SymbolView>) -> Seq<SymbolView>
    decreases symbols.len(),
{
    if symbols.len() == 0 {
        Seq::empty()
    } else if symbols.last().scorable() {
        scorable_of(symbols.drop_last()).push(symbols.last())
    } else {
        scorable_of(symbols.drop_last())
    }
}

/// The views of a list of borrowed symbols.
pub open spec fn symbol_views(symbols: Seq<&Symbol>) -> Seq<SymbolView> {
    symbols.map_values(|s: &Symbol| s@)
}

impl Inventory {
    /// An inventory of nothing.
    pub fn new() -> (r: Self)
        ensures
            r.parse_failures.wf(),
            r@ == (InventoryView {
                root: Seq::empty(),
                symbols: Seq::empty(),
                tests: Seq::empty(),
                files: Seq::empty(),
                parse_failures: Seq::empty(),
            }),
    {
        Inventory {
            root: String::new(),
            symbols: Vec::new(),
            tests: Vec::new(),
            files: Vec::new(),
            parse_failures: Table::new(),
        }
    }

    /// Looks up a symbol by its identity.
    pub fn symbol(&self, id: &SymbolId) -> (r: Option<&Symbol>)
        ensures
            match r {
                Some(s) => symbol_with(self@.symbols, id@) == Some(s@),
                None => symbol_with(self@.symbols, id@) is None,
            },
    {
        let ghost all = self@.symbols;
        let mut i: usize = 0;
        while i < self.symbols.len()
            invariant
                i <= self.symbols@.len(),
                all == self@.symbols,
                symbol_with(all.take(i as int), id@) is None,
            decreases self.symbols@.len() - i,
        {
            assert(all.take(i as int + 1).drop_last() =~= all.take(i as int));
            assert(all[i as int] == self.symbols@[i as int]@);
            if self.symbols[i].id.same(id) {
                proof {
                    lemma_symbol_with_prefix(all, id@, i as int + 1);
                }
                return Some(&self.symbols[i]);
            }
            i += 1;
        }
        assert(all.take(all.len() as int) =~= all);
        None
    }

    /// Symbols worth scoring: real logic, not accessors or empty bodies.
    pub fn scorable(&self) -> (r: Vec<&Symbol>)
        ensures
            symbol_views(r@) == scorable_of(self@.symbols),
    {
        let ghost all = self@.symbols;
        let mut out: Vec<&Symbol> = Vec::new();
        let mut i: usize = 0;
        while i < self.symbols.len()
            invariant
                i <= self.symbols@.len(),
                all == self@.symbols,
                symbol_views(out@) == scorable_of(all.take(i as int)),
            decreases self.symbols@.len() - i,
        {
            let ghost before = symbol_views(out@);
            assert(all.take(i as int + 1).drop_last() =~= all.take(i as int));
            assert(all[i as int] == self.symbols@[i as int]@);
            if self.symbols[i].triviality.is_scorable() {
                out.push(&self.symbols[i]);
                assert(symbol_views(out@) =~= before.push(all[i as int]));
            }
            i += 1;
        }
        assert(all.take(all.len() as int) =~= all);
        out
    }
}

/// The innermost of the symbols of a file around a line: the one with the fewest
/// lines, and the first of those.
pub open spec fn innermost_of(symbols: Seq<SymbolView>, file: Seq<char>, line: u32) -> Option<
    SymbolView,
>
    decreases symbols.len(),
{
    if symbols.len() == 0 {
        None
    } else {
        let s = symbols.last();
        let before = innermost_of(symbols.drop_last(), file, line);
        if s.id.file == file && s.span.covers(line) && (before is None || s.span.extent()
            < before->0.span.extent()) {
            Some(s)
        } else {
            before
        }
    }
}

/// Finds the innermost symbol around a line.
pub fn innermost<'a>(symbols: &'a Vec<Symbol>, file: &str, line: u32) -> (r: Option<&'a Symbol>)
    ensures
        match r {
            Some(s) => innermost_of(order::views(symbols@), file@, line) == Some(s@),
            None => innermost_of(order::views(symbols@), file@, line) is None,
        },
{
    let ghost all = order::views(symbols@);
    let mut found: Option<&'a Symbol> = None;
    let mut i: usize = 0;
    while i < symbols.len()
        invariant
            i <= symbols@.len(),
            all == order::views(symbols@),
            match found {
                Some(s) => innermost_of(all.take(i as int), file@, line) == Some(s@),
                None => innermost_of(all.take(i as int), file@, line) is None,
            },
        decreases symbols@.len() - i,
    {
        assert(all.take(i as int + 1).drop_last() =~= all.take(i as int));
        assert(all[i as int] == symbols@[i as int]@);
        let s = &symbols[i];
        if text::same(s.id.file.as_str(), file) && s.span.contains(line) {
            let closer = match found {
                Some(b) => s.span.size() < b.span.size(),
                None => true,
            };
            if closer {
                found = Some(s);
            }
        }
        i += 1;
    }
    assert(all.take(all.len() as int) =~= all);
    found
}

/// The innermost symbol around a line is one of the file's around it, and no
/// other is smaller; there is none exactly when nothing is around the line.
pub proof fn law_innermost(symbols: Seq<SymbolView>, file: Seq<char>, line: u32)
    ensures
        match innermost_of(symbols, file, line) {
            Some(s) => {
                &&& symbols.contains(s)
                &&& s.id.file == file
                &&& s.span.covers(line)
                &&& forall|i: int|
                    0 <= i < symbols.len() && (#[trigger] symbols[i]).id.file == file
                        && symbols[i].span.covers(line) ==> s.span.extent()
                        <= symbols[i].span.extent()
            },
            None => forall|i: int|
                0 <= i < symbols.len() ==> !((#[trigger] symbols[i]).id.file == file
                    && symbols[i].span.covers(line)),
        },
    decreases symbols.len(),
{
    if symbols.len() > 0 {
        let front = symbols.drop_last();
        law_innermost(front, file, line);
        let s = innermost_of(symbols, file, line);
        if s is Some {
            if s->0 == symbols.last() {
                assert(symbols[symbols.len() - 1] == s->0);
            } else {
                let k = choose|k: int| 0 <= k < front.len() && front[k] == s->0;
                assert(symbols[k] == s->0);
            }
            assert forall|i: int|
                0 <= i < symbols.len() && (#[trigger] symbols[i]).id.file == file
                    && symbols[i].span.covers(line) implies s->0.span.extent()
                <= symbols[i].span.extent() by {
                if i < front.len() {
                    assert(front[i] == symbols[i]);
                }
            }
        } else {
            assert forall|i: int| 0 <= i < symbols.len() implies !((#[trigger] symbols[i]).id.file
                == file && symbols[i].span.covers(line)) by {
                if i < front.len() {
                    assert(front[i] == symbols[i]);
                }
            }
        }
    }
}

/// A symbol found in the front of a list is the one found in the list.
proof fn lemma_symbol_with_prefix(symbols: Seq<SymbolView>, id: SymbolIdView, n: int)
    requires
        0 <= n <= symbols.len(),
        symbol_with(symbols.take(n), id) is Some,
    ensures
        symbol_with(symbols, id) == symbol_with(symbols.take(n), id),
    decreases symbols.len() - n,
{
    if n == symbols.len() {
        assert(symbols.take(n) =~= symbols);
    } else {
        assert(symbols.take(n + 1).drop_last() =~= symbols.take(n));
        lemma_symbol_with_prefix(symbols, id, n + 1);
    }
}

// ---------------------------------------------------------------------------
// Attribute and signature inspection
// ---------------------------------------------------------------------------

/// `s` is the last path segment of a test attribute.
pub open spec fn is_harness(s: Seq<char>) -> bool {
    ||| s == "test"@
    ||| s == "rstest"@
    ||| s == "test_case"@
    ||| s == "proptest"@
    ||| s == "quickcheck"@
    ||| s == "bench"@
}

fn harness(s: &str) -> (r: bool)
    ensures
        r == is_harness(s@),
{
    text::same(s, "test") || text::same(s, "rstest") || text::same(s, "test_case") || text::same(
        s,
        "proptest",
    ) || text::same(s, "quickcheck") || text::same(s, "bench")
}

/// An attribute that marks a test.
pub open spec fn marks_test(a: AttrView) -> bool {
    a.last is Some && is_harness(a.last->0)
}

/// The attributes mark a test.
pub open spec fn mark_test(attrs: Seq<AttrView>) -> bool {
    exists|i: int| 0 <= i < attrs.len() && marks_test(#[trigger] attrs[i])
}

/// `#[test]`, `#[tokio::test]`, `#[rstest]`, and anything whose final path
/// segment names a test harness.
pub fn attrs_mark_test(attrs: &Vec<Attr>) -> (r: bool)
    ensures
        r == mark_test(syntax::attr_views(attrs@)),
{
    let ghost all = syntax::attr_views(attrs@);
    let mut i: usize = 0;
    while i < attrs.len()
        invariant
            i <= attrs@.len(),
            all == syntax::attr_views(attrs@),
            forall|k: int| 0 <= k < i ==> !marks_test(#[trigger] all[k]),
        decreases attrs@.len() - i,
    {
        assert(all[i as int] == attrs@[i as int]@);
        let marks = match &attrs[i].last {
            Some(last) => harness(last.as_str()),
            None => false,
        };
        if marks {
            return true;
        }
        i += 1;
    }
    false
}

/// Whether a list of entries names `test`, itself or one level inside `all` or
/// `any`. Parentheses behind any other name end the list.
pub open spec fn entries_name_test(entries: Seq<EntryView>) -> bool
    decreases entries.len(),
{
    if entries.len() == 0 {
        false
    } else if entries[0].name == Some("test"@) {
        true
    } else if entries[0].name == Some("all"@) || entries[0].name == Some("any"@) {
        entries[0].inner.contains(Some("test"@)) || entries_name_test(entries.skip(1))
    } else {
        !entries[0].grouped && entries_name_test(entries.skip(1))
    }
}

fn inner_names_test(inner: &Vec<Option<String>>) -> (r: bool)
    ensures
        r == inner@.map_values(|n: Option<String>| text::option_text(n)).contains(Some("test"@)),
{
    let ghost all = inner@.map_values(|n: Option<String>| text::option_text(n));
    let mut i: usize = 0;
    while i < inner.len()
        invariant
            i <= inner@.len(),
            all == inner@.map_values(|n: Option<String>| text::option_text(n)),
            forall|k: int| 0 <= k < i ==> (#[trigger] all[k]) != Some("test"@),
        decreases inner@.len() - i,
    {
        assert(all[i as int] == text::option_text(inner@[i as int]));
        if text::option_is(&inner[i], "test") {
            return true;
        }
        i += 1;
    }
    false
}

/// An attribute that compiles an item for tests only.
pub open spec fn is_cfg_test(a: AttrView) -> bool {
    a.name == Some("cfg"@) && match a.meta {
        MetaView::List(_, entries) => entries_name_test(entries),
        _ => false,
    }
}

fn list_names_test(entries: &Vec<Entry>) -> (r: bool)
    ensures
        r == entries_name_test(entries@.map_values(|e: Entry| e@)),
{
    let ghost all = entries@.map_values(|e: Entry| e@);
    let mut i: usize = 0;
    assert(all.skip(0) =~= all);
    while i < entries.len()
        invariant
            i <= entries@.len(),
            all == entries@.map_values(|e: Entry| e@),
            entries_name_test(all) == entries_name_test(all.skip(i as int)),
        decreases entries@.len() - i,
    {
        assert(all.skip(i as int)[0] == entries@[i as int]@);
        assert(all.skip(i as int).skip(1) =~= all.skip(i + 1));
        let entry = &entries[i];
        if text::option_is(&entry.name, "test") {
            return true;
        }
        if text::option_is(&entry.name, "all") || text::option_is(&entry.name, "any") {
            if inner_names_test(&entry.inner) {
                return true;
            }
        } else if entry.grouped {
            return false;
        }
        i += 1;
    }
    false
}

fn cfg_test(a: &Attr) -> (r: bool)
    ensures
        r == is_cfg_test(a@),
{
    if !text::option_is(&a.name, "cfg") {
        return false;
    }
    match &a.meta {
        Meta::List(_, entries) => list_names_test(entries),
        _ => false,
    }
}

/// The attributes compile an item for tests only.
pub open spec fn have_cfg_test(attrs: Seq<AttrView>) -> bool {
    exists|i: int| 0 <= i < attrs.len() && is_cfg_test(#[trigger] attrs[i])
}

/// `#[cfg(test)]`, and one level of `#[cfg(all(test, ..))]`.
pub fn attrs_have_cfg_test(attrs: &Vec<Attr>) -> (r: bool)
    ensures
        r == have_cfg_test(syntax::attr_views(attrs@)),
{
    let ghost all = syntax::attr_views(attrs@);
    let mut i: usize = 0;
    while i < attrs.len()
        invariant
            i <= attrs@.len(),
            all == syntax::attr_views(attrs@),
            forall|k: int| 0 <= k < i ==> !is_cfg_test(#[trigger] all[k]),
        decreases attrs@.len() - i,
    {
        assert(all[i as int] == attrs@[i as int]@);
        if cfg_test(&attrs[i]) {
            return true;
        }
        i += 1;
    }
    false
}

/// The first attribute of a list with the given name.
pub open spec fn attr_named(attrs: Seq<AttrView>, name: Seq<char>) -> Option<AttrView>
    decreases attrs.len(),
{
    if attrs.len() == 0 {
        None
    } else if attrs[0].name == Some(name) {
        Some(attrs[0])
    } else {
        attr_named(attrs.skip(1), name)
    }
}

fn find_attr<'a>(attrs: &'a Vec<Attr>, name: &str) -> (r: Option<&'a Attr>)
    ensures
        match r {
            Some(a) => attr_named(syntax::attr_views(attrs@), name@) == Some(a@),
            None => attr_named(syntax::attr_views(attrs@), name@) is None,
        },
{
    let ghost all = syntax::attr_views(attrs@);
    let mut i: usize = 0;
    assert(all.skip(0) =~= all);
    while i < attrs.len()
        invariant
            i <= attrs@.len(),
            all == syntax::attr_views(attrs@),
            attr_named(all, name@) == attr_named(all.skip(i as int), name@),
        decreases attrs@.len() - i,
    {
        assert(all.skip(i as int)[0] == attrs@[i as int]@);
        assert(all.skip(i as int).skip(1) =~= all.skip(i + 1));
        if text::option_is(&attrs[i].name, name) {
            return Some(&attrs[i]);
        }
        i += 1;
    }
    None
}

/// What the attributes say about a panic: it is named where the first
/// `#[should_panic]` has a list that mentions `expected`.
pub open spec fn panic_expectation(attrs: Seq<AttrView>) -> Option<ShouldPanic> {
    match attr_named(attrs, "should_panic"@) {
        Some(a) => match a.meta {
            MetaView::List(tokens, _) if text::has(tokens, "expected"@) => Some(
                ShouldPanic::Qualified,
            ),
            _ => Some(ShouldPanic::Unqualified),
        },
        None => None,
    }
}

/// Reads the `#[should_panic]` attribute.
pub fn should_panic_of(attrs: &Vec<Attr>) -> (r: Option<ShouldPanic>)
    ensures
        r == panic_expectation(syntax::attr_views(attrs@)),
{
    match find_attr(attrs, "should_panic") {
        Some(a) => {
            let qualified = match &a.meta {
                Meta::List(tokens, _) => text::contains(tokens.as_str(), "expected"),
                _ => false,
            };
            if qualified {
                Some(ShouldPanic::Qualified)
            } else {
                Some(ShouldPanic::Unqualified)
            }
        },
        None => None,
    }
}

/// The symbol visibility of what is written.
pub open spec fn visibility_as(vis: VisView) -> Visibility {
    match vis {
        VisView::Public => Visibility::Public,
        VisView::Restricted(path) => if path == Some("crate"@) {
            Visibility::Crate
        } else {
            Visibility::Private
        },
        VisView::Inherited => Visibility::Private,
    }
}

/// Reads a visibility.
pub fn visibility_of(vis: &Vis) -> (r: Visibility)
    ensures
        r == visibility_as(vis@),
{
    match vis {
        Vis::Public => Visibility::Public,
        Vis::Restricted(path) => if text::option_is(path, "crate") {
            Visibility::Crate
        } else {
            Visibility::Private
        },
        Vis::Inherited => Visibility::Private,
    }
}

/// How a signature takes its receiver.
pub open spec fn self_kind_as(sig: SigView) -> SelfKind {
    if sig.params.len() == 0 {
        SelfKind::NoSelf
    } else {
        match sig.params[0] {
            ParamView::Receiver(true, true) => SelfKind::RefMut,
            ParamView::Receiver(true, false) => SelfKind::Ref,
            ParamView::Receiver(false, _) => SelfKind::Value,
            ParamView::Typed(_) => SelfKind::NoSelf,
        }
    }
}

/// Reads the receiver off a signature.
pub fn self_kind_of(sig: &Sig) -> (r: SelfKind)
    ensures
        r == self_kind_as(sig@),
{
    if sig.params.len() == 0 {
        return SelfKind::NoSelf;
    }
    assert(sig@.params[0] == sig.params@[0]@);
    match &sig.params[0] {
        Param::Receiver(reference, mutable) => {
            if *reference {
                if *mutable {
                    SelfKind::RefMut
                } else {
                    SelfKind::Ref
                }
            } else {
                SelfKind::Value
            }
        },
        Param::Typed(_) => SelfKind::NoSelf,
    }
}

/// The shape of a return type.
pub open spec fn return_shape_as(output: Option<TyView>) -> ReturnShape {
    match output {
        None => ReturnShape::Unit,
        Some(ty) => match ty.shape {
            TyShapeView::Never => ReturnShape::Never,
            TyShapeView::Tuple(n) => if n == 0 {
                ReturnShape::Unit
            } else {
                ReturnShape::Value
            },
            TyShapeView::ImplTrait => ReturnShape::ImplTrait,
            TyShapeView::Path(last, _) => if last == Some("Result"@) {
                ReturnShape::ResultLike
            } else if last == Some("Option"@) {
                ReturnShape::OptionLike
            } else {
                ReturnShape::Value
            },
            _ => ReturnShape::Value,
        },
    }
}

/// Reads the shape of a return type.
pub fn return_shape_of(output: &Option<Ty>) -> (r: ReturnShape)
    ensures
        r == return_shape_as(syntax::option_ty(*output)),
{
    match output {
        None => ReturnShape::Unit,
        Some(ty) => match &ty.shape {
            TyShape::Never => ReturnShape::Never,
            TyShape::Tuple(n) => if *n == 0 {
                ReturnShape::Unit
            } else {
                ReturnShape::Value
            },
            TyShape::ImplTrait => ReturnShape::ImplTrait,
            TyShape::Path(last, _) => if text::option_is(last, "Result") {
                ReturnShape::ResultLike
            } else if text::option_is(last, "Option") {
                ReturnShape::OptionLike
            } else {
                ReturnShape::Value
            },
            _ => ReturnShape::Value,
        },
    }
}

/// A `&mut` parameter other than the receiver.
pub open spec fn is_mut_param(p: ParamView) -> bool {
    match p {
        ParamView::Typed(ty) => ty.shape == TyShapeView::Reference(true),
        ParamView::Receiver(_, _) => false,
    }
}

/// Whether a type is `&mut`.
pub fn is_mut_ref(ty: &Ty) -> (r: bool)
    ensures
        r == (ty@.shape == TyShapeView::Reference(true)),
{
    match &ty.shape {
        TyShape::Reference(mutable) => *mutable,
        _ => false,
    }
}

/// A parameter other than the receiver is `&mut`.
pub open spec fn takes_mut(sig: SigView) -> bool {
    exists|i: int| 0 <= i < sig.params.len() && is_mut_param(#[trigger] sig.params[i])
}

/// Whether any parameter but the receiver is `&mut`.
pub fn has_mut_param(sig: &Sig) -> (r: bool)
    ensures
        r == takes_mut(sig@),
{
    let mut i: usize = 0;
    while i < sig.params.len()
        invariant
            i <= sig.params@.len(),
            forall|k: int| 0 <= k < i ==> !is_mut_param(#[trigger] sig@.params[k]),
        decreases sig.params@.len() - i,
    {
        assert(sig@.params[i as int] == sig.params@[i as int]@);
        let mutable = match &sig.params[i] {
            Param::Typed(ty) => is_mut_ref(ty),
            Param::Receiver(_, _) => false,
        };
        if mutable {
            return true;
        }
        i += 1;
    }
    false
}

/// A type as it is written in a symbol's path: the last segment of a path, or
/// the tokens without blanks.
pub open spec fn written_type(ty: TyView) -> Seq<char> {
    match ty.shape {
        TyShapeView::Path(Some(last), _) => last,
        TyShapeView::Path(None, _) => "_"@,
        _ => text::replaced(ty.text, " "@, ""@),
    }
}

/// Removes every blank of a text.
fn without_blanks(s: &str) -> (r: String)
    ensures
        r@ == text::replaced(s@, " "@, ""@),
{
    proof {
        reveal_strlit(" ");
    }
    text::replace(s, " ", "")
}

/// Renders a type.
pub fn render_type(ty: &Ty) -> (r: String)
    ensures
        r@ == written_type(ty@),
{
    match &ty.shape {
        TyShape::Path(Some(last), _) => last.clone(),
        TyShape::Path(None, _) => text::owned("_"),
        _ => without_blanks(ty.text.as_str()),
    }
}

/// A method that hands on what it was called on.
pub open spec fn is_passthrough(s: Seq<char>) -> bool {
    ||| s == "clone"@
    ||| s == "to_string"@
    ||| s == "to_owned"@
    ||| s == "as_str"@
    ||| s == "as_ref"@
    ||| s == "as_slice"@
    ||| s == "to_vec"@
    ||| s == "into"@
    ||| s == "iter"@
    ||| s == "len"@
    ||| s == "is_empty"@
    ||| s == "borrow"@
    ||| s == "deref"@
    ||| s == "copied"@
    ||| s == "cloned"@
}

fn passthrough(s: &str) -> (r: bool)
    ensures
        r == is_passthrough(s@),
{
    text::same(s, "clone") || text::same(s, "to_string") || text::same(s, "to_owned") || text::same(
        s,
        "as_str",
    ) || text::same(s, "as_ref") || text::same(s, "as_slice") || text::same(s, "to_vec")
        || text::same(s, "into") || text::same(s, "iter") || text::same(s, "len") || text::same(
        s,
        "is_empty",
    ) || text::same(s, "borrow") || text::same(s, "deref") || text::same(s, "copied") || text::same(
        s,
        "cloned",
    )
}

/// An expression that carries no behaviour: a literal, `()`, a field of `self`,
/// a reference to such an expression, or a pass-through method called on one.
pub open spec fn accesses(e: ExpressionView) -> bool
    decreases e,
{
    match e.shape {
        ShapeView::Literal => true,
        ShapeView::Tuple(n) => n == 0,
        ShapeView::Field(base) => base.shape == ShapeView::Path(Some("self"@)),
        ShapeView::Reference(inner) => accesses(*inner),
        ShapeView::MethodCall(receiver, method, n) => is_passthrough(method) && n == 0 && accesses(
            *receiver,
        ),
        _ => false,
    }
}

/// Whether an expression carries no behaviour.
pub fn is_accessor_expr(e: &Expression) -> (r: bool)
    ensures
        r == accesses(e@),
    decreases e,
{
    proof {
        reveal_with_fuel(Expression::model, 2);
    }
    match &e.shape {
        Shape::Literal => true,
        Shape::Tuple(n) => *n == 0,
        Shape::Field(base) => match &base.shape {
            Shape::Path(name) => text::option_is(name, "self"),
            _ => false,
        },
        Shape::Reference(inner) => is_accessor_expr(inner),
        Shape::MethodCall(receiver, method, n) => passthrough(method.as_str()) && *n == 0
            && is_accessor_expr(receiver),
        _ => false,
    }
}

/// The expression `()`.
pub open spec fn is_unit(e: ExpressionView) -> bool {
    e.shape == ShapeView::Tuple(0)
}

/// Whether a body carries enough behaviour to be worth destroying: not where it is
/// empty or `()` alone, nor where it is an accessor.
pub open spec fn triviality_as(body: BodyView) -> Triviality {
    if body.statements == 0 {
        Triviality::Empty
    } else if body.statements == 1 && body.first is Some && is_unit(body.first->0) {
        Triviality::Empty
    } else if body.statements == 1 && body.first is Some && accesses(body.first->0) {
        Triviality::Accessor
    } else {
        Triviality::Normal
    }
}

fn unit(e: &Expression) -> (r: bool)
    ensures
        r == is_unit(e@),
{
    match &e.shape {
        Shape::Tuple(n) => *n == 0,
        _ => false,
    }
}

/// Classifies bodies that carry no behaviour worth destroying.
pub fn triviality_of(body: &Body) -> (r: Triviality)
    ensures
        r == triviality_as(body@),
{
    if body.statements == 0 {
        return Triviality::Empty;
    }
    if body.statements > 1 {
        return Triviality::Normal;
    }
    match &body.first {
        Some(e) => if unit(e) {
            Triviality::Empty
        } else if is_accessor_expr(e) {
            Triviality::Accessor
        } else {
            Triviality::Normal
        },
        None => Triviality::Normal,
    }
}

/// A return type that wraps `()`, as `Result<(), E>` and `Option<()>` do.
pub open spec fn unit_wrapper(output: Option<TyView>) -> bool {
    match output {
        Some(ty) => match ty.shape {
            TyShapeView::Path(last, Some(argument)) => (last == Some("Result"@) || last == Some(
                "Option"@,
            )) && argument.shape == TyShapeView::Tuple(0),
            _ => false,
        },
        None => false,
    }
}

/// Whether a return type wraps `()`.
///
/// Such a success case carries no payload, so a check of its discriminant alone
/// looks at everything there is.
pub fn wraps_unit(output: &Option<Ty>) -> (r: bool)
    ensures
        r == unit_wrapper(syntax::option_ty(*output)),
{
    proof {
        reveal_with_fuel(Ty::model, 2);
    }
    match output {
        Some(ty) => match &ty.shape {
            TyShape::Path(last, Some(argument)) => (text::option_is(last, "Result")
                || text::option_is(last, "Option")) && match &argument.shape {
                TyShape::Tuple(n) => *n == 0,
                _ => false,
            },
            _ => false,
        },
        None => false,
    }
}

// ---------------------------------------------------------------------------
// Doctests
// ---------------------------------------------------------------------------

/// The documentation that attributes hold: the contents of each `#[doc = ".."]`,
/// each ended by a line feed.
pub open spec fn doc_of(attrs: Seq<AttrView>) -> Seq<char>
    decreases attrs.len(),
{
    if attrs.len() == 0 {
        Seq::empty()
    } else {
        let before = doc_of(attrs.drop_last());
        match attrs.last().meta {
            MetaView::Value(Some(s)) if attrs.last().name == Some("doc"@) => (before + s).push(
                '\n',
            ),
            _ => before,
        }
    }
}

fn doc_text(attrs: &Vec<Attr>) -> (r: String)
    ensures
        r@ == doc_of(syntax::attr_views(attrs@)),
{
    let ghost all = syntax::attr_views(attrs@);
    let mut out = String::new();
    let mut i: usize = 0;
    while i < attrs.len()
        invariant
            i <= attrs@.len(),
            all == syntax::attr_views(attrs@),
            out@ == doc_of(all.take(i as int)),
        decreases attrs@.len() - i,
    {
        assert(all.take(i as int + 1).drop_last() =~= all.take(i as int));
        assert(all[i as int] == attrs@[i as int]@);
        if text::option_is(&attrs[i].name, "doc") {
            if let Meta::Value(Some(s)) = &attrs[i].meta {
                out.append(s.as_str());
                out.push('\n');
            }
        }
        i += 1;
    }
    assert(all.take(all.len() as int) =~= all);
    out
}

/// Cut at commas and white space.
pub struct AtCommaOrSpace;

impl Cut for AtCommaOrSpace {
    open spec fn cuts(c: char) -> bool {
        c == ',' || text::is_space(c)
    }

    fn cut(c: char) -> bool {
        c == ',' || text::space(c)
    }
}

/// The number of a compiler error, which a fence can name: `e` and four digits.
pub open spec fn is_error_code(word: Seq<char>) -> bool {
    &&& word.len() == 5
    &&& word[0] == 'e'
    &&& forall|i: int| 1 <= i < 5 ==> 0x30 <= #[trigger] word[i] as u32 <= 0x39
}

/// A word of an info string that leaves the block to be compiled. Any other word
/// names another language.
pub open spec fn is_rust_tag(word: Seq<char>) -> bool {
    ||| word == "rust"@
    ||| word == "should_panic"@
    ||| word == "no_run"@
    ||| word == "compile_fail"@
    ||| word == "test_harness"@
    ||| word == "standalone"@
    ||| word == "standalone_crate"@
    ||| text::begins(word, "edition"@)
    ||| text::begins(word, "ignore-"@)
    ||| is_error_code(word)
}

/// A word that keeps a block from being compiled whatever stands beside it.
pub open spec fn is_stop_tag(word: Seq<char>) -> bool {
    word == "text"@ || word == "ignore"@ || word == "markdown"@
}

/// The first word of a list that is not empty.
pub open spec fn first_tag(words: Seq<Seq<char>>) -> Option<Seq<char>>
    decreases words.len(),
{
    if words.len() == 0 {
        None
    } else if words[0].len() > 0 {
        Some(words[0])
    } else {
        first_tag(words.skip(1))
    }
}

/// A fence whose info string has these words is compiled: none stops it, and there
/// are none, or one says `rust`, or the first is not that of another language.
pub open spec fn compiles(words: Seq<Seq<char>>) -> bool {
    &&& forall|i: int| 0 <= i < words.len() ==> !is_stop_tag(#[trigger] words[i])
    &&& match first_tag(words) {
        Some(word) => is_rust_tag(word) || words.contains("rust"@),
        None => true,
    }
}

/// A fence with this info string is compiled.
pub open spec fn is_runnable(info: Seq<char>) -> bool {
    compiles(text::pieces_of::<AtCommaOrSpace>(text::lower_of(text::trim_of(info))))
}

fn error_code(word: &str) -> (r: bool)
    ensures
        r == is_error_code(word@),
{
    let cs = text::chars_of(word);
    if cs.len() != 5 || cs[0] != 'e' {
        return false;
    }
    let mut i: usize = 1;
    while i < 5
        invariant
            1 <= i <= 5,
            cs@ == word@,
            cs@.len() == 5,
            forall|k: int| 1 <= k < i ==> 0x30 <= #[trigger] cs@[k] as u32 <= 0x39,
        decreases 5 - i,
    {
        let n: u32 = cs[i] as u32;
        if n < 0x30 || n > 0x39 {
            assert(!(0x30 <= cs@[i as int] as u32 <= 0x39));
            return false;
        }
        i += 1;
    }
    true
}

fn rust_tag(word: &str) -> (r: bool)
    ensures
        r == is_rust_tag(word@),
{
    text::same(word, "rust") || text::same(word, "should_panic") || text::same(word, "no_run")
        || text::same(word, "compile_fail") || text::same(word, "test_harness") || text::same(
        word,
        "standalone",
    ) || text::same(word, "standalone_crate") || text::starts_with(word, "edition")
        || text::starts_with(word, "ignore-") || error_code(word)
}

fn runnable(info: &str) -> (r: bool)
    ensures
        r == is_runnable(info@),
{
    let lower = text::ascii_lower(text::trim(info).as_str());
    let words = text::pieces::<AtCommaOrSpace>(lower.as_str());
    let ghost all = text::texts(words@);
    let mut i: usize = 0;
    while i < words.len()
        invariant
            i <= words@.len(),
            all == text::texts(words@),
            is_runnable(info@) == compiles(all),
            forall|k: int| 0 <= k < i ==> !is_stop_tag(#[trigger] all[k]),
        decreases words@.len() - i,
    {
        assert(all[i as int] == words@[i as int]@);
        let word = words[i].as_str();
        if text::same(word, "text") || text::same(word, "ignore") || text::same(word, "markdown") {
            assert(is_stop_tag(all[i as int]));
            return false;
        }
        i += 1;
    }
    let mut k: usize = 0;
    assert(all.skip(0) =~= all);
    while k < words.len()
        invariant
            k <= words@.len(),
            all == text::texts(words@),
            is_runnable(info@) == compiles(all),
            forall|j: int| 0 <= j < words@.len() ==> !is_stop_tag(#[trigger] all[j]),
            first_tag(all) == first_tag(all.skip(k as int)),
        decreases words@.len() - k,
    {
        assert(all.skip(k as int)[0] == words@[k as int]@);
        assert(all.skip(k as int).skip(1) =~= all.skip(k + 1));
        let word = words[k].as_str();
        if !word.is_empty() {
            return rust_tag(word) || text::any_text_is(&words, "rust");
        }
        k += 1;
    }
    true
}

/// A line of an example as it is compiled: a `#` that hides it is taken off.
pub open spec fn code_line(line: Seq<char>) -> Seq<char> {
    let trimmed = text::trim_front_of(line);
    match text::after_prefix(trimmed, "# "@) {
        Some(rest) => rest,
        None => if trimmed == "#"@ {
            Seq::empty()
        } else {
            line
        },
    }
}

fn unhidden(line: &str) -> (r: String)
    ensures
        r@ == code_line(line@),
{
    let trimmed = text::trim_start(line);
    match text::strip_prefix(trimmed.as_str(), "# ") {
        Some(rest) => rest,
        None => if text::same(trimmed.as_str(), "#") {
            String::new()
        } else {
            text::owned(line)
        },
    }
}

/// Reading documentation line by line: the examples that are complete, and the
/// fence that is open, with its lines so far.
#[verifier::ext_equal]
pub struct Fences {
    pub done: Seq<Seq<char>>,
    pub open: Option<(bool, Seq<Seq<char>>)>,
}

/// One more line of documentation.
pub open spec fn fence_step(s: Fences, line: Seq<char>) -> Fences {
    match (text::after_prefix(text::trim_front_of(line), "```"@), s.open) {
        (Some(_), Some((compiled, lines))) => Fences {
            done: if compiled {
                s.done.push(text::join_of(lines, "\n"@))
            } else {
                s.done
            },
            open: None,
        },
        (Some(info), None) => Fences {
            done: s.done,
            open: Some((is_runnable(info), Seq::empty())),
        },
        (None, Some((compiled, lines))) => Fences {
            done: s.done,
            open: Some((compiled, lines.push(code_line(line)))),
        },
        (None, None) => s,
    }
}

/// Reading `lines` of documentation.
pub open spec fn fences(lines: Seq<Seq<char>>) -> Fences
    decreases lines.len(),
{
    if lines.len() == 0 {
        Fences { done: Seq::empty(), open: None }
    } else {
        fence_step(fences(lines.drop_last()), lines.last())
    }
}

/// The examples in the documentation of an item that rustdoc compiles.
pub open spec fn examples_of(attrs: Seq<AttrView>) -> Seq<Seq<char>> {
    fences(text::lines_of(doc_of(attrs))).done
}

/// The view of an open fence.
spec fn open_fence(open: Option<(bool, Vec<String>)>) -> Option<(bool, Seq<Seq<char>>)> {
    match open {
        Some((compiled, lines)) => Some((compiled, text::texts(lines@))),
        None => None,
    }
}

/// Extracts the source of each fenced block that rustdoc will actually compile.
///
/// `text`, `markdown` and `ignore` blocks are not compiled and yield nothing.
/// Lines hidden with a leading `#` are compiled and run, so they are kept;
/// dropping them would lose setup code that the assertions depend on.
pub fn extract_doctests(attrs: &Vec<Attr>) -> (r: Vec<String>)
    ensures
        text::texts(r@) == examples_of(syntax::attr_views(attrs@)),
{
    let doc = doc_text(attrs);
    let lines = text::lines(doc.as_str());
    let ghost all = text::texts(lines@);
    let mut out: Vec<String> = Vec::new();
    let mut current: Option<(bool, Vec<String>)> = None;
    let mut i: usize = 0;
    assert(fences(all.take(0)) =~= Fences { done: text::texts(out@), open: open_fence(current) });
    while i < lines.len()
        invariant
            i <= lines@.len(),
            all == text::texts(lines@),
            fences(all.take(i as int)) == (Fences {
                done: text::texts(out@),
                open: open_fence(current),
            }),
        decreases lines@.len() - i,
    {
        let ghost before = fences(all.take(i as int));
        assert(all.take(i as int + 1).drop_last() =~= all.take(i as int));
        assert(all[i as int] == lines@[i as int]@);
        let line = lines[i].as_str();
        let trimmed = text::trim_start(line);
        match text::strip_prefix(trimmed.as_str(), "```") {
            Some(info) => {
                match current {
                    Some((compiled, code)) => {
                        if compiled {
                            out.push(text::join(&code, "\n"));
                            assert(text::texts(out@) =~= before.done.push(
                                text::join_of(text::texts(code@), "\n"@),
                            ));
                        }
                        current = None;
                    },
                    None => {
                        let fresh: Vec<String> = Vec::new();
                        assert(text::texts(fresh@) =~= Seq::<Seq<char>>::empty());
                        current = Some((runnable(info.as_str()), fresh));
                    },
                }
            },
            None => {
                match current {
                    Some((compiled, code)) => {
                        let mut code = code;
                        let ghost earlier = text::texts(code@);
                        code.push(unhidden(line));
                        assert(text::texts(code@) =~= earlier.push(code_line(line@)));
                        current = Some((compiled, code));
                    },
                    None => {
                        current = None;
                    },
                }
            },
        }
        assert(fences(all.take(i as int + 1)) == fence_step(before, all[i as int]));
        i += 1;
    }
    assert(all.take(all.len() as int) =~= all);
    out
}

/// The body of the first function named `main`.
pub open spec fn main_of(items: Seq<DefinitionView>) -> Option<BodyView>
    decreases items.len(),
{
    if items.len() == 0 {
        None
    } else {
        match items[0] {
            DefinitionView::Func(f) if f.sig.name == "main"@ => Some(f.body),
            _ => main_of(items.skip(1)),
        }
    }
}

/// Finds the body of `main`.
pub fn main_body(items: &Vec<Definition>) -> (r: Option<Body>)
    ensures
        syntax::option_body(r) == main_of(syntax::definition_views(items@)),
{
    let ghost all = syntax::definition_views(items@);
    proof {
        syntax::lemma_definition_views(items@);
    }
    let mut i: usize = 0;
    assert(all.skip(0) =~= all);
    while i < items.len()
        invariant
            i <= items@.len(),
            all == syntax::definition_views(items@),
            all.len() == items@.len(),
            forall|k: int| 0 <= k < items@.len() ==> #[trigger] all[k] == items@[k]@,
            main_of(all) == main_of(all.skip(i as int)),
        decreases items@.len() - i,
    {
        assert(all.skip(i as int)[0] == items@[i as int]@);
        assert(all.skip(i as int).skip(1) =~= all.skip(i + 1));
        if let Definition::Func(f) = &items[i] {
            if text::same(f.sig.name.as_str(), "main") {
                return Some(f.body.copy());
            }
        }
        i += 1;
    }
    None
}

/// The text of a function around an example.
pub open spec fn wrapped_example(code: Seq<char>) -> Seq<char> {
    "fn __doctest() {\n"@ + code + "\n}"@
}

/// The body of an example: that of its own `main` where it mentions one, or else
/// what a function around it would have.
pub open spec fn example_body(code: Seq<char>) -> Option<BodyView> {
    if text::has(code, "fn main"@) {
        match lower::snippet_holds(code) {
            Some(items) => main_of(items),
            None => None,
        }
    } else {
        match lower::function_holds(wrapped_example(code)) {
            Some(f) => Some(f.body),
            None => None,
        }
    }
}

/// Turns an example's source into a body the oracle lint can read.
///
/// Doctests are real tests with real assertions; treating them as opaque would
/// report every one of them as having no oracle.
pub fn parse_doctest_body(code: &str) -> (r: Option<Body>)
    ensures
        syntax::option_body(r) == example_body(code@),
{
    if text::contains(code, "fn main") {
        return match lower::read_snippet(code) {
            Some(items) => main_body(&items),
            None => None,
        };
    }
    let mut wrapped = text::owned("fn __doctest() {\n");
    wrapped.append(code);
    wrapped.append("\n}");
    match lower::read_function(wrapped.as_str()) {
        Some(f) => Some(f.body),
        None => None,
    }
}

// ---------------------------------------------------------------------------
// Walking a file
// ---------------------------------------------------------------------------

/// Where a source file sits, which decides how its tests are classified.
#[derive(Clone, Copy, Debug, PartialEq, Eq, Structural)]
pub enum FileRole {
    /// Under `src/`: contains the symbols under audit.
    Source,
    /// Under `tests/`: integration tests, claiming the public API.
    IntegrationTest,
}

/// Where an item stands: its file, the modules around it, and the outermost
/// `#[cfg(test)]` module among them.
#[verifier::ext_equal]
pub struct Place {
    pub file: Seq<char>,
    pub crate_name: Seq<char>,
    pub modules: Seq<Seq<char>>,
    pub role: FileRole,
    pub test_module: Option<Seq<char>>,
}

impl Place {
    /// The path of the module.
    pub open spec fn prefix(self) -> Seq<char> {
        text::join_of(seq![self.crate_name] + self.modules, "::"@)
    }

    /// The path of something in the module.
    pub open spec fn qualified(self, name: Seq<char>) -> Seq<char> {
        text::join_of((seq![self.crate_name] + self.modules).push(name), "::"@)
    }

    /// What stands here is there for tests.
    pub open spec fn in_test_context(self) -> bool {
        self.test_module is Some || self.role == FileRole::IntegrationTest
    }

    /// The place inside a module that stands here.
    pub open spec fn inside(self, attrs: Seq<AttrView>, name: Seq<char>) -> Place {
        let nested = Place { modules: self.modules.push(name), ..self };
        if self.test_module is None && have_cfg_test(attrs) {
            Place { test_module: Some(nested.prefix()), ..nested }
        } else {
            nested
        }
    }
}

/// What a walk finds.
#[verifier::ext_equal]
pub struct Found {
    pub symbols: Seq<SymbolView>,
    pub tests: Seq<TestItemView>,
}

impl Found {
    /// Nothing.
    pub open spec fn nothing() -> Found {
        Found { symbols: Seq::empty(), tests: Seq::empty() }
    }

    /// This, and then `other`.
    pub open spec fn and(self, other: Found) -> Found {
        Found { symbols: self.symbols + other.symbols, tests: self.tests + other.tests }
    }
}

/// The test that a function is, if its attributes mark it as one.
pub open spec fn test_of(
    place: Place,
    attrs: Seq<AttrView>,
    sig: SigView,
    body: BodyView,
) -> Option<TestItemView> {
    if mark_test(attrs) {
        Some(
            TestItemView {
                id: TestIdView {
                    file: place.file,
                    line: sig.line as u32,
                    path: place.qualified(sig.name),
                },
                kind: match place.role {
                    FileRole::IntegrationTest => TestKind::Integration,
                    FileRole::Source => TestKind::Unit,
                },
                span: LineSpan { start: sig.fn_line as u32, end: body.end_line as u32 },
                name_span: Span {
                    line: sig.line as u32,
                    col: (sig.column as u32 + 1) as u32,
                    len: sig.name.len() as usize as u32,
                },
                is_ignored: attr_named(attrs, "ignore"@) is Some,
                is_async: sig.is_async,
                should_panic: panic_expectation(attrs),
                enclosing_test_module: place.test_module,
                doctest_target: None,
                body: Some(body),
            },
        )
    } else {
        None
    }
}

/// The symbol that a function with a body defines.
pub open spec fn symbol_of(
    place: Place,
    attrs: Seq<AttrView>,
    sig: SigView,
    body: BodyView,
    vis: VisView,
    kind: SymbolKind,
    path: Seq<char>,
) -> SymbolView {
    SymbolView {
        is_async: sig.is_async,
        is_const: sig.is_const,
        is_unsafe: sig.is_unsafe,
        returns_unit_ok: unit_wrapper(sig.output),
        doctests: examples_of(attrs).len() as usize,
        ..symbol::fresh_symbol(
            SymbolIdView {
                file: place.file,
                line: sig.line as u32,
                col: (sig.column as u32 + 1) as u32,
            },
            path,
            sig.name,
            kind,
            LineSpan { start: sig.fn_line as u32, end: body.end_line as u32 },
            visibility_as(vis),
            self_kind_as(sig),
            return_shape_as(sig.output),
            takes_mut(sig),
            triviality_as(body),
        )
    }
}

/// The test that the `n`-th example on a symbol is, counting from zero.
pub open spec fn example_test(place: Place, s: SymbolView, n: int, code: Seq<char>) -> TestItemView {
    TestItemView {
        id: TestIdView {
            file: place.file,
            line: s.span.start,
            path: s.path + " (doctest "@ + text::decimal_of((n + 1) as nat) + ")"@,
        },
        kind: TestKind::Doctest,
        span: s.span,
        name_span: Span { line: s.span.start, col: 1, len: 3 },
        is_ignored: false,
        is_async: false,
        should_panic: None,
        enclosing_test_module: None,
        doctest_target: Some(s.id),
        body: example_body(code),
    }
}

/// The tests that the examples on a symbol are.
pub open spec fn example_tests(place: Place, s: SymbolView, codes: Seq<Seq<char>>) -> Seq<
    TestItemView,
> {
    Seq::new(codes.len(), |n: int| example_test(place, s, n, codes[n]))
}

/// A symbol and the tests that its examples are.
pub open spec fn defined(
    place: Place,
    attrs: Seq<AttrView>,
    sig: SigView,
    body: BodyView,
    vis: VisView,
    kind: SymbolKind,
    path: Seq<char>,
    trait_name: Option<Seq<char>>,
) -> Found {
    let s = symbol_of(place, attrs, sig, body, vis, kind, path);
    Found {
        symbols: seq![SymbolView { trait_name, ..s }],
        tests: example_tests(place, s, examples_of(attrs)),
    }
}

/// What a free function gives: a test, nothing where only tests can see it, or
/// else a symbol.
pub open spec fn found_in_func(place: Place, f: FuncView) -> Found {
    match test_of(place, f.attrs, f.sig, f.body) {
        Some(t) => Found { symbols: Seq::empty(), tests: seq![t] },
        None => if place.in_test_context() {
            Found::nothing()
        } else {
            defined(
                place,
                f.attrs,
                f.sig,
                f.body,
                f.vis,
                SymbolKind::Free,
                place.qualified(f.sig.name),
                None,
            )
        },
    }
}

/// The path of a method.
pub open spec fn method_path(
    place: Place,
    ty: Seq<char>,
    of: Option<Seq<char>>,
    name: Seq<char>,
) -> Seq<char> {
    match of {
        Some(t) => place.prefix() + "::<"@ + ty + " as "@ + t + ">::"@ + name,
        None => place.prefix() + "::"@ + ty + "::"@ + name,
    }
}

/// What a method of an `impl` block gives.
pub open spec fn found_in_method(
    place: Place,
    ty: Seq<char>,
    of: Option<Seq<char>>,
    f: FuncView,
) -> Found {
    match test_of(place, f.attrs, f.sig, f.body) {
        Some(t) => Found { symbols: Seq::empty(), tests: seq![t] },
        None => if place.in_test_context() {
            Found::nothing()
        } else {
            defined(
                place,
                f.attrs,
                f.sig,
                f.body,
                f.vis,
                if of is Some {
                    SymbolKind::TraitImpl
                } else {
                    SymbolKind::Inherent
                },
                method_path(place, ty, of, f.sig.name),
                of,
            )
        },
    }
}

/// What the methods of an `impl` block give.
pub open spec fn found_in_impl(
    place: Place,
    ty: Seq<char>,
    of: Option<Seq<char>>,
    funcs: Seq<FuncView>,
) -> Found
    decreases funcs.len(),
{
    if funcs.len() == 0 {
        Found::nothing()
    } else {
        found_in_impl(place, ty, of, funcs.drop_last()).and(
            found_in_method(place, ty, of, funcs.last()),
        )
    }
}

/// What a function of a trait gives. A declaration with no body defines no
/// behaviour to destroy.
pub open spec fn found_in_default(
    place: Place,
    name: Seq<char>,
    vis: VisView,
    f: TraitFuncView,
) -> Found {
    match f.default {
        Some(body) => defined(
            place,
            f.attrs,
            f.sig,
            body,
            vis,
            SymbolKind::TraitDefault,
            place.prefix() + "::"@ + name + "::"@ + f.sig.name,
            None,
        ),
        None => Found::nothing(),
    }
}

/// What the functions of a trait give.
pub open spec fn found_in_trait(
    place: Place,
    name: Seq<char>,
    vis: VisView,
    funcs: Seq<TraitFuncView>,
) -> Found
    decreases funcs.len(),
{
    if funcs.len() == 0 {
        Found::nothing()
    } else {
        found_in_trait(place, name, vis, funcs.drop_last()).and(
            found_in_default(place, name, vis, funcs.last()),
        )
    }
}

/// The trait's path as it is written in a symbol's path.
pub open spec fn trait_as(of: Option<Seq<char>>) -> Option<Seq<char>> {
    match of {
        Some(t) => Some(text::replaced(t, " "@, ""@)),
        None => None,
    }
}

/// What an item gives.
pub open spec fn found_in(place: Place, item: DefinitionView) -> Found
    decreases item,
{
    match item {
        DefinitionView::Func(f) => found_in_func(place, f),
        DefinitionView::Impl(ty, of, funcs) => found_in_impl(
            place,
            written_type(ty),
            trait_as(of),
            funcs,
        ),
        DefinitionView::Trait(name, vis, funcs) => if place.in_test_context() {
            Found::nothing()
        } else {
            found_in_trait(place, name, vis, funcs)
        },
        DefinitionView::Mod(attrs, name, Some(items)) => found_in_all(
            place.inside(attrs, name),
            items,
        ),
        DefinitionView::Mod(_, _, None) => Found::nothing(),
        DefinitionView::Other => Found::nothing(),
    }
}

/// What the items of a list give, in order.
pub open spec fn found_in_all(place: Place, items: Seq<DefinitionView>) -> Found
    decreases items,
{
    if items.len() == 0 {
        Found::nothing()
    } else {
        found_in_all(place, items.drop_last()).and(found_in(place, items.last()))
    }
}

/// The column of a name counts from one in 32 bits.
pub open spec fn column_fits(sig: SigView) -> bool {
    (sig.column as u32) < u32::MAX
}

/// Every function's column does.
pub open spec fn columns_fit(items: Seq<DefinitionView>) -> bool
    decreases items,
{
    forall|i: int| 0 <= i < items.len() ==> item_fits(#[trigger] items[i])
}

/// The column of every function in an item does.
pub open spec fn item_fits(item: DefinitionView) -> bool
    decreases item,
{
    match item {
        DefinitionView::Func(f) => column_fits(f.sig),
        DefinitionView::Impl(_, _, funcs) => forall|i: int|
            0 <= i < funcs.len() ==> column_fits(#[trigger] funcs[i].sig),
        DefinitionView::Trait(_, _, funcs) => forall|i: int|
            0 <= i < funcs.len() ==> column_fits(#[trigger] funcs[i].sig),
        DefinitionView::Mod(_, _, Some(items)) => columns_fit(items),
        _ => true,
    }
}

/// Whether the column of every function in the items fits.
fn all_columns_fit(items: &Vec<Definition>) -> (r: bool)
    ensures
        r == columns_fit(syntax::definition_views(items@)),
    decreases items@,
{
    let ghost all = syntax::definition_views(items@);
    proof {
        syntax::lemma_definition_views(items@);
    }
    let mut i: usize = 0;
    while i < items.len()
        invariant
            i <= items@.len(),
            all == syntax::definition_views(items@),
            all.len() == items@.len(),
            forall|k: int| 0 <= k < items@.len() ==> #[trigger] all[k] == items@[k]@,
            forall|k: int| 0 <= k < i ==> item_fits(#[trigger] all[k]),
        decreases items@.len() - i,
    {
        let ghost item = all[i as int];
        let fits = match &items[i] {
            Definition::Func(f) => (f.sig.column as u32) < u32::MAX,
            Definition::Impl(_, _, funcs) => {
                let ghost views = funcs@.map_values(|f: Func| f@);
                let mut fits = true;
                let mut k: usize = 0;
                while k < funcs.len() && fits
                    invariant
                        k <= funcs@.len(),
                        views == funcs@.map_values(|f: Func| f@),
                        fits ==> forall|j: int| 0 <= j < k ==> column_fits(#[trigger] views[j].sig),
                        !fits ==> exists|j: int|
                            0 <= j < views.len() && !column_fits(#[trigger] views[j].sig),
                    decreases funcs@.len() - k,
                {
                    assert(views[k as int] == funcs@[k as int]@);
                    fits = (funcs[k].sig.column as u32) < u32::MAX;
                    assert(column_fits(views[k as int].sig) == fits);
                    k += 1;
                }
                fits
            },
            Definition::Trait(_, _, funcs) => {
                let ghost views = funcs@.map_values(|f: TraitFunc| f@);
                let mut fits = true;
                let mut k: usize = 0;
                while k < funcs.len() && fits
                    invariant
                        k <= funcs@.len(),
                        views == funcs@.map_values(|f: TraitFunc| f@),
                        fits ==> forall|j: int| 0 <= j < k ==> column_fits(#[trigger] views[j].sig),
                        !fits ==> exists|j: int|
                            0 <= j < views.len() && !column_fits(#[trigger] views[j].sig),
                    decreases funcs@.len() - k,
                {
                    assert(views[k as int] == funcs@[k as int]@);
                    fits = (funcs[k].sig.column as u32) < u32::MAX;
                    assert(column_fits(views[k as int].sig) == fits);
                    k += 1;
                }
                fits
            },
            Definition::Mod(_, _, Some(inner)) => all_columns_fit(inner),
            _ => true,
        };
        assert(fits == item_fits(item));
        if !fits {
            return false;
        }
        i += 1;
    }
    true
}

/// Walks the items of one file, keeping track of where it is.
struct Walker {
    file: String,
    crate_name: String,
    modules: Vec<String>,
    role: FileRole,
    /// Set while inside a `#[cfg(test)]` module; carries its full path.
    test_module: Option<String>,
    symbols: Vec<Symbol>,
    tests: Vec<TestItem>,
}

impl Walker {
    spec fn place(self) -> Place {
        Place {
            file: self.file@,
            crate_name: self.crate_name@,
            modules: text::texts(self.modules@),
            role: self.role,
            test_module: text::option_text(self.test_module),
        }
    }

    spec fn found(self) -> Found {
        Found { symbols: order::views(self.symbols@), tests: order::views(self.tests@) }
    }

    fn module_prefix(&self) -> (r: String)
        ensures
            r@ == self.place().prefix(),
    {
        let mut parts: Vec<String> = Vec::new();
        parts.push(self.crate_name.clone());
        let mut modules = text::copy_texts(&self.modules);
        parts.append(&mut modules);
        assert(text::texts(parts@) =~= seq![self.crate_name@] + text::texts(self.modules@));
        text::join(&parts, "::")
    }

    fn qualified(&self, name: &str) -> (r: String)
        ensures
            r@ == self.place().qualified(name@),
    {
        let mut parts: Vec<String> = Vec::new();
        parts.push(self.crate_name.clone());
        let mut modules = text::copy_texts(&self.modules);
        parts.append(&mut modules);
        parts.push(text::owned(name));
        assert(text::texts(parts@) =~= (seq![self.crate_name@] + text::texts(self.modules@)).push(
            name@,
        ));
        text::join(&parts, "::")
    }

    fn in_test_context(&self) -> (r: bool)
        ensures
            r == self.place().in_test_context(),
    {
        self.test_module.is_some() || self.role == FileRole::IntegrationTest
    }

    fn as_test(&self, attrs: &Vec<Attr>, sig: &Sig, body: &Body) -> (r: Option<TestItem>)
        requires
            column_fits(sig@),
        ensures
            match r {
                Some(t) => test_of(self.place(), syntax::attr_views(attrs@), sig@, body@) == Some(
                    t@,
                ),
                None => test_of(self.place(), syntax::attr_views(attrs@), sig@, body@) is None,
            },
    {
        if !attrs_mark_test(attrs) {
            return None;
        }
        let kind = match self.role {
            FileRole::IntegrationTest => TestKind::Integration,
            FileRole::Source => TestKind::Unit,
        };
        let t = TestItem {
            id: TestId {
                file: self.file.clone(),
                line: sig.line as u32,
                path: self.qualified(sig.name.as_str()),
            },
            kind,
            span: LineSpan { start: sig.fn_line as u32, end: body.end_line as u32 },
            name_span: Span::at(
                sig.line as u32,
                sig.column as u32 + 1,
                sig.name.as_str().unicode_len() as u32,
            ),
            is_ignored: find_attr(attrs, "ignore").is_some(),
            is_async: sig.is_async,
            should_panic: should_panic_of(attrs),
            enclosing_test_module: text::copy_option(&self.test_module),
            doctest_target: None,
            body: Some(body.copy()),
        };
        Some(t)
    }

    /// Makes the symbol that a function defines, and takes up the tests that its
    /// examples are.
    fn make_symbol(
        &mut self,
        attrs: &Vec<Attr>,
        sig: &Sig,
        body: &Body,
        vis: &Vis,
        kind: SymbolKind,
        path: String,
    ) -> (r: Symbol)
        requires
            column_fits(sig@),
        ensures
            final(self).place() == old(self).place(),
            r@ == symbol_of(
                old(self).place(),
                syntax::attr_views(attrs@),
                sig@,
                body@,
                vis@,
                kind,
                path@,
            ),
            final(self).found() == old(self).found().and(
                Found {
                    symbols: Seq::empty(),
                    tests: example_tests(
                        old(self).place(),
                        r@,
                        examples_of(syntax::attr_views(attrs@)),
                    ),
                },
            ),
    {
        let codes = extract_doctests(attrs);
        let mut made = Symbol::new(
            SymbolId::new(self.file.as_str(), sig.line, sig.column),
            path,
            sig.name.clone(),
            kind,
            LineSpan { start: sig.fn_line as u32, end: body.end_line as u32 },
            visibility_of(vis),
            self_kind_of(sig),
            return_shape_of(&sig.output),
            has_mut_param(sig),
            triviality_of(body),
        );
        made.is_async = sig.is_async;
        made.is_const = sig.is_const;
        made.is_unsafe = sig.is_unsafe;
        made.returns_unit_ok = wraps_unit(&sig.output);
        made.doctests = codes.len();

        let ghost place = self.place();
        let ghost all = example_tests(place, made@, text::texts(codes@));
        let ghost before = self.found();
        let mut n: usize = 0;
        assert(before.tests + all.take(0) =~= before.tests);
        while n < codes.len()
            invariant
                n <= codes@.len(),
                self.place() == place,
                all == example_tests(place, made@, text::texts(codes@)),
                self.found().symbols == before.symbols,
                self.found().tests == before.tests + all.take(n as int),
            decreases codes@.len() - n,
        {
            let ghost sofar = self.found().tests;
            let mut path = made.path.clone();
            path.append(" (doctest ");
            path.append(text::count(n + 1).as_str());
            path.append(")");
            let t = TestItem {
                id: TestId { file: self.file.clone(), line: made.span.start, path },
                kind: TestKind::Doctest,
                span: made.span,
                name_span: Span::at(made.span.start, 1, 3),
                is_ignored: false,
                is_async: false,
                should_panic: None,
                enclosing_test_module: None,
                doctest_target: Some(made.id.copy()),
                body: parse_doctest_body(codes[n].as_str()),
            };
            assert(t@ == all[n as int]);
            self.tests.push(t);
            assert(self.found().tests =~= sofar.push(t@));
            assert(before.tests + all.take(n as int + 1) =~= (before.tests + all.take(
                n as int,
            )).push(all[n as int]));
            n += 1;
        }
        assert(all.take(all.len() as int) =~= all);
        assert(before.symbols + Seq::<SymbolView>::empty() =~= before.symbols);
        made
    }

    /// Takes up a symbol.
    fn define(
        &mut self,
        attrs: &Vec<Attr>,
        sig: &Sig,
        body: &Body,
        vis: &Vis,
        kind: SymbolKind,
        path: String,
        trait_name: Option<String>,
    )
        requires
            column_fits(sig@),
        ensures
            final(self).place() == old(self).place(),
            final(self).found() == old(self).found().and(
                defined(
                    old(self).place(),
                    syntax::attr_views(attrs@),
                    sig@,
                    body@,
                    vis@,
                    kind,
                    path@,
                    text::option_text(trait_name),
                ),
            ),
    {
        let ghost before = self.found();
        let mut made = self.make_symbol(attrs, sig, body, vis, kind, path);
        let ghost plain = made@;
        made.trait_name = trait_name;
        self.symbols.push(made);
        assert(self.found().symbols =~= before.symbols + seq![made@]);
        assert(made@ =~= SymbolView { trait_name: text::option_text(trait_name), ..plain });
    }

    fn free_fn(&mut self, f: &Func)
        requires
            column_fits(f@.sig),
        ensures
            final(self).place() == old(self).place(),
            final(self).found() == old(self).found().and(found_in_func(old(self).place(), f@)),
    {
        let ghost before = self.found();
        if let Some(test) = self.as_test(&f.attrs, &f.sig, &f.body) {
            let ghost t = test@;
            self.tests.push(test);
            assert(self.found() =~= before.and(Found { symbols: Seq::empty(), tests: seq![t] }));
            return;
        }
        if self.in_test_context() {
            assert(before =~= before.and(Found::nothing()));
            return;
        }
        let path = self.qualified(f.sig.name.as_str());
        self.define(&f.attrs, &f.sig, &f.body, &f.vis, SymbolKind::Free, path, None);
    }

    fn method(&mut self, f: &Func, ty: &str, of: &Option<String>)
        requires
            column_fits(f@.sig),
        ensures
            final(self).place() == old(self).place(),
            final(self).found() == old(self).found().and(
                found_in_method(old(self).place(), ty@, text::option_text(*of), f@),
            ),
    {
        let ghost before = self.found();
        if let Some(test) = self.as_test(&f.attrs, &f.sig, &f.body) {
            let ghost t = test@;
            self.tests.push(test);
            assert(self.found() =~= before.and(Found { symbols: Seq::empty(), tests: seq![t] }));
            return;
        }
        if self.in_test_context() {
            assert(before =~= before.and(Found::nothing()));
            return;
        }
        let mut path = self.module_prefix();
        let kind = match of {
            Some(t) => {
                path.append("::<");
                path.append(ty);
                path.append(" as ");
                path.append(t.as_str());
                path.append(">::");
                SymbolKind::TraitImpl
            },
            None => {
                path.append("::");
                path.append(ty);
                path.append("::");
                SymbolKind::Inherent
            },
        };
        path.append(f.sig.name.as_str());
        let trait_name = text::copy_option(of);
        self.define(&f.attrs, &f.sig, &f.body, &f.vis, kind, path, trait_name);
    }

    fn impl_block(&mut self, ty: &Ty, of: &Option<String>, funcs: &Vec<Func>)
        requires
            forall|i: int| 0 <= i < funcs@.len() ==> column_fits(#[trigger] funcs@[i]@.sig),
        ensures
            final(self).place() == old(self).place(),
            final(self).found() == old(self).found().and(
                found_in_impl(
                    old(self).place(),
                    written_type(ty@),
                    trait_as(text::option_text(*of)),
                    funcs@.map_values(|f: Func| f@),
                ),
            ),
    {
        let ghost place = self.place();
        let ghost before = self.found();
        let ghost views = funcs@.map_values(|f: Func| f@);
        let ty_name = render_type(ty);
        let trait_name = match of {
            Some(t) => Some(without_blanks(t.as_str())),
            None => None,
        };
        let mut i: usize = 0;
        assert(before =~= before.and(Found::nothing()));
        while i < funcs.len()
            invariant
                i <= funcs@.len(),
                forall|k: int| 0 <= k < funcs@.len() ==> column_fits(#[trigger] funcs@[k]@.sig),
                views == funcs@.map_values(|f: Func| f@),
                ty_name@ == written_type(ty@),
                text::option_text(trait_name) == trait_as(text::option_text(*of)),
                self.place() == place,
                self.found() == before.and(
                    found_in_impl(
                        place,
                        written_type(ty@),
                        trait_as(text::option_text(*of)),
                        views.take(i as int),
                    ),
                ),
            decreases funcs@.len() - i,
        {
            let ghost sofar = found_in_impl(
                place,
                written_type(ty@),
                trait_as(text::option_text(*of)),
                views.take(i as int),
            );
            assert(views.take(i as int + 1).drop_last() =~= views.take(i as int));
            assert(views[i as int] == funcs@[i as int]@);
            self.method(&funcs[i], ty_name.as_str(), &trait_name);
            proof {
                lemma_and(
                    before,
                    sofar,
                    found_in_method(
                        place,
                        written_type(ty@),
                        trait_as(text::option_text(*of)),
                        views[i as int],
                    ),
                );
            }
            i += 1;
        }
        assert(views.take(views.len() as int) =~= views);
    }

    fn trait_block(&mut self, name: &str, vis: &Vis, funcs: &Vec<TraitFunc>)
        requires
            forall|i: int| 0 <= i < funcs@.len() ==> column_fits(#[trigger] funcs@[i]@.sig),
        ensures
            final(self).place() == old(self).place(),
            final(self).found() == old(self).found().and(
                if old(self).place().in_test_context() {
                    Found::nothing()
                } else {
                    found_in_trait(
                        old(self).place(),
                        name@,
                        vis@,
                        funcs@.map_values(|f: TraitFunc| f@),
                    )
                },
            ),
    {
        let ghost place = self.place();
        let ghost before = self.found();
        let ghost views = funcs@.map_values(|f: TraitFunc| f@);
        assert(before =~= before.and(Found::nothing()));
        if self.in_test_context() {
            return;
        }
        let mut i: usize = 0;
        while i < funcs.len()
            invariant
                i <= funcs@.len(),
                forall|k: int| 0 <= k < funcs@.len() ==> column_fits(#[trigger] funcs@[k]@.sig),
                views == funcs@.map_values(|f: TraitFunc| f@),
                self.place() == place,
                self.found() == before.and(found_in_trait(place, name@, vis@, views.take(i as int))),
            decreases funcs@.len() - i,
        {
            let ghost sofar = found_in_trait(place, name@, vis@, views.take(i as int));
            assert(views.take(i as int + 1).drop_last() =~= views.take(i as int));
            assert(views[i as int] == funcs@[i as int]@);
            proof {
                lemma_and(before, sofar, found_in_default(place, name@, vis@, views[i as int]));
            }
            let f = &funcs[i];
            match &f.default {
                Some(body) => {
                    let mut path = self.module_prefix();
                    path.append("::");
                    path.append(name);
                    path.append("::");
                    path.append(f.sig.name.as_str());
                    self.define(
                        &f.attrs,
                        &f.sig,
                        body,
                        vis,
                        SymbolKind::TraitDefault,
                        path,
                        None,
                    );
                },
                None => {
                    assert(before.and(sofar) =~= before.and(sofar).and(Found::nothing()));
                },
            }
            i += 1;
        }
        assert(views.take(views.len() as int) =~= views);
    }

    fn module(&mut self, attrs: &Vec<Attr>, name: &String, items: &Vec<Definition>)
        requires
            columns_fit(syntax::definition_views(items@)),
        ensures
            final(self).place() == old(self).place(),
            final(self).found() == old(self).found().and(
                found_in_all(
                    old(self).place().inside(syntax::attr_views(attrs@), name@),
                    syntax::definition_views(items@),
                ),
            ),
        decreases items@, 1nat,
    {
        let ghost outer = self.place();
        let ghost modules = self.modules@;
        let was_test_module = text::copy_option(&self.test_module);
        self.modules.push(name.clone());
        assert(text::texts(self.modules@) =~= outer.modules.push(name@));
        if self.test_module.is_none() && attrs_have_cfg_test(attrs) {
            self.test_module = Some(self.module_prefix());
        }
        assert(self.place() =~= outer.inside(syntax::attr_views(attrs@), name@));
        let ghost inner = self.place();
        self.items(items);
        let ghost after = self.place();
        self.modules.pop();
        self.test_module = was_test_module;
        proof {
            assert(after.modules == outer.modules.push(name@));
            assert(after.modules.drop_last() =~= outer.modules);
            assert(text::texts(self.modules@) =~= after.modules.drop_last());
            assert(self.place() =~= outer);
        }
    }

    fn items(&mut self, items: &Vec<Definition>)
        requires
            columns_fit(syntax::definition_views(items@)),
        ensures
            final(self).place() == old(self).place(),
            final(self).found() == old(self).found().and(
                found_in_all(old(self).place(), syntax::definition_views(items@)),
            ),
        decreases items@, 0nat,
    {
        let ghost place = self.place();
        let ghost before = self.found();
        let ghost views = syntax::definition_views(items@);
        proof {
            syntax::lemma_definition_views(items@);
        }
        let mut i: usize = 0;
        assert(before =~= before.and(Found::nothing()));
        while i < items.len()
            invariant
                i <= items@.len(),
                views == syntax::definition_views(items@),
                views.len() == items@.len(),
                columns_fit(views),
                forall|k: int| 0 <= k < items@.len() ==> #[trigger] views[k] == items@[k]@,
                self.place() == place,
                self.found() == before.and(found_in_all(place, views.take(i as int))),
            decreases items@.len() - i,
        {
            let ghost sofar = found_in_all(place, views.take(i as int));
            let ghost item = items@[i as int];
            assert(views.take(i as int + 1).drop_last() =~= views.take(i as int));
            assert(views[i as int] == item@);
            assert(item_fits(views[i as int]));
            proof {
                lemma_and(before, sofar, found_in(place, item@));
            }
            match &items[i] {
                Definition::Func(f) => self.free_fn(f),
                Definition::Impl(ty, of, funcs) => {
                    let ghost fv = funcs@.map_values(|f: Func| f@);
                    assert forall|k: int| 0 <= k < funcs@.len() implies column_fits(
                        #[trigger] funcs@[k]@.sig,
                    ) by {
                        assert(column_fits(fv[k].sig));
                    }
                    self.impl_block(ty, of, funcs)
                },
                Definition::Trait(name, vis, funcs) => {
                    let ghost fv = funcs@.map_values(|f: TraitFunc| f@);
                    assert forall|k: int| 0 <= k < funcs@.len() implies column_fits(
                        #[trigger] funcs@[k]@.sig,
                    ) by {
                        assert(column_fits(fv[k].sig));
                    }
                    self.trait_block(name.as_str(), vis, funcs)
                },
                Definition::Mod(attrs, name, Some(inner)) => self.module(attrs, name, inner),
                _ => {
                    assert(before.and(sofar) =~= before.and(sofar).and(Found::nothing()));
                },
            }
            i += 1;
        }
        assert(views.take(views.len() as int) =~= views);
    }
}

/// Findings add up in any grouping.
proof fn lemma_and(a: Found, b: Found, c: Found)
    ensures
        a.and(b).and(c) == a.and(b.and(c)),
{
    assert(a.and(b).and(c) =~= a.and(b.and(c)));
}

/// Everything in the items of one file.
pub fn inventory_of(
    items: &Vec<Definition>,
    rel: &str,
    crate_name: &str,
    modules: &Vec<String>,
    role: FileRole,
) -> (r: Inventory)
    requires
        columns_fit(syntax::definition_views(items@)),
    ensures
        r.parse_failures.wf(),
        r@ == found_inventory(
            found_in_all(
                Place {
                    file: rel@,
                    crate_name: crate_name@,
                    modules: text::texts(modules@),
                    role,
                    test_module: None,
                },
                syntax::definition_views(items@),
            ),
        ),
{
    let mut walker = Walker {
        file: text::owned(rel),
        crate_name: text::owned(crate_name),
        modules: text::copy_texts(modules),
        role,
        test_module: None,
        symbols: Vec::new(),
        tests: Vec::new(),
    };
    let ghost found = found_in_all(walker.place(), syntax::definition_views(items@));
    assert(walker.found() =~= Found::nothing());
    walker.items(items);
    assert(Found::nothing().and(found) =~= found);
    let mut inv = Inventory::new();
    inv.symbols = walker.symbols;
    inv.tests = walker.tests;
    inv
}

/// An inventory of nothing but these findings.
pub open spec fn found_inventory(found: Found) -> InventoryView {
    InventoryView {
        root: Seq::empty(),
        symbols: found.symbols,
        tests: found.tests,
        files: Seq::empty(),
        parse_failures: Seq::empty(),
    }
}

/// Why a file's source gives no inventory.
#[derive(Debug)]
pub enum FileError {
    /// It does not parse, with the parser's message.
    Unparsed(String),
    /// A function's name stands in a column that 32 bits do not hold.
    TooWide,
}

/// Why a file's source gives no inventory, as a mathematical value.
#[verifier::ext_equal]
pub enum FileErrorView {
    Unparsed(Seq<char>),
    TooWide,
}

impl View for FileError {
    type V = FileErrorView;

    open spec fn view(&self) -> FileErrorView {
        match *self {
            FileError::Unparsed(message) => FileErrorView::Unparsed(message@),
            FileError::TooWide => FileErrorView::TooWide,
        }
    }
}

impl FileErrorView {
    /// The reason as it is reported.
    pub open spec fn reason(self) -> Seq<char> {
        match self {
            FileErrorView::Unparsed(message) => "parse error: "@ + message,
            FileErrorView::TooWide => "a function's name stands in too wide a column"@,
        }
    }
}

impl FileError {
    /// The reason as it is reported.
    pub fn message(&self) -> (r: String)
        ensures
            r@ == self@.reason(),
    {
        match self {
            FileError::Unparsed(message) => text::joined("parse error: ", message.as_str()),
            FileError::TooWide => text::owned("a function's name stands in too wide a column"),
        }
    }
}

/// What a file's source gives.
pub open spec fn parsed(place: Place, source: Seq<char>) -> Result<Found, FileErrorView> {
    match lower::file_holds(source) {
        Ok(items) => if columns_fit(items) {
            Ok(found_in_all(place, items))
        } else {
            Err(FileErrorView::TooWide)
        },
        Err(message) => Err(FileErrorView::Unparsed(message)),
    }
}

/// Parses one file's source.
pub fn parse_file(
    source: &str,
    rel: &str,
    crate_name: &str,
    modules: &Vec<String>,
    role: FileRole,
) -> (r: Result<Inventory, FileError>)
    ensures
        ({
            let place = Place {
                file: rel@,
                crate_name: crate_name@,
                modules: text::texts(modules@),
                role,
                test_module: None,
            };
            match r {
                Ok(inv) => inv.parse_failures.wf() && parsed(place, source@) is Ok && inv@
                    == found_inventory(parsed(place, source@)->Ok_0),
                Err(e) => parsed(place, source@) == Err::<Found, FileErrorView>(e@),
            }
        }),
{
    match lower::read_file(source) {
        Ok(items) => {
            if all_columns_fit(&items) {
                Ok(inventory_of(&items, rel, crate_name, modules, role))
            } else {
                Err(FileError::TooWide)
            }
        },
        Err(message) => Err(FileError::Unparsed(message)),
    }
}

// ---------------------------------------------------------------------------
// Walking a workspace
// ---------------------------------------------------------------------------

/// A file with this name is the root of a crate: of the package's library or
/// program, or of a program with a directory of its own below `bin`.
pub open spec fn is_crate_root(parents: Seq<Seq<char>>, stem: Seq<char>) -> bool {
    ||| parents.len() == 0 && (stem == "lib"@ || stem == "main"@)
    ||| parents.len() == 2 && parents[0] == "bin"@ && stem == "main"@
}

fn crate_root(parents: &Vec<String>, stem: &str) -> (r: bool)
    ensures
        r == is_crate_root(text::texts(parents@), stem@),
{
    (parents.len() == 0 && (text::same(stem, "lib") || text::same(stem, "main"))) || (parents.len()
        == 2 && text::same(parents[0].as_str(), "bin") && text::same(stem, "main"))
}

/// `src/parser/config.rs` -> `["parser", "config"]`; `mod.rs` and the crate root
/// contribute nothing. `parents` are the directories between the package's
/// subdirectory and the file, `stem` the file's name without its extension.
pub open spec fn modules_at(
    parents: Seq<Seq<char>>,
    stem: Option<Seq<char>>,
    role: FileRole,
) -> Seq<Seq<char>> {
    if role == FileRole::IntegrationTest {
        Seq::empty()
    } else {
        match stem {
            Some(s) => if s == "mod"@ || is_crate_root(parents, s) {
                parents
            } else {
                parents.push(s)
            },
            None => parents,
        }
    }
}

/// The module path of a file.
pub fn module_path_for(parents: &Vec<String>, stem: &Option<String>, role: FileRole) -> (r: Vec<
    String,
>)
    ensures
        text::texts(r@) == modules_at(text::texts(parents@), text::option_text(*stem), role),
{
    if role == FileRole::IntegrationTest {
        // Each file in `tests/` is its own crate root.
        let none: Vec<String> = Vec::new();
        assert(text::texts(none@) =~= Seq::<Seq<char>>::empty());
        return none;
    }
    let mut parts = text::copy_texts(parents);
    match stem {
        Some(s) => {
            if !text::same(s.as_str(), "mod") && !crate_root(parents, s.as_str()) {
                let ghost before = text::texts(parts@);
                parts.push(s.clone());
                assert(text::texts(parts@) =~= before.push(s@));
            }
        },
        None => {},
    }
    parts
}

/// The crate name of a package.
pub open spec fn crate_named(package: Seq<char>) -> Seq<char> {
    text::replaced(package, "-"@, "_"@)
}

/// A walk goes on into an entry.
pub open spec fn is_kept(is_dir: bool, is_walk_root: bool, has_manifest: bool) -> bool {
    !(is_dir && !is_walk_root && has_manifest)
}

/// A file with this extension is source.
pub open spec fn names_source(extension: Option<Seq<char>>) -> bool {
    extension == Some("rs"@)
}

/// The crate name of a package: Cargo allows `-` in package names, and the crate
/// path uses `_`.
pub fn crate_name_of(package: &str) -> (r: String)
    ensures
        r@ == text::replaced(package@, "-"@, "_"@),
        r@ == crate_named(package@),
{
    proof {
        reveal_strlit("-");
    }
    text::replace(package, "-", "_")
}

/// Whether a walk goes on into an entry. A directory below the walk's own with a
/// manifest in it is a separate package, whose symbols belong to that package.
pub fn keeps_entry(is_dir: bool, is_walk_root: bool, has_manifest: bool) -> (r: bool)
    ensures
        r == !(is_dir && !is_walk_root && has_manifest),
        r == is_kept(is_dir, is_walk_root, has_manifest),
{
    !(is_dir && !is_walk_root && has_manifest)
}

/// Whether a file with this extension is source.
pub fn is_source(extension: &Option<String>) -> (r: bool)
    ensures
        r == (text::option_text(*extension) == Some("rs"@)),
        r == names_source(text::option_text(*extension)),
{
    text::option_is(extension, "rs")
}

/// A source file of the workspace, as it was read.
pub struct SourceFile {
    /// Relative to the workspace root.
    pub rel: String,
    pub crate_name: String,
    pub modules: Vec<String>,
    pub role: FileRole,
    /// Its text, or why it could not be read.
    pub source: Result<String, String>,
}

/// A source file, as a mathematical value.
#[verifier::ext_equal]
pub struct SourceFileView {
    pub rel: Seq<char>,
    pub crate_name: Seq<char>,
    pub modules: Seq<Seq<char>>,
    pub role: FileRole,
    pub source: Result<Seq<char>, Seq<char>>,
}

impl View for SourceFile {
    type V = SourceFileView;

    open spec fn view(&self) -> SourceFileView {
        SourceFileView {
            rel: self.rel@,
            crate_name: self.crate_name@,
            modules: text::texts(self.modules@),
            role: self.role,
            source: match self.source {
                Ok(source) => Ok(source@),
                Err(message) => Err(message@),
            },
        }
    }
}

impl SourceFileView {
    /// What the file gives, or the reason that is reported for it.
    pub open spec fn outcome(self) -> Result<Found, Seq<char>> {
        match self.source {
            Ok(source) => match parsed(
                Place {
                    file: self.rel,
                    crate_name: self.crate_name,
                    modules: self.modules,
                    role: self.role,
                    test_module: None,
                },
                source,
            ) {
                Ok(found) => Ok(found),
                Err(e) => Err(e.reason()),
            },
            Err(message) => Err(message),
        }
    }
}

/// What the files of a workspace give, in the order in which they were read.
pub open spec fn gathered(files: Seq<SourceFileView>) -> Found
    decreases files.len(),
{
    if files.len() == 0 {
        Found::nothing()
    } else {
        match files.last().outcome() {
            Ok(found) => gathered(files.drop_last()).and(found),
            Err(_) => gathered(files.drop_last()),
        }
    }
}

/// The files that parse.
pub open spec fn parsed_files(files: Seq<SourceFileView>) -> Seq<Seq<char>>
    decreases files.len(),
{
    if files.len() == 0 {
        Seq::empty()
    } else if files.last().outcome() is Ok {
        parsed_files(files.drop_last()).push(files.last().rel)
    } else {
        parsed_files(files.drop_last())
    }
}

/// The reason that is reported for a file: that of the last one of its name that
/// failed.
pub open spec fn failure_of(files: Seq<SourceFileView>, rel: Seq<char>) -> Option<Seq<char>>
    decreases files.len(),
{
    if files.len() == 0 {
        None
    } else {
        match files.last().outcome() {
            Err(message) if files.last().rel == rel => Some(message),
            _ => failure_of(files.drop_last(), rel),
        }
    }
}

/// Looking up a text gives its characters.
pub proof fn lemma_text_entries(s: Seq<(Seq<char>, String)>, k: Seq<char>)
    ensures
        order::lookup(text_entries(s), k) == text::option_text(order::lookup(s, k)),
    decreases s.len(),
{
    if s.len() > 0 {
        lemma_text_entries(s.drop_last(), k);
        assert(text_entries(s).drop_last() =~= text_entries(s.drop_last()));
    }
}

/// Builds the inventory of a workspace out of its source files.
///
/// A file that fails to parse is recorded in [`Inventory::parse_failures`] rather
/// than ending the walk.
pub fn walk_files(root: &str, files: &Vec<SourceFile>) -> (r: Inventory)
    ensures
        r@.root == root@,
        r@.symbols == order::sorted::<Symbol>(gathered(order::views(files@)).symbols),
        r@.tests == order::sorted::<TestItem>(gathered(order::views(files@)).tests),
        r@.files == order::sorted::<String>(parsed_files(order::views(files@))),
        r.parse_failures.wf(),
        forall|rel: Seq<char>| #[trigger]
            order::lookup(r@.parse_failures, rel) == failure_of(order::views(files@), rel),
{
    let ghost all = order::views(files@);
    let mut symbols: Vec<Symbol> = Vec::new();
    let mut tests: Vec<TestItem> = Vec::new();
    let mut names: Vec<String> = Vec::new();
    let mut failures: Table<String, String> = Table::new();
    let mut i: usize = 0;
    assert(order::views(symbols@) =~= Seq::<SymbolView>::empty());
    assert(order::views(tests@) =~= Seq::<TestItemView>::empty());
    assert(text::texts(names@) =~= Seq::<Seq<char>>::empty());
    while i < files.len()
        invariant
            i <= files@.len(),
            all == order::views(files@),
            order::views(symbols@) == gathered(all.take(i as int)).symbols,
            order::views(tests@) == gathered(all.take(i as int)).tests,
            text::texts(names@) == parsed_files(all.take(i as int)),
            failures.wf(),
            forall|rel: Seq<char>|
                text::option_text(#[trigger] order::lookup(failures@, rel)) == failure_of(
                    all.take(i as int),
                    rel,
                ),
        decreases files@.len() - i,
    {
        assert(all.take(i as int + 1).drop_last() =~= all.take(i as int));
        assert(all[i as int] == files@[i as int]@);
        let ghost had_symbols = order::views(symbols@);
        let ghost had_tests = order::views(tests@);
        let ghost had_names = text::texts(names@);
        let ghost had_failures = failures@;
        let file = &files[i];
        let outcome = match &file.source {
            Ok(source) => match parse_file(
                source.as_str(),
                file.rel.as_str(),
                file.crate_name.as_str(),
                &file.modules,
                file.role,
            ) {
                Ok(inv) => Ok(inv),
                Err(e) => Err(e.message()),
            },
            Err(message) => Err(message.clone()),
        };
        match outcome {
            Ok(inv) => {
                let mut inv = inv;
                let ghost more_symbols = inv@.symbols;
                let ghost more_tests = inv@.tests;
                symbols.append(&mut inv.symbols);
                tests.append(&mut inv.tests);
                names.push(file.rel.clone());
                assert(order::views(symbols@) =~= had_symbols + more_symbols);
                assert(order::views(tests@) =~= had_tests + more_tests);
                assert(text::texts(names@) =~= had_names.push(all[i as int].rel));
            },
            Err(message) => {
                failures.put(file.rel.clone(), message);
            },
        }
        i += 1;
    }
    assert(all.take(all.len() as int) =~= all);
    assert(text::texts(names@) =~= order::views(names@));
    let files = order::sort_stable(names);
    assert(text::texts(files@) =~= order::views(files@));
    let r = Inventory {
        root: text::owned(root),
        symbols: order::sort_stable(symbols),
        tests: order::sort_stable(tests),
        files,
        parse_failures: failures,
    };
    assert forall|rel: Seq<char>| #[trigger]
        order::lookup(r@.parse_failures, rel) == failure_of(all, rel) by {
        lemma_text_entries(failures@, rel);
    }
    r
}

// ---------------------------------------------------------------------------
// Laws
// ---------------------------------------------------------------------------

/// Everything found is in one file, and no symbol is among it where only tests
/// can see.
pub open spec fn stays_in(found: Found, place: Place) -> bool {
    &&& forall|i: int|
        0 <= i < found.symbols.len() ==> (#[trigger] found.symbols[i]).id.file == place.file
    &&& forall|i: int|
        0 <= i < found.tests.len() ==> (#[trigger] found.tests[i]).id.file == place.file
    &&& place.in_test_context() ==> found.symbols.len() == 0
}

proof fn lemma_and_stays(a: Found, b: Found, place: Place)
    requires
        stays_in(a, place),
        stays_in(b, place),
    ensures
        stays_in(a.and(b), place),
{
    let both = a.and(b);
    assert forall|i: int| 0 <= i < both.symbols.len() implies (#[trigger] both.symbols[i]).id.file
        == place.file by {
        if i < a.symbols.len() {
            assert(both.symbols[i] == a.symbols[i]);
        } else {
            assert(both.symbols[i] == b.symbols[i - a.symbols.len()]);
        }
    }
    assert forall|i: int| 0 <= i < both.tests.len() implies (#[trigger] both.tests[i]).id.file
        == place.file by {
        if i < a.tests.len() {
            assert(both.tests[i] == a.tests[i]);
        } else {
            assert(both.tests[i] == b.tests[i - a.tests.len()]);
        }
    }
}

proof fn lemma_impl_stays(
    place: Place,
    ty: Seq<char>,
    of: Option<Seq<char>>,
    funcs: Seq<FuncView>,
)
    ensures
        stays_in(found_in_impl(place, ty, of, funcs), place),
    decreases funcs.len(),
{
    if funcs.len() > 0 {
        lemma_impl_stays(place, ty, of, funcs.drop_last());
        lemma_and_stays(
            found_in_impl(place, ty, of, funcs.drop_last()),
            found_in_method(place, ty, of, funcs.last()),
            place,
        );
    }
}

proof fn lemma_trait_stays(
    place: Place,
    name: Seq<char>,
    vis: VisView,
    funcs: Seq<TraitFuncView>,
)
    requires
        !place.in_test_context(),
    ensures
        stays_in(found_in_trait(place, name, vis, funcs), place),
    decreases funcs.len(),
{
    if funcs.len() > 0 {
        lemma_trait_stays(place, name, vis, funcs.drop_last());
        lemma_and_stays(
            found_in_trait(place, name, vis, funcs.drop_last()),
            found_in_default(place, name, vis, funcs.last()),
            place,
        );
    }
}

proof fn lemma_item_stays(place: Place, item: DefinitionView)
    ensures
        stays_in(found_in(place, item), place),
    decreases item,
{
    match item {
        DefinitionView::Impl(ty, of, funcs) => {
            lemma_impl_stays(place, written_type(ty), trait_as(of), funcs);
        },
        DefinitionView::Trait(name, vis, funcs) => {
            if !place.in_test_context() {
                lemma_trait_stays(place, name, vis, funcs);
            }
        },
        DefinitionView::Mod(attrs, name, Some(items)) => {
            law_found_where_it_stands(place.inside(attrs, name), items);
        },
        _ => {},
    }
}

/// What is found in a file is identified by that file, and what only tests can
/// see, a helper in a test module among it, is no symbol.
pub proof fn law_found_where_it_stands(place: Place, items: Seq<DefinitionView>)
    ensures
        stays_in(found_in_all(place, items), place),
    decreases items,
{
    if items.len() > 0 {
        law_found_where_it_stands(place, items.drop_last());
        lemma_item_stays(place, items.last());
        lemma_and_stays(
            found_in_all(place, items.drop_last()),
            found_in(place, items.last()),
            place,
        );
    }
}

/// The symbols, the tests and the files of a workspace are listed in order, each
/// as often as it was found.
pub proof fn law_walk_is_in_order(files: Seq<SourceFileView>)
    ensures
        order::in_order::<Symbol>(order::sorted::<Symbol>(gathered(files).symbols)),
        order::in_order::<TestItem>(order::sorted::<TestItem>(gathered(files).tests)),
        order::in_order::<String>(order::sorted::<String>(parsed_files(files))),
        order::sorted::<Symbol>(gathered(files).symbols).to_multiset() == gathered(
            files,
        ).symbols.to_multiset(),
        order::sorted::<TestItem>(gathered(files).tests).to_multiset() == gathered(
            files,
        ).tests.to_multiset(),
        order::sorted::<String>(parsed_files(files)).to_multiset() == parsed_files(
            files,
        ).to_multiset(),
{
    order::lemma_sorted::<Symbol>(gathered(files).symbols);
    order::lemma_sorted::<TestItem>(gathered(files).tests);
    order::lemma_sorted::<String>(parsed_files(files));
}

/// No file is swallowed: one that parses is listed, and for one that does not a
/// reason is recorded.
pub proof fn law_every_file_is_accounted_for(files: Seq<SourceFileView>, i: int)
    requires
        0 <= i < files.len(),
    ensures
        files[i].outcome() is Ok ==> parsed_files(files).contains(files[i].rel),
        files[i].outcome() is Err ==> failure_of(files, files[i].rel) is Some,
    decreases files.len(),
{
    let front = files.drop_last();
    if i < front.len() {
        law_every_file_is_accounted_for(front, i);
        assert(front[i] == files[i]);
        if files[i].outcome() is Ok {
            let before = parsed_files(front);
            let k = choose|k: int| 0 <= k < before.len() && before[k] == files[i].rel;
            assert(parsed_files(files)[k] == files[i].rel);
        }
    } else if files[i].outcome() is Ok {
        let all = parsed_files(files);
        assert(all[all.len() - 1] == files[i].rel);
    }
}

} // verus!
