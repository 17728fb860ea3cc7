//! Assembling and rendering the audit.
//!
//! A report is deliberately careful about what it claims. Everything in the
//! audit is static: it can say a test's oracles *cannot* discriminate, and it can
//! say a symbol is claimed by nobody. It cannot say a symbol is verified, which
//! needs mutation evidence. Reports that blur the two are how coverage numbers
//! became untrustworthy in the first place.

use vstd::prelude::*;
use crate::claims;
use crate::claims::{ClaimMap, ClaimView};
use crate::coverage;
use crate::coverage::{CoverageMap, SymbolCoverage};
use crate::inventory;
use crate::inventory::{
    Inventory, InventoryView, TestId, TestIdView, TestItem, TestItemView, TestKind,
};
use crate::lint;
use crate::lint::{Finding, FindingView, OracleStrength, Severity, TestOracles, TestOraclesView};
use crate::mutation::Verification;
use crate::order;
use crate::order::{Key, KeySet, Ranked, Table};
use crate::symbol::{Symbol, SymbolIdView, SymbolView, Triviality};
use crate::text;
use crate::text::AtSpace;

verus! {

// ---------------------------------------------------------------------------
// Shaping text
// ---------------------------------------------------------------------------

/// A text of at most `max` characters: as it is, or cut with a mark.
pub open spec fn truncated(s: Seq<char>, max: int) -> Seq<char> {
    if s.len() <= max {
        s
    } else if max <= 0 {
        seq!['~']
    } else {
        s.take(max - 1).push('~')
    }
}

/// Cuts a text that is longer than `max` characters, and marks the cut.
pub fn truncate(s: &str, max: usize) -> (r: String)
    ensures
        r@ == truncated(s@, max as int),
{
    let cs = text::chars_of(s);
    if cs.len() <= max {
        return text::owned(s);
    }
    let kept: usize = if max == 0 {
        0
    } else {
        max - 1
    };
    let mut out = text::text_of(vstd::slice::slice_subrange(&cs, 0, kept));
    assert(out@ =~= s@.take(kept as int));
    out.push('~');
    assert(max == 0 ==> out@ =~= seq!['~']);
    out
}

/// A cut text has exactly the characters it may have, and only a text that is too
/// long is cut.
pub proof fn law_truncation(s: Seq<char>, max: int)
    requires
        max >= 1,
    ensures
        truncated(s, max).len() <= max,
        s.len() <= max ==> truncated(s, max) == s,
        s.len() > max ==> truncated(s, max).len() == max && truncated(s, max).last() == '~'
            && truncated(s, max).take(max - 1) == s.take(max - 1),
{
    if s.len() > max {
        assert(truncated(s, max).take(max - 1) =~= s.take(max - 1));
    }
}

/// A count and its noun, which agree.
pub open spec fn counted(n: nat, noun: Seq<char>) -> Seq<char> {
    if n == 1 {
        text::decimal_of(n) + " "@ + noun
    } else {
        text::decimal_of(n) + " "@ + noun + "s"@
    }
}

/// Agrees a noun with its count.
pub fn plural(n: usize, noun: &str) -> (r: String)
    ensures
        r@ == counted(n as nat, noun@),
{
    let mut out = text::count(n);
    out.append(" ");
    out.append(noun);
    if n != 1 {
        out.append("s");
    }
    out
}

/// Lines that are being filled with words.
#[verifier::ext_equal]
pub struct Filling {
    /// The lines that are full.
    pub lines: Seq<Seq<char>>,
    /// The line that is being filled.
    pub current: Seq<char>,
}

impl Filling {
    /// Every line.
    pub open spec fn all(self) -> Seq<Seq<char>> {
        if self.current.len() == 0 {
            self.lines
        } else {
            self.lines.push(self.current)
        }
    }
}

/// Words filled into lines of `room` bytes: a word goes on the current line where
/// it fits there behind a blank.
pub open spec fn fill(words: Seq<Seq<char>>, room: int) -> Filling
    decreases words.len(),
{
    if words.len() == 0 {
        Filling { lines: Seq::empty(), current: Seq::empty() }
    } else {
        let before = fill(words.drop_last(), room);
        let word = words.last();
        if before.current.len() == 0 {
            Filling { lines: before.lines, current: word }
        } else if text::bytes_of(before.current) + text::bytes_of(word) + 1 > room {
            Filling { lines: before.lines.push(before.current), current: word }
        } else {
            Filling { lines: before.lines, current: before.current + " "@ + word }
        }
    }
}

/// A text in lines of `width` bytes, of which those behind the first begin with
/// `indent` blanks.
pub open spec fn wrapped(s: Seq<char>, indent: int, width: int) -> Seq<char> {
    text::join_of(
        fill(text::words_of::<AtSpace>(s), width - indent).all(),
        "\n"@ + text::blanks(indent),
    )
}

/// Wraps a text to a width, and indents every line but the first.
pub fn wrap(s: &str, indent: usize, width: usize) -> (r: String)
    requires
        indent <= width,
    ensures
        r@ == wrapped(s@, indent as int, width as int),
{
    let room: usize = width - indent;
    let words = text::words::<AtSpace>(s);
    let ghost all = text::words_of::<AtSpace>(s@);
    let mut lines: Vec<String> = Vec::new();
    let mut current = String::new();
    let mut i: usize = 0;
    assert(text::texts(lines@) =~= fill(all.take(0), room as int).lines);
    assert(current@ =~= fill(all.take(0), room as int).current);
    while i < words.len()
        invariant
            i <= words@.len(),
            all == text::texts(words@),
            text::texts(lines@) == fill(all.take(i as int), room as int).lines,
            current@ == fill(all.take(i as int), room as int).current,
        decreases words@.len() - i,
    {
        assert(all.take(i as int + 1).drop_last() =~= all.take(i as int));
        assert(all[i as int] == words@[i as int]@);
        let word = words[i].as_str();
        let ghost before = fill(all.take(i as int), room as int);
        let used: usize = text::byte_len(current.as_str());
        let more: usize = text::byte_len(word);
        proof {
            lemma_bytes_empty(current@);
        }
        if used > 0 && (used >= room || more >= room - used) {
            lines.push(current);
            assert(text::texts(lines@) =~= before.lines.push(before.current));
            current = text::owned(word);
        } else {
            if used > 0 {
                current.append(" ");
            }
            current.append(word);
            assert(used == 0 ==> current@ =~= word@);
        }
        i += 1;
    }
    assert(all.take(all.len() as int) =~= all);
    let ghost filled = fill(all, room as int);
    proof {
        lemma_bytes_empty(current@);
    }
    if text::byte_len(current.as_str()) > 0 {
        lines.push(current);
        assert(text::texts(lines@) =~= filled.lines.push(filled.current));
    }
    let mut sep = text::owned("\n");
    text::push_blanks(&mut sep, indent);
    text::join(&lines, sep.as_str())
}

/// Only the empty text has no bytes.
proof fn lemma_bytes_empty(s: Seq<char>)
    ensures
        text::bytes_of(s) == 0 <==> s.len() == 0,
    decreases s.len(),
{
    if s.len() > 0 {
        lemma_bytes_empty(s.drop_last());
    }
}

/// The last two segments of a path. A method of a trait's impl is written
/// `module::<Type as Trait>::method`, and keeps everything from the bracket on.
pub open spec fn leaf_path_of(path: Seq<char>) -> Seq<char> {
    match text::last_occurrence(path, "::<"@) {
        Some(i) => path.skip(i + 2),
        None => match text::last_occurrence(path, "::"@) {
            Some(i) => match text::last_occurrence(path.take(i), "::"@) {
                Some(k) => path.skip(k + 2),
                None => path,
            },
            None => path,
        },
    }
}

/// Drops the crate and module prefix, keeping the last two path segments.
pub fn leaf_path(path: &str) -> (r: String)
    ensures
        r@ == leaf_path_of(path@),
{
    let cs = text::chars_of(path);
    let n: usize = cs.len();
    let open = text::chars_of("::<");
    let sep = text::chars_of("::");
    proof {
        reveal_strlit("::<");
        reveal_strlit("::");
        text::lemma_last_at(path@, "::<"@, path@.len() - "::<"@.len());
        text::lemma_last_at(path@, "::"@, path@.len() - "::"@.len());
    }
    if let Some(i) = text::find_last(&cs, &open) {
        assert(cs@.subrange(i + 2, n as int) =~= path@.skip(i + 2));
        return text::text_of(vstd::slice::slice_subrange(&cs, i + 2, n));
    }
    if let Some(i) = text::find_last(&cs, &sep) {
        let head = vstd::slice::slice_subrange(&cs, 0, i);
        assert(head@ =~= path@.take(i as int));
        proof {
            text::lemma_last_at(head@, "::"@, head@.len() - "::"@.len());
        }
        if let Some(k) = text::find_last(head, &sep) {
            assert(cs@.subrange(k + 2, n as int) =~= path@.skip(k + 2));
            return text::text_of(vstd::slice::slice_subrange(&cs, k + 2, n));
        }
    }
    text::owned(path)
}

/// No line is longer than the room there is, but for a single word that is.
pub proof fn law_wrap_respects_the_width(words: Seq<Seq<char>>, room: int, i: int)
    requires
        0 <= i < fill(words, room).all().len(),
    ensures
        text::bytes_of(fill(words, room).all()[i]) <= room || words.contains(
            fill(words, room).all()[i],
        ),
    decreases words.len(),
{
    if words.len() > 0 {
        let front = words.drop_last();
        let before = fill(front, room);
        let all = before.all();
        let line = fill(words, room).all()[i];
        if i < all.len() && line == all[i] {
            law_wrap_respects_the_width(front, room, i);
            if front.contains(line) {
                let k = choose|k: int| 0 <= k < front.len() && front[k] == line;
                assert(words[k] == line);
            }
        } else if line == words.last() {
            assert(words[words.len() - 1] == line);
        } else {
            reveal_strlit(" ");
            text::lemma_bytes_concat(before.current, " "@);
            text::lemma_bytes_concat(before.current + " "@, words.last());
            assert(" "@ =~= seq![' ']);
            assert(seq![' '].drop_last() =~= Seq::<char>::empty());
            assert(text::bytes_of(seq![' '].drop_last()) == 0);
            assert(text::bytes_of(" "@) == 1);
        }
    }
}

/// Every piece that is kept has characters.
proof fn lemma_nonempty(ps: Seq<Seq<char>>)
    ensures
        forall|i: int|
            0 <= i < text::nonempty(ps).len() ==> (#[trigger] text::nonempty(ps)[i]).len() > 0,
    decreases ps.len(),
{
    if ps.len() > 0 {
        lemma_nonempty(ps.drop_last());
        let before = text::nonempty(ps.drop_last());
        let all = text::nonempty(ps);
        assert forall|i: int| 0 <= i < all.len() implies (#[trigger] all[i]).len() > 0 by {
            if i < before.len() {
                assert(all[i] == before[i]);
            }
        }
    }
}

proof fn lemma_fill_keeps(words: Seq<Seq<char>>, room: int)
    requires
        forall|i: int| 0 <= i < words.len() ==> (#[trigger] words[i]).len() > 0,
    ensures
        text::join_of(fill(words, room).all(), " "@) == text::join_of(words, " "@),
        words.len() > 0 ==> fill(words, room).current.len() > 0,
        words.len() == 0 ==> fill(words, room).all().len() == 0,
    decreases words.len(),
{
    if words.len() == 0 {
        assert(fill(words, room).all() =~= words);
    } else {
        let front = words.drop_last();
        let word = words.last();
        let sep = " "@;
        assert forall|i: int| 0 <= i < front.len() implies (#[trigger] front[i]).len() > 0 by {
            assert(front[i] == words[i]);
        }
        assert(words[words.len() - 1] == word);
        lemma_fill_keeps(front, room);
        let before = fill(front, room);
        let after = fill(words, room);
        if front.len() == 0 {
            assert(after.all() =~= words);
        } else {
            assert(words.len() > 1);
            if text::bytes_of(before.current) + text::bytes_of(word) + 1 > room {
                assert(after.all().drop_last() =~= before.all());
                assert(after.all().last() == word);
            } else {
                let lines = before.lines;
                assert(before.all().drop_last() =~= lines);
                assert(after.all().drop_last() =~= lines);
                if lines.len() == 0 {
                    assert(before.all()[0] == before.current);
                    assert(after.all()[0] == before.current + sep + word);
                } else {
                    assert(text::join_of(lines, sep) + sep + (before.current + sep + word)
                        =~= text::join_of(lines, sep) + sep + before.current + sep + word);
                }
            }
        }
    }
}

/// Wrapping loses, adds and reorders no word.
pub proof fn law_wrap_keeps_the_words(s: Seq<char>, room: int)
    ensures
        text::join_of(fill(text::words_of::<AtSpace>(s), room).all(), " "@) == text::join_of(
            text::words_of::<AtSpace>(s),
            " "@,
        ),
{
    lemma_nonempty(text::pieces_of::<AtSpace>(s));
    lemma_fill_keeps(text::words_of::<AtSpace>(s), room);
}

// ---------------------------------------------------------------------------
// The audit
// ---------------------------------------------------------------------------

impl View for OracleStrength {
    type V = OracleStrength;

    open spec fn view(&self) -> OracleStrength {
        *self
    }
}

impl Key for OracleStrength {
    open spec fn precedes(a: OracleStrength, b: OracleStrength) -> bool {
        a.rank() < b.rank()
    }

    proof fn lt_irreflexive(a: OracleStrength) {
    }

    proof fn lt_transitive(a: OracleStrength, b: OracleStrength, c: OracleStrength) {
    }

    proof fn lt_total(a: OracleStrength, b: OracleStrength) {
    }

    fn before(&self, other: &Self) -> bool {
        self.level() < other.level()
    }

    fn same(&self, other: &Self) -> bool {
        *self == *other
    }

    fn copy(&self) -> Self {
        *self
    }
}

/// The counts of an audit.
pub struct Summary {
    /// How many files were read.
    pub files: usize,
    /// How many symbols there are.
    pub symbols_total: usize,
    /// How many symbols are worth scoring.
    pub symbols_scorable: usize,
    /// How many symbols are accessors.
    pub symbols_accessor: usize,
    /// How many scorable symbols no test claims.
    pub symbols_unclaimed: usize,
    /// How many tests there are.
    pub tests_total: usize,
    /// How many tests are doctests.
    pub doctests: usize,
    /// How many tests have each strength that some test has.
    pub strength: Table<OracleStrength, usize>,
    /// How many findings are of high severity.
    pub findings_high: usize,
    /// How many findings are of medium severity.
    pub findings_medium: usize,
    /// How many findings are of low severity.
    pub findings_low: usize,
}

/// The counts of an audit, as mathematical values.
#[verifier::ext_equal]
pub struct SummaryView {
    pub files: nat,
    pub symbols_total: nat,
    pub symbols_scorable: nat,
    pub symbols_accessor: nat,
    pub symbols_unclaimed: nat,
    pub tests_total: nat,
    pub doctests: nat,
    pub strength: Seq<(OracleStrength, usize)>,
    pub findings_high: nat,
    pub findings_medium: nat,
    pub findings_low: nat,
}

impl View for Summary {
    type V = SummaryView;

    open spec fn view(&self) -> SummaryView {
        SummaryView {
            files: self.files as nat,
            symbols_total: self.symbols_total as nat,
            symbols_scorable: self.symbols_scorable as nat,
            symbols_accessor: self.symbols_accessor as nat,
            symbols_unclaimed: self.symbols_unclaimed as nat,
            tests_total: self.tests_total as nat,
            doctests: self.doctests as nat,
            strength: self.strength@,
            findings_high: self.findings_high as nat,
            findings_medium: self.findings_medium as nat,
            findings_low: self.findings_low as nat,
        }
    }
}

/// The static audit of a workspace.
pub struct Report {
    /// The counts.
    pub summary: Summary,
    /// The verdict for each test.
    pub tests: Vec<TestOracles>,
    /// Every finding, the most severe first.
    pub findings: Vec<Finding>,
    /// Scorable symbols that no test claims, even weakly. A coverage proxy that
    /// needs no build: nothing nominally speaks for these at all.
    pub unclaimed: Vec<String>,
    /// Files that could not be read, with the reason.
    pub parse_failures: Table<String, String>,
}

/// The static audit of a workspace, as a mathematical value.
#[verifier::ext_equal]
pub struct ReportView {
    pub summary: SummaryView,
    pub tests: Seq<TestOraclesView>,
    pub findings: Seq<FindingView>,
    pub unclaimed: Seq<Seq<char>>,
    pub parse_failures: Seq<(Seq<char>, Seq<char>)>,
}

impl View for Report {
    type V = ReportView;

    open spec fn view(&self) -> ReportView {
        ReportView {
            summary: self.summary@,
            tests: order::views(self.tests@),
            findings: order::views(self.findings@),
            unclaimed: text::texts(self.unclaimed@),
            parse_failures: inventory::text_entries(self.parse_failures@),
        }
    }
}

/// The place of the first verdict on a test.
pub open spec fn place_of(tests: Seq<TestOraclesView>, id: TestIdView) -> Option<int>
    decreases tests.len(),
{
    if tests.len() == 0 {
        None
    } else {
        match place_of(tests.drop_last(), id) {
            Some(i) => Some(i),
            None => if tests.last().test == id {
                Some(tests.len() - 1)
            } else {
                None
            },
        }
    }
}

/// The verdicts, with a finding added to the first one on its test.
pub open spec fn with_finding(tests: Seq<TestOraclesView>, f: FindingView) -> Seq<TestOraclesView> {
    match place_of(tests, f.test) {
        Some(i) => tests.update(
            i,
            TestOraclesView { findings: tests[i].findings.push(f), ..tests[i] },
        ),
        None => tests,
    }
}

/// The verdicts, with each of a list of findings added to the one on its test.
pub open spec fn with_findings(tests: Seq<TestOraclesView>, fs: Seq<FindingView>) -> Seq<
    TestOraclesView,
>
    decreases fs.len(),
{
    if fs.len() == 0 {
        tests
    } else {
        with_finding(with_findings(tests, fs.drop_last()), fs.last())
    }
}

/// The verdict on every test of a workspace: what its body shows, and the
/// mismatches between what it claims and what it looks at.
pub open spec fn verdicts(inv: InventoryView) -> Seq<TestOraclesView> {
    let alone = lint::oracles_in(inv);
    with_findings(alone, lint::mismatches_of(inv.symbols, claims::claims_in(inv), alone))
}

/// The findings of all verdicts, in their order.
pub open spec fn gathered(tests: Seq<TestOraclesView>) -> Seq<FindingView>
    decreases tests.len(),
{
    if tests.len() == 0 {
        Seq::empty()
    } else {
        gathered(tests.drop_last()) + tests.last().findings
    }
}

impl Ranked for Finding {
    /// The most severe first, those of one severity by file and line.
    open spec fn ranks(a: FindingView, b: FindingView) -> bool {
        let x = a.rule.weight().rank();
        let y = b.rule.weight().rank();
        x > y || (x == y && (text::earlier(a.test.file, b.test.file) || (a.test.file == b.test.file
            && a.line <= b.line)))
    }

    proof fn le_total(a: FindingView, b: FindingView) {
        text::lemma_earlier_total(a.test.file, b.test.file);
    }

    proof fn le_transitive(a: FindingView, b: FindingView, c: FindingView) {
        if text::earlier(a.test.file, b.test.file) && text::earlier(b.test.file, c.test.file) {
            text::lemma_earlier_transitive(a.test.file, b.test.file, c.test.file);
        }
    }

    fn may_precede(&self, other: &Self) -> bool {
        let x: u8 = self.rule.severity().level();
        let y: u8 = other.rule.severity().level();
        if x != y {
            return x > y;
        }
        let a = self.test.file.as_str();
        let b = other.test.file.as_str();
        text::comes_before(a, b) || (text::same(a, b) && self.line <= other.line)
    }
}

/// The findings of an audit, in the order of the report.
pub open spec fn ordered_findings(tests: Seq<TestOraclesView>) -> Seq<FindingView> {
    order::sorted::<Finding>(gathered(tests))
}

/// How many tests have a strength.
pub open spec fn with_strength(tests: Seq<TestOraclesView>, k: OracleStrength) -> nat
    decreases tests.len(),
{
    if tests.len() == 0 {
        0
    } else if tests.last().strength == k {
        with_strength(tests.drop_last(), k) + 1
    } else {
        with_strength(tests.drop_last(), k)
    }
}

/// How many findings have a severity.
pub open spec fn with_severity(fs: Seq<FindingView>, k: Severity) -> nat
    decreases fs.len(),
{
    if fs.len() == 0 {
        0
    } else if fs.last().rule.weight() == k {
        with_severity(fs.drop_last(), k) + 1
    } else {
        with_severity(fs.drop_last(), k)
    }
}

/// How many symbols are accessors.
pub open spec fn accessors(symbols: Seq<SymbolView>) -> nat
    decreases symbols.len(),
{
    if symbols.len() == 0 {
        0
    } else if symbols.last().triviality == Triviality::Accessor {
        accessors(symbols.drop_last()) + 1
    } else {
        accessors(symbols.drop_last())
    }
}

/// How many tests are doctests.
pub open spec fn doctests(tests: Seq<TestItemView>) -> nat
    decreases tests.len(),
{
    if tests.len() == 0 {
        0
    } else if tests.last().kind == TestKind::Doctest {
        doctests(tests.drop_last()) + 1
    } else {
        doctests(tests.drop_last())
    }
}

/// The symbols that no test claims, even weakly.
pub open spec fn unclaimed_in(inv: InventoryView) -> Seq<SymbolView> {
    claims::unclaimed_of(claims::claims_in(inv), inventory::scorable_of(inv.symbols), false)
}

/// The paths of symbols.
pub open spec fn paths_of(symbols: Seq<SymbolView>) -> Seq<Seq<char>> {
    symbols.map_values(|s: SymbolView| s.path)
}

/// The table has an entry for each strength that some test has, with how many
/// tests have it.
pub open spec fn tallies(table: Seq<(OracleStrength, usize)>, tests: Seq<TestOraclesView>) -> bool {
    &&& order::increasing::<OracleStrength>(order::keys(table))
    &&& forall|k: OracleStrength|
        #[trigger]
        order::lookup(table, k) == if with_strength(tests, k) == 0 {
            None::<usize>
        } else {
            Some(with_strength(tests, k) as usize)
        }
}

/// Where the first verdict on a test stands.
fn find_verdict(tests: &Vec<TestOracles>, id: &TestId) -> (r: Option<usize>)
    ensures
        match r {
            Some(i) => i < tests@.len() && place_of(order::views(tests@), id@) == Some(i as int),
            None => place_of(order::views(tests@), id@) is None,
        },
{
    let ghost all = order::views(tests@);
    let mut i: usize = 0;
    while i < tests.len()
        invariant
            i <= tests@.len(),
            all == order::views(tests@),
            place_of(all.take(i as int), id@) is None,
        decreases tests@.len() - i,
    {
        assert(all.take(i as int + 1).drop_last() =~= all.take(i as int));
        assert(all[i as int] == tests@[i as int]@);
        if tests[i].test.same(id) {
            proof {
                lemma_place_prefix(all, id@, i as int + 1);
            }
            return Some(i);
        }
        i += 1;
    }
    assert(all.take(all.len() as int) =~= all);
    None
}

/// What stands in a part of the list stands there in the whole.
proof fn lemma_place_prefix(tests: Seq<TestOraclesView>, id: TestIdView, n: int)
    requires
        0 <= n <= tests.len(),
        place_of(tests.take(n), id) is Some,
    ensures
        place_of(tests, id) == place_of(tests.take(n), id),
    decreases tests.len() - n,
{
    if n == tests.len() {
        assert(tests.take(n) =~= tests);
    } else {
        assert(tests.take(n + 1).drop_last() =~= tests.take(n));
        lemma_place_prefix(tests, id, n + 1);
    }
}

/// Adds each finding to the verdict on its test.
fn fold_findings(tests: Vec<TestOracles>, fs: &Vec<Finding>) -> (r: Vec<TestOracles>)
    ensures
        order::views(r@) == with_findings(order::views(tests@), order::views(fs@)),
        r@.len() == tests@.len(),
{
    let ghost start = order::views(tests@);
    let ghost all = order::views(fs@);
    let mut out = tests;
    let mut i: usize = 0;
    while i < fs.len()
        invariant
            i <= fs@.len(),
            all == order::views(fs@),
            out@.len() == start.len(),
            order::views(out@) == with_findings(start, all.take(i as int)),
        decreases fs@.len() - i,
    {
        assert(all.take(i as int + 1).drop_last() =~= all.take(i as int));
        assert(all[i as int] == fs@[i as int]@);
        let ghost before = order::views(out@);
        match find_verdict(&out, &fs[i].test) {
            Some(k) => {
                assert(before[k as int] == out@[k as int]@);
                let mut o = out.remove(k);
                let ghost told = order::views(o.findings@);
                o.findings.push(fs[i].copy());
                assert(order::views(o.findings@) =~= told.push(all[i as int]));
                let ghost ov = o@;
                out.insert(k, o);
                assert(order::views(out@) =~= before.update(k as int, ov));
            },
            None => {},
        }
        i += 1;
    }
    assert(all.take(all.len() as int) =~= all);
    out
}

/// Gathers the findings of all verdicts.
fn gather(tests: &Vec<TestOracles>) -> (r: Vec<Finding>)
    ensures
        order::views(r@) == gathered(order::views(tests@)),
{
    let ghost all = order::views(tests@);
    let mut out: Vec<Finding> = Vec::new();
    let mut i: usize = 0;
    assert(order::views(out@) =~= gathered(all.take(0)));
    while i < tests.len()
        invariant
            i <= tests@.len(),
            all == order::views(tests@),
            order::views(out@) == gathered(all.take(i as int)),
        decreases tests@.len() - i,
    {
        assert(all.take(i as int + 1).drop_last() =~= all.take(i as int));
        assert(all[i as int] == tests@[i as int]@);
        let ghost before = order::views(out@);
        let fs = &tests[i].findings;
        let ghost more = order::views(fs@);
        let mut k: usize = 0;
        assert(before + more.take(0) =~= before);
        while k < fs.len()
            invariant
                k <= fs@.len(),
                more == order::views(fs@),
                order::views(out@) == before + more.take(k as int),
            decreases fs@.len() - k,
        {
            let ghost now = order::views(out@);
            assert(more[k as int] == fs@[k as int]@);
            out.push(fs[k].copy());
            assert(order::views(out@) =~= now.push(more[k as int]));
            assert(before + more.take(k as int + 1) =~= now.push(more[k as int]));
            k += 1;
        }
        assert(more.take(more.len() as int) =~= more);
        i += 1;
    }
    assert(all.take(all.len() as int) =~= all);
    out
}

/// Counts the tests of each strength.
fn tally(tests: &Vec<TestOracles>) -> (r: Table<OracleStrength, usize>)
    ensures
        tallies(r@, order::views(tests@)),
{
    let ghost all = order::views(tests@);
    let mut out: Table<OracleStrength, usize> = Table::new();
    let mut i: usize = 0;
    while i < tests.len()
        invariant
            i <= tests@.len(),
            all == order::views(tests@),
            tallies(out@, all.take(i as int)),
        decreases tests@.len() - i,
    {
        let ghost front = all.take(i as int);
        assert(all.take(i as int + 1).drop_last() =~= front);
        assert(all[i as int] == tests@[i as int]@);
        let k = tests[i].strength;
        proof {
            lemma_with_strength_bound(front, k);
        }
        let ghost before = out@;
        let n: usize = match out.get(&k) {
            Some(n) => *n,
            None => 0,
        };
        assert(order::lookup(before, k) == if with_strength(front, k) == 0 {
            None::<usize>
        } else {
            Some(with_strength(front, k) as usize)
        });
        assert(n == with_strength(front, k));
        out.put(k, n + 1);
        assert forall|j: OracleStrength|
            #[trigger]
            order::lookup(out@, j) == if with_strength(all.take(i as int + 1), j) == 0 {
                None::<usize>
            } else {
                Some(with_strength(all.take(i as int + 1), j) as usize)
            } by {
            assert(order::lookup(before, j) == if with_strength(front, j) == 0 {
                None::<usize>
            } else {
                Some(with_strength(front, j) as usize)
            });
        }
        i += 1;
    }
    assert(all.take(all.len() as int) =~= all);
    out
}

proof fn lemma_with_strength_bound(tests: Seq<TestOraclesView>, k: OracleStrength)
    ensures
        with_strength(tests, k) <= tests.len(),
    decreases tests.len(),
{
    if tests.len() > 0 {
        lemma_with_strength_bound(tests.drop_last(), k);
    }
}

/// Counts the findings of a severity.
fn count_severity(fs: &Vec<Finding>, k: Severity) -> (r: usize)
    ensures
        r == with_severity(order::views(fs@), k),
{
    let ghost all = order::views(fs@);
    let mut n: usize = 0;
    let mut i: usize = 0;
    while i < fs.len()
        invariant
            n <= i <= fs@.len(),
            all == order::views(fs@),
            n == with_severity(all.take(i as int), k),
        decreases fs@.len() - i,
    {
        assert(all.take(i as int + 1).drop_last() =~= all.take(i as int));
        assert(all[i as int] == fs@[i as int]@);
        if fs[i].rule.severity() == k {
            n += 1;
        }
        i += 1;
    }
    assert(all.take(all.len() as int) =~= all);
    n
}

fn count_accessors(symbols: &Vec<Symbol>) -> (r: usize)
    ensures
        r == accessors(order::views(symbols@)),
{
    let ghost all = order::views(symbols@);
    let mut n: usize = 0;
    let mut i: usize = 0;
    while i < symbols.len()
        invariant
            n <= i <= symbols@.len(),
            all == order::views(symbols@),
            n == accessors(all.take(i as int)),
        decreases symbols@.len() - i,
    {
        assert(all.take(i as int + 1).drop_last() =~= all.take(i as int));
        assert(all[i as int] == symbols@[i as int]@);
        if symbols[i].triviality == Triviality::Accessor {
            n += 1;
        }
        i += 1;
    }
    assert(all.take(all.len() as int) =~= all);
    n
}

fn count_doctests(tests: &Vec<TestItem>) -> (r: usize)
    ensures
        r == doctests(order::views(tests@)),
{
    let ghost all = order::views(tests@);
    let mut n: usize = 0;
    let mut i: usize = 0;
    while i < tests.len()
        invariant
            n <= i <= tests@.len(),
            all == order::views(tests@),
            n == doctests(all.take(i as int)),
        decreases tests@.len() - i,
    {
        assert(all.take(i as int + 1).drop_last() =~= all.take(i as int));
        assert(all[i as int] == tests@[i as int]@);
        if tests[i].kind == TestKind::Doctest {
            n += 1;
        }
        i += 1;
    }
    assert(all.take(all.len() as int) =~= all);
    n
}

fn paths(symbols: &Vec<&Symbol>) -> (r: Vec<String>)
    ensures
        text::texts(r@) == paths_of(inventory::symbol_views(symbols@)),
        r@.len() == symbols@.len(),
{
    let ghost all = inventory::symbol_views(symbols@);
    let mut out: Vec<String> = Vec::new();
    let mut i: usize = 0;
    while i < symbols.len()
        invariant
            i <= symbols@.len(),
            out@.len() == i,
            all == inventory::symbol_views(symbols@),
            forall|k: int| 0 <= k < i ==> (#[trigger] out@[k])@ == paths_of(all)[k],
        decreases symbols@.len() - i,
    {
        assert(all[i as int] == symbols@[i as int]@);
        out.push(symbols[i].path.clone());
        i += 1;
    }
    assert(text::texts(out@) =~= paths_of(all));
    out
}

/// A copy of a table of texts.
fn copy_table(t: &Table<String, String>) -> (r: Table<String, String>)
    ensures
        inventory::text_entries(r@) == inventory::text_entries(t@),
{
    let mut entries: Vec<(String, String)> = Vec::new();
    let mut i: usize = 0;
    while i < t.entries.len()
        invariant
            i <= t.entries@.len(),
            entries@.len() == i,
            forall|k: int|
                0 <= k < i ==> (#[trigger] entries@[k]).0@ == t.entries@[k].0@ && entries@[k].1@
                    == t.entries@[k].1@,
        decreases t.entries@.len() - i,
    {
        entries.push((t.entries[i].0.clone(), t.entries[i].1.clone()));
        i += 1;
    }
    let r = Table { entries };
    assert(inventory::text_entries(r@) =~= inventory::text_entries(t@));
    r
}

impl Report {
    /// Assembles the audit of a workspace.
    pub fn build(inv: &Inventory) -> (r: Self)
        ensures
            r@.tests == verdicts(inv@),
            r@.findings == ordered_findings(verdicts(inv@)),
            r@.unclaimed == paths_of(unclaimed_in(inv@)),
            r@.parse_failures == inv@.parse_failures,
            tallies(r@.summary.strength, verdicts(inv@)),
            r@.summary == (SummaryView {
                files: inv@.files.len(),
                symbols_total: inv@.symbols.len(),
                symbols_scorable: inventory::scorable_of(inv@.symbols).len(),
                symbols_accessor: accessors(inv@.symbols),
                symbols_unclaimed: unclaimed_in(inv@).len(),
                tests_total: inv@.tests.len(),
                doctests: doctests(inv@.tests),
                strength: r@.summary.strength,
                findings_high: with_severity(gathered(verdicts(inv@)), Severity::High),
                findings_medium: with_severity(gathered(verdicts(inv@)), Severity::Medium),
                findings_low: with_severity(gathered(verdicts(inv@)), Severity::Low),
            }),
    {
        let claims = ClaimMap::build(inv);
        let alone = lint::analyze(inv);
        // A mismatch is known only across the inventory and the claims, so it is
        // not known when a test is analyzed alone. It is folded back into the
        // per-test view, which is the part of the report worth reading.
        let shape = lint::shape_mismatches(inv, &claims, &alone);
        let tests = fold_findings(alone, &shape);
        let found = gather(&tests);
        let findings_high: usize = count_severity(&found, Severity::High);
        let findings_medium: usize = count_severity(&found, Severity::Medium);
        let findings_low: usize = count_severity(&found, Severity::Low);
        let findings = order::sort_stable(found);
        let strength = tally(&tests);
        let loose = claims.unclaimed(inv, false);
        let unclaimed = paths(&loose);
        let scorable = inv.scorable();
        assert(inventory::symbol_views(scorable@).len() == scorable@.len());
        assert(inventory::symbol_views(loose@).len() == loose@.len());
        let summary = Summary {
            files: inv.files.len(),
            symbols_total: inv.symbols.len(),
            symbols_scorable: scorable.len(),
            symbols_accessor: count_accessors(&inv.symbols),
            symbols_unclaimed: unclaimed.len(),
            tests_total: inv.tests.len(),
            doctests: count_doctests(&inv.tests),
            strength,
            findings_high,
            findings_medium,
            findings_low,
        };
        Report {
            summary,
            tests,
            findings,
            unclaimed,
            parse_failures: copy_table(&inv.parse_failures),
        }
    }
}

/// The findings of a list at or above a severity.
pub open spec fn at_least(fs: Seq<FindingView>, floor: Severity) -> Seq<FindingView>
    decreases fs.len(),
{
    if fs.len() == 0 {
        Seq::empty()
    } else if fs.last().rule.weight().rank() >= floor.rank() {
        at_least(fs.drop_last(), floor).push(fs.last())
    } else {
        at_least(fs.drop_last(), floor)
    }
}

/// The views of a list of borrowed findings.
pub open spec fn finding_views(fs: Seq<&Finding>) -> Seq<FindingView> {
    fs.map_values(|f: &Finding| f@)
}

impl Report {
    /// Findings at or above a severity floor.
    pub fn findings_at_least(&self, floor: Severity) -> (r: Vec<&Finding>)
        ensures
            finding_views(r@) == at_least(self@.findings, floor),
            r@.len() == at_least(self@.findings, floor).len(),
    {
        let ghost all = self@.findings;
        let mut out: Vec<&Finding> = Vec::new();
        let mut i: usize = 0;
        assert(finding_views(out@) =~= at_least(all.take(0), floor));
        while i < self.findings.len()
            invariant
                i <= self.findings@.len(),
                all == self@.findings,
                finding_views(out@) == at_least(all.take(i as int), floor),
            decreases self.findings@.len() - i,
        {
            let ghost before = finding_views(out@);
            assert(all.take(i as int + 1).drop_last() =~= all.take(i as int));
            assert(all[i as int] == self.findings@[i as int]@);
            if self.findings[i].rule.severity().level() >= floor.level() {
                out.push(&self.findings[i]);
                assert(finding_views(out@) =~= before.push(all[i as int]));
            }
            i += 1;
        }
        assert(all.take(all.len() as int) =~= all);
        assert(finding_views(out@).len() == out@.len());
        out
    }
}

// ---------------------------------------------------------------------------
// Laws of the audit
// ---------------------------------------------------------------------------

/// A finding is at or above the floor exactly when it is a finding and severe
/// enough, so a lower floor never hides one, and the lowest hides none.
pub proof fn law_floor(fs: Seq<FindingView>, floor: Severity)
    ensures
        forall|f: FindingView| #[trigger]
            at_least(fs, floor).contains(f) <==> fs.contains(f) && f.rule.weight().rank()
                >= floor.rank(),
        at_least(fs, Severity::Low) == fs,
        at_least(fs, floor).len() <= fs.len(),
    decreases fs.len(),
{
    if fs.len() > 0 {
        let front = fs.drop_last();
        let last = fs.last();
        law_floor(front, floor);
        let before = at_least(front, floor);
        let all = at_least(fs, floor);
        assert(at_least(fs, Severity::Low) =~= fs);
        assert forall|f: FindingView| #[trigger]
            all.contains(f) <==> fs.contains(f) && f.rule.weight().rank() >= floor.rank() by {
            assert(before.contains(f) <==> front.contains(f) && f.rule.weight().rank()
                >= floor.rank());
            if all.contains(f) {
                let k = choose|k: int| 0 <= k < all.len() && all[k] == f;
                if k < before.len() {
                    assert(before[k] == f);
                    let j = choose|j: int| 0 <= j < front.len() && front[j] == f;
                    assert(fs[j] == f);
                } else {
                    assert(fs[fs.len() - 1] == f);
                }
            }
            if fs.contains(f) && f.rule.weight().rank() >= floor.rank() {
                let j = choose|j: int| 0 <= j < fs.len() && fs[j] == f;
                if j < front.len() {
                    assert(front[j] == f);
                    let k = choose|k: int| 0 <= k < before.len() && before[k] == f;
                    assert(all[k] == f);
                } else {
                    assert(all[all.len() - 1] == f);
                }
            }
        }
    } else {
        assert(at_least(fs, Severity::Low) =~= fs);
    }
}

/// The report lists the findings of the verdicts, every one as often as there,
/// the most severe first.
pub proof fn law_findings_are_ordered(tests: Seq<TestOraclesView>)
    ensures
        order::in_order::<Finding>(ordered_findings(tests)),
        ordered_findings(tests).to_multiset() == gathered(tests).to_multiset(),
        ordered_findings(tests).len() == gathered(tests).len(),
{
    order::lemma_sorted::<Finding>(gathered(tests));
}

/// Every finding is counted under exactly one severity.
pub proof fn law_severities_add_up(fs: Seq<FindingView>)
    ensures
        with_severity(fs, Severity::High) + with_severity(fs, Severity::Medium) + with_severity(
            fs,
            Severity::Low,
        ) == fs.len(),
    decreases fs.len(),
{
    if fs.len() > 0 {
        law_severities_add_up(fs.drop_last());
    }
}

/// Every test is counted under exactly one strength.
pub proof fn law_strengths_add_up(tests: Seq<TestOraclesView>)
    ensures
        with_strength(tests, OracleStrength::Strong) + with_strength(
            tests,
            OracleStrength::Partial,
        ) + with_strength(tests, OracleStrength::Weak) + with_strength(
            tests,
            OracleStrength::Absent,
        ) == tests.len(),
    decreases tests.len(),
{
    if tests.len() > 0 {
        law_strengths_add_up(tests.drop_last());
    }
}

/// A verdict with findings added is the same verdict but for them.
pub open spec fn extends(after: TestOraclesView, before: TestOraclesView) -> bool {
    &&& after.test == before.test
    &&& after.strength == before.strength
    &&& after.sites == before.sites
    &&& after.receiver_calls == before.receiver_calls
    &&& after.asserted_idents == before.asserted_idents
    &&& before.findings.len() <= after.findings.len()
    &&& after.findings.take(before.findings.len() as int) == before.findings
}

proof fn lemma_place(tests: Seq<TestOraclesView>, id: TestIdView)
    ensures
        match place_of(tests, id) {
            Some(i) => 0 <= i < tests.len() && tests[i].test == id,
            None => forall|i: int| 0 <= i < tests.len() ==> (#[trigger] tests[i]).test != id,
        },
    decreases tests.len(),
{
    if tests.len() > 0 {
        let front = tests.drop_last();
        lemma_place(front, id);
        match place_of(front, id) {
            Some(i) => {
                assert(front[i] == tests[i]);
            },
            None => {
                assert forall|i: int| 0 <= i < tests.len() - 1 implies (#[trigger] tests[i]).test
                    != id by {
                    assert(front[i] == tests[i]);
                }
            },
        }
    }
}

proof fn lemma_gathered_update(tests: Seq<TestOraclesView>, i: int, t: TestOraclesView)
    requires
        0 <= i < tests.len(),
        t.findings.len() == tests[i].findings.len() + 1,
    ensures
        gathered(tests.update(i, t)).len() == gathered(tests).len() + 1,
    decreases tests.len(),
{
    let after = tests.update(i, t);
    if i == tests.len() - 1 {
        assert(after.drop_last() =~= tests.drop_last());
    } else {
        assert(after.drop_last() =~= tests.drop_last().update(i, t));
        assert(after.last() == tests.last());
        lemma_gathered_update(tests.drop_last(), i, t);
    }
}

/// Folding findings into the verdicts changes nothing else of them, and loses no
/// finding on a test that has a verdict.
pub proof fn law_folding_keeps_verdicts(tests: Seq<TestOraclesView>, fs: Seq<FindingView>)
    ensures
        with_findings(tests, fs).len() == tests.len(),
        forall|i: int|
            0 <= i < tests.len() ==> extends(#[trigger] with_findings(tests, fs)[i], tests[i]),
        (forall|k: int| 0 <= k < fs.len() ==> place_of(tests, (#[trigger] fs[k]).test) is Some)
            ==> gathered(with_findings(tests, fs)).len() == gathered(tests).len() + fs.len(),
    decreases fs.len(),
{
    if fs.len() == 0 {
        assert forall|i: int| 0 <= i < tests.len() implies extends(
            #[trigger] with_findings(tests, fs)[i],
            tests[i],
        ) by {
            assert(tests[i].findings.take(tests[i].findings.len() as int) =~= tests[i].findings);
        }
    } else {
        let front = fs.drop_last();
        let f = fs.last();
        law_folding_keeps_verdicts(tests, front);
        let mid = with_findings(tests, front);
        let after = with_findings(tests, fs);
        lemma_place(mid, f.test);
        lemma_place(tests, f.test);
        assert forall|i: int| 0 <= i < tests.len() implies extends(
            #[trigger] after[i],
            tests[i],
        ) by {
            assert(extends(mid[i], tests[i]));
            let n = tests[i].findings.len() as int;
            if place_of(mid, f.test) == Some(i) {
                assert(after[i].findings.take(n) =~= mid[i].findings.take(n));
            }
        }
        if forall|k: int| 0 <= k < fs.len() ==> place_of(tests, (#[trigger] fs[k]).test) is Some {
            assert forall|k: int| 0 <= k < front.len() implies place_of(
                tests,
                (#[trigger] front[k]).test,
            ) is Some by {
                assert(front[k] == fs[k]);
            }
            assert(fs[fs.len() - 1] == f);
            let j = place_of(tests, f.test)->0;
            assert(extends(mid[j], tests[j]));
            assert(place_of(mid, f.test) is Some);
            let i = place_of(mid, f.test)->0;
            lemma_gathered_update(mid, i, after[i]);
        }
    }
}

proof fn lemma_mismatches_on_test(
    symbols: Seq<SymbolView>,
    ids: Seq<SymbolIdView>,
    o: TestOraclesView,
)
    ensures
        forall|k: int|
            0 <= k < lint::mismatches_on(symbols, ids, o).len() ==> (
            #[trigger] lint::mismatches_on(symbols, ids, o)[k]).test == o.test,
    decreases ids.len(),
{
    if ids.len() > 0 {
        lemma_mismatches_on_test(symbols, ids.drop_last(), o);
        let before = lint::mismatches_on(symbols, ids.drop_last(), o);
        let all = lint::mismatches_on(symbols, ids, o);
        assert forall|k: int| 0 <= k < all.len() implies (#[trigger] all[k]).test == o.test by {
            if k < before.len() {
                assert(all[k] == before[k]);
            }
        }
    }
}

proof fn lemma_mismatches_have_tests(
    symbols: Seq<SymbolView>,
    edges: Seq<ClaimView>,
    oracles: Seq<TestOraclesView>,
)
    ensures
        forall|k: int|
            0 <= k < lint::mismatches_of(symbols, edges, oracles).len() ==> exists|i: int|
                0 <= i < oracles.len() && (#[trigger] oracles[i]).test == (
                #[trigger] lint::mismatches_of(symbols, edges, oracles)[k]).test,
    decreases oracles.len(),
{
    if oracles.len() > 0 {
        let front = oracles.drop_last();
        let o = oracles.last();
        lemma_mismatches_have_tests(symbols, edges, front);
        lemma_mismatches_on_test(symbols, lint::direct_claims(edges, o.test), o);
        let before = lint::mismatches_of(symbols, edges, front);
        let all = lint::mismatches_of(symbols, edges, oracles);
        assert forall|k: int| 0 <= k < all.len() implies exists|i: int|
            0 <= i < oracles.len() && (#[trigger] oracles[i]).test == (#[trigger] all[k]).test by {
            if k < before.len() {
                assert(all[k] == before[k]);
                let i = choose|i: int|
                    0 <= i < front.len() && (#[trigger] front[i]).test == before[k].test;
                assert(oracles[i].test == all[k].test);
            } else {
                assert(oracles[oracles.len() - 1].test == all[k].test);
            }
        }
    }
}

/// The audit has every finding of every body read alone, and every mismatch.
pub proof fn law_no_finding_is_lost(inv: InventoryView)
    ensures
        gathered(verdicts(inv)).len() == gathered(lint::oracles_in(inv)).len()
            + lint::mismatches_of(
            inv.symbols,
            claims::claims_in(inv),
            lint::oracles_in(inv),
        ).len(),
        verdicts(inv).len() == inv.tests.len(),
        forall|i: int|
            0 <= i < inv.tests.len() ==> extends(
                #[trigger] verdicts(inv)[i],
                lint::oracles_of(lint::settled(inv.symbols, inv.tests[i])),
            ),
{
    let alone = lint::oracles_in(inv);
    let shape = lint::mismatches_of(inv.symbols, claims::claims_in(inv), alone);
    law_folding_keeps_verdicts(alone, shape);
    lemma_mismatches_have_tests(inv.symbols, claims::claims_in(inv), alone);
    assert forall|k: int| 0 <= k < shape.len() implies place_of(
        alone,
        (#[trigger] shape[k]).test,
    ) is Some by {
        let i = choose|i: int| 0 <= i < alone.len() && (#[trigger] alone[i]).test == shape[k].test;
        lemma_place(alone, shape[k].test);
    }
    assert forall|i: int| 0 <= i < inv.tests.len() implies extends(
        #[trigger] verdicts(inv)[i],
        lint::oracles_of(lint::settled(inv.symbols, inv.tests[i])),
    ) by {
        assert(alone[i] == lint::oracles_of(lint::settled(inv.symbols, inv.tests[i])));
    }
}

// ---------------------------------------------------------------------------
// The audit as text
// ---------------------------------------------------------------------------

/// The head of the audit: what was read.
pub open spec fn head_text(s: SummaryView) -> Seq<char> {
    "cargo-oracle  static audit (v0)\n  "@ + text::decimal_of(s.files) + " files, "@
        + text::decimal_of(s.symbols_total) + " symbols ("@ + text::decimal_of(s.symbols_scorable)
        + " scorable, "@ + counted(s.symbols_accessor, "accessor"@) + " skipped), "@
        + text::decimal_of(s.tests_total) + " tests ("@ + text::decimal_of(s.doctests)
        + " doctests)\n\n"@
}

fn head(s: &Summary) -> (r: String)
    ensures
        r@ == head_text(s@),
{
    let mut out = text::owned("cargo-oracle  static audit (v0)\n  ");
    out.append(text::count(s.files).as_str());
    out.append(" files, ");
    out.append(text::count(s.symbols_total).as_str());
    out.append(" symbols (");
    out.append(text::count(s.symbols_scorable).as_str());
    out.append(" scorable, ");
    out.append(plural(s.symbols_accessor, "accessor").as_str());
    out.append(" skipped), ");
    out.append(text::count(s.tests_total).as_str());
    out.append(" tests (");
    out.append(text::count(s.doctests).as_str());
    out.append(" doctests)\n\n");
    out
}

/// One line for each file that could not be read.
pub open spec fn failure_lines(fails: Seq<(Seq<char>, Seq<char>)>) -> Seq<char>
    decreases fails.len(),
{
    if fails.len() == 0 {
        Seq::empty()
    } else {
        failure_lines(fails.drop_last()) + ("  "@ + fails.last().0 + ": "@ + fails.last().1 + "\n"@)
    }
}

/// The files that could not be read, where there are any.
pub open spec fn failures_text(fails: Seq<(Seq<char>, Seq<char>)>) -> Seq<char> {
    if fails.len() == 0 {
        Seq::empty()
    } else {
        "could not parse:\n"@ + failure_lines(fails) + "\n"@
    }
}

fn failures(fails: &Table<String, String>) -> (r: String)
    ensures
        r@ == failures_text(inventory::text_entries(fails@)),
{
    let ghost all = inventory::text_entries(fails@);
    if fails.len() == 0 {
        return String::new();
    }
    let mut out = text::owned("could not parse:\n");
    let ghost start = out@;
    let mut i: usize = 0;
    assert(start + failure_lines(all.take(0)) =~= start);
    while i < fails.entries.len()
        invariant
            i <= fails.entries@.len(),
            all == inventory::text_entries(fails@),
            out@ == start + failure_lines(all.take(i as int)),
        decreases fails.entries@.len() - i,
    {
        let ghost before = failure_lines(all.take(i as int));
        assert(all.take(i as int + 1).drop_last() =~= all.take(i as int));
        assert(all[i as int] == (fails.entries@[i as int].0@, fails.entries@[i as int].1@));
        let mut line = text::owned("  ");
        line.append(fails.entries[i].0.as_str());
        line.append(": ");
        line.append(fails.entries[i].1.as_str());
        line.append("\n");
        out.append(line.as_str());
        assert(start + before + line@ =~= start + (before + line@));
        i += 1;
    }
    assert(all.take(all.len() as int) =~= all);
    out.append("\n");
    out
}

/// The mark of a severity, four characters wide.
pub open spec fn severity_mark(s: Severity) -> Seq<char> {
    match s {
        Severity::High => "high"@,
        Severity::Medium => "med "@,
        Severity::Low => "low "@,
    }
}

/// The lines for one finding: what fired where, the symbol it is about, the
/// fragment it quotes, and the reasoning where that is asked for.
pub open spec fn finding_text(f: FindingView, verbose: bool) -> Seq<char> {
    let head = "  "@ + severity_mark(f.rule.weight()) + ":"@ + text::padded(
        text::decimal_of(f.line as nat),
        5,
    ) + " "@ + f.rule.id_of() + " "@ + text::padded(f.rule.name_of(), 24) + " "@ + claims::leaf_of(
        f.test.path,
    ) + "\n"@;
    let on = match f.symbol {
        Some(s) => "         on "@ + s + "\n"@,
        None => Seq::empty(),
    };
    let quote = if f.snippet.len() == 0 {
        Seq::empty()
    } else {
        "         "@ + truncated(f.snippet, 96) + "\n"@
    };
    let reason = if verbose {
        "         "@ + wrapped(f.rule.why_of(), 9, 78) + "\n"@
    } else {
        Seq::empty()
    };
    head + on + quote + reason
}

fn show_finding(f: &Finding, verbose: bool) -> (r: String)
    ensures
        r@ == finding_text(f@, verbose),
{
    let mark = match f.rule.severity() {
        Severity::High => "high",
        Severity::Medium => "med ",
        Severity::Low => "low ",
    };
    let mut head = text::owned("  ");
    head.append(mark);
    head.append(":");
    head.append(text::pad(text::decimal(f.line as u64).as_str(), 5).as_str());
    head.append(" ");
    head.append(f.rule.id());
    head.append(" ");
    head.append(text::pad(f.rule.name(), 24).as_str());
    head.append(" ");
    head.append(claims::leaf_name(f.test.path.as_str()).as_str());
    head.append("\n");
    let mut on = String::new();
    if let Some(s) = &f.symbol {
        on.append("         on ");
        on.append(s.as_str());
        on.append("\n");
        assert(on@ =~= "         on "@ + s@ + "\n"@);
    }
    let mut quote = String::new();
    if !text::same(f.snippet.as_str(), "") {
        quote.append("         ");
        quote.append(truncate(f.snippet.as_str(), 96).as_str());
        quote.append("\n");
        assert(quote@ =~= "         "@ + truncated(f.snippet@, 96) + "\n"@);
    }
    proof {
        reveal_strlit("");
        if f.snippet@.len() == 0 {
            assert(f.snippet@ =~= ""@);
        }
    }
    let mut reason = String::new();
    if verbose {
        reason.append("         ");
        reason.append(wrap(f.rule.why(), 9, 78).as_str());
        reason.append("\n");
        assert(reason@ =~= "         "@ + wrapped(f.rule.why_of(), 9, 78) + "\n"@);
    }
    let mut out = head;
    out.append(on.as_str());
    out.append(quote.as_str());
    out.append(reason.as_str());
    out
}

/// The members of a list in increasing order, none of them twice.
pub open spec fn distinct(names: Seq<Seq<char>>) -> Seq<Seq<char>> {
    choose|s: Seq<Seq<char>>|
        order::increasing::<String>(s) && (forall|x: Seq<char>| #[trigger]
            s.contains(x) <==> names.contains(x))
}

/// There is one such list only.
pub proof fn lemma_distinct(names: Seq<Seq<char>>, s: Seq<Seq<char>>)
    requires
        order::increasing::<String>(s),
        forall|x: Seq<char>| #[trigger] s.contains(x) <==> names.contains(x),
    ensures
        distinct(names) == s,
{
    let d = distinct(names);
    assert forall|x: Seq<char>| d.contains(x) <==> s.contains(x) by {
        assert(d.contains(x) <==> names.contains(x));
    }
    order::lemma_increasing_unique::<String>(d, s);
}

/// The files that findings live in.
pub open spec fn finding_files(fs: Seq<FindingView>) -> Seq<Seq<char>> {
    fs.map_values(|f: FindingView| f.test.file)
}

/// The lines for the findings that live in a file.
pub open spec fn file_findings(fs: Seq<FindingView>, file: Seq<char>, verbose: bool) -> Seq<char>
    decreases fs.len(),
{
    if fs.len() == 0 {
        Seq::empty()
    } else if fs.last().test.file == file {
        file_findings(fs.drop_last(), file, verbose) + finding_text(fs.last(), verbose)
    } else {
        file_findings(fs.drop_last(), file, verbose)
    }
}

/// The sections of a list of files: each with its name, its findings and an empty
/// line.
pub open spec fn finding_sections(
    fs: Seq<FindingView>,
    files: Seq<Seq<char>>,
    verbose: bool,
) -> Seq<char>
    decreases files.len(),
{
    if files.len() == 0 {
        Seq::empty()
    } else {
        finding_sections(fs, files.drop_last(), verbose) + (files.last() + "\n"@ + file_findings(
            fs,
            files.last(),
            verbose,
        ) + "\n"@)
    }
}

/// The findings, grouped by the file they live in.
pub open spec fn findings_text(fs: Seq<FindingView>, verbose: bool) -> Seq<char> {
    if fs.len() == 0 {
        "no findings.\n\n"@
    } else {
        finding_sections(fs, distinct(finding_files(fs)), verbose)
    }
}

fn show_file_findings(fs: &Vec<Finding>, file: &str, verbose: bool) -> (r: String)
    ensures
        r@ == file_findings(order::views(fs@), file@, verbose),
{
    let ghost all = order::views(fs@);
    let mut out = String::new();
    let mut i: usize = 0;
    assert(out@ =~= file_findings(all.take(0), file@, verbose));
    while i < fs.len()
        invariant
            i <= fs@.len(),
            all == order::views(fs@),
            out@ == file_findings(all.take(i as int), file@, verbose),
        decreases fs@.len() - i,
    {
        assert(all.take(i as int + 1).drop_last() =~= all.take(i as int));
        assert(all[i as int] == fs@[i as int]@);
        if text::same(fs[i].test.file.as_str(), file) {
            out.append(show_finding(&fs[i], verbose).as_str());
        }
        i += 1;
    }
    assert(all.take(all.len() as int) =~= all);
    out
}

fn files_of_findings(fs: &Vec<Finding>) -> (r: KeySet<String>)
    ensures
        r@ == distinct(finding_files(order::views(fs@))),
{
    let ghost names = finding_files(order::views(fs@));
    let mut files: KeySet<String> = KeySet::new();
    let mut i: usize = 0;
    while i < fs.len()
        invariant
            i <= fs@.len(),
            names == finding_files(order::views(fs@)),
            files.wf(),
            forall|x: Seq<char>| #[trigger]
                files@.contains(x) <==> names.take(i as int).contains(x),
        decreases fs@.len() - i,
    {
        let ghost before = files@;
        assert(names[i as int] == fs@[i as int].test.file@);
        files.insert(fs[i].test.file.clone());
        proof {
            lemma_take_contains(names, i as int);
        }
        assert forall|x: Seq<char>| #[trigger] files@.contains(x) <==> names.take(
            i as int + 1,
        ).contains(x) by {
            assert(before.contains(x) <==> names.take(i as int).contains(x));
        }
        i += 1;
    }
    proof {
        assert(names.take(names.len() as int) =~= names);
        lemma_distinct(names, files@);
    }
    files
}

/// One more member of a list.
proof fn lemma_take_contains(names: Seq<Seq<char>>, i: int)
    requires
        0 <= i < names.len(),
    ensures
        forall|x: Seq<char>| #[trigger]
            names.take(i + 1).contains(x) <==> names.take(i).contains(x) || x == names[i],
{
    let more = names.take(i + 1);
    let front = names.take(i);
    assert forall|x: Seq<char>| #[trigger] more.contains(x) <==> front.contains(x) || x
        == names[i] by {
        if more.contains(x) {
            let k = choose|k: int| 0 <= k < more.len() && more[k] == x;
            if k < i {
                assert(front[k] == x);
            }
        }
        if front.contains(x) {
            let k = choose|k: int| 0 <= k < front.len() && front[k] == x;
            assert(more[k] == x);
        }
        if x == names[i] {
            assert(more[i] == x);
        }
    }
}

fn show_findings(fs: &Vec<Finding>, verbose: bool) -> (r: String)
    ensures
        r@ == findings_text(order::views(fs@), verbose),
{
    if fs.len() == 0 {
        return text::owned("no findings.\n\n");
    }
    let files = files_of_findings(fs);
    let ghost all = distinct(finding_files(order::views(fs@)));
    let mut out = String::new();
    let mut i: usize = 0;
    assert(out@ =~= finding_sections(order::views(fs@), all.take(0), verbose));
    while i < files.items.len()
        invariant
            i <= files.items@.len(),
            all == files@,
            out@ == finding_sections(order::views(fs@), all.take(i as int), verbose),
        decreases files.items@.len() - i,
    {
        assert(all.take(i as int + 1).drop_last() =~= all.take(i as int));
        assert(all[i as int] == files.items@[i as int]@);
        let mut section = files.items[i].clone();
        section.append("\n");
        section.append(show_file_findings(fs, files.items[i].as_str(), verbose).as_str());
        section.append("\n");
        out.append(section.as_str());
        i += 1;
    }
    assert(all.take(all.len() as int) =~= all);
    out
}

/// The weakest first, those of one strength by path.
impl<'a> Ranked for &'a TestOracles {
    open spec fn ranks(a: TestOraclesView, b: TestOraclesView) -> bool {
        a.strength.rank() < b.strength.rank() || (a.strength.rank() == b.strength.rank()
            && !text::earlier(b.test.path, a.test.path))
    }

    proof fn le_total(a: TestOraclesView, b: TestOraclesView) {
        order::lemma_not_after_total::<String>(a.test.path, b.test.path);
    }

    proof fn le_transitive(a: TestOraclesView, b: TestOraclesView, c: TestOraclesView) {
        if a.strength.rank() == c.strength.rank() {
            order::lemma_not_after_transitive::<String>(a.test.path, b.test.path, c.test.path);
        }
    }

    fn may_precede(&self, other: &Self) -> bool {
        let x: u8 = self.strength.level();
        let y: u8 = other.strength.level();
        x < y || (x == y && !text::comes_before(other.test.path.as_str(), self.test.path.as_str()))
    }
}

/// The rules of findings.
pub open spec fn rule_ids(fs: Seq<FindingView>) -> Seq<Seq<char>> {
    fs.map_values(|f: FindingView| f.rule.id_of())
}

/// The line for a verdict.
pub open spec fn verdict_line(t: TestOraclesView) -> Seq<char> {
    "  "@ + text::padded(t.strength.name_of(), 8) + " "@ + text::padded(
        truncated(t.test.path, 58),
        58,
    ) + " "@ + text::join_of(rule_ids(t.findings), " "@) + "\n"@
}

/// A verdict is worth a line: always where everything is asked for, otherwise
/// where it is weak or has findings.
pub open spec fn worth_showing(t: TestOraclesView, verbose: bool) -> bool {
    verbose || t.strength.rank() < OracleStrength::Partial.rank() || t.findings.len() > 0
}

/// The lines for verdicts.
pub open spec fn verdict_lines(tests: Seq<TestOraclesView>, verbose: bool) -> Seq<char>
    decreases tests.len(),
{
    if tests.len() == 0 {
        Seq::empty()
    } else if worth_showing(tests.last(), verbose) {
        verdict_lines(tests.drop_last(), verbose) + verdict_line(tests.last())
    } else {
        verdict_lines(tests.drop_last(), verbose)
    }
}

/// The verdict on each test: the view that makes a weak new test visible instead
/// of averaging it away into a number for the file.
pub open spec fn verdicts_text(tests: Seq<TestOraclesView>, verbose: bool) -> Seq<char> {
    "per-test oracle strength\n"@ + verdict_lines(order::sorted::<&TestOracles>(tests), verbose)
}

fn show_verdict(t: &TestOracles) -> (r: String)
    ensures
        r@ == verdict_line(t@),
{
    let mut rules: Vec<String> = Vec::new();
    let mut i: usize = 0;
    while i < t.findings.len()
        invariant
            i <= t.findings@.len(),
            rules@.len() == i,
            forall|k: int|
                0 <= k < i ==> (#[trigger] rules@[k])@ == rule_ids(order::views(t.findings@))[k],
        decreases t.findings@.len() - i,
    {
        rules.push(text::owned(t.findings[i].rule.id()));
        i += 1;
    }
    assert(text::texts(rules@) =~= rule_ids(order::views(t.findings@)));
    let mut out = text::owned("  ");
    out.append(text::pad(t.strength.label(), 8).as_str());
    out.append(" ");
    out.append(text::pad(truncate(t.test.path.as_str(), 58).as_str(), 58).as_str());
    out.append(" ");
    out.append(text::join(&rules, " ").as_str());
    out.append("\n");
    out
}

fn show_verdicts(tests: &Vec<TestOracles>, verbose: bool) -> (r: String)
    ensures
        r@ == verdicts_text(order::views(tests@), verbose),
{
    let mut refs: Vec<&TestOracles> = Vec::new();
    let mut k: usize = 0;
    while k < tests.len()
        invariant
            k <= tests@.len(),
            refs@.len() == k,
            forall|j: int| 0 <= j < k ==> (#[trigger] refs@[j])@ == tests@[j]@,
        decreases tests@.len() - k,
    {
        refs.push(&tests[k]);
        k += 1;
    }
    assert(order::views(refs@) =~= order::views(tests@));
    let shown = order::sort_stable(refs);
    let ghost all = order::views(shown@);
    let mut out = text::owned("per-test oracle strength\n");
    let ghost start = out@;
    let mut i: usize = 0;
    assert(start + verdict_lines(all.take(0), verbose) =~= start);
    while i < shown.len()
        invariant
            i <= shown@.len(),
            all == order::views(shown@),
            out@ == start + verdict_lines(all.take(i as int), verbose),
        decreases shown@.len() - i,
    {
        let ghost before = verdict_lines(all.take(i as int), verbose);
        assert(all.take(i as int + 1).drop_last() =~= all.take(i as int));
        assert(all[i as int] == shown@[i as int]@);
        let t = shown[i];
        if verbose || t.strength.level() < OracleStrength::Partial.level() || t.findings.len() > 0 {
            let line = show_verdict(t);
            out.append(line.as_str());
            assert(start + before + line@ =~= start + (before + line@));
        }
        i += 1;
    }
    assert(all.take(all.len() as int) =~= all);
    out
}

/// One indented line for each of a list of names.
pub open spec fn name_lines(names: Seq<Seq<char>>) -> Seq<char>
    decreases names.len(),
{
    if names.len() == 0 {
        Seq::empty()
    } else {
        name_lines(names.drop_last()) + ("  "@ + names.last() + "\n"@)
    }
}

/// Shows the first names of a list.
fn show_names(names: &Vec<String>, n: usize) -> (r: String)
    requires
        n <= names@.len(),
    ensures
        r@ == name_lines(text::texts(names@).take(n as int)),
{
    let ghost all = text::texts(names@);
    let mut out = String::new();
    let mut i: usize = 0;
    assert(out@ =~= name_lines(all.take(0)));
    while i < n
        invariant
            i <= n <= names@.len(),
            all == text::texts(names@),
            out@ == name_lines(all.take(i as int)),
        decreases n - i,
    {
        assert(all.take(i as int + 1).drop_last() =~= all.take(i as int));
        assert(all[i as int] == names@[i as int]@);
        let mut line = text::owned("  ");
        line.append(names[i].as_str());
        line.append("\n");
        out.append(line.as_str());
        i += 1;
    }
    out
}

/// The symbols nobody claims, where there are any: the first fifteen unless
/// everything is asked for.
pub open spec fn unclaimed_text(paths: Seq<Seq<char>>, verbose: bool) -> Seq<char> {
    if paths.len() == 0 {
        Seq::empty()
    } else {
        let shown = if verbose || paths.len() <= 15 {
            paths
        } else {
            paths.take(15)
        };
        let rest = if verbose || paths.len() <= 15 {
            Seq::empty()
        } else {
            "  ... and "@ + text::decimal_of((paths.len() - 15) as nat) + " more\n"@
        };
        "\nunclaimed symbols ("@ + text::decimal_of(paths.len())
            + ") -- no test speaks for these at all\n"@ + name_lines(shown) + rest
    }
}

fn show_unclaimed(paths: &Vec<String>, verbose: bool) -> (r: String)
    ensures
        r@ == unclaimed_text(text::texts(paths@), verbose),
{
    let ghost all = text::texts(paths@);
    let n: usize = paths.len();
    if n == 0 {
        return String::new();
    }
    let shown: usize = if verbose || n <= 15 {
        n
    } else {
        15
    };
    assert(all.take(n as int) =~= all);
    let mut out = text::owned("\nunclaimed symbols (");
    out.append(text::count(n).as_str());
    out.append(") -- no test speaks for these at all\n");
    out.append(show_names(paths, shown).as_str());
    if shown < n {
        let mut rest = text::owned("  ... and ");
        rest.append(text::count(n - 15).as_str());
        rest.append(" more\n");
        out.append(rest.as_str());
    } else {
        assert(out@ + Seq::<char>::empty() =~= out@);
    }
    out
}

/// How many tests a table counts for a strength.
pub open spec fn strength_count(table: Seq<(OracleStrength, usize)>, k: OracleStrength) -> nat {
    match order::lookup(table, k) {
        Some(n) => n as nat,
        None => 0,
    }
}

/// A strength and how many tests have it.
pub open spec fn strength_part(table: Seq<(OracleStrength, usize)>, k: OracleStrength) -> Seq<
    char,
> {
    k.name_of() + " "@ + text::decimal_of(strength_count(table, k))
}

fn show_strength(table: &Table<OracleStrength, usize>, k: OracleStrength) -> (r: String)
    ensures
        r@ == strength_part(table@, k),
{
    let n: usize = match table.get(&k) {
        Some(n) => *n,
        None => 0,
    };
    let mut out = text::owned(k.label());
    out.append(" ");
    out.append(text::count(n).as_str());
    out
}

/// The counts at the end of the audit.
pub open spec fn totals_text(s: SummaryView) -> Seq<char> {
    "\nsummary\n  oracle strength   "@ + strength_part(s.strength, OracleStrength::Strong) + "   "@
        + strength_part(s.strength, OracleStrength::Partial) + "   "@ + strength_part(
        s.strength,
        OracleStrength::Weak,
    ) + "   "@ + strength_part(s.strength, OracleStrength::Absent) + "\n  findings          "@
        + text::decimal_of(s.findings_high) + " high, "@ + text::decimal_of(s.findings_medium)
        + " medium, "@ + text::decimal_of(s.findings_low) + " low\n  unclaimed         "@
        + text::decimal_of(s.symbols_unclaimed) + " of "@ + text::decimal_of(s.symbols_scorable)
        + " scorable symbols\n"@
}

fn totals(s: &Summary) -> (r: String)
    ensures
        r@ == totals_text(s@),
{
    let mut out = text::owned("\nsummary\n  oracle strength   ");
    out.append(show_strength(&s.strength, OracleStrength::Strong).as_str());
    out.append("   ");
    out.append(show_strength(&s.strength, OracleStrength::Partial).as_str());
    out.append("   ");
    out.append(show_strength(&s.strength, OracleStrength::Weak).as_str());
    out.append("   ");
    out.append(show_strength(&s.strength, OracleStrength::Absent).as_str());
    out.append("\n  findings          ");
    out.append(text::count(s.findings_high).as_str());
    out.append(" high, ");
    out.append(text::count(s.findings_medium).as_str());
    out.append(" medium, ");
    out.append(text::count(s.findings_low).as_str());
    out.append(" low\n  unclaimed         ");
    out.append(text::count(s.symbols_unclaimed).as_str());
    out.append(" of ");
    out.append(text::count(s.symbols_scorable).as_str());
    out.append(" scorable symbols\n");
    out
}

/// What the audit says of itself at its end.
pub const AUDIT_NOTE: &'static str = "\nthis is a static audit: it reports oracles that cannot discriminate and\nsymbols nobody claims. whether a symbol is actually *verified* needs the\nmutation evidence of `cargo oracle verify` (slice v3).\n";

/// The audit as text.
pub open spec fn audit_text(r: ReportView, verbose: bool) -> Seq<char> {
    head_text(r.summary) + failures_text(r.parse_failures) + findings_text(r.findings, verbose)
        + verdicts_text(r.tests, verbose) + unclaimed_text(r.unclaimed, verbose) + totals_text(
        r.summary,
    ) + AUDIT_NOTE@
}

impl Report {
    /// Renders the audit for reading: every test and the reasoning behind each
    /// finding where `verbose`.
    pub fn to_text(&self, verbose: bool) -> (r: String)
        ensures
            r@ == audit_text(self@, verbose),
    {
        let mut out = head(&self.summary);
        out.append(failures(&self.parse_failures).as_str());
        out.append(show_findings(&self.findings, verbose).as_str());
        out.append(show_verdicts(&self.tests, verbose).as_str());
        out.append(show_unclaimed(&self.unclaimed, verbose).as_str());
        out.append(totals(&self.summary).as_str());
        out.append(AUDIT_NOTE);
        out
    }
}

// ---------------------------------------------------------------------------
// Execution state per symbol
// ---------------------------------------------------------------------------

/// What coverage can say about a symbol. Being verified is deliberately absent:
/// proving a test would *fail* if the symbol broke needs mutation evidence, and
/// conflating "ran" with "checked" is how coverage numbers lost their meaning.
#[derive(Clone, Copy, Debug, PartialEq, Eq, PartialOrd, Ord, Structural)]
pub enum ExecutionState {
    /// No test runs it.
    Unexecuted,
    /// A test claims it, but nothing runs it. The claim is unbacked: a stronger
    /// finding than plain `Unexecuted`, because someone believed otherwise.
    ClaimedButUnexecuted,
    /// Runs. Whether anything checks the result is another question.
    Executed,
    /// Predicted to have no viable mutant, so mutation will not be able to score
    /// it.
    ///
    /// This is a blind spot, not a guarantee. Some of it really is the type
    /// system carrying the contract (a return type with no meaningful
    /// `Default`); some of it is a mutation operator that is too weak
    /// (`-> impl Trait`, `const fn`).
    NoViableMutant,
}

impl ExecutionState {
    /// The label in a report.
    pub open spec fn name_of(self) -> Seq<char> {
        match self {
            ExecutionState::Unexecuted => "unexecuted"@,
            ExecutionState::ClaimedButUnexecuted => "claimed, not run"@,
            ExecutionState::Executed => "executed"@,
            ExecutionState::NoViableMutant => "no viable mutant"@,
        }
    }

    /// The label in a report, spelled out for reading.
    pub fn label(self) -> (r: &'static str)
        ensures
            r@ == self.name_of(),
    {
        match self {
            ExecutionState::Unexecuted => "unexecuted",
            ExecutionState::ClaimedButUnexecuted => "claimed, not run",
            ExecutionState::Executed => "executed",
            ExecutionState::NoViableMutant => "no viable mutant",
        }
    }
}

/// The state of a symbol, given whether it ran and whether a test claims it
/// directly.
pub open spec fn state_of(s: SymbolView, ran: bool, claimed: bool) -> ExecutionState {
    if ran {
        if s.unviable() {
            ExecutionState::NoViableMutant
        } else {
            ExecutionState::Executed
        }
    } else if claimed {
        ExecutionState::ClaimedButUnexecuted
    } else {
        ExecutionState::Unexecuted
    }
}

/// What is known of a symbol from coverage and claims.
pub open spec fn state_in(
    s: SymbolView,
    cov: CoverageMap,
    edges: Seq<ClaimView>,
) -> ExecutionState {
    state_of(s, cov.ran(s.id), claims::is_claimed(edges, s.id, true))
}

/// What coverage and claims say about a symbol.
pub fn execution_state(symbol: &Symbol, coverage: &CoverageMap, claims: &ClaimMap) -> (r:
    ExecutionState)
    ensures
        r == state_in(symbol@, *coverage, claims@),
{
    if coverage.executed(&symbol.id) {
        if symbol.likely_unviable_to_mutate() {
            return ExecutionState::NoViableMutant;
        }
        return ExecutionState::Executed;
    }
    if claims.claims_symbol(&symbol.id, true) {
        ExecutionState::ClaimedButUnexecuted
    } else {
        ExecutionState::Unexecuted
    }
}

/// The evidence for a symbol.
pub open spec fn evidence_for(cov: CoverageMap, id: SymbolIdView) -> SymbolCoverage {
    match order::lookup(cov.symbols@, id) {
        Some(c) => c,
        None => coverage::unseen(),
    }
}

/// What is worth noting about the evidence for a symbol.
pub open spec fn notes_on(cov: SymbolCoverage, verbose: bool) -> Seq<Seq<char>> {
    let entries = if cov.entries > 1 && verbose {
        seq![text::decimal_of(cov.entries as nat) + " coverage entries"@]
    } else {
        Seq::empty()
    };
    let nested = if cov.nested_uncovered > 0 {
        seq![
            text::decimal_of(cov.nested_uncovered as nat) + " of "@ + counted(
                cov.nested as nat,
                "nested closure"@,
            ) + " never ran"@,
        ]
    } else {
        Seq::empty()
    };
    entries + nested
}

/// How often a symbol ran.
pub open spec fn times(cov: SymbolCoverage) -> Seq<char> {
    if cov.execution_count > 0 {
        text::decimal_of(cov.execution_count as nat) + "x"@
    } else {
        "-"@
    }
}

/// The line for a symbol.
pub open spec fn symbol_line(
    s: SymbolView,
    state: ExecutionState,
    cov: SymbolCoverage,
    verbose: bool,
) -> Seq<char> {
    text::trim_back_of(
        "  "@ + text::padded(truncated(leaf_path_of(s.path), 46), 46) + " "@ + text::padded(
            state.name_of(),
            22,
        ) + " "@ + text::padded_left(times(cov), 6) + "  "@ + text::join_of(
            notes_on(cov, verbose),
            ", "@,
        ),
    ) + "\n"@
}

fn show_symbol(s: &Symbol, state: ExecutionState, cov: SymbolCoverage, verbose: bool) -> (r: String)
    ensures
        r@ == symbol_line(s@, state, cov, verbose),
{
    let mut notes: Vec<String> = Vec::new();
    if cov.entries > 1 && verbose {
        let mut note = text::count(cov.entries);
        note.append(" coverage entries");
        notes.push(note);
    }
    if cov.nested_uncovered > 0 {
        let mut note = text::count(cov.nested_uncovered);
        note.append(" of ");
        note.append(plural(cov.nested, "nested closure").as_str());
        note.append(" never ran");
        notes.push(note);
    }
    assert(text::texts(notes@) =~= notes_on(cov, verbose));
    let ran = if cov.executed() {
        let mut t = text::decimal(cov.execution_count);
        t.append("x");
        t
    } else {
        text::owned("-")
    };
    let mut line = text::owned("  ");
    line.append(text::pad(truncate(leaf_path(s.path.as_str()).as_str(), 46).as_str(), 46).as_str());
    line.append(" ");
    line.append(text::pad(state.label(), 22).as_str());
    line.append(" ");
    line.append(text::pad_left(ran.as_str(), 6).as_str());
    line.append("  ");
    line.append(text::join(&notes, ", ").as_str());
    let mut out = text::trim_end(line.as_str());
    out.append("\n");
    out
}

/// The lines for the symbols of a file: every one where everything is asked for,
/// otherwise those that are not simply executed.
pub open spec fn symbol_lines(
    symbols: Seq<SymbolView>,
    file: Seq<char>,
    cov: CoverageMap,
    edges: Seq<ClaimView>,
    verbose: bool,
) -> Seq<Seq<char>>
    decreases symbols.len(),
{
    if symbols.len() == 0 {
        Seq::empty()
    } else {
        let s = symbols.last();
        let state = state_in(s, cov, edges);
        let before = symbol_lines(symbols.drop_last(), file, cov, edges, verbose);
        if s.id.file == file && (verbose || state != ExecutionState::Executed) {
            before.push(symbol_line(s, state, evidence_for(cov, s.id), verbose))
        } else {
            before
        }
    }
}

/// The section of a file, where it has lines.
pub open spec fn symbol_section(file: Seq<char>, lines: Seq<Seq<char>>) -> Seq<char> {
    if lines.len() == 0 {
        Seq::empty()
    } else {
        file + "\n"@ + text::concat(lines) + "\n"@
    }
}

/// The sections of a list of files.
pub open spec fn symbol_sections(
    symbols: Seq<SymbolView>,
    files: Seq<Seq<char>>,
    cov: CoverageMap,
    edges: Seq<ClaimView>,
    verbose: bool,
) -> Seq<char>
    decreases files.len(),
{
    if files.len() == 0 {
        Seq::empty()
    } else {
        symbol_sections(symbols, files.drop_last(), cov, edges, verbose) + symbol_section(
            files.last(),
            symbol_lines(symbols, files.last(), cov, edges, verbose),
        )
    }
}

/// The files that symbols are defined in.
pub open spec fn symbol_files(symbols: Seq<SymbolView>) -> Seq<Seq<char>> {
    symbols.map_values(|s: SymbolView| s.id.file)
}

/// How many symbols are in a state.
pub open spec fn in_state(
    symbols: Seq<SymbolView>,
    cov: CoverageMap,
    edges: Seq<ClaimView>,
    k: ExecutionState,
) -> nat
    decreases symbols.len(),
{
    if symbols.len() == 0 {
        0
    } else if state_in(symbols.last(), cov, edges) == k {
        in_state(symbols.drop_last(), cov, edges, k) + 1
    } else {
        in_state(symbols.drop_last(), cov, edges, k)
    }
}

fn count_state(
    symbols: &Vec<&Symbol>,
    coverage: &CoverageMap,
    claims: &ClaimMap,
    k: ExecutionState,
) -> (r: usize)
    ensures
        r == in_state(inventory::symbol_views(symbols@), *coverage, claims@, k),
{
    let ghost all = inventory::symbol_views(symbols@);
    let mut n: usize = 0;
    let mut i: usize = 0;
    while i < symbols.len()
        invariant
            n <= i <= symbols@.len(),
            all == inventory::symbol_views(symbols@),
            n == in_state(all.take(i as int), *coverage, claims@, k),
        decreases symbols@.len() - i,
    {
        assert(all.take(i as int + 1).drop_last() =~= all.take(i as int));
        assert(all[i as int] == symbols@[i as int]@);
        if execution_state(symbols[i], coverage, claims) == k {
            n += 1;
        }
        i += 1;
    }
    assert(all.take(all.len() as int) =~= all);
    n
}

fn show_symbol_section(
    symbols: &Vec<&Symbol>,
    file: &str,
    coverage: &CoverageMap,
    claims: &ClaimMap,
    verbose: bool,
) -> (r: String)
    ensures
        r@ == symbol_section(
            file@,
            symbol_lines(
                inventory::symbol_views(symbols@),
                file@,
                *coverage,
                claims@,
                verbose,
            ),
        ),
{
    let ghost all = inventory::symbol_views(symbols@);
    let ghost mut lines: Seq<Seq<char>> = Seq::empty();
    let mut any = false;
    let mut body = String::new();
    let mut i: usize = 0;
    assert(body@ =~= text::concat(lines));
    while i < symbols.len()
        invariant
            i <= symbols@.len(),
            all == inventory::symbol_views(symbols@),
            lines == symbol_lines(all.take(i as int), file@, *coverage, claims@, verbose),
            any == (lines.len() > 0),
            body@ == text::concat(lines),
        decreases symbols@.len() - i,
    {
        assert(all.take(i as int + 1).drop_last() =~= all.take(i as int));
        assert(all[i as int] == symbols@[i as int]@);
        let s = symbols[i];
        if text::same(s.id.file.as_str(), file) {
            let state = execution_state(s, coverage, claims);
            if verbose || state != ExecutionState::Executed {
                let line = show_symbol(s, state, coverage.for_symbol(&s.id), verbose);
                body.append(line.as_str());
                any = true;
                proof {
                    assert(lines.push(line@).drop_last() =~= lines);
                    lines = lines.push(line@);
                }
            }
        }
        i += 1;
    }
    assert(all.take(all.len() as int) =~= all);
    if !any {
        return String::new();
    }
    let mut out = text::owned(file);
    out.append("\n");
    out.append(body.as_str());
    out.append("\n");
    out
}

fn files_of_symbols(symbols: &Vec<&Symbol>) -> (r: KeySet<String>)
    ensures
        r@ == distinct(symbol_files(inventory::symbol_views(symbols@))),
{
    let ghost names = symbol_files(inventory::symbol_views(symbols@));
    let mut files: KeySet<String> = KeySet::new();
    let mut i: usize = 0;
    while i < symbols.len()
        invariant
            i <= symbols@.len(),
            names == symbol_files(inventory::symbol_views(symbols@)),
            files.wf(),
            forall|x: Seq<char>| #[trigger]
                files@.contains(x) <==> names.take(i as int).contains(x),
        decreases symbols@.len() - i,
    {
        let ghost before = files@;
        assert(names[i as int] == symbols@[i as int].id.file@);
        files.insert(symbols[i].id.file.clone());
        proof {
            lemma_take_contains(names, i as int);
        }
        assert forall|x: Seq<char>| #[trigger] files@.contains(x) <==> names.take(
            i as int + 1,
        ).contains(x) by {
            assert(before.contains(x) <==> names.take(i as int).contains(x));
        }
        i += 1;
    }
    proof {
        assert(names.take(names.len() as int) =~= names);
        lemma_distinct(names, files@);
    }
    files
}

/// The counts of an execution report.
pub open spec fn state_totals(executed: nat, not: nat, claimed: nat, unviable: nat) -> Seq<char> {
    "summary\n  executed          "@ + text::decimal_of(executed) + "\n  unexecuted        "@
        + text::decimal_of(not) + "\n  claimed but not   "@ + text::decimal_of(claimed)
        + "\n  no viable mutant  "@ + text::decimal_of(unviable) + "\n"@
}

/// How many coverage entries belong to nothing, where there are any.
pub open spec fn unmatched_text(n: nat) -> Seq<char> {
    if n == 0 {
        Seq::empty()
    } else {
        "  unmatched entries "@ + text::decimal_of(n)
            + " (macro and derive output, which has no source definition)\n"@
    }
}

/// The files that the coverage report never mentions, where there are any: the
/// first eight unless everything is asked for.
pub open spec fn absent_text(files: Seq<Seq<char>>, verbose: bool) -> Seq<char> {
    if files.len() == 0 {
        Seq::empty()
    } else {
        let shown = if verbose || files.len() <= 8 {
            files
        } else {
            files.take(8)
        };
        "\n"@ + text::decimal_of(files.len())
            + " inventoried file(s) absent from the coverage report -- stale report, or the crate was not built:\n"@
            + name_lines(shown)
    }
}

/// What an execution report says of itself at its end.
pub const EXECUTION_NOTE: &'static str = "\nexecution is not verification: `executed` means a test ran the symbol,\nnot that anything checked the result. that needs slice v3.\n";

/// The execution report of a workspace.
pub open spec fn execution_text(inv: InventoryView, cov: CoverageMap, verbose: bool) -> Seq<char> {
    let symbols = inventory::scorable_of(inv.symbols);
    let edges = claims::claims_in(inv);
    symbol_sections(symbols, distinct(symbol_files(symbols)), cov, edges, verbose) + state_totals(
        in_state(symbols, cov, edges, ExecutionState::Executed),
        in_state(symbols, cov, edges, ExecutionState::Unexecuted),
        in_state(symbols, cov, edges, ExecutionState::ClaimedButUnexecuted),
        in_state(symbols, cov, edges, ExecutionState::NoViableMutant),
    ) + unmatched_text(cov.unmatched as nat) + absent_text(
        text::texts(cov.files_without_coverage@),
        verbose,
    ) + EXECUTION_NOTE@
}

/// Renders the execution state of every scorable symbol, grouped by file.
pub fn render_coverage(inv: &Inventory, coverage: &CoverageMap, verbose: bool) -> (r: String)
    ensures
        r@ == execution_text(inv@, *coverage, verbose),
{
    let claims = ClaimMap::build(inv);
    let scorable = inv.scorable();
    let files = files_of_symbols(&scorable);
    let ghost symbols = inventory::scorable_of(inv@.symbols);
    let ghost all = distinct(symbol_files(symbols));
    let mut out = String::new();
    let mut i: usize = 0;
    assert(out@ =~= symbol_sections(symbols, all.take(0), *coverage, claims@, verbose));
    while i < files.items.len()
        invariant
            i <= files.items@.len(),
            all == files@,
            symbols == inventory::symbol_views(scorable@),
            out@ == symbol_sections(symbols, all.take(i as int), *coverage, claims@, verbose),
        decreases files.items@.len() - i,
    {
        assert(all.take(i as int + 1).drop_last() =~= all.take(i as int));
        assert(all[i as int] == files.items@[i as int]@);
        let file = files.items[i].as_str();
        out.append(show_symbol_section(&scorable, file, coverage, &claims, verbose).as_str());
        i += 1;
    }
    assert(all.take(all.len() as int) =~= all);
    let executed: usize = count_state(&scorable, coverage, &claims, ExecutionState::Executed);
    let unexecuted: usize = count_state(&scorable, coverage, &claims, ExecutionState::Unexecuted);
    let claimed: usize = count_state(
        &scorable,
        coverage,
        &claims,
        ExecutionState::ClaimedButUnexecuted,
    );
    let unviable: usize = count_state(&scorable, coverage, &claims, ExecutionState::NoViableMutant);
    let mut totals = text::owned("summary\n  executed          ");
    totals.append(text::count(executed).as_str());
    totals.append("\n  unexecuted        ");
    totals.append(text::count(unexecuted).as_str());
    totals.append("\n  claimed but not   ");
    totals.append(text::count(claimed).as_str());
    totals.append("\n  no viable mutant  ");
    totals.append(text::count(unviable).as_str());
    totals.append("\n");
    out.append(totals.as_str());
    out.append(show_unmatched(coverage.unmatched).as_str());
    out.append(show_absent(&coverage.files_without_coverage, verbose).as_str());
    out.append(EXECUTION_NOTE);
    out
}

fn show_unmatched(n: usize) -> (r: String)
    ensures
        r@ == unmatched_text(n as nat),
{
    if n == 0 {
        return String::new();
    }
    let mut out = text::owned("  unmatched entries ");
    out.append(text::count(n).as_str());
    out.append(" (macro and derive output, which has no source definition)\n");
    out
}

fn show_absent(files: &Vec<String>, verbose: bool) -> (r: String)
    ensures
        r@ == absent_text(text::texts(files@), verbose),
{
    let ghost all = text::texts(files@);
    let n: usize = files.len();
    if n == 0 {
        return String::new();
    }
    let shown: usize = if verbose || n <= 8 {
        n
    } else {
        8
    };
    assert(all.take(n as int) =~= all);
    let mut out = text::owned("\n");
    out.append(text::count(n).as_str());
    out.append(
        " inventoried file(s) absent from the coverage report -- stale report, or the crate was not built:\n",
    );
    out.append(show_names(files, shown).as_str());
    out
}

/// A symbol that ran is executed, or has no viable mutant; one that did not run is
/// unexecuted, and its claim unbacked where a test claims it directly. None of
/// these is reported as verified.
pub proof fn law_execution_state(s: SymbolView, cov: CoverageMap, edges: Seq<ClaimView>)
    ensures
        state_in(s, cov, edges) == ExecutionState::Executed <==> cov.ran(s.id) && !s.unviable(),
        state_in(s, cov, edges) == ExecutionState::NoViableMutant <==> cov.ran(s.id) && s.unviable(),
        state_in(s, cov, edges) == ExecutionState::ClaimedButUnexecuted <==> !cov.ran(s.id)
            && claims::is_claimed(edges, s.id, true),
        state_in(s, cov, edges) == ExecutionState::Unexecuted <==> !cov.ran(s.id)
            && !claims::is_claimed(edges, s.id, true),
        state_in(s, cov, edges).name_of() != Verification::Verified.name_of(),
{
    reveal_strlit("unexecuted");
    reveal_strlit("claimed, not run");
    reveal_strlit("executed");
    reveal_strlit("no viable mutant");
    reveal_strlit("verified");
    assert("executed"@[0] == 'e' && "verified"@[0] == 'v');
    assert("unexecuted"@.len() == 10 && "claimed, not run"@.len() == 16);
    assert("no viable mutant"@.len() == 16 && "verified"@.len() == 8);
}

/// Every scorable symbol is counted under exactly one state.
pub proof fn law_states_add_up(symbols: Seq<SymbolView>, cov: CoverageMap, edges: Seq<ClaimView>)
    ensures
        in_state(symbols, cov, edges, ExecutionState::Executed) + in_state(
            symbols,
            cov,
            edges,
            ExecutionState::Unexecuted,
        ) + in_state(symbols, cov, edges, ExecutionState::ClaimedButUnexecuted) + in_state(
            symbols,
            cov,
            edges,
            ExecutionState::NoViableMutant,
        ) == symbols.len(),
    decreases symbols.len(),
{
    if symbols.len() > 0 {
        law_states_add_up(symbols.drop_last(), cov, edges);
    }
}

} // verus!
