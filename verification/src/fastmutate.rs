//! Single-compile mutation: rewrite once, build once, run many.
//!
//! A mutation tool that recompiles for every mutant pays seconds of compiler
//! time for milliseconds of test time. This module takes the other side of the
//! trade: compile *every* mutation in at once behind a runtime switch, then
//! select one per test run.
//!
//! ```text
//! one build per mutant:  N x (rewrite + build + test)
//! one build in all:      1 x (rewrite + build) + N x test
//! ```
//!
//! # Textual insertion, not reprinting
//!
//! The rewrite inserts a guard immediately after each function body's opening
//! brace, by byte offset, leaving every other character of the file untouched.
//! Reprinting a parsed file would be easier but renumbers every line, and line
//! numbers are the join key (see [`crate::symbol`]). Keeping the file identical
//! apart from the insertions means that a `SymbolId` of the source tree still
//! addresses the same code in the rewritten one.

use vstd::prelude::*;
use vstd::slice::slice_subrange;
use crate::inventory;
use crate::inventory::Inventory;
use crate::lower;
use crate::order;
use crate::order::{Key, Ranked};
use crate::switch::Note;
use crate::symbol::{ReturnShape, Symbol, SymbolId, SymbolIdView, SymbolView};
use crate::syntax;
use crate::syntax::{
    Body, BodyView, Definition, DefinitionView, Func, FuncView, Sig, SigView, TraitFunc,
    TraitFuncView, TyShape, TyShapeView,
};
use crate::text;

verus! {

// ---------------------------------------------------------------------------
// The plan
// ---------------------------------------------------------------------------

/// Why a symbol cannot carry a runtime mutation switch.
#[derive(Clone, Copy, Debug, PartialEq, Eq, Structural)]
pub enum SkipReason {
    /// `const fn` cannot call the switch at compile time.
    ConstFn,
    /// `-> impl Trait` cannot be named as a generic argument, so the type
    /// cannot be probed for a `Default`.
    ImplTraitReturn,
    /// `-> !` never returns, so there is no value to substitute.
    NeverReturns,
    /// An accessor or empty body: nothing worth destroying.
    NotScorable,
}

impl SkipReason {
    /// Human-readable explanation for reports.
    pub fn label(self) -> (r: &'static str)
        ensures
            r@ == match self {
                SkipReason::ConstFn => "const fn cannot call the switch"@,
                SkipReason::ImplTraitReturn => "`impl Trait` cannot be probed for Default"@,
                SkipReason::NeverReturns => "diverging function has no value to return"@,
                SkipReason::NotScorable => "accessor or empty body"@,
            },
    {
        match self {
            SkipReason::ConstFn => "const fn cannot call the switch",
            SkipReason::ImplTraitReturn => "`impl Trait` cannot be probed for Default",
            SkipReason::NeverReturns => "diverging function has no value to return",
            SkipReason::NotScorable => "accessor or empty body",
        }
    }
}

/// One function that will carry a switch, and the id selecting it.
#[derive(Clone, Debug)]
pub struct FastMutant {
    /// The value of the switch that activates this mutation.
    pub id: u32,
    /// The symbol whose body is replaced, addressed in the *source* tree.
    pub symbol: SymbolId,
    /// Display path, for reports.
    pub path: String,
    /// The replacement, as source, e.g. `Ok(Default::default())`.
    pub replacement: String,
}

/// One function that will carry a switch, as a mathematical value.
#[verifier::ext_equal]
pub struct FastMutantView {
    pub id: u32,
    pub symbol: SymbolIdView,
    pub path: Seq<char>,
    pub replacement: Seq<char>,
}

impl View for FastMutant {
    type V = FastMutantView;

    open spec fn view(&self) -> FastMutantView {
        FastMutantView {
            id: self.id,
            symbol: self.symbol@,
            path: self.path@,
            replacement: self.replacement@,
        }
    }
}

/// Every mutation a rewrite will install, plus what it declined to touch.
#[derive(Clone, Debug)]
pub struct Plan {
    /// Mutations to install, in id order.
    pub mutants: Vec<FastMutant>,
    /// Symbols deliberately left alone, and why.
    pub skipped: Vec<(String, SkipReason)>,
}

/// Every mutation, and what was left alone, as a mathematical value.
#[verifier::ext_equal]
pub struct PlanView {
    pub mutants: Seq<FastMutantView>,
    pub skipped: Seq<(Seq<char>, SkipReason)>,
}

impl View for Plan {
    type V = PlanView;

    open spec fn view(&self) -> PlanView {
        PlanView {
            mutants: order::views(self.mutants@),
            skipped: self.skipped@.map_values(|e: (String, SkipReason)| (e.0@, e.1)),
        }
    }
}

/// Why a symbol is left alone, if it is.
pub open spec fn skips(s: SymbolView) -> Option<SkipReason> {
    if !s.scorable() {
        Some(SkipReason::NotScorable)
    } else if s.is_const {
        Some(SkipReason::ConstFn)
    } else if s.returns == ReturnShape::ImplTrait {
        Some(SkipReason::ImplTraitReturn)
    } else if s.returns == ReturnShape::Never {
        Some(SkipReason::NeverReturns)
    } else {
        None
    }
}

/// Of the symbols worth scoring, those are left alone to which body replacement is
/// not expected to apply, and no others.
pub proof fn law_prediction_is_the_plan(s: SymbolView)
    requires
        s.scorable(),
    ensures
        s.unviable() <==> skips(s) is Some,
{
}

/// What a body is replaced by.
pub open spec fn replacement_for(ret: ReturnShape) -> Seq<char> {
    match ret {
        ReturnShape::Unit => "()"@,
        ReturnShape::ResultLike => "Ok(Default::default())"@,
        _ => "Default::default()"@,
    }
}

/// Which symbols of a list carry a switch.
pub open spec fn plan_for(symbols: Seq<SymbolView>) -> PlanView
    decreases symbols.len(),
{
    if symbols.len() == 0 {
        PlanView { mutants: Seq::empty(), skipped: Seq::empty() }
    } else {
        let before = plan_for(symbols.drop_last());
        let s = symbols.last();
        match skips(s) {
            Some(reason) => PlanView { skipped: before.skipped.push((s.path, reason)), ..before },
            None => PlanView {
                mutants: before.mutants.push(
                    FastMutantView {
                        id: before.mutants.len() as usize as u32,
                        symbol: s.id,
                        path: s.path,
                        replacement: replacement_for(s.returns),
                    },
                ),
                ..before
            },
        }
    }
}

/// The first mutant of a list with an id.
pub open spec fn mutant_with(mutants: Seq<FastMutantView>, id: u32) -> Option<FastMutantView>
    decreases mutants.len(),
{
    if mutants.len() == 0 {
        None
    } else if mutants[0].id == id {
        Some(mutants[0])
    } else {
        mutant_with(mutants.skip(1), id)
    }
}

/// The mutants of a list that are of a file.
pub open spec fn mutants_in(mutants: Seq<FastMutantView>, file: Seq<char>) -> Seq<FastMutantView>
    decreases mutants.len(),
{
    if mutants.len() == 0 {
        Seq::empty()
    } else if mutants.last().symbol.file == file {
        mutants_in(mutants.drop_last(), file).push(mutants.last())
    } else {
        mutants_in(mutants.drop_last(), file)
    }
}

fn skip_reason(s: &Symbol) -> (r: Option<SkipReason>)
    ensures
        r == skips(s@),
{
    if !s.triviality.is_scorable() {
        return Some(SkipReason::NotScorable);
    }
    if s.is_const {
        return Some(SkipReason::ConstFn);
    }
    match s.returns {
        ReturnShape::ImplTrait => Some(SkipReason::ImplTraitReturn),
        ReturnShape::Never => Some(SkipReason::NeverReturns),
        _ => None,
    }
}

fn describe_replacement(s: &Symbol) -> (r: String)
    ensures
        r@ == replacement_for(s@.returns),
{
    match s.returns {
        ReturnShape::Unit => text::owned("()"),
        ReturnShape::ResultLike => text::owned("Ok(Default::default())"),
        _ => text::owned("Default::default()"),
    }
}

impl Plan {
    /// Decides which symbols can carry a switch.
    pub fn build(inv: &Inventory) -> (r: Self)
        ensures
            r@ == plan_for(inv@.symbols),
    {
        let ghost all = inv@.symbols;
        let mut plan = Plan { mutants: Vec::new(), skipped: Vec::new() };
        let mut i: usize = 0;
        assert(plan@ =~= plan_for(all.take(0)));
        while i < inv.symbols.len()
            invariant
                i <= inv.symbols@.len(),
                all == inv@.symbols,
                plan@ == plan_for(all.take(i as int)),
            decreases inv.symbols@.len() - i,
        {
            let ghost before = plan@;
            assert(all.take(i as int + 1).drop_last() =~= all.take(i as int));
            assert(all[i as int] == inv.symbols@[i as int]@);
            let s = &inv.symbols[i];
            match skip_reason(s) {
                Some(reason) => {
                    plan.skipped.push((s.path.clone(), reason));
                    assert(plan@.skipped =~= before.skipped.push((all[i as int].path, reason)));
                },
                None => {
                    let id: u32 = plan.mutants.len() as u32;
                    let m = FastMutant {
                        id,
                        symbol: s.id.copy(),
                        path: s.path.clone(),
                        replacement: describe_replacement(s),
                    };
                    let ghost mv = m@;
                    plan.mutants.push(m);
                    assert(plan@.mutants =~= before.mutants.push(mv));
                },
            }
            i += 1;
        }
        assert(all.take(all.len() as int) =~= all);
        plan
    }

    /// Looks up which symbol an id belongs to.
    pub fn symbol_for(&self, id: u32) -> (r: Option<&FastMutant>)
        ensures
            match r {
                Some(m) => mutant_with(self@.mutants, id) == Some(m@),
                None => mutant_with(self@.mutants, id) is None,
            },
    {
        let ghost all = self@.mutants;
        let mut i: usize = 0;
        assert(all.skip(0) =~= all);
        while i < self.mutants.len()
            invariant
                i <= self.mutants@.len(),
                all == self@.mutants,
                mutant_with(all, id) == mutant_with(all.skip(i as int), id),
            decreases self.mutants@.len() - i,
        {
            assert(all.skip(i as int)[0] == self.mutants@[i as int]@);
            assert(all.skip(i as int).skip(1) =~= all.skip(i + 1));
            if self.mutants[i].id == id {
                return Some(&self.mutants[i]);
            }
            i += 1;
        }
        None
    }

    /// The mutations to install in one file.
    pub fn in_file(&self, file: &str) -> (r: Vec<&FastMutant>)
        ensures
            r@.map_values(|m: &FastMutant| m@) == mutants_in(self@.mutants, file@),
    {
        let ghost all = self@.mutants;
        let mut out: Vec<&FastMutant> = Vec::new();
        let mut i: usize = 0;
        while i < self.mutants.len()
            invariant
                i <= self.mutants@.len(),
                all == self@.mutants,
                out@.map_values(|m: &FastMutant| m@) == mutants_in(all.take(i as int), file@),
            decreases self.mutants@.len() - i,
        {
            let ghost before = out@.map_values(|m: &FastMutant| m@);
            assert(all.take(i as int + 1).drop_last() =~= all.take(i as int));
            assert(all[i as int] == self.mutants@[i as int]@);
            if text::same(self.mutants[i].symbol.file.as_str(), file) {
                out.push(&self.mutants[i]);
                assert(out@.map_values(|m: &FastMutant| m@) =~= before.push(all[i as int]));
            }
            i += 1;
        }
        assert(all.take(all.len() as int) =~= all);
        out
    }
}

/// Every symbol is either mutated or skipped with a reason, and the ids of the
/// mutants count up from zero.
pub proof fn law_plan(symbols: Seq<SymbolView>)
    ensures
        plan_for(symbols).mutants.len() + plan_for(symbols).skipped.len() == symbols.len(),
        forall|i: int|
            0 <= i < plan_for(symbols).mutants.len() ==> (#[trigger] plan_for(
                symbols,
            ).mutants[i]).id == i as usize as u32,
    decreases symbols.len(),
{
    if symbols.len() > 0 {
        let front = plan_for(symbols.drop_last());
        law_plan(symbols.drop_last());
        assert forall|i: int| 0 <= i < plan_for(symbols).mutants.len() implies (
        #[trigger] plan_for(symbols).mutants[i]).id == i as usize as u32 by {
            if i < front.mutants.len() {
                assert(front.mutants[i].id == i as usize as u32);
            }
        }
    }
}

/// The id of a mutant selects that mutant and no other, as long as 32 bits number
/// them all.
pub proof fn law_ids_select(symbols: Seq<SymbolView>, i: int)
    requires
        0 <= i < plan_for(symbols).mutants.len(),
        plan_for(symbols).mutants.len() <= u32::MAX,
    ensures
        mutant_with(plan_for(symbols).mutants, i as u32) == Some(plan_for(symbols).mutants[i]),
{
    law_plan(symbols);
    lemma_mutant_with(plan_for(symbols).mutants, 0, i);
}

proof fn lemma_mutant_with(mutants: Seq<FastMutantView>, n: int, i: int)
    requires
        0 <= n <= i < mutants.len(),
        mutants.len() <= u32::MAX,
        forall|k: int| 0 <= k < mutants.len() ==> (#[trigger] mutants[k]).id == k as usize as u32,
    ensures
        mutant_with(mutants.skip(n), i as u32) == Some(mutants[i]),
        n == 0 ==> mutant_with(mutants, i as u32) == Some(mutants[i]),
    decreases i - n,
{
    assert(mutants.skip(n)[0] == mutants[n]);
    if n < i {
        lemma_mutant_with(mutants, n + 1, i);
        assert(mutants.skip(n).skip(1) =~= mutants.skip(n + 1));
    }
    if n == 0 {
        assert(mutants.skip(0) =~= mutants);
    }
}

// ---------------------------------------------------------------------------
// Places in a text
// ---------------------------------------------------------------------------

/// The lines of a text, each with the line feed that ends it.
pub open spec fn kept_lines(s: Seq<char>) -> Seq<Seq<char>>
    decreases s.len(),
{
    if s.len() == 0 {
        Seq::empty()
    } else {
        let before = kept_lines(s.drop_last());
        if before.len() == 0 || before.last().last() == '\n' {
            before.push(seq![s.last()])
        } else {
            before.drop_last().push(before.last().push(s.last()))
        }
    }
}

/// The lines of a text make up the text, and none is empty.
pub proof fn lemma_kept_lines(s: Seq<char>)
    ensures
        text::concat(kept_lines(s)) == s,
        forall|i: int| 0 <= i < kept_lines(s).len() ==> (#[trigger] kept_lines(s)[i]).len() > 0,
    decreases s.len(),
{
    if s.len() > 0 {
        let front = s.drop_last();
        let before = kept_lines(front);
        let all = kept_lines(s);
        lemma_kept_lines(front);
        if before.len() == 0 || before.last().last() == '\n' {
            assert(all.drop_last() =~= before);
            assert(text::concat(before) + seq![s.last()] =~= s);
        } else {
            assert(all.drop_last() =~= before.drop_last());
            assert(text::concat(before.drop_last()) + before.last().push(s.last()) =~= (text::concat(
                before.drop_last(),
            ) + before.last()).push(s.last()));
            assert(front.push(s.last()) =~= s);
        }
        assert forall|i: int| 0 <= i < all.len() implies (#[trigger] all[i]).len() > 0 by {
            if i < before.len() - 1 {
                assert(before[i].len() > 0);
            }
        }
    }
}

/// Splits a text into its lines, keeping the line feeds.
fn split_kept(s: &str) -> (r: Vec<String>)
    ensures
        text::texts(r@) == kept_lines(s@),
{
    let cs = text::chars_of(s);
    let mut done: Vec<String> = Vec::new();
    let mut i: usize = 0;
    assert(text::texts(done@) =~= kept_lines(cs@.take(0)));
    let mut fresh = true;
    while i < cs.len()
        invariant
            i <= cs@.len(),
            cs@ == s@,
            text::texts(done@) == kept_lines(cs@.take(i as int)),
            fresh == (done@.len() == 0 || text::texts(done@).last().last() == '\n'),
        decreases cs@.len() - i,
    {
        let ghost before = text::texts(done@);
        let ghost c = cs@[i as int];
        assert(cs@.take(i as int + 1).drop_last() =~= cs@.take(i as int));
        if fresh {
            let mut line = String::new();
            line.push(cs[i]);
            assert(line@ =~= seq![c]);
            done.push(line);
            assert(text::texts(done@) =~= before.push(seq![c]));
        } else {
            let mut line = match done.pop() {
                Some(line) => line,
                None => String::new(),
            };
            assert(text::texts(done@) =~= before.drop_last());
            line.push(cs[i]);
            let ghost lv = line@;
            done.push(line);
            assert(text::texts(done@) =~= before.drop_last().push(before.last().push(c)));
        }
        fresh = cs[i] == '\n';
        i += 1;
    }
    assert(cs@.take(cs@.len() as int) =~= cs@);
    done
}

/// The byte offset of a 1-based line and a 0-based column, which counts
/// characters. Past the end of the line it is that of the next.
pub open spec fn offset_of(s: Seq<char>, line: nat, col: nat) -> Option<nat> {
    let lines = kept_lines(s);
    if 1 <= line <= lines.len() {
        let l = lines[line - 1];
        Some(
            text::bytes_of(text::concat(lines.take(line - 1))) + text::bytes_of(
                l.take(
                    if col < l.len() {
                        col as int
                    } else {
                        l.len() as int
                    },
                ),
            ),
        )
    } else {
        None
    }
}

proof fn lemma_offset_bound(s: Seq<char>, n: int, k: int)
    requires
        0 <= n < kept_lines(s).len(),
        0 <= k <= kept_lines(s)[n].len(),
    ensures
        text::bytes_of(text::concat(kept_lines(s).take(n))) + text::bytes_of(kept_lines(s)[n].take(k))
            <= text::bytes_of(s),
{
    let lines = kept_lines(s);
    lemma_kept_lines(s);
    lemma_concat_split(lines, n);
    let head = text::concat(lines.take(n));
    let l = lines[n];
    let tail = text::concat(lines.skip(n + 1));
    assert(l.take(k) + l.skip(k) =~= l);
    text::lemma_bytes_concat(l.take(k), l.skip(k));
    text::lemma_bytes_concat(head, l);
    text::lemma_bytes_concat(head + l, tail);
}

proof fn lemma_concat_split(parts: Seq<Seq<char>>, n: int)
    requires
        0 <= n < parts.len(),
    ensures
        text::concat(parts) == text::concat(parts.take(n)) + parts[n] + text::concat(parts.skip(n + 1)),
    decreases parts.len() - n,
{
    lemma_concat_append(parts.take(n + 1), parts.skip(n + 1));
    assert(parts.take(n + 1) + parts.skip(n + 1) =~= parts);
    assert(parts.take(n + 1).drop_last() =~= parts.take(n));
}

/// Parts in a row make up the parts together.
pub proof fn lemma_concat_append(a: Seq<Seq<char>>, b: Seq<Seq<char>>)
    ensures
        text::concat(a + b) == text::concat(a) + text::concat(b),
    decreases b.len(),
{
    if b.len() == 0 {
        assert(a + b =~= a);
        assert(text::concat(a) + text::concat(b) =~= text::concat(a));
    } else {
        lemma_concat_append(a, b.drop_last());
        assert((a + b).drop_last() =~= a + b.drop_last());
        assert(text::concat(a) + text::concat(b.drop_last()) + b.last() =~= text::concat(a) + (text::concat(b.drop_last())
            + b.last()));
    }
}

/// Maps a 1-based line and a 0-based column to a byte offset.
pub fn byte_offset(source: &str, line: u32, col: u32) -> (r: Option<usize>)
    ensures
        match r {
            Some(n) => offset_of(source@, line as nat, col as nat) == Some(n as nat),
            None => offset_of(source@, line as nat, col as nat) is None,
        },
{
    let lines = split_kept(source);
    let total: usize = text::byte_len(source);
    let ghost all = kept_lines(source@);
    if line == 0 || lines.len() < line as usize {
        return None;
    }
    let at: usize = line as usize - 1;
    let mut offset: usize = 0;
    let mut i: usize = 0;
    assert(text::concat(all.take(0)) =~= Seq::<char>::empty());
    while i < at
        invariant
            i <= at < lines@.len(),
            all == kept_lines(source@),
            all == text::texts(lines@),
            total == text::bytes_of(source@),
            offset == text::bytes_of(text::concat(all.take(i as int))),
        decreases at - i,
    {
        assert(all[i as int] == lines@[i as int]@);
        proof {
            lemma_offset_bound(source@, i as int, all[i as int].len() as int);
            assert(all[i as int].take(all[i as int].len() as int) =~= all[i as int]);
            assert(all.take(i as int + 1).drop_last() =~= all.take(i as int));
            text::lemma_bytes_concat(text::concat(all.take(i as int)), all[i as int]);
        }
        offset = offset + text::byte_len(lines[i].as_str());
        i += 1;
    }
    assert(all[at as int] == lines@[at as int]@);
    let l = text::chars_of(lines[at].as_str());
    let stop: usize = if (col as usize) < l.len() {
        col as usize
    } else {
        l.len()
    };
    proof {
        lemma_offset_bound(source@, at as int, stop as int);
        assert(l@.subrange(0, stop as int) =~= l@.take(stop as int));
    }
    let head = text::text_of(slice_subrange(&l, 0, stop));
    Some(offset + text::byte_len(head.as_str()))
}

// ---------------------------------------------------------------------------
// The guard
// ---------------------------------------------------------------------------

/// The type that a guard probes for a default.
pub open spec fn probed(ret: ReturnShape, inner: Option<Seq<char>>) -> Seq<char> {
    if ret == ReturnShape::Unit {
        "()"@
    } else {
        match inner {
            Some(t) => t,
            None => "_"@,
        }
    }
}

/// The value that a guard returns. `Result<T, E>` has no `Default`: the guard
/// probes `T` and wraps what it gets.
pub open spec fn wrapped(ret: ReturnShape) -> Seq<char> {
    if ret == ReturnShape::ResultLike {
        "Ok(__oracle_v)"@
    } else {
        "__oracle_v"@
    }
}

/// The guard inserted at the top of a function body.
pub open spec fn guard_text(id: u32, ret: ReturnShape, inner: Option<Seq<char>>) -> Seq<char> {
    " if ::oracle_switch::active("@ + text::decimal_of(id as nat)
        + "u32) { #[allow(unused_imports)] use ::oracle_switch::{ViaDefault as _, ViaFallback as _}; match (&&::oracle_switch::Probe::<"@
        + probed(ret, inner)
        + ">::new()).oracle_default() { Some(__oracle_v) => { ::oracle_switch::note(::oracle_switch::Note::Applied); return "@
        + wrapped(ret) + "; } None => ::oracle_switch::note(::oracle_switch::Note::Inert), } }"@
}

/// Writes the guard for a function body.
///
/// `active` is checked first so a baseline run, with nothing selected, pays one
/// integer comparison and skips the probe entirely.
pub fn guard(id: u32, ret: ReturnShape, inner_type: Option<&str>) -> (r: String)
    ensures
        r@ == guard_text(
            id,
            ret,
            match inner_type {
                Some(t) => Some(t@),
                None => None,
            },
        ),
{
    let mut out = text::owned(" if ::oracle_switch::active(");
    out.append(text::decimal(id as u64).as_str());
    out.append(
        "u32) { #[allow(unused_imports)] use ::oracle_switch::{ViaDefault as _, ViaFallback as _}; match (&&::oracle_switch::Probe::<",
    );
    if ret == ReturnShape::Unit {
        out.append("()");
    } else {
        match inner_type {
            Some(t) => {
                out.append(t);
            },
            None => {
                out.append("_");
            },
        }
    }
    out.append(
        ">::new()).oracle_default() { Some(__oracle_v) => { ::oracle_switch::note(::oracle_switch::Note::Applied); return ",
    );
    if ret == ReturnShape::ResultLike {
        out.append("Ok(__oracle_v)");
    } else {
        out.append("__oracle_v");
    }
    out.append("; } None => ::oracle_switch::note(::oracle_switch::Note::Inert), } }");
    out
}

// ---------------------------------------------------------------------------
// Finding the body
// ---------------------------------------------------------------------------

/// Where a body opens: the 1-based line and the 0-based column of its brace, and
/// the type to probe, as text.
#[verifier::ext_equal]
pub struct OpeningView {
    pub line: u32,
    pub col: u32,
    pub probe: Option<Seq<char>>,
}

/// Where a body opens.
pub struct Opening {
    pub line: u32,
    pub col: u32,
    pub probe: Option<String>,
}

impl View for Opening {
    type V = OpeningView;

    open spec fn view(&self) -> OpeningView {
        OpeningView { line: self.line, col: self.col, probe: text::option_text(self.probe) }
    }
}

/// The view of an optional opening.
pub open spec fn option_opening(o: Option<Opening>) -> Option<OpeningView> {
    match o {
        Some(o) => Some(o@),
        None => None,
    }
}

/// The type to probe: the success type of a `Result`, where it is written, and
/// the whole return type otherwise.
pub open spec fn probe_of(sig: SigView) -> Option<Seq<char>> {
    match sig.output {
        None => Some("()"@),
        Some(ty) => match ty.shape {
            TyShapeView::Path(last, argument) => if last == Some("Result"@) {
                match argument {
                    Some(ok) => Some(ok.text),
                    None => None,
                }
            } else {
                Some(ty.text)
            },
            _ => Some(ty.text),
        },
    }
}

/// The opening of a body.
pub open spec fn opening(sig: SigView, body: BodyView) -> OpeningView {
    OpeningView {
        line: body.open_line as u32,
        col: body.open_column as u32,
        probe: probe_of(sig),
    }
}

/// The name of a function is at a 1-based line and a 1-based column.
pub open spec fn named_at(sig: SigView, line: u32, col: u32) -> bool {
    sig.line as u32 == line && sig.column as u32 + 1 == col
}

/// The opening of the first method of a list whose name is at a place.
pub open spec fn opening_in_impl(funcs: Seq<FuncView>, line: u32, col: u32) -> Option<OpeningView>
    decreases funcs.len(),
{
    if funcs.len() == 0 {
        None
    } else if named_at(funcs[0].sig, line, col) {
        Some(opening(funcs[0].sig, funcs[0].body))
    } else {
        opening_in_impl(funcs.skip(1), line, col)
    }
}

/// The opening of the first default body of a list whose name is at a place.
pub open spec fn opening_in_trait(funcs: Seq<TraitFuncView>, line: u32, col: u32) -> Option<OpeningView>
    decreases funcs.len(),
{
    if funcs.len() == 0 {
        None
    } else if funcs[0].default is Some && named_at(funcs[0].sig, line, col) {
        Some(opening(funcs[0].sig, funcs[0].default->0))
    } else {
        opening_in_trait(funcs.skip(1), line, col)
    }
}

/// The opening of the body, in an item, of the function whose name is at a place.
pub open spec fn opening_in(item: DefinitionView, line: u32, col: u32) -> Option<OpeningView>
    decreases item,
{
    match item {
        DefinitionView::Func(f) => if named_at(f.sig, line, col) {
            Some(opening(f.sig, f.body))
        } else {
            None
        },
        DefinitionView::Impl(_, _, funcs) => opening_in_impl(funcs, line, col),
        DefinitionView::Trait(_, _, funcs) => opening_in_trait(funcs, line, col),
        DefinitionView::Mod(_, _, Some(items)) => opening_in_all(items, line, col),
        _ => None,
    }
}

/// The opening of the first body, in the items of a list, of the function whose
/// name is at a place.
pub open spec fn opening_in_all(items: Seq<DefinitionView>, line: u32, col: u32) -> Option<OpeningView>
    decreases items,
{
    if items.len() == 0 {
        None
    } else {
        match opening_in_all(items.drop_last(), line, col) {
            Some(o) => Some(o),
            None => opening_in(items.last(), line, col),
        }
    }
}

fn is_named_at(sig: &Sig, line: u32, col: u32) -> (r: bool)
    ensures
        r == named_at(sig@, line, col),
{
    sig.line as u32 == line && col > 0 && sig.column as u32 == col - 1
}

fn probe_type(sig: &Sig) -> (r: Option<String>)
    ensures
        text::option_text(r) == probe_of(sig@),
{
    proof {
        reveal_with_fuel(syntax::Ty::model, 2);
    }
    match &sig.output {
        None => Some(text::owned("()")),
        Some(ty) => match &ty.shape {
            TyShape::Path(last, argument) => if text::option_is(last, "Result") {
                match argument {
                    Some(ok) => Some(ok.text.clone()),
                    // `Result<T>` behind an alias: there is no success type to name.
                    None => None,
                }
            } else {
                Some(ty.text.clone())
            },
            _ => Some(ty.text.clone()),
        },
    }
}

fn opening_of(sig: &Sig, body: &Body) -> (r: Opening)
    ensures
        r@ == opening(sig@, body@),
{
    Opening { line: body.open_line as u32, col: body.open_column as u32, probe: probe_type(sig) }
}

fn search_impl(funcs: &Vec<Func>, line: u32, col: u32) -> (r: Option<Opening>)
    ensures
        option_opening(r) == opening_in_impl(funcs@.map_values(|f: Func| f@), line, col),
{
    let ghost all = funcs@.map_values(|f: Func| f@);
    let mut i: usize = 0;
    assert(all.skip(0) =~= all);
    while i < funcs.len()
        invariant
            i <= funcs@.len(),
            all == funcs@.map_values(|f: Func| f@),
            opening_in_impl(all, line, col) == opening_in_impl(all.skip(i as int), line, col),
        decreases funcs@.len() - i,
    {
        assert(all.skip(i as int)[0] == funcs@[i as int]@);
        assert(all.skip(i as int).skip(1) =~= all.skip(i + 1));
        if is_named_at(&funcs[i].sig, line, col) {
            return Some(opening_of(&funcs[i].sig, &funcs[i].body));
        }
        i += 1;
    }
    None
}

fn search_trait(funcs: &Vec<TraitFunc>, line: u32, col: u32) -> (r: Option<Opening>)
    ensures
        option_opening(r) == opening_in_trait(funcs@.map_values(|f: TraitFunc| f@), line, col),
{
    let ghost all = funcs@.map_values(|f: TraitFunc| f@);
    let mut i: usize = 0;
    assert(all.skip(0) =~= all);
    while i < funcs.len()
        invariant
            i <= funcs@.len(),
            all == funcs@.map_values(|f: TraitFunc| f@),
            opening_in_trait(all, line, col) == opening_in_trait(all.skip(i as int), line, col),
        decreases funcs@.len() - i,
    {
        assert(all.skip(i as int)[0] == funcs@[i as int]@);
        assert(all.skip(i as int).skip(1) =~= all.skip(i + 1));
        if let Some(body) = &funcs[i].default {
            if is_named_at(&funcs[i].sig, line, col) {
                return Some(opening_of(&funcs[i].sig, body));
            }
        }
        i += 1;
    }
    None
}

proof fn lemma_opening_prefix(items: Seq<DefinitionView>, line: u32, col: u32, n: int)
    requires
        0 <= n <= items.len(),
        opening_in_all(items.take(n), line, col) is Some,
    ensures
        opening_in_all(items, line, col) == opening_in_all(items.take(n), line, col),
    decreases items.len() - n,
{
    if n == items.len() {
        assert(items.take(n) =~= items);
    } else {
        assert(items.take(n + 1).drop_last() =~= items.take(n));
        lemma_opening_prefix(items, line, col, n + 1);
    }
}

/// Locates the body of the function whose name is at a place, and the type to
/// probe.
pub fn find_body_open(items: &Vec<Definition>, line: u32, col: u32) -> (r: Option<Opening>)
    ensures
        option_opening(r) == opening_in_all(syntax::definition_views(items@), line, col),
    decreases items@,
{
    let ghost all = syntax::definition_views(items@);
    proof {
        syntax::lemma_definition_views(items@);
    }
    let mut i: usize = 0;
    while i < items.len()
        invariant
            i <= items@.len(),
            all == syntax::definition_views(items@),
            all.len() == items@.len(),
            forall|k: int| 0 <= k < items@.len() ==> #[trigger] all[k] == items@[k]@,
            opening_in_all(all.take(i as int), line, col) is None,
        decreases items@.len() - i,
    {
        assert(all.take(i as int + 1).drop_last() =~= all.take(i as int));
        assert(all[i as int] == items@[i as int]@);
        let found = match &items[i] {
            Definition::Func(f) => if is_named_at(&f.sig, line, col) {
                Some(opening_of(&f.sig, &f.body))
            } else {
                None
            },
            Definition::Impl(_, _, funcs) => search_impl(funcs, line, col),
            Definition::Trait(_, _, funcs) => search_trait(funcs, line, col),
            Definition::Mod(_, _, Some(inner)) => find_body_open(inner, line, col),
            _ => None,
        };
        assert(option_opening(found) == opening_in(all[i as int], line, col));
        if let Some(o) = found {
            proof {
                lemma_opening_prefix(all, line, col, i as int + 1);
            }
            return Some(o);
        }
        i += 1;
    }
    assert(all.take(all.len() as int) =~= all);
    None
}

// ---------------------------------------------------------------------------
// Inserting
// ---------------------------------------------------------------------------

/// One insertion: behind the brace at a byte offset.
pub struct Edit {
    pub brace: usize,
    pub insertion: String,
}

/// One insertion, as a mathematical value.
#[verifier::ext_equal]
pub struct EditView {
    pub brace: usize,
    pub insertion: Seq<char>,
}

impl View for Edit {
    type V = EditView;

    open spec fn view(&self) -> EditView {
        EditView { brace: self.brace, insertion: self.insertion@ }
    }
}

impl Ranked for Edit {
    open spec fn ranks(a: EditView, b: EditView) -> bool {
        a.brace >= b.brace
    }

    proof fn le_total(a: EditView, b: EditView) {
    }

    proof fn le_transitive(a: EditView, b: EditView, c: EditView) {
    }

    fn may_precede(&self, other: &Self) -> bool {
        self.brace >= other.brace
    }
}

/// The character at a byte offset: how many characters stand before it, where it
/// is not inside one.
pub open spec fn boundary(s: Seq<char>, offset: nat) -> Option<nat>
    decreases s.len(),
{
    if offset == 0 {
        Some(0)
    } else if s.len() == 0 || offset < text::width_of(s[0]) {
        None
    } else {
        match boundary(s.skip(1), (offset - text::width_of(s[0])) as nat) {
            Some(k) => Some(k + 1),
            None => None,
        }
    }
}

/// A boundary is where the bytes before it say.
pub proof fn lemma_boundary(s: Seq<char>, offset: nat)
    ensures
        boundary(s, offset) is Some ==> boundary(s, offset)->0 <= s.len() && text::bytes_of(
            s.take(boundary(s, offset)->0 as int),
        ) == offset,
    decreases s.len(),
{
    if offset == 0 {
        assert(s.take(0) =~= Seq::<char>::empty());
    } else if s.len() > 0 && offset >= text::width_of(s[0]) {
        let rest = s.skip(1);
        let left = (offset - text::width_of(s[0])) as nat;
        lemma_boundary(rest, left);
        if boundary(rest, left) is Some {
            let k = boundary(rest, left)->0 as int;
            assert(s.take(k + 1) =~= seq![s[0]] + rest.take(k));
            text::lemma_bytes_concat(seq![s[0]], rest.take(k));
            assert(seq![s[0]].drop_last() =~= Seq::<char>::empty());
            assert(text::bytes_of(seq![s[0]].drop_last()) == 0);
        }
    }
}

/// A text with an insertion. There is none where the brace's end is inside a
/// character or past the text.
pub open spec fn inserted(s: Seq<char>, e: EditView) -> Option<Seq<char>> {
    match boundary(s, e.brace as nat + 1) {
        Some(k) => Some(s.take(k as int) + e.insertion + s.skip(k as int)),
        None => None,
    }
}

/// A text with the insertions of a list, one after the other.
pub open spec fn spliced(s: Seq<char>, edits: Seq<EditView>) -> Option<Seq<char>>
    decreases edits.len(),
{
    if edits.len() == 0 {
        Some(s)
    } else {
        match spliced(s, edits.drop_last()) {
            Some(t) => inserted(t, edits.last()),
            None => None,
        }
    }
}

fn insert(s: &str, e: &Edit) -> (r: Option<String>)
    ensures
        text::option_text(r) == inserted(s@, e@),
{
    let cs = text::chars_of(s);
    let total: usize = text::byte_len(s);
    let ghost offset = e.brace as nat + 1;
    let mut k: usize = 0;
    let mut passed: usize = 0;
    assert(cs@.skip(0) =~= cs@);
    assert(cs@.take(0) =~= Seq::<char>::empty());
    while k < cs.len() && passed <= e.brace
        invariant
            k <= cs@.len(),
            cs@ == s@,
            total == text::bytes_of(s@),
            passed == text::bytes_of(cs@.take(k as int)),
            offset == e.brace as nat + 1,
            passed <= offset,
            match boundary(cs@.skip(k as int), (offset - passed) as nat) {
                Some(n) => boundary(s@, offset) == Some(n + k as nat),
                None => boundary(s@, offset) is None,
            },
        decreases cs@.len() - k,
    {
        let w: usize = text::width(cs[k]);
        let ghost rest = cs@.skip(k as int);
        proof {
            assert(rest[0] == cs@[k as int]);
            assert(rest.skip(1) =~= cs@.skip(k + 1));
            assert(cs@.take(k as int + 1).drop_last() =~= cs@.take(k as int));
            assert(cs@.take(k as int + 1) + cs@.skip(k as int + 1) =~= cs@);
            text::lemma_bytes_concat(cs@.take(k as int + 1), cs@.skip(k as int + 1));
        }
        if w > 1 && w - 1 > e.brace - passed {
            return None;
        }
        passed = passed + w;
        k += 1;
    }
    if passed <= e.brace {
        return None;
    }
    let n: usize = cs.len();
    assert(cs@.subrange(0, k as int) =~= s@.take(k as int));
    assert(cs@.subrange(k as int, n as int) =~= s@.skip(k as int));
    let mut out = text::text_of(slice_subrange(&cs, 0, k));
    out.append(e.insertion.as_str());
    out.append(text::text_of(slice_subrange(&cs, k, n)).as_str());
    Some(out)
}

/// The column in a text of a place that the parser gives. The parser does not count
/// a byte order mark, which shifts the first line.
pub open spec fn marked_column(source: Seq<char>, o: OpeningView) -> u32 {
    if o.line == 1 && o.col < u32::MAX && text::begins(source, "\u{feff}"@) {
        (o.col + 1) as u32
    } else {
        o.col
    }
}

/// The insertion that a mutant asks for. There is none where the symbol is not
/// inventoried, or its body is not in the items, or not in the text.
pub open spec fn edit_for(
    items: Seq<DefinitionView>,
    source: Seq<char>,
    symbols: Seq<SymbolView>,
    m: FastMutantView,
) -> Option<EditView> {
    match inventory::symbol_with(symbols, m.symbol) {
        Some(s) => match opening_in_all(items, s.id.line, s.id.col) {
            Some(o) => match offset_of(source, o.line as nat, marked_column(source, o) as nat) {
                Some(offset) => Some(
                    EditView {
                        brace: offset as usize,
                        insertion: guard_text(m.id, s.returns, o.probe),
                    },
                ),
                None => None,
            },
            None => None,
        },
        None => None,
    }
}

/// The insertions that the mutants of a list ask for.
pub open spec fn edits_for(
    items: Seq<DefinitionView>,
    source: Seq<char>,
    symbols: Seq<SymbolView>,
    mutants: Seq<FastMutantView>,
) -> Seq<EditView>
    decreases mutants.len(),
{
    if mutants.len() == 0 {
        Seq::empty()
    } else {
        let before = edits_for(items, source, symbols, mutants.drop_last());
        match edit_for(items, source, symbols, mutants.last()) {
            Some(e) => before.push(e),
            None => before,
        }
    }
}

/// A text with the guards of the mutants, applied from the end of the file
/// backwards so that earlier byte offsets stay valid.
pub open spec fn guarded(
    items: Seq<DefinitionView>,
    source: Seq<char>,
    symbols: Seq<SymbolView>,
    mutants: Seq<FastMutantView>,
) -> Option<Seq<char>> {
    spliced(source, order::sorted::<Edit>(edits_for(items, source, symbols, mutants)))
}

fn make_edit(items: &Vec<Definition>, source: &str, inv: &Inventory, m: &FastMutant) -> (r: Option<
    Edit,
>)
    ensures
        match r {
            Some(e) => edit_for(
                syntax::definition_views(items@),
                source@,
                inv@.symbols,
                m@,
            ) == Some(e@),
            None => edit_for(
                syntax::definition_views(items@),
                source@,
                inv@.symbols,
                m@,
            ) is None,
        },
{
    let s = match inv.symbol(&m.symbol) {
        Some(s) => s,
        None => {
            return None;
        },
    };
    let o = match find_body_open(items, s.id.line, s.id.col) {
        Some(o) => o,
        None => {
            return None;
        },
    };
    let col: u32 = if o.line == 1 && o.col < u32::MAX && text::starts_with(source, "\u{feff}") {
        o.col + 1
    } else {
        o.col
    };
    let brace: usize = match byte_offset(source, o.line, col) {
        Some(n) => n,
        None => {
            return None;
        },
    };
    let probe = match &o.probe {
        Some(t) => Some(t.as_str()),
        None => None,
    };
    Some(Edit { brace, insertion: guard(m.id, s.returns, probe) })
}

/// Inserts each mutant's guard just after its function body's opening brace, into
/// a text whose items are known. There is no such text where a brace's end falls
/// inside a character.
pub fn splice_guards(
    items: &Vec<Definition>,
    source: &str,
    inv: &Inventory,
    mutants: &Vec<&FastMutant>,
) -> (r: Option<String>)
    ensures
        text::option_text(r) == guarded(
            syntax::definition_views(items@),
            source@,
            inv@.symbols,
            mutants@.map_values(|m: &FastMutant| m@),
        ),
{
    let ghost views = syntax::definition_views(items@);
    let ghost all = mutants@.map_values(|m: &FastMutant| m@);
    let mut edits: Vec<Edit> = Vec::new();
    let mut i: usize = 0;
    assert(order::views(edits@) =~= edits_for(views, source@, inv@.symbols, all.take(0)));
    while i < mutants.len()
        invariant
            i <= mutants@.len(),
            views == syntax::definition_views(items@),
            all == mutants@.map_values(|m: &FastMutant| m@),
            order::views(edits@) == edits_for(views, source@, inv@.symbols, all.take(i as int)),
        decreases mutants@.len() - i,
    {
        let ghost before = order::views(edits@);
        assert(all.take(i as int + 1).drop_last() =~= all.take(i as int));
        assert(all[i as int] == mutants@[i as int]@);
        if let Some(e) = make_edit(items, source, inv, mutants[i]) {
            let ghost ev = e@;
            edits.push(e);
            assert(order::views(edits@) =~= before.push(ev));
        }
        i += 1;
    }
    assert(all.take(all.len() as int) =~= all);
    let sorted = order::sort_stable(edits);
    let ghost order_views = order::views(sorted@);
    let mut out = text::owned(source);
    let mut k: usize = 0;
    while k < sorted.len()
        invariant
            k <= sorted@.len(),
            order_views == order::views(sorted@),
            order_views == order::sorted::<Edit>(edits_for(views, source@, inv@.symbols, all)),
            views == syntax::definition_views(items@),
            all == mutants@.map_values(|m: &FastMutant| m@),
            spliced(source@, order_views.take(k as int)) == Some(out@),
        decreases sorted@.len() - k,
    {
        assert(order_views.take(k as int + 1).drop_last() =~= order_views.take(k as int));
        assert(order_views[k as int] == sorted@[k as int]@);
        match insert(out.as_str(), &sorted[k]) {
            Some(t) => {
                out = t;
            },
            None => {
                proof {
                    lemma_spliced_prefix(source@, order_views, k as int + 1);
                }
                return None;
            },
        }
        k += 1;
    }
    assert(order_views.take(order_views.len() as int) =~= order_views);
    Some(out)
}

proof fn lemma_spliced_prefix(s: Seq<char>, edits: Seq<EditView>, n: int)
    requires
        0 <= n <= edits.len(),
        spliced(s, edits.take(n)) is None,
    ensures
        spliced(s, edits) is None,
    decreases edits.len() - n,
{
    if n == edits.len() {
        assert(edits.take(n) =~= edits);
    } else {
        assert(edits.take(n + 1).drop_last() =~= edits.take(n));
        lemma_spliced_prefix(s, edits, n + 1);
    }
}

/// Why a file could not be rewritten.
#[derive(Debug)]
pub enum RewriteError {
    /// It does not parse, with the parser's message.
    Unparsed(String),
    /// The end of a brace falls inside a character.
    Misplaced,
}

impl RewriteError {
    /// The reason as it is reported.
    pub fn message(&self) -> (r: String)
        ensures
            r@ == match *self {
                RewriteError::Unparsed(message) => "parse error: "@ + message@,
                RewriteError::Misplaced => "a body's brace is not where the parser has it"@,
            },
    {
        match self {
            RewriteError::Unparsed(message) => text::joined("parse error: ", message.as_str()),
            RewriteError::Misplaced => text::owned("a body's brace is not where the parser has it"),
        }
    }
}

/// Inserts each mutant's guard just after its function body's opening brace.
pub fn insert_guards(source: &str, inv: &Inventory, mutants: &Vec<&FastMutant>) -> (r: Result<
    String,
    RewriteError,
>)
    ensures
        match lower::file_holds(source@) {
            Ok(items) => {
                let due = guarded(
                    items,
                    source@,
                    inv@.symbols,
                    mutants@.map_values(|m: &FastMutant| m@),
                );
                match r {
                    Ok(out) => due == Some(out@),
                    Err(e) => e is Misplaced && due is None,
                }
            },
            Err(message) => r is Err && r->Err_0 is Unparsed && r->Err_0->Unparsed_0@ == message,
        },
{
    match lower::read_file(source) {
        Ok(items) => match splice_guards(&items, source, inv, mutants) {
            Some(out) => Ok(out),
            None => Err(RewriteError::Misplaced),
        },
        Err(message) => Err(RewriteError::Unparsed(message)),
    }
}

/// An entry of the tree is copied.
pub open spec fn is_copied(name: Seq<char>) -> bool {
    name != "target"@
}

/// Whether an entry of the tree is copied: all but the build output is.
pub fn copies_entry(name: &str) -> (r: bool)
    ensures
        r == (name@ != "target"@),
        r == is_copied(name@),
{
    !text::same(name, "target")
}

// ---------------------------------------------------------------------------
// Laws of insertion
// ---------------------------------------------------------------------------

/// How many line feeds a text has.
pub open spec fn feeds(s: Seq<char>) -> nat
    decreases s.len(),
{
    if s.len() == 0 {
        0
    } else if s.last() == '\n' {
        feeds(s.drop_last()) + 1
    } else {
        feeds(s.drop_last())
    }
}

/// `places` says where each character of `s` stands in `t`: in the same order,
/// and on the same line.
pub open spec fn traces(s: Seq<char>, t: Seq<char>, places: Seq<int>) -> bool {
    &&& places.len() == s.len()
    &&& forall|i: int| 0 <= i < s.len() ==> 0 <= #[trigger] places[i] < t.len()
    &&& forall|i: int| 0 <= i < s.len() ==> t[#[trigger] places[i]] == s[i]
    &&& forall|i: int| 0 <= i < s.len() ==> feeds(t.take(#[trigger] places[i])) == feeds(s.take(i))
    &&& forall|i: int, j: int|
        0 <= i < j < s.len() ==> #[trigger] places[i] < #[trigger] places[j]
}

/// Every character of `s` is in `t`, in the same order and on the same line.
pub open spec fn keeps(s: Seq<char>, t: Seq<char>) -> bool {
    exists|places: Seq<int>| traces(s, t, places)
}

proof fn lemma_feeds_concat(a: Seq<char>, b: Seq<char>)
    ensures
        feeds(a + b) == feeds(a) + feeds(b),
    decreases b.len(),
{
    if b.len() == 0 {
        assert(a + b =~= a);
    } else {
        lemma_feeds_concat(a, b.drop_last());
        assert((a + b).drop_last() =~= a + b.drop_last());
    }
}

proof fn lemma_no_feeds(s: Seq<char>)
    requires
        !s.contains('\n'),
    ensures
        feeds(s) == 0,
    decreases s.len(),
{
    if s.len() > 0 {
        assert(s[s.len() - 1] == s.last());
        assert forall|i: int| 0 <= i < s.drop_last().len() implies s.drop_last()[i] != '\n' by {
            assert(s[i] == s.drop_last()[i]);
        }
        lemma_no_feeds(s.drop_last());
    }
}

/// An insertion leaves the rest of the text as it is: taking it out again gives
/// the text back.
pub proof fn law_insertion_is_all(s: Seq<char>, e: EditView)
    requires
        inserted(s, e) is Some,
    ensures
        ({
            let k = boundary(s, e.brace as nat + 1)->0 as int;
            let t = inserted(s, e)->0;
            &&& 0 <= k <= s.len()
            &&& t.subrange(k, k + e.insertion.len()) == e.insertion
            &&& t.take(k) + t.skip(k + e.insertion.len()) == s
        }),
{
    lemma_boundary(s, e.brace as nat + 1);
    let k = boundary(s, e.brace as nat + 1)->0 as int;
    let t = inserted(s, e)->0;
    assert(t.subrange(k, k + e.insertion.len()) =~= e.insertion);
    assert(t.take(k) =~= s.take(k));
    assert(t.skip(k + e.insertion.len()) =~= s.skip(k));
    assert(s.take(k) + s.skip(k) =~= s);
}

proof fn lemma_insertion_traces(s: Seq<char>, e: EditView)
    requires
        inserted(s, e) is Some,
        !e.insertion.contains('\n'),
    ensures
        keeps(s, inserted(s, e)->0),
{
    lemma_boundary(s, e.brace as nat + 1);
    lemma_no_feeds(e.insertion);
    let k = boundary(s, e.brace as nat + 1)->0 as int;
    let n = e.insertion.len();
    let t = inserted(s, e)->0;
    let places = Seq::new(
        s.len(),
        |i: int|
            if i < k {
                i
            } else {
                i + n
            },
    );
    assert forall|i: int| 0 <= i < s.len() implies feeds(t.take(#[trigger] places[i])) == feeds(
        s.take(i),
    ) by {
        if i < k {
            assert(t.take(i) =~= s.take(i));
        } else {
            assert(t.take(i + n) =~= s.take(k) + e.insertion + s.subrange(k, i));
            assert(s.take(i) =~= s.take(k) + s.subrange(k, i));
            lemma_feeds_concat(s.take(k), e.insertion);
            lemma_feeds_concat(s.take(k) + e.insertion, s.subrange(k, i));
            lemma_feeds_concat(s.take(k), s.subrange(k, i));
        }
    }
    assert(traces(s, t, places));
}

proof fn lemma_keeps_transitive(s: Seq<char>, t: Seq<char>, u: Seq<char>)
    requires
        keeps(s, t),
        keeps(t, u),
    ensures
        keeps(s, u),
{
    let f = choose|places: Seq<int>| traces(s, t, places);
    let g = choose|places: Seq<int>| traces(t, u, places);
    let h = Seq::new(s.len(), |i: int| g[f[i]]);
    assert forall|i: int| 0 <= i < s.len() implies 0 <= #[trigger] h[i] < u.len() by {
        assert(0 <= f[i] < t.len());
        assert(0 <= g[f[i]] < u.len());
    }
    assert forall|i: int| 0 <= i < s.len() implies u[#[trigger] h[i]] == s[i] by {
        assert(t[f[i]] == s[i]);
        assert(u[g[f[i]]] == t[f[i]]);
    }
    assert forall|i: int| 0 <= i < s.len() implies feeds(u.take(#[trigger] h[i])) == feeds(
        s.take(i),
    ) by {
        assert(feeds(t.take(f[i])) == feeds(s.take(i)));
        assert(feeds(u.take(g[f[i]])) == feeds(t.take(f[i])));
    }
    assert forall|i: int, j: int| 0 <= i < j < s.len() implies #[trigger] h[i]
        < #[trigger] h[j] by {
        assert(f[i] < f[j]);
        assert(g[f[i]] < g[f[j]]);
    }
    assert(traces(s, u, h));
}

/// Insertions that hold no line feed leave every character of a file where it
/// was: in the same order, and on the same line. So a symbol's identity in the
/// source tree addresses the same line in the rewritten one.
pub proof fn law_rewriting_keeps_lines(s: Seq<char>, edits: Seq<EditView>)
    requires
        spliced(s, edits) is Some,
        forall|i: int| 0 <= i < edits.len() ==> !(#[trigger] edits[i]).insertion.contains('\n'),
    ensures
        keeps(s, spliced(s, edits)->0),
    decreases edits.len(),
{
    if edits.len() == 0 {
        let places = Seq::new(s.len(), |i: int| i);
        assert(traces(s, s, places));
    } else {
        let front = edits.drop_last();
        assert forall|i: int| 0 <= i < front.len() implies !(
        #[trigger] front[i]).insertion.contains('\n') by {
            assert(front[i] == edits[i]);
        }
        law_rewriting_keeps_lines(s, front);
        let t = spliced(s, front)->0;
        assert(edits[edits.len() - 1] == edits.last());
        lemma_insertion_traces(t, edits.last());
        lemma_keeps_transitive(s, t, inserted(t, edits.last())->0);
    }
}

/// A guard holds no line feed, unless the type it probes does.
pub proof fn law_guard_is_one_line(id: u32, ret: ReturnShape, inner: Option<Seq<char>>)
    requires
        inner is Some ==> !inner->0.contains('\n'),
    ensures
        !guard_text(id, ret, inner).contains('\n'),
{
    reveal_strlit(" if ::oracle_switch::active(");
    reveal_strlit(
        "u32) { #[allow(unused_imports)] use ::oracle_switch::{ViaDefault as _, ViaFallback as _}; match (&&::oracle_switch::Probe::<",
    );
    reveal_strlit(
        ">::new()).oracle_default() { Some(__oracle_v) => { ::oracle_switch::note(::oracle_switch::Note::Applied); return ",
    );
    reveal_strlit("; } None => ::oracle_switch::note(::oracle_switch::Note::Inert), } }");
    reveal_strlit("()");
    reveal_strlit("_");
    reveal_strlit("Ok(__oracle_v)");
    reveal_strlit("__oracle_v");
    text::lemma_decimal_one_line(id as nat);
    let a = " if ::oracle_switch::active("@;
    let b = text::decimal_of(id as nat);
    let c =
        "u32) { #[allow(unused_imports)] use ::oracle_switch::{ViaDefault as _, ViaFallback as _}; match (&&::oracle_switch::Probe::<"@;
    let d = probed(ret, inner);
    let e =
        ">::new()).oracle_default() { Some(__oracle_v) => { ::oracle_switch::note(::oracle_switch::Note::Applied); return "@;
    let f = wrapped(ret);
    let g = "; } None => ::oracle_switch::note(::oracle_switch::Note::Inert), } }"@;
    assert(!a.contains('\n'));
    assert(!c.contains('\n'));
    assert(!d.contains('\n'));
    assert(!e.contains('\n'));
    assert(!f.contains('\n'));
    assert(!g.contains('\n'));
    lemma_lacks(a, b, '\n');
    lemma_lacks(a + b, c, '\n');
    lemma_lacks(a + b + c, d, '\n');
    lemma_lacks(a + b + c + d, e, '\n');
    lemma_lacks(a + b + c + d + e, f, '\n');
    lemma_lacks(a + b + c + d + e + f, g, '\n');
}

proof fn lemma_lacks(a: Seq<char>, b: Seq<char>, c: char)
    requires
        !a.contains(c),
        !b.contains(c),
    ensures
        !(a + b).contains(c),
{
    if (a + b).contains(c) {
        let i = choose|i: int| 0 <= i < (a + b).len() && (a + b)[i] == c;
        if i < a.len() {
            assert(a[i] == c);
        } else {
            assert(b[i - a.len()] == c);
        }
    }
}

proof fn lemma_boundary_prefix(p: Seq<char>, x: Seq<char>, offset: nat)
    requires
        text::bytes_of(p) >= offset,
    ensures
        boundary(p + x, offset) == boundary(p, offset),
    decreases p.len(),
{
    if offset > 0 {
        if p.len() == 0 {
            assert(false);
        } else {
            let w = text::width_of(p[0]);
            assert((p + x)[0] == p[0]);
            if offset >= w {
                assert((p + x).skip(1) =~= p.skip(1) + x);
                assert(p =~= seq![p[0]] + p.skip(1));
                text::lemma_bytes_concat(seq![p[0]], p.skip(1));
                assert(seq![p[0]].drop_last() =~= Seq::<char>::empty());
                assert(text::bytes_of(seq![p[0]].drop_last()) == 0);
                lemma_boundary_prefix(p.skip(1), x, (offset - w) as nat);
            }
        }
    }
}

/// What stands before the place of an edit.
spec fn before_edit(s: Seq<char>, e: EditView) -> Seq<char> {
    s.take(boundary(s, e.brace as nat + 1)->0 as int)
}

proof fn lemma_spliced_from_behind(s: Seq<char>, edits: Seq<EditView>)
    requires
        order::in_order::<Edit>(edits),
        forall|i: int|
            0 <= i < edits.len() ==> boundary(s, (#[trigger] edits[i]).brace as nat + 1) is Some,
    ensures
        spliced(s, edits) is Some,
        edits.len() > 0 ==> exists|y: Seq<char>|
            spliced(s, edits)->0 == #[trigger] (before_edit(s, edits.last()) + y),
    decreases edits.len(),
{
    if edits.len() > 0 {
        let front = edits.drop_last();
        let e = edits.last();
        assert(edits[edits.len() - 1] == e);
        assert(order::in_order::<Edit>(front)) by {
            assert forall|i: int, j: int| 0 <= i < j < front.len() implies Edit::ranks(
                #[trigger] front[i],
                #[trigger] front[j],
            ) by {
                assert(front[i] == edits[i] && front[j] == edits[j]);
            }
        }
        assert forall|i: int| 0 <= i < front.len() implies boundary(
            s,
            (#[trigger] front[i]).brace as nat + 1,
        ) is Some by {
            assert(front[i] == edits[i]);
        }
        lemma_spliced_from_behind(s, front);
        let off = e.brace as nat + 1;
        let k = boundary(s, off)->0 as int;
        lemma_boundary(s, off);
        let t = spliced(s, front)->0;
        if front.len() > 0 {
            let last = front.last();
            assert(edits[edits.len() - 2] == last);
            assert(Edit::ranks(edits[edits.len() - 2], edits[edits.len() - 1]));
            let p = before_edit(s, last);
            let y = choose|y: Seq<char>| t == #[trigger] (p + y);
            assert(front[front.len() - 1] == last);
            lemma_boundary(s, last.brace as nat + 1);
            let x = s.skip(boundary(s, last.brace as nat + 1)->0 as int);
            assert(p + x =~= s);
            lemma_boundary_prefix(p, x, off);
            lemma_boundary_prefix(p, y, off);
            lemma_boundary(p, off);
            assert(t.take(k) =~= s.take(k));
        } else {
            assert(t == s);
        }
        let z = e.insertion + t.skip(k);
        assert(inserted(t, e)->0 =~= before_edit(s, e) + z);
    }
}

/// Insertions made from the end of a file backwards all succeed exactly when each
/// brace is where it should be in the *given* text: the ones made before do
/// not move it.
pub proof fn law_offsets_stay_valid(s: Seq<char>, edits: Seq<EditView>)
    ensures
        spliced(s, order::sorted::<Edit>(edits)) is Some <==> forall|i: int|
            0 <= i < edits.len() ==> boundary(s, (#[trigger] edits[i]).brace as nat + 1) is Some,
{
    let sorted = order::sorted::<Edit>(edits);
    order::lemma_sorted::<Edit>(edits);
    if forall|i: int|
        0 <= i < edits.len() ==> boundary(s, (#[trigger] edits[i]).brace as nat + 1) is Some {
        assert forall|i: int| 0 <= i < sorted.len() implies boundary(
            s,
            (#[trigger] sorted[i]).brace as nat + 1,
        ) is Some by {
            assert(sorted.contains(sorted[i]));
            let k = choose|k: int| 0 <= k < edits.len() && edits[k] == sorted[i];
            assert(boundary(s, edits[k].brace as nat + 1) is Some);
        }
        lemma_spliced_from_behind(s, sorted);
    } else {
        let k = choose|k: int|
            0 <= k < edits.len() && boundary(s, (#[trigger] edits[k]).brace as nat + 1) is None;
        assert(edits.contains(edits[k]));
        assert(sorted.contains(edits[k]));
        let j = choose|j: int| 0 <= j < sorted.len() && sorted[j] == edits[k];
        lemma_spliced_fails(s, sorted, j);
    }
}

proof fn lemma_spliced_fails(s: Seq<char>, edits: Seq<EditView>, j: int)
    requires
        order::in_order::<Edit>(edits),
        0 <= j < edits.len(),
        boundary(s, edits[j].brace as nat + 1) is None,
    ensures
        spliced(s, edits) is None,
    decreases j,
{
    let front = edits.take(j);
    if exists|i: int| 0 <= i < j && boundary(s, (#[trigger] edits[i]).brace as nat + 1) is None {
        let i = choose|i: int|
            0 <= i < j && boundary(s, (#[trigger] edits[i]).brace as nat + 1) is None;
        lemma_spliced_fails(s, edits, i);
    } else {
        assert(order::in_order::<Edit>(front)) by {
            assert forall|a: int, b: int| 0 <= a < b < front.len() implies Edit::ranks(
                #[trigger] front[a],
                #[trigger] front[b],
            ) by {
                assert(front[a] == edits[a] && front[b] == edits[b]);
            }
        }
        assert forall|i: int| 0 <= i < front.len() implies boundary(
            s,
            (#[trigger] front[i]).brace as nat + 1,
        ) is Some by {
            assert(front[i] == edits[i]);
        }
        lemma_spliced_from_behind(s, front);
        let t = spliced(s, front)->0;
        let off = edits[j].brace as nat + 1;
        if j > 0 {
            let last = front.last();
            assert(edits[j - 1] == last);
            assert(Edit::ranks(edits[j - 1], edits[j]));
            let p = before_edit(s, last);
            let y = choose|y: Seq<char>| t == #[trigger] (p + y);
            assert(front[front.len() - 1] == last);
            lemma_boundary(s, last.brace as nat + 1);
            let x = s.skip(boundary(s, last.brace as nat + 1)->0 as int);
            assert(p + x =~= s);
            lemma_boundary_prefix(p, x, off);
            lemma_boundary_prefix(p, y, off);
        }
        assert(edits.take(j + 1).drop_last() =~= front);
        assert(edits.take(j + 1).last() == edits[j]);
        lemma_spliced_prefix(s, edits, j + 1);
    }
}

// ---------------------------------------------------------------------------
// Driving the rewritten tree
// ---------------------------------------------------------------------------

/// What one mutant run established.
///
/// The runtime note separates a genuine survivor from a mutation that could not
/// be made and from one no test ever reached.
#[derive(Clone, Copy, Debug, PartialEq, Eq, Structural)]
pub enum FastOutcome {
    /// A test failed. The symbol is verified against this mutation.
    Caught,
    /// The body was replaced, a test ran it, and everything still passed.
    Survived,
    /// The return type has no `Default`, so nothing was actually changed.
    Inert,
    /// No test called the function, so the mutation never had a chance to
    /// matter.
    Unreached,
}

impl FastOutcome {
    /// Short label for reports.
    pub fn label(self) -> (r: &'static str)
        ensures
            r@ == match self {
                FastOutcome::Caught => "caught"@,
                FastOutcome::Survived => "SURVIVED"@,
                FastOutcome::Inert => "inert (no Default)"@,
                FastOutcome::Unreached => "unreached"@,
            },
    {
        match self {
            FastOutcome::Caught => "caught",
            FastOutcome::Survived => "SURVIVED",
            FastOutcome::Inert => "inert (no Default)",
            FastOutcome::Unreached => "unreached",
        }
    }
}

/// What a run established: whether the suite passed, and where it did, what the
/// mutation noted about itself.
pub open spec fn outcome_of(passed: bool, notes: Seq<char>) -> FastOutcome {
    if !passed {
        FastOutcome::Caught
    } else if text::has(notes, Note::Applied.word_of()) {
        FastOutcome::Survived
    } else if text::has(notes, Note::Inert.word_of()) {
        FastOutcome::Inert
    } else {
        FastOutcome::Unreached
    }
}

/// Reads what a run established.
pub fn classify_run(passed: bool, notes: &str) -> (r: FastOutcome)
    ensures
        r == outcome_of(passed, notes@),
{
    if !passed {
        return FastOutcome::Caught;
    }
    if text::contains(notes, Note::Applied.word()) {
        FastOutcome::Survived
    } else if text::contains(notes, Note::Inert.word()) {
        FastOutcome::Inert
    } else {
        FastOutcome::Unreached
    }
}

/// The notes of a function that is called a number of times.
pub open spec fn noted(n: Note, times: nat) -> Seq<char>
    decreases times,
{
    if times == 0 {
        Seq::empty()
    } else {
        noted(n, (times - 1) as nat) + n.word_of() + "\n"@
    }
}

proof fn lemma_notes(n: Note, other: Note, times: nat)
    requires
        n != other,
    ensures
        !text::has(noted(n, times), other.word_of()),
        times > 0 ==> text::has(noted(n, times), n.word_of()),
{
    reveal_strlit("applied");
    reveal_strlit("inert");
    let s = noted(n, times);
    let word = n.word_of();
    lemma_noted_chars(n, times);
    if text::has(s, other.word_of()) {
        let i = choose|i: int| text::occurs_at(s, other.word_of(), i);
        let part = s.subrange(i, i + other.word_of().len());
        if other == Note::Applied {
            assert(part[0] == 'a');
            assert(s[i] == 'a');
        } else {
            assert(part[1] == 'n');
            assert(s[i + 1] == 'n');
        }
    }
    if times > 0 {
        let before = noted(n, (times - 1) as nat);
        assert(s.subrange(before.len() as int, before.len() as int + word.len()) =~= word);
        assert(text::occurs_at(s, word, before.len() as int));
    }
}

proof fn lemma_noted_chars(n: Note, times: nat)
    ensures
        n == Note::Applied ==> !noted(n, times).contains('n'),
        n == Note::Inert ==> !noted(n, times).contains('a'),
        n == Note::Applied ==> forall|i: int|
            0 <= i < noted(n, times).len() ==> (#[trigger] noted(n, times)[i]) != 'n',
        n == Note::Inert ==> forall|i: int|
            0 <= i < noted(n, times).len() ==> (#[trigger] noted(n, times)[i]) != 'a',
    decreases times,
{
    reveal_strlit("applied");
    reveal_strlit("inert");
    reveal_strlit("\n");
    if times > 0 {
        lemma_noted_chars(n, (times - 1) as nat);
        let before = noted(n, (times - 1) as nat);
        let s = noted(n, times);
        assert forall|i: int| 0 <= i < before.len() implies (#[trigger] s[i]) == before[i] by {}
    }
}

/// What a mutation notes, once for each call, is what a passing run is read as:
/// a survivor only where the body was replaced, and unreached only where no test
/// called it.
pub proof fn law_notes_are_read(n: Note, times: nat)
    ensures
        outcome_of(true, noted(n, times)) == if times == 0 {
            FastOutcome::Unreached
        } else if n == Note::Applied {
            FastOutcome::Survived
        } else {
            FastOutcome::Inert
        },
{
    lemma_notes(n, if n == Note::Applied { Note::Inert } else { Note::Applied }, times);
    if times == 0 {
        reveal_strlit("applied");
        reveal_strlit("inert");
    }
}

/// A line of a manifest without the comment that ends it, and without the white
/// space around it.
pub open spec fn bare_line(line: Seq<char>) -> Seq<char> {
    match text::halves(line, "#"@) {
        Some((before, _)) => text::trim_of(before),
        None => text::trim_of(line),
    }
}

/// The name between the brackets of a table's header.
pub open spec fn table_name(bare: Seq<char>) -> Option<Seq<char>> {
    match text::after_prefix(bare, "["@) {
        Some(rest) => match text::before_suffix(rest, "]"@) {
            Some(name) => Some(text::trim_of(name)),
            None => None,
        },
        None => None,
    }
}

/// A line is the header of the dependency table.
pub open spec fn is_header(line: Seq<char>) -> bool {
    table_name(bare_line(line)) == Some("dependencies"@)
}

fn header(line: &str) -> (r: bool)
    ensures
        r == is_header(line@),
{
    let bare = match text::split_once(line, "#") {
        Some((before, _)) => text::trim(before.as_str()),
        None => text::trim(line),
    };
    match text::strip_prefix(bare.as_str(), "[") {
        Some(rest) => match text::strip_suffix(rest.as_str(), "]") {
            Some(name) => text::same(text::trim(name.as_str()).as_str(), "dependencies"),
            None => false,
        },
        None => false,
    }
}

/// The place of the first header among lines.
pub open spec fn first_header(lines: Seq<Seq<char>>, from: int) -> Option<int>
    decreases lines.len() - from,
{
    if from < 0 || from >= lines.len() {
        None
    } else if is_header(lines[from]) {
        Some(from)
    } else {
        first_header(lines, from + 1)
    }
}

/// A line with the line feed that ends it.
pub open spec fn ended(line: Seq<char>) -> Seq<char> {
    if line.len() > 0 && line.last() == '\n' {
        line
    } else {
        line.push('\n')
    }
}

/// The dependency on the switch, as a line of a manifest.
pub open spec fn switch_line(path: Seq<char>) -> Seq<char> {
    "oracle-switch = { path = \""@ + path + "\" }"@
}

/// A manifest with the dependency on the switch: as the first line of its
/// dependency table, or in a table of its own at the end.
pub open spec fn patched(manifest: Seq<char>, path: Seq<char>) -> Seq<char> {
    let lines = kept_lines(manifest);
    match first_header(lines, 0) {
        Some(i) => text::concat(lines.take(i)) + ended(lines[i]) + switch_line(path) + "\n"@ + text::concat(
            lines.skip(i + 1),
        ),
        None => manifest + "\n[dependencies]\n"@ + switch_line(path) + "\n"@,
    }
}

/// Adds an `oracle-switch` path dependency to a manifest.
///
/// Inserts into an existing `[dependencies]` table when there is one, since a
/// second `[dependencies]` header is a TOML error, and appends the section
/// otherwise.
pub fn patch_manifest_text(manifest: &str, switch_path: &str) -> (r: String)
    ensures
        r@ == patched(manifest@, switch_path@),
{
    let mut dep = text::owned("oracle-switch = { path = \"");
    dep.append(switch_path);
    dep.append("\" }");
    let lines = split_kept(manifest);
    let ghost all = kept_lines(manifest@);
    proof {
        lemma_kept_lines(manifest@);
    }
    let mut i: usize = 0;
    let mut head = String::new();
    assert(head@ =~= text::concat(all.take(0)));
    while i < lines.len()
        invariant
            i <= lines@.len(),
            all == text::texts(lines@),
            all == kept_lines(manifest@),
            dep@ == switch_line(switch_path@),
            head@ == text::concat(all.take(i as int)),
            first_header(all, 0) == first_header(all, i as int),
        decreases lines@.len() - i,
    {
        assert(all[i as int] == lines@[i as int]@);
        let line = lines[i].as_str();
        if header(line) {
            let mut out = head;
            out.append(line);
            let ghost sofar = text::concat(all.take(i as int));
            if !text::ends_with(line, "\n") {
                out.push('\n');
            }
            proof {
                reveal_strlit("\n");
                let l = line@;
                if l.len() > 0 {
                    assert(l.subrange(l.len() - 1, l.len() as int) =~= seq![l.last()]);
                    assert("\n"@ =~= seq!['\n']);
                    assert(seq![l.last()][0] == l.last());
                    assert(text::ends(l, "\n"@) <==> l.last() == '\n');
                }
                assert((sofar + l).push('\n') =~= sofar + l.push('\n'));
                assert(out@ =~= sofar + ended(l));
            }
            out.append(dep.as_str());
            out.append("\n");
            let ghost before = out@;
            let mut k: usize = i + 1;
            assert(all.subrange(i + 1, i + 1) =~= Seq::<Seq<char>>::empty());
            assert(before + text::concat(all.subrange(i + 1, i + 1)) =~= before);
            while k < lines.len()
                invariant
                    i + 1 <= k <= lines@.len(),
                    all == text::texts(lines@),
                    out@ == before + text::concat(all.subrange(i + 1, k as int)),
                decreases lines@.len() - k,
            {
                assert(all[k as int] == lines@[k as int]@);
                assert(all.subrange(i + 1, k as int + 1).drop_last() =~= all.subrange(
                    i + 1,
                    k as int,
                ));
                out.append(lines[k].as_str());
                assert(before + (text::concat(all.subrange(i + 1, k as int)) + all[k as int]) =~= before
                    + text::concat(all.subrange(i + 1, k as int)) + all[k as int]);
                k += 1;
            }
            assert(all.subrange(i + 1, all.len() as int) =~= all.skip(i + 1));
            return out;
        }
        head.append(line);
        assert(all.take(i as int + 1).drop_last() =~= all.take(i as int));
        i += 1;
    }
    let mut out = text::owned(manifest);
    out.append("\n[dependencies]\n");
    out.append(dep.as_str());
    out.append("\n");
    out
}

/// Some line of a text begins with `tag`, behind white space.
pub open spec fn has_table(s: Seq<char>, tag: Seq<char>) -> bool {
    exists|i: int|
        0 <= i < text::lines_of(s).len() && text::begins(
            text::trim_front_of(#[trigger] text::lines_of(s)[i]),
            tag,
        )
}

fn table_in(s: &str, tag: &str) -> (r: bool)
    ensures
        r == has_table(s@, tag@),
{
    let lines = text::lines(s);
    let ghost all = text::lines_of(s@);
    let mut i: usize = 0;
    while i < lines.len()
        invariant
            i <= lines@.len(),
            all == text::texts(lines@),
            all == text::lines_of(s@),
            forall|k: int|
                0 <= k < i ==> !text::begins(text::trim_front_of(#[trigger] all[k]), tag@),
        decreases lines@.len() - i,
    {
        assert(all[i as int] == lines@[i as int]@);
        if text::starts_with(text::trim_start(lines[i].as_str()).as_str(), tag) {
            return true;
        }
        i += 1;
    }
    false
}

/// A manifest is that of a workspace without a package of its own.
pub open spec fn is_virtual(manifest: Seq<char>) -> bool {
    has_table(manifest, "[workspace]"@) && !has_table(manifest, "[package]"@)
}

/// Whether a manifest is a virtual workspace root: `[workspace]` with no
/// `[package]`.
///
/// Such a manifest has no `[dependencies]` table to patch, and each member would
/// need the switch dependency separately.
pub fn is_virtual_workspace(manifest: &str) -> (r: bool)
    ensures
        r == (has_table(manifest@, "[workspace]"@) && !has_table(manifest@, "[package]"@)),
        r == is_virtual(manifest@),
{
    table_in(manifest, "[workspace]") && !table_in(manifest, "[package]")
}

// ---------------------------------------------------------------------------
// Laws of the manifest
// ---------------------------------------------------------------------------

/// How many dependency tables begin in a manifest.
pub open spec fn headers(lines: Seq<Seq<char>>) -> nat
    decreases lines.len(),
{
    if lines.len() == 0 {
        0
    } else if is_header(lines.last()) {
        headers(lines.drop_last()) + 1
    } else {
        headers(lines.drop_last())
    }
}

proof fn lemma_headers_append(a: Seq<Seq<char>>, b: Seq<Seq<char>>)
    ensures
        headers(a + b) == headers(a) + headers(b),
    decreases b.len(),
{
    if b.len() == 0 {
        assert(a + b =~= a);
    } else {
        lemma_headers_append(a, b.drop_last());
        assert((a + b).drop_last() =~= a + b.drop_last());
    }
}

/// Behind an ended line the lines of a text begin anew.
pub proof fn lemma_kept_append(a: Seq<char>, b: Seq<char>)
    requires
        a.len() == 0 || a.last() == '\n',
    ensures
        kept_lines(a + b) == kept_lines(a) + kept_lines(b),
    decreases b.len(),
{
    if b.len() == 0 {
        assert(a + b =~= a);
        assert(kept_lines(a) + kept_lines(b) =~= kept_lines(a));
    } else {
        let c = b.last();
        let front = b.drop_last();
        lemma_kept_append(a, front);
        assert((a + b).drop_last() =~= a + front);
        let ka = kept_lines(a);
        let kf = kept_lines(front);
        let before = kept_lines(a + front);
        lemma_kept_lines(front);
        lemma_kept_lines(a);
        lemma_last_char(a);
        if kf.len() == 0 {
            assert(before =~= ka);
            assert(kept_lines(a + b) =~= ka + kept_lines(b));
        } else {
            assert(before.last() == kf.last());
            if kf.last().last() == '\n' {
                assert(kept_lines(a + b) =~= ka + kept_lines(b));
            } else {
                assert(before.drop_last() =~= ka + kf.drop_last());
                assert(kept_lines(a + b) =~= ka + kept_lines(b));
            }
        }
    }
}

/// The last line of a text ends with its last character.
proof fn lemma_last_char(s: Seq<char>)
    ensures
        s.len() > 0 ==> kept_lines(s).len() > 0 && kept_lines(s).last().last() == s.last(),
        s.len() == 0 ==> kept_lines(s).len() == 0,
{
    if s.len() > 0 {
        lemma_kept_lines(s.drop_last());
    }
}

/// A text without a line feed, and one behind it, is one line.
proof fn lemma_one_line(s: Seq<char>)
    requires
        !s.contains('\n'),
    ensures
        kept_lines(s.push('\n')) == seq![s.push('\n')],
        s.len() > 0 ==> kept_lines(s) == seq![s],
    decreases s.len(),
{
    assert(s.push('\n').drop_last() =~= s);
    if s.len() == 0 {
        assert(kept_lines(s) =~= Seq::<Seq<char>>::empty());
        assert(seq!['\n'] =~= s.push('\n'));
        assert(kept_lines(s.push('\n')) =~= seq![s.push('\n')]);
    } else {
        let front = s.drop_last();
        assert forall|i: int| 0 <= i < front.len() implies front[i] != '\n' by {
            assert(s[i] == front[i]);
        }
        lemma_one_line(front);
        assert(s[s.len() - 1] == s.last());
        if front.len() > 0 {
            assert(kept_lines(front) =~= seq![front]);
            assert(front.last() == s[s.len() - 2]);
            assert(front.push(s.last()) =~= s);
            assert(kept_lines(s) =~= seq![s]);
        } else {
            assert(kept_lines(front).len() == 0);
            assert(seq![s.last()] =~= s);
            assert(kept_lines(s) =~= seq![s]);
        }
        assert(kept_lines(s).drop_last() =~= Seq::<Seq<char>>::empty());
        assert(kept_lines(s.push('\n')) =~= seq![s.push('\n')]);
    }
}

/// A line feed behind a line does not change what the line is.
proof fn lemma_header_ended(line: Seq<char>)
    ensures
        is_header(line.push('\n')) == is_header(line),
{
    let more = line.push('\n');
    let hash = "#"@;
    reveal_strlit("#");
    text::lemma_first_at(line, hash, 0);
    text::lemma_first_at(more, hash, 0);
    assert forall|i: int| text::occurs_at(more, hash, i) == #[trigger] text::occurs_at(
        line,
        hash,
        i,
    ) by {
        if 0 <= i < line.len() {
            assert(more.subrange(i, i + 1) =~= line.subrange(i, i + 1));
        } else if i == line.len() {
            assert(more.subrange(i, i + 1)[0] == '\n');
            assert(hash[0] == '#');
        }
    }
    match text::first_at(line, hash, 0) {
        Some(i) => {
            assert(text::occurs_at(more, hash, i));
            assert(text::first_at(more, hash, 0) is Some);
            let j = text::first_at(more, hash, 0)->0;
            assert(text::occurs_at(line, hash, j));
            assert(i == j);
            assert(more.take(i) =~= line.take(i));
        },
        None => {
            assert(text::first_at(more, hash, 0) is None) by {
                if text::first_at(more, hash, 0) is Some {
                    assert(text::occurs_at(line, hash, text::first_at(more, hash, 0)->0));
                }
            }
            lemma_trim_feed(line);
        },
    }
}

proof fn lemma_trim_feed(s: Seq<char>)
    ensures
        text::trim_of(s.push('\n')) == text::trim_of(s),
    decreases s.len(),
{
    let more = s.push('\n');
    if s.len() == 0 {
        assert(more.skip(1) =~= Seq::<char>::empty());
        assert(text::trim_front_of(more.skip(1)) =~= Seq::<char>::empty());
        assert(s =~= Seq::<char>::empty());
    } else if text::is_space(s[0]) {
        lemma_trim_feed(s.skip(1));
        assert(more.skip(1) =~= s.skip(1).push('\n'));
        assert(more[0] == s[0]);
    } else {
        assert(more[0] == s[0]);
        assert(text::trim_front_of(more) == more);
        assert(text::trim_front_of(s) == s);
        assert(more.last() == '\n');
        assert(more.drop_last() =~= s);
    }
}

/// The line of the dependency is no header.
proof fn lemma_switch_line(path: Seq<char>)
    ensures
        !is_header(switch_line(path).push('\n')),
        switch_line(path).len() > 0,
{
    let line = switch_line(path).push('\n');
    reveal_strlit("oracle-switch = { path = \"");
    reveal_strlit("[");
    reveal_strlit("#");
    assert(line[0] == 'o');
    text::lemma_first_at(line, "#"@, 0);
    let before = match text::halves(line, "#"@) {
        Some((before, _)) => before,
        None => line,
    };
    if text::halves(line, "#"@) is Some {
        let i = text::first_at(line, "#"@, 0)->0;
        if i == 0 {
            assert(line.subrange(0, 1)[0] == 'o');
            assert("#"@[0] == '#');
        }
        assert(before[0] == 'o');
    }
    assert(text::trim_front_of(before) == before);
    lemma_trim_back_first(before);
    let bare = text::trim_back_of(before);
    assert(bare_line(line) == bare);
    if text::begins(bare, "["@) {
        assert(bare.subrange(0, 1)[0] == 'o');
        assert("["@[0] == '[');
    }
}

proof fn lemma_trim_back_first(s: Seq<char>)
    requires
        s.len() > 0,
        !text::is_space(s[0]),
    ensures
        text::trim_back_of(s).len() > 0,
        text::trim_back_of(s)[0] == s[0],
    decreases s.len(),
{
    if text::is_space(s.last()) {
        if s.len() == 1 {
            assert(s.last() == s[0]);
        } else {
            lemma_trim_back_first(s.drop_last());
        }
    }
}

proof fn lemma_first_header(lines: Seq<Seq<char>>, from: int)
    requires
        0 <= from <= lines.len(),
    ensures
        match first_header(lines, from) {
            Some(i) => from <= i < lines.len() && is_header(lines[i]),
            None => headers(lines.skip(from)) == 0,
        },
    decreases lines.len() - from,
{
    if from < lines.len() {
        let rest = lines.skip(from);
        if !is_header(lines[from]) {
            lemma_first_header(lines, from + 1);
            let one = seq![lines[from]];
            assert(rest =~= one + lines.skip(from + 1));
            lemma_headers_append(one, lines.skip(from + 1));
            assert(one.drop_last() =~= Seq::<Seq<char>>::empty());
            assert(headers(one.drop_last()) == 0);
        }
    } else {
        assert(lines.skip(from) =~= Seq::<Seq<char>>::empty());
    }
}

/// What a list of lines of a text adds up to is again those lines.
proof fn lemma_kept_part(s: Seq<char>, a: int, b: int)
    requires
        0 <= a <= b <= kept_lines(s).len(),
    ensures
        kept_lines(text::concat(kept_lines(s).subrange(a, b))) == kept_lines(s).subrange(a, b),
        b < kept_lines(s).len() ==> b > a ==> text::concat(kept_lines(s).subrange(a, b)).last() == '\n',
    decreases b - a,
{
    let lines = kept_lines(s);
    if a == b {
        assert(lines.subrange(a, b) =~= Seq::<Seq<char>>::empty());
        assert(text::concat(lines.subrange(a, b)) =~= Seq::<char>::empty());
    } else {
        lemma_kept_part(s, a, b - 1);
        lemma_kept_shape(s);
        let front = lines.subrange(a, b - 1);
        let l = lines[b - 1];
        assert(lines.subrange(a, b).drop_last() =~= front);
        assert(lines.subrange(a, b).last() == l);
        let head = text::concat(front);
        if front.len() > 0 {
            assert(head.last() == '\n');
        } else {
            assert(front =~= Seq::<Seq<char>>::empty());
            assert(head =~= Seq::<char>::empty());
        }
        lemma_kept_append(head, l);
        if l.last() == '\n' {
            let body = l.drop_last();
            assert(!body.contains('\n'));
            lemma_one_line(body);
            assert(body.push('\n') =~= l);
        } else {
            assert(!l.contains('\n')) by {
                if l.contains('\n') {
                    let i = choose|i: int| 0 <= i < l.len() && l[i] == '\n';
                    if i < l.len() - 1 {
                        assert(l.drop_last()[i] == '\n');
                    }
                }
            }
            lemma_one_line(l);
        }
        assert(kept_lines(l) =~= seq![l]);
        assert(kept_lines(head + l) =~= lines.subrange(a, b));
        assert((head + l).last() == l.last());
    }
}

/// A line has a line feed at its end at most, and only the last one can lack it.
proof fn lemma_kept_shape(s: Seq<char>)
    ensures
        forall|i: int|
            0 <= i < kept_lines(s).len() ==> (#[trigger] kept_lines(s)[i]).len() > 0
                && !kept_lines(s)[i].drop_last().contains('\n'),
        forall|i: int|
            0 <= i < kept_lines(s).len() - 1 ==> (#[trigger] kept_lines(s)[i]).last() == '\n',
    decreases s.len(),
{
    lemma_kept_lines(s);
    if s.len() > 0 {
        let front = s.drop_last();
        let before = kept_lines(front);
        let all = kept_lines(s);
        lemma_kept_shape(front);
        lemma_kept_lines(front);
        if before.len() == 0 || before.last().last() == '\n' {
            assert(seq![s.last()].drop_last() =~= Seq::<char>::empty());
            assert forall|i: int| 0 <= i < all.len() implies (#[trigger] all[i]).len() > 0
                && !all[i].drop_last().contains('\n') by {
                if i < before.len() {
                    assert(before[i] == all[i]);
                }
            }
            assert forall|i: int| 0 <= i < all.len() - 1 implies (#[trigger] all[i]).last()
                == '\n' by {
                assert(before[i] == all[i]);
            }
        } else {
            let grown = before.last().push(s.last());
            assert(grown.drop_last() =~= before.last());
            assert(before[before.len() - 1] == before.last());
            assert(!before.last().contains('\n')) by {
                let l = before.last();
                if l.contains('\n') {
                    let i = choose|i: int| 0 <= i < l.len() && l[i] == '\n';
                    if i < l.len() - 1 {
                        assert(l.drop_last()[i] == '\n');
                    }
                }
            }
            assert forall|i: int| 0 <= i < all.len() implies (#[trigger] all[i]).len() > 0
                && !all[i].drop_last().contains('\n') by {
                if i < before.len() - 1 {
                    assert(before[i] == all[i]);
                }
            }
            assert forall|i: int| 0 <= i < all.len() - 1 implies (#[trigger] all[i]).last()
                == '\n' by {
                assert(before[i] == all[i]);
            }
        }
    }
}

/// A list of one line.
proof fn lemma_headers_one(l: Seq<char>)
    ensures
        headers(seq![l]) == if is_header(l) { 1nat } else { 0nat },
{
    assert(seq![l].drop_last() =~= Seq::<Seq<char>>::empty());
    assert(headers(seq![l].drop_last()) == 0);
    assert(seq![l].last() == l);
}

/// The dependency is one line, and no header.
proof fn lemma_switch_is_one_line(path: Seq<char>)
    requires
        !path.contains('\n'),
    ensures
        kept_lines(switch_line(path).push('\n')) == seq![switch_line(path).push('\n')],
        headers(kept_lines(switch_line(path).push('\n'))) == 0,
{
    let dep = switch_line(path);
    assert(!dep.contains('\n')) by {
        reveal_strlit("oracle-switch = { path = \"");
        reveal_strlit("\" }");
        lemma_lacks("oracle-switch = { path = \""@, path, '\n');
        lemma_lacks("oracle-switch = { path = \""@ + path, "\" }"@, '\n');
    }
    lemma_one_line(dep);
    lemma_switch_line(path);
    lemma_headers_one(dep.push('\n'));
}

/// A line of a text, ended, is one line, and the header it was.
proof fn lemma_ended_line(s: Seq<char>, i: int)
    requires
        0 <= i < kept_lines(s).len(),
    ensures
        kept_lines(ended(kept_lines(s)[i])) == seq![ended(kept_lines(s)[i])],
        is_header(ended(kept_lines(s)[i])) == is_header(kept_lines(s)[i]),
        ended(kept_lines(s)[i]).last() == '\n',
{
    let l = kept_lines(s)[i];
    lemma_kept_shape(s);
    if l.last() == '\n' {
        assert(l.drop_last().push('\n') =~= l);
        lemma_one_line(l.drop_last());
    } else {
        assert(!l.contains('\n')) by {
            if l.contains('\n') {
                let k = choose|k: int| 0 <= k < l.len() && l[k] == '\n';
                if k < l.len() - 1 {
                    assert(l.drop_last()[k] == '\n');
                }
            }
        }
        lemma_one_line(l);
        lemma_header_ended(l);
    }
}

proof fn lemma_patched_table(manifest: Seq<char>, path: Seq<char>, i: int)
    requires
        !path.contains('\n'),
        first_header(kept_lines(manifest), 0) == Some(i),
        0 <= i < kept_lines(manifest).len(),
    ensures
        headers(kept_lines(patched(manifest, path))) == headers(kept_lines(manifest)),
{
    let lines = kept_lines(manifest);
    let dep = switch_line(path).push('\n');
    let head = text::concat(lines.take(i));
    let l = lines[i];
    let h = ended(l);
    let tail = text::concat(lines.skip(i + 1));
    assert(kept_lines(head) == lines.take(i) && (head.len() == 0 || head.last() == '\n')) by {
        lemma_kept_part(manifest, 0, i);
        assert(lines.subrange(0, i) =~= lines.take(i));
        if i == 0 {
            assert(lines.take(0) =~= Seq::<Seq<char>>::empty());
        }
    }
    assert(kept_lines(tail) == lines.skip(i + 1)) by {
        lemma_kept_part(manifest, i + 1, lines.len() as int);
        assert(lines.subrange(i + 1, lines.len() as int) =~= lines.skip(i + 1));
    }
    lemma_ended_line(manifest, i);
    lemma_switch_is_one_line(path);
    assert(patched(manifest, path) =~= head + h + dep + tail) by {
        reveal_strlit("\n");
        assert("\n"@ =~= seq!['\n']);
    }
    assert(dep.last() == '\n');
    lemma_kept_append(head, h);
    lemma_kept_append(head + h, dep);
    lemma_kept_append(head + h + dep, tail);
    lemma_headers_append(lines.take(i), seq![h]);
    lemma_headers_append(lines.take(i) + seq![h], seq![dep]);
    lemma_headers_append(lines.take(i) + seq![h] + seq![dep], lines.skip(i + 1));
    lemma_headers_one(h);
    lemma_headers_one(l);
    assert(lines =~= lines.take(i) + seq![l] + lines.skip(i + 1));
    lemma_headers_append(lines.take(i), seq![l]);
    lemma_headers_append(lines.take(i) + seq![l], lines.skip(i + 1));
}

proof fn lemma_patched_end(manifest: Seq<char>, path: Seq<char>)
    requires
        !path.contains('\n'),
        first_header(kept_lines(manifest), 0) is None,
        headers(kept_lines(manifest)) == 0,
    ensures
        headers(kept_lines(patched(manifest, path))) == 1,
{
    let dep = switch_line(path).push('\n');
    let m = manifest.push('\n');
    let h = "[dependencies]"@.push('\n');
    assert(patched(manifest, path) =~= m + h + dep) by {
        reveal_strlit("\n[dependencies]\n");
        reveal_strlit("[dependencies]");
        reveal_strlit("\n");
        assert("\n"@ =~= seq!['\n']);
        assert("\n[dependencies]\n"@ =~= seq!['\n'] + h);
    }
    lemma_ended_manifest(manifest);
    assert(kept_lines(h) == seq![h]) by {
        reveal_strlit("[dependencies]");
        lemma_one_line("[dependencies]"@);
    }
    lemma_header_line();
    lemma_switch_is_one_line(path);
    lemma_kept_append(m, h);
    lemma_kept_append(m + h, dep);
    lemma_headers_one(h);
    lemma_headers_append(kept_lines(m), seq![h]);
    lemma_headers_append(kept_lines(m) + seq![h], seq![dep]);
}

/// Patching adds no second dependency table: a manifest with one has as many as
/// before, and one without has exactly one.
pub proof fn law_patching_adds_no_second_table(manifest: Seq<char>, path: Seq<char>)
    requires
        !path.contains('\n'),
    ensures
        headers(kept_lines(patched(manifest, path))) == if headers(kept_lines(manifest)) == 0 {
            1
        } else {
            headers(kept_lines(manifest))
        },
{
    let lines = kept_lines(manifest);
    lemma_first_header(lines, 0);
    assert(lines.skip(0) =~= lines);
    match first_header(lines, 0) {
        Some(i) => {
            lemma_patched_table(manifest, path, i);
            lemma_headers_one(lines[i]);
            assert(lines =~= lines.take(i) + seq![lines[i]] + lines.skip(i + 1));
            lemma_headers_append(lines.take(i), seq![lines[i]]);
            lemma_headers_append(lines.take(i) + seq![lines[i]], lines.skip(i + 1));
        },
        None => {
            lemma_patched_end(manifest, path);
        },
    }
}

proof fn lemma_header_line()
    ensures
        is_header("[dependencies]"@.push('\n')),
{
    lemma_header_ended("[dependencies]"@);
    reveal_strlit("[dependencies]");
    reveal_strlit("dependencies");
    reveal_strlit("[");
    reveal_strlit("]");
    reveal_strlit("#");
    let s = "[dependencies]"@;
    text::lemma_first_at(s, "#"@, 0);
    if text::first_at(s, "#"@, 0) is Some {
        let i = text::first_at(s, "#"@, 0)->0;
        assert(s.subrange(i, i + 1)[0] == s[i]);
        assert("#"@[0] == '#');
        assert(s[i] == '#');
    }
    assert(text::trim_front_of(s) == s);
    assert(text::trim_back_of(s) == s);
    assert(bare_line(s) == s);
    assert(s.subrange(0, 1) =~= "["@);
    let rest = s.skip(1);
    assert(text::after_prefix(s, "["@) == Some(rest));
    assert(rest.subrange(12, 13) =~= "]"@);
    assert(rest.take(12) =~= "dependencies"@);
    assert(text::before_suffix(rest, "]"@) == Some("dependencies"@));
    assert(text::trim_front_of("dependencies"@) == "dependencies"@);
    assert(text::trim_back_of("dependencies"@) == "dependencies"@);
}

/// A line feed behind a manifest makes no header.
proof fn lemma_ended_manifest(s: Seq<char>)
    ensures
        headers(kept_lines(s.push('\n'))) == headers(kept_lines(s)),
{
    let lines = kept_lines(s);
    let more = kept_lines(s.push('\n'));
    assert(s.push('\n').drop_last() =~= s);
    lemma_kept_lines(s);
    let blank = seq!['\n'];
    assert(!is_header(blank)) by {
        lemma_header_ended(Seq::empty());
        assert(Seq::<char>::empty().push('\n') =~= blank);
        reveal_strlit("[");
        reveal_strlit("#");
        text::lemma_first_at(Seq::empty(), "#"@, 0);
        assert(text::trim_of(Seq::<char>::empty()) =~= Seq::<char>::empty());
    }
    if lines.len() == 0 || lines.last().last() == '\n' {
        assert(more.drop_last() =~= lines);
        assert(more.last() == blank);
    } else {
        assert(more.drop_last() =~= lines.drop_last());
        assert(more.last() == lines.last().push('\n'));
        lemma_header_ended(lines.last());
    }
}

} // verus!
