//! The unit of attribution: a *symbol*, keyed by its definition site.
//!
//! # Why the key is a span and not a name
//!
//! The tools that report on a symbol all give `file:line:col`, and none of them
//! agree on names: coverage reports name mangled, monomorphized functions,
//! mutation reports name the source function, and the inventory sees only what
//! was written. Definition spans are common to all of them, and *containment*
//! does the join: every entry for one generic function falls inside the one span
//! that defines it, and code without a source span falls outside every span.

use vstd::prelude::*;
use crate::order;
use crate::order::Key;
use crate::order::Ranked;
use crate::text;

verus! {

/// A symbol's identity: where it was *defined*.
///
/// Lines and columns are 1-based.
#[derive(Clone, Debug, PartialEq, Eq, Hash, PartialOrd, Ord)]
pub struct SymbolId {
    /// Path relative to the workspace root, so identities are stable across machines.
    pub file: String,
    pub line: u32,
    pub col: u32,
}

/// A symbol's identity, as a mathematical value.
#[verifier::ext_equal]
pub struct SymbolIdView {
    pub file: Seq<char>,
    pub line: u32,
    pub col: u32,
}

impl View for SymbolId {
    type V = SymbolIdView;

    open spec fn view(&self) -> SymbolIdView {
        SymbolIdView { file: self.file@, line: self.line, col: self.col }
    }
}

impl SymbolId {
    /// Makes an identity from a position whose column counts from zero.
    pub fn new(file: &str, line: usize, zero_based_col: usize) -> (r: Self)
        requires
            (zero_based_col as u32) < u32::MAX,
        ensures
            r@ == (SymbolIdView {
                file: file@,
                line: line as u32,
                col: (zero_based_col as u32 + 1) as u32,
            }),
    {
        SymbolId { file: text::owned(file), line: line as u32, col: zero_based_col as u32 + 1 }
    }

    /// The identity written as `file:line:col`.
    pub fn render(&self) -> (r: String)
        ensures
            r@ == self@.file + ":"@ + text::decimal_of(self.line as nat) + ":"@ + text::decimal_of(
                self.col as nat,
            ),
    {
        let mut out = self.file.clone();
        out.append(":");
        out.append(text::decimal(self.line as u64).as_str());
        out.append(":");
        out.append(text::decimal(self.col as u64).as_str());
        out
    }
}

impl Key for SymbolId {
    open spec fn precedes(a: SymbolIdView, b: SymbolIdView) -> bool {
        text::earlier(a.file, b.file) || (a.file == b.file && (a.line < b.line || (a.line == b.line
            && a.col < b.col)))
    }

    proof fn lt_irreflexive(a: SymbolIdView) {
        text::lemma_earlier_irreflexive(a.file);
    }

    proof fn lt_transitive(a: SymbolIdView, b: SymbolIdView, c: SymbolIdView) {
        if text::earlier(a.file, b.file) && text::earlier(b.file, c.file) {
            text::lemma_earlier_transitive(a.file, b.file, c.file);
        }
    }

    proof fn lt_total(a: SymbolIdView, b: SymbolIdView) {
        text::lemma_earlier_total(a.file, b.file);
        if a.file == b.file && a.line == b.line && a.col == b.col {
            assert(a =~= b);
        }
    }

    fn before(&self, other: &Self) -> bool {
        if text::comes_before(self.file.as_str(), other.file.as_str()) {
            return true;
        }
        text::same(self.file.as_str(), other.file.as_str()) && (self.line < other.line || (self.line
            == other.line && self.col < other.col))
    }

    fn same(&self, other: &Self) -> bool {
        let r = text::same(self.file.as_str(), other.file.as_str()) && self.line == other.line
            && self.col == other.col;
        assert(r ==> self@ =~= other@);
        r
    }

    fn copy(&self) -> Self {
        SymbolId { file: self.file.clone(), line: self.line, col: self.col }
    }
}

/// The lines of an item's full definition, from the `fn` keyword to the closing
/// brace. It decides which coverage regions and which mutants belong to a symbol.
#[derive(Clone, Copy, Debug, PartialEq, Eq, Structural)]
pub struct LineSpan {
    pub start: u32,
    pub end: u32,
}

impl LineSpan {
    /// `line` is one of the span's.
    pub open spec fn covers(self, line: u32) -> bool {
        self.start <= line <= self.end
    }

    /// How many lines lie between the first and the last.
    pub open spec fn extent(self) -> int {
        if self.end >= self.start {
            self.end - self.start
        } else {
            0
        }
    }

    pub fn contains(&self, line: u32) -> (r: bool)
        ensures
            r == self.covers(line),
    {
        line >= self.start && line <= self.end
    }

    /// The extent, by which the innermost of several spans is chosen.
    pub fn size(&self) -> (r: u32)
        ensures
            r == self.extent(),
    {
        if self.end >= self.start {
            self.end - self.start
        } else {
            0
        }
    }
}

#[derive(Clone, Copy, Debug, PartialEq, Eq, Structural)]
pub enum SymbolKind {
    /// A free function at module scope.
    Free,
    /// A method in an inherent `impl Type { .. }` block.
    Inherent,
    /// A method in an `impl Trait for Type { .. }` block.
    TraitImpl,
    /// A *default body* in a `trait T { fn f() { .. } }` declaration: one source
    /// symbol, many runtime instantiations.
    TraitDefault,
}

/// How the callee can be observed, read off the signature.
#[derive(Clone, Copy, Debug, PartialEq, Eq, Structural)]
pub enum SelfKind {
    /// Free function, or an associated function with no receiver.
    NoSelf,
    /// `self`
    Value,
    /// `&self`
    Ref,
    /// `&mut self`
    RefMut,
}

#[derive(Clone, Copy, Debug, PartialEq, Eq, Structural)]
pub enum ReturnShape {
    /// `-> ()` or no return type.
    Unit,
    /// `-> !`
    Never,
    /// `-> Result<_, _>`
    ResultLike,
    /// `-> Option<_>`
    OptionLike,
    /// `-> impl Trait`, frequently *unmutatable*, since `Default` rarely applies.
    ImplTrait,
    /// Any other concrete return type.
    Value,
}

impl ReturnShape {
    /// A value comes back.
    pub open spec fn observable(self) -> bool {
        self != ReturnShape::Unit && self != ReturnShape::Never
    }

    /// Whether a test can observe this call by looking at what it returned.
    pub fn is_observable(self) -> (r: bool)
        ensures
            r == self.observable(),
    {
        match self {
            ReturnShape::Unit | ReturnShape::Never => false,
            _ => true,
        }
    }
}

/// What a test *must* do to have any chance of detecting a fault here.
///
/// `&mut` and ownership put effects in the signature, so the shape of a required
/// oracle is readable from the type alone. A test that only inspects a return
/// value cannot detect a fault in a `fn(&mut self)` no matter how many assertions
/// it contains.
#[derive(Clone, Copy, Debug, PartialEq, Eq, Structural)]
pub enum RequiredOracle {
    /// Observe the returned value.
    ReturnValue,
    /// Observe the receiver (or a `&mut` argument) *after* the call.
    PostState,
    /// Both of the above; either alone leaves a blind spot.
    Both,
    /// Neither: no receiver mutated, nothing returned. The test must reach for a
    /// side channel.
    SideChannel,
}

/// The oracle that a signature requires.
pub open spec fn required(self_kind: SelfKind, ret: ReturnShape, has_mut_param: bool) -> RequiredOracle {
    let mutates = self_kind == SelfKind::RefMut || has_mut_param;
    if mutates && ret.observable() {
        RequiredOracle::Both
    } else if mutates {
        RequiredOracle::PostState
    } else if ret.observable() {
        RequiredOracle::ReturnValue
    } else {
        RequiredOracle::SideChannel
    }
}

impl RequiredOracle {
    /// Reads the required oracle off a signature.
    pub fn derive(self_kind: SelfKind, ret: ReturnShape, has_mut_param: bool) -> (r: Self)
        ensures
            r == required(self_kind, ret, has_mut_param),
    {
        let mutates = self_kind == SelfKind::RefMut || has_mut_param;
        match (mutates, ret.is_observable()) {
            (true, true) => RequiredOracle::Both,
            (true, false) => RequiredOracle::PostState,
            (false, true) => RequiredOracle::ReturnValue,
            (false, false) => RequiredOracle::SideChannel,
        }
    }

    /// The state that the call leaves behind has to be observed.
    pub open spec fn needs_post_state(self) -> bool {
        self == RequiredOracle::PostState || self == RequiredOracle::Both
    }
}

/// A signature requires its post-state to be observed exactly when it takes
/// something by `&mut`, and its return value exactly when it returns one.
pub proof fn law_required_oracle(self_kind: SelfKind, ret: ReturnShape, has_mut_param: bool)
    ensures
        required(self_kind, ret, has_mut_param).needs_post_state() <==> (self_kind
            == SelfKind::RefMut || has_mut_param),
        ({
            let r = required(self_kind, ret, has_mut_param);
            r == RequiredOracle::ReturnValue || r == RequiredOracle::Both
        }) <==> ret.observable(),
{
}

/// Whether a symbol carries enough behaviour to be worth scoring.
///
/// Mutating `fn name(&self) -> &str { &self.name }` produces a mutant that is
/// technically uncaught and entirely unactionable.
#[derive(Clone, Copy, Debug, PartialEq, Eq, Structural)]
pub enum Triviality {
    /// Real logic. Score it.
    Normal,
    /// Body is a bare field access, a literal, or a passthrough delegation.
    Accessor,
    /// Body is empty or `()`. Nothing to destroy.
    Empty,
}

impl Triviality {
    pub fn is_scorable(self) -> (r: bool)
        ensures
            r == (self == Triviality::Normal),
    {
        match self {
            Triviality::Normal => true,
            _ => false,
        }
    }
}

#[derive(Clone, Copy, Debug, PartialEq, Eq, Structural)]
pub enum Visibility {
    Public,
    Crate,
    Private,
}

/// One testable item in the crate under audit.
#[derive(Clone, Debug)]
pub struct Symbol {
    pub id: SymbolId,
    /// Display path, e.g. `mycrate::parser::Config::validate` or
    /// `mycrate::parser::<Config as Display>::fmt`.
    pub path: String,
    /// Bare name, for name-similarity claim matching.
    pub name: String,
    pub kind: SymbolKind,
    pub span: LineSpan,
    pub visibility: Visibility,
    pub self_kind: SelfKind,
    pub returns: ReturnShape,
    pub has_mut_param: bool,
    pub required_oracle: RequiredOracle,
    pub triviality: Triviality,
    pub is_async: bool,
    pub is_const: bool,
    pub is_unsafe: bool,
    /// The return type wraps `()`, as `Result<(), E>` does: its success case
    /// carries no payload.
    pub returns_unit_ok: bool,
    /// Trait being implemented, when `kind` is `TraitImpl`.
    pub trait_name: Option<String>,
    /// Number of doctests attached to this item's documentation.
    pub doctests: usize,
}

/// One testable item, as a mathematical value.
#[verifier::ext_equal]
pub struct SymbolView {
    pub id: SymbolIdView,
    pub path: Seq<char>,
    pub name: Seq<char>,
    pub kind: SymbolKind,
    pub span: LineSpan,
    pub visibility: Visibility,
    pub self_kind: SelfKind,
    pub returns: ReturnShape,
    pub has_mut_param: bool,
    pub required_oracle: RequiredOracle,
    pub triviality: Triviality,
    pub is_async: bool,
    pub is_const: bool,
    pub is_unsafe: bool,
    pub returns_unit_ok: bool,
    pub trait_name: Option<Seq<char>>,
    pub doctests: usize,
}

impl View for Symbol {
    type V = SymbolView;

    open spec fn view(&self) -> SymbolView {
        SymbolView {
            id: self.id@,
            path: self.path@,
            name: self.name@,
            kind: self.kind,
            span: self.span,
            visibility: self.visibility,
            self_kind: self.self_kind,
            returns: self.returns,
            has_mut_param: self.has_mut_param,
            required_oracle: self.required_oracle,
            triviality: self.triviality,
            is_async: self.is_async,
            is_const: self.is_const,
            is_unsafe: self.is_unsafe,
            returns_unit_ok: self.returns_unit_ok,
            trait_name: text::option_text(self.trait_name),
            doctests: self.doctests,
        }
    }
}

impl SymbolView {
    /// Real logic, worth scoring.
    pub open spec fn scorable(self) -> bool {
        self.triviality == Triviality::Normal
    }

    /// Body replacement is not expected to apply.
    pub open spec fn unviable(self) -> bool {
        self.is_const || self.returns == ReturnShape::ImplTrait || self.returns
            == ReturnShape::Never
    }
}

/// A symbol with these fields, its required oracle read off the signature and
/// everything else at its plainest.
pub open spec fn fresh_symbol(
    id: SymbolIdView,
    path: Seq<char>,
    name: Seq<char>,
    kind: SymbolKind,
    span: LineSpan,
    visibility: Visibility,
    self_kind: SelfKind,
    ret: ReturnShape,
    has_mut_param: bool,
    triviality: Triviality,
) -> SymbolView {
    SymbolView {
        id,
        path,
        name,
        kind,
        span,
        visibility,
        self_kind,
        returns: ret,
        has_mut_param,
        required_oracle: required(self_kind, ret, has_mut_param),
        triviality,
        is_async: false,
        is_const: false,
        is_unsafe: false,
        returns_unit_ok: false,
        trait_name: None,
        doctests: 0,
    }
}

impl Symbol {
    /// Field-by-field constructor. The arity is the record's, not a design choice;
    /// `required_oracle` is the one derived field, so it is not accepted here.
    pub fn new(
        id: SymbolId,
        path: String,
        name: String,
        kind: SymbolKind,
        span: LineSpan,
        visibility: Visibility,
        self_kind: SelfKind,
        ret: ReturnShape,
        has_mut_param: bool,
        triviality: Triviality,
    ) -> (r: Self)
        ensures
            r@ == fresh_symbol(
                id@,
                path@,
                name@,
                kind,
                span,
                visibility,
                self_kind,
                ret,
                has_mut_param,
                triviality,
            ),
    {
        Symbol {
            id,
            path,
            name,
            kind,
            span,
            visibility,
            self_kind,
            returns: ret,
            has_mut_param,
            required_oracle: RequiredOracle::derive(self_kind, ret, has_mut_param),
            triviality,
            is_async: false,
            is_const: false,
            is_unsafe: false,
            returns_unit_ok: false,
            trait_name: None,
            doctests: 0,
        }
    }

    /// `const fn` cannot host a runtime mutation switch, and `impl Trait`
    /// returns usually have no `Default`. Both show up as *unviable* mutants
    /// rather than gaps.
    pub fn likely_unviable_to_mutate(&self) -> (r: bool)
        ensures
            r == self@.unviable(),
    {
        self.is_const || self.returns == ReturnShape::ImplTrait || self.returns
            == ReturnShape::Never
    }

    /// A copy of the symbol.
    pub fn copy(&self) -> (r: Self)
        ensures
            r@ == self@,
    {
        Symbol {
            id: self.id.copy(),
            path: self.path.clone(),
            name: self.name.clone(),
            kind: self.kind,
            span: self.span,
            visibility: self.visibility,
            self_kind: self.self_kind,
            returns: self.returns,
            has_mut_param: self.has_mut_param,
            required_oracle: self.required_oracle,
            triviality: self.triviality,
            is_async: self.is_async,
            is_const: self.is_const,
            is_unsafe: self.is_unsafe,
            returns_unit_ok: self.returns_unit_ok,
            trait_name: text::copy_option(&self.trait_name),
            doctests: self.doctests,
        }
    }
}

impl Ranked for Symbol {
    open spec fn ranks(a: SymbolView, b: SymbolView) -> bool {
        !SymbolId::precedes(b.id, a.id)
    }

    proof fn le_total(a: SymbolView, b: SymbolView) {
        order::lemma_not_after_total::<SymbolId>(a.id, b.id);
    }

    proof fn le_transitive(a: SymbolView, b: SymbolView, c: SymbolView) {
        order::lemma_not_after_transitive::<SymbolId>(a.id, b.id, c.id);
    }

    fn may_precede(&self, other: &Self) -> bool {
        !other.id.before(&self.id)
    }
}

} // verus!
