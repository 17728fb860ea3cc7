//! Run-time support for **single-compile mutation**.
//!
//! Recompiling the crate for every mutant costs seconds of compiler time and
//! milliseconds of test time. Here every mutation is compiled in *once*, behind a
//! run-time switch, and selected by an environment variable: one build, and one
//! test run per mutant.
//!
//! Body replacement needs a value of the return type, and not every return type
//! implements [`Default`]. One uncompilable default would break the entire build,
//! taking every other mutant with it. The two traits here resolve this by the
//! order in which methods are looked up: `(&&Probe::<T>::new()).oracle_default()`
//! reaches [`ViaDefault`] when the type has a `Default`, and otherwise
//! [`ViaFallback`], decided at compile time with no bound on the caller. A type
//! without `Default` yields `None`, and that mutant is inert rather than fatal.

use vstd::prelude::*;
use crate::text;

verus! {

/// The environment variable naming the active mutant.
pub const ENV: &'static str = "ORACLE_MUTANT";

/// The environment variable naming the file that a mutation notes itself in.
pub const LOG_ENV: &'static str = "ORACLE_MUTANT_LOG";

/// The value of a decimal digit.
pub open spec fn digit_value(c: char) -> Option<nat> {
    let n = c as u32;
    if 0x30 <= n <= 0x39 {
        Some((n - 0x30) as nat)
    } else {
        None
    }
}

/// The number that decimal digits write, however large.
pub open spec fn number_of(s: Seq<char>) -> Option<nat>
    decreases s.len(),
{
    if s.len() == 0 {
        Some(0)
    } else {
        match (number_of(s.drop_last()), digit_value(s.last())) {
            (Some(n), Some(d)) => Some(10 * n + d),
            _ => None,
        }
    }
}

/// The digits of a number: the text without the plus sign it may begin with.
pub open spec fn digits_of(s: Seq<char>) -> Seq<char> {
    if s.len() > 0 && s[0] == '+' {
        s.skip(1)
    } else {
        s
    }
}

/// The number of 32 bits that a text holds, if it holds one.
pub open spec fn parsed(s: Seq<char>) -> Option<u32> {
    let digits = digits_of(s);
    match number_of(digits) {
        Some(n) => if digits.len() > 0 && n <= u32::MAX {
            Some(n as u32)
        } else {
            None
        },
        None => None,
    }
}

/// The mutant that a value of the environment variable selects.
pub open spec fn chosen(value: Option<Seq<char>>) -> Option<u32> {
    match value {
        Some(s) => parsed(text::trim_of(s)),
        None => None,
    }
}

/// What is too large with some digits is too large with more.
proof fn lemma_number_grows(s: Seq<char>, n: int)
    requires
        0 <= n <= s.len(),
        number_of(s) is Some,
    ensures
        number_of(s.take(n)) is Some,
        number_of(s.take(n))->0 <= number_of(s)->0,
    decreases s.len() - n,
{
    if n == s.len() {
        assert(s.take(n) =~= s);
    } else {
        lemma_number_grows(s, n + 1);
        assert(s.take(n + 1).drop_last() =~= s.take(n));
    }
}

/// Reads a number of 32 bits.
pub fn parse_u32(s: &str) -> (r: Option<u32>)
    ensures
        r == parsed(s@),
{
    let cs = text::chars_of(s);
    let n: usize = cs.len();
    let start: usize = if n > 0 && cs[0] == '+' {
        1
    } else {
        0
    };
    let ghost digits = digits_of(s@);
    assert(digits =~= s@.skip(start as int));
    if start == n {
        return None;
    }
    let mut total: u32 = 0;
    let mut i: usize = start;
    assert(digits.take(0) =~= Seq::<char>::empty());
    while i < n
        invariant
            start <= i <= n,
            n == cs@.len(),
            cs@ == s@,
            digits == s@.skip(start as int),
            digits == digits_of(s@),
            number_of(digits.take(i - start)) == Some(total as nat),
        decreases n - i,
    {
        let c = cs[i];
        let code: u32 = c as u32;
        let ghost k = i - start;
        assert(digits.take(k + 1).drop_last() =~= digits.take(k));
        assert(digits.take(k + 1).last() == c);
        if code < 0x30 || code > 0x39 {
            proof {
                if number_of(digits) is Some {
                    lemma_number_grows(digits, k + 1);
                }
            }
            return None;
        }
        let d: u32 = code - 0x30;
        if total > 429496729 || (total == 429496729 && d > 5) {
            proof {
                if number_of(digits) is Some {
                    lemma_number_grows(digits, k + 1);
                }
            }
            return None;
        }
        total = total * 10 + d;
        i += 1;
    }
    assert(digits.take(digits.len() as int) =~= digits);
    Some(total)
}

/// The mutant that a value of [`ENV`] selects. Nothing is selected where the
/// variable is not set: an ordinary test run of the rewritten tree, in which every
/// function keeps its real body.
pub fn selected(value: Option<String>) -> (r: Option<u32>)
    ensures
        r == chosen(text::option_text(value)),
{
    match value {
        Some(s) => parse_u32(text::trim(s.as_str()).as_str()),
        None => None,
    }
}

/// Whether mutant `id` is the one selected.
pub fn selects(value: Option<String>, id: u32) -> (r: bool)
    ensures
        r == (chosen(text::option_text(value)) == Some(id)),
{
    match selected(value) {
        Some(n) => n == id,
        None => false,
    }
}

/// The switch of a process: the value of [`ENV`] when it was first asked for.
#[derive(Clone, Copy, Debug)]
pub struct Switch {
    selected: Option<u32>,
}

impl View for Switch {
    type V = Option<u32>;

    closed spec fn view(&self) -> Option<u32> {
        self.selected
    }
}

impl Switch {
    /// A mutant is active.
    pub open spec fn answers(self, id: u32) -> bool {
        self@ == Some(id)
    }

    /// The switch that a value of [`ENV`] sets.
    pub fn set(value: Option<String>) -> (r: Self)
        ensures
            r@ == chosen(text::option_text(value)),
    {
        Switch { selected: selected(value) }
    }

    /// Whether mutant `id` is the one selected. The switch is not set anew: every
    /// call goes by the value that it was set with.
    pub fn active(&self, id: u32) -> (r: bool)
        ensures
            r == self.answers(id),
    {
        match self.selected {
            Some(n) => n == id,
            None => false,
        }
    }
}

/// A switch that a value set answers every later call by that value: the mutant is
/// active that the value names, no two are, and without a value or a number in it
/// none is.
pub proof fn law_first_value_decides(switch: Switch, value: Option<Seq<char>>, a: u32, b: u32)
    requires
        switch@ == chosen(value),
    ensures
        switch.answers(a) <==> value is Some && parsed(text::trim_of(value->0)) == Some(a),
        switch.answers(a) && switch.answers(b) ==> a == b,
        value is None ==> !switch.answers(a),
{
}

/// Decimal digits write the number that they are read as.
pub proof fn lemma_decimal_number(n: nat)
    ensures
        number_of(text::decimal_of(n)) == Some(n),
        text::decimal_of(n).len() > 0,
        forall|i: int|
            0 <= i < text::decimal_of(n).len() ==> 0x30 <= (#[trigger] text::decimal_of(n)[i]) as u32
                <= 0x39,
    decreases n,
{
    let s = text::decimal_of(n);
    reveal_with_fuel(number_of, 2);
    if n < 10 {
        assert(s.drop_last() =~= Seq::<char>::empty());
    } else {
        lemma_decimal_number(n / 10);
        assert(s.drop_last() =~= text::decimal_of(n / 10));
    }
}

/// The number of a mutant, written out, selects that mutant.
pub proof fn law_written_id_selects(id: u32)
    ensures
        chosen(Some(text::decimal_of(id as nat))) == Some(id),
{
    let s = text::decimal_of(id as nat);
    lemma_decimal_number(id as nat);
    assert(s[0] != '+');
    assert(!text::is_space(s[0]));
    assert(s.last() == s[s.len() - 1]);
    assert(!text::is_space(s.last()));
    assert(text::trim_of(s) == s);
}

/// What a mutation notes about itself when the function it sits in is called.
#[derive(Clone, Copy, Debug, PartialEq, Eq, Structural)]
pub enum Note {
    /// The body was replaced.
    Applied,
    /// The return type has no `Default`, so the real body ran.
    Inert,
}

impl Note {
    /// The word for it.
    pub open spec fn word_of(self) -> Seq<char> {
        match self {
            Note::Applied => "applied"@,
            Note::Inert => "inert"@,
        }
    }

    /// The word for it.
    pub fn word(self) -> (r: &'static str)
        ensures
            r@ == self.word_of(),
    {
        match self {
            Note::Applied => "applied",
            Note::Inert => "inert",
        }
    }
}

/// Carries a type whose default value is asked for. Not useful on its own.
pub struct Probe<T>(pub core::marker::PhantomData<T>);

impl<T> Probe<T> {
    /// Constructs a probe for `T`.
    pub fn new() -> (r: Self)
        ensures
            r == Probe::<T>(core::marker::PhantomData),
    {
        Probe(core::marker::PhantomData)
    }
}

impl<T> Default for Probe<T> {
    fn default() -> (r: Self)
        ensures
            r == Probe::<T>(core::marker::PhantomData),
    {
        Self::new()
    }
}

/// Specialized arm: chosen when `T: Default`.
///
/// Implemented for `&Probe<T>`, one reference *closer* than [`ViaFallback`], so
/// method lookup reaches it first whenever the bound is satisfied.
pub trait ViaDefault<T> {
    /// A default value of `T`.
    fn oracle_default(&self) -> Option<T>;
}

impl<T: Default> ViaDefault<T> for &Probe<T> {
    fn oracle_default(&self) -> (r: Option<T>)
        ensures
            r matches Some(v) && call_ensures(T::default, (), v),
    {
        Some(T::default())
    }
}

/// Fallback arm: chosen when `T` has no [`Default`].
///
/// Implemented for `Probe<T>` with no bound, so it always applies, but sits one
/// reference further away than [`ViaDefault`] and so only wins when that arm does
/// not apply.
pub trait ViaFallback<T> {
    /// No value is available; the mutation is inert.
    fn oracle_default(&self) -> Option<T>;
}

impl<T> ViaFallback<T> for Probe<T> {
    fn oracle_default(&self) -> (r: Option<T>)
        ensures
            r is None,
    {
        None
    }
}

} // verus!
