//! Text as a sequence of characters: the searching, splitting and rendering
//! that the rest of the crate is written in.
//!
//! Every function here is stated over the characters of its arguments, so a
//! contract elsewhere can say what a rendered line *is* rather than how it was
//! put together.

use vstd::prelude::*;
use vstd::slice::slice_subrange;
use vstd::utf8;

verus! {

/// `String::push` appends one character at the end.
pub assume_specification[ String::push ](s: &mut String, c: char)
    ensures
        final(s)@ == old(s)@.push(c),
;

/// `str` equality holds exactly when both hold the same characters.
pub assume_specification[ <str as PartialEq>::eq ](a: &str, b: &str) -> (r: bool)
    ensures
        r == (a@ == b@),
;

// ---------------------------------------------------------------------------
// Characters
// ---------------------------------------------------------------------------

/// The Unicode `White_Space` property.
pub open spec fn is_space(c: char) -> bool {
    let n = c as u32;
    ||| 0x9 <= n <= 0xd
    ||| n == 0x20
    ||| n == 0x85
    ||| n == 0xa0
    ||| n == 0x1680
    ||| 0x2000 <= n <= 0x200a
    ||| n == 0x2028
    ||| n == 0x2029
    ||| n == 0x202f
    ||| n == 0x205f
    ||| n == 0x3000
}

/// Whether `c` is white space.
pub fn space(c: char) -> (r: bool)
    ensures
        r == is_space(c),
{
    let n: u32 = c as u32;
    (0x9 <= n && n <= 0xd) || n == 0x20 || n == 0x85 || n == 0xa0 || n == 0x1680 || (0x2000 <= n
        && n <= 0x200a) || n == 0x2028 || n == 0x2029 || n == 0x202f || n == 0x205f || n == 0x3000
}

/// `c` with an ASCII capital replaced by its small letter.
pub open spec fn lower_char(c: char) -> char {
    if 0x41 <= c as u32 <= 0x5a {
        ((c as u32 + 0x20) as u32) as char
    } else {
        c
    }
}

/// ASCII lower case of one character.
pub fn ascii_lower_char(c: char) -> (r: char)
    ensures
        r == lower_char(c),
{
    let n: u32 = c as u32;
    if 0x41 <= n && n <= 0x5a {
        (n + 0x20) as u8 as char
    } else {
        c
    }
}

/// What `char::is_uppercase` answers.
pub uninterp spec fn is_upper(c: char) -> bool;

/// `char::is_uppercase`: the Unicode `Uppercase` property, which among the
/// ASCII characters holds of the capital letters alone.
#[verifier::external_body]
pub(crate) fn upper(c: char) -> (r: bool)
    ensures
        r == is_upper(c),
        (c as u32) < 0x80 ==> r == (0x41 <= c as u32 <= 0x5a),
{
    c.is_uppercase()
}

/// A capital letter of any script.
pub open spec fn is_capital(c: char) -> bool {
    if (c as u32) < 0x80 {
        0x41 <= c as u32 <= 0x5a
    } else {
        is_upper(c)
    }
}

/// Whether `c` is a capital letter.
pub fn capital(c: char) -> (r: bool)
    ensures
        r == is_capital(c),
{
    upper(c)
}

/// What `char::to_lowercase` gives.
pub uninterp spec fn lower_form(c: char) -> Seq<char>;

/// `char::to_lowercase`: the lower case of a character, which can be more than one
/// character, and is the character itself where it has none. Among the ASCII
/// characters only the capital letters have another.
#[verifier::external_body]
pub(crate) fn lowercase(c: char) -> (r: String)
    ensures
        r@ == lower_form(c),
        (c as u32) < 0x80 ==> r@ == seq![lower_char(c)],
{
    c.to_lowercase().to_string()
}

/// A character in small letters.
pub open spec fn lowered(c: char) -> Seq<char> {
    if (c as u32) < 0x80 {
        seq![lower_char(c)]
    } else {
        lower_form(c)
    }
}

/// Puts a character in small letters.
pub fn lower(c: char) -> (r: String)
    ensures
        r@ == lowered(c),
{
    lowercase(c)
}

/// What `char::is_alphanumeric` answers.
pub uninterp spec fn is_alnum(c: char) -> bool;

/// `char::is_alphanumeric`: a letter or a number of any script, which among the
/// ASCII characters are the letters and the digits.
#[verifier::external_body]
pub(crate) fn alnum(c: char) -> (r: bool)
    ensures
        r == is_alnum(c),
        (c as u32) < 0x80 ==> r == (0x30 <= c as u32 <= 0x39 || 0x41 <= c as u32 <= 0x5a || 0x61
            <= c as u32 <= 0x7a),
{
    c.is_alphanumeric()
}

/// A character of an identifier: a letter or a number of any script, or `_`.
pub open spec fn is_wordy(c: char) -> bool {
    if (c as u32) < 0x80 {
        0x30 <= c as u32 <= 0x39 || 0x41 <= c as u32 <= 0x5a || 0x61 <= c as u32 <= 0x7a || c == '_'
    } else {
        is_alnum(c)
    }
}

/// Whether `c` is a character of an identifier.
pub fn wordy(c: char) -> (r: bool)
    ensures
        r == is_wordy(c),
{
    alnum(c) || c == '_'
}

/// What `char::is_numeric` answers.
pub uninterp spec fn is_number(c: char) -> bool;

/// `char::is_numeric`: a number of any script, which among the ASCII characters
/// are the digits.
#[verifier::external_body]
pub(crate) fn number(c: char) -> (r: bool)
    ensures
        r == is_number(c),
        (c as u32) < 0x80 ==> r == (0x30 <= c as u32 <= 0x39),
{
    c.is_numeric()
}

/// A number of any script.
pub open spec fn is_digit(c: char) -> bool {
    if (c as u32) < 0x80 {
        0x30 <= c as u32 <= 0x39
    } else {
        is_number(c)
    }
}

/// Whether `c` is a number.
pub fn digit(c: char) -> (r: bool)
    ensures
        r == is_digit(c),
{
    number(c)
}

// ---------------------------------------------------------------------------
// Strings and character vectors
// ---------------------------------------------------------------------------

/// Whether two texts hold the same characters.
pub fn same(a: &str, b: &str) -> (r: bool)
    ensures
        r == (a@ == b@),
{
    *a == *b
}

/// The characters of `s`.
pub fn chars_of(s: &str) -> (r: Vec<char>)
    ensures
        r@ == s@,
{
    let mut v: Vec<char> = Vec::new();
    for c in it: s.chars()
        invariant
            it.seq() == s@,
            v@ == it.seq().take(it.index() as int),
    {
        v.push(c);
        assert(it.seq().take(it.index() as int + 1) =~= it.seq().take(it.index() as int).push(c));
    }
    assert(s@.take(s@.len() as int) =~= s@);
    v
}

/// The string made of `cs`.
pub fn text_of(cs: &[char]) -> (r: String)
    ensures
        r@ == cs@,
{
    let mut s = String::new();
    let mut i: usize = 0;
    while i < cs.len()
        invariant
            i <= cs@.len(),
            s@ == cs@.take(i as int),
        decreases cs@.len() - i,
    {
        s.push(cs[i]);
        assert(cs@.take(i as int + 1) =~= cs@.take(i as int).push(cs@[i as int]));
        i += 1;
    }
    assert(cs@.take(cs@.len() as int) =~= cs@);
    s
}

/// An owned copy of `s`.
pub fn owned(s: &str) -> (r: String)
    ensures
        r@ == s@,
{
    s.to_owned()
}

/// `a` followed by `b`.
pub fn joined(a: &str, b: &str) -> (r: String)
    ensures
        r@ == a@ + b@,
{
    let mut s = a.to_owned();
    s.append(b);
    s
}

/// The characters of each string of a list.
pub open spec fn texts(v: Seq<String>) -> Seq<Seq<char>> {
    v.map_values(|s: String| s@)
}

/// Copies a list of strings.
pub fn copy_texts(v: &Vec<String>) -> (r: Vec<String>)
    ensures
        texts(r@) == texts(v@),
        r@.len() == v@.len(),
{
    let mut out: Vec<String> = Vec::new();
    let mut i: usize = 0;
    while i < v.len()
        invariant
            i <= v@.len(),
            out@.len() == i,
            forall|k: int| 0 <= k < i ==> (#[trigger] out@[k])@ == v@[k]@,
        decreases v@.len() - i,
    {
        out.push(v[i].clone());
        i += 1;
    }
    assert(texts(out@) =~= texts(v@));
    out
}

/// Copies an optional string.
pub fn copy_option(s: &Option<String>) -> (r: Option<String>)
    ensures
        r is Some <==> s is Some,
        r is Some ==> r->0@ == s->0@,
{
    match s {
        Some(t) => Some(t.clone()),
        None => None,
    }
}

/// The view of an optional string.
pub open spec fn option_text(s: Option<String>) -> Option<Seq<char>> {
    match s {
        Some(t) => Some(t@),
        None => None,
    }
}

/// Whether an optional string is there and holds `s`.
pub fn option_is(o: &Option<String>, s: &str) -> (r: bool)
    ensures
        r == (option_text(*o) == Some(s@)),
{
    match o {
        Some(t) => same(t.as_str(), s),
        None => false,
    }
}

/// Whether `list` names `s`.
pub fn any_text_is(list: &Vec<String>, s: &str) -> (r: bool)
    ensures
        r == texts(list@).contains(s@),
{
    let mut i: usize = 0;
    while i < list.len()
        invariant
            i <= list@.len(),
            forall|k: int| 0 <= k < i ==> (#[trigger] texts(list@)[k]) != s@,
        decreases list@.len() - i,
    {
        assert(texts(list@)[i as int] == list@[i as int]@);
        if same(list[i].as_str(), s) {
            return true;
        }
        i += 1;
    }
    false
}

/// `parts` with `sep` between each two of them.
pub open spec fn join_of(parts: Seq<Seq<char>>, sep: Seq<char>) -> Seq<char>
    decreases parts.len(),
{
    if parts.len() == 0 {
        Seq::empty()
    } else if parts.len() == 1 {
        parts[0]
    } else {
        join_of(parts.drop_last(), sep) + sep + parts.last()
    }
}

/// Joins `parts` with `sep`.
pub fn join(parts: &Vec<String>, sep: &str) -> (r: String)
    ensures
        r@ == join_of(texts(parts@), sep@),
{
    let ghost all = texts(parts@);
    let mut out = String::new();
    let mut i: usize = 0;
    while i < parts.len()
        invariant
            i <= parts@.len(),
            all == texts(parts@),
            out@ == join_of(all.take(i as int), sep@),
        decreases parts@.len() - i,
    {
        assert(all.take(i as int + 1).drop_last() =~= all.take(i as int));
        if i > 0 {
            out.append(sep);
        }
        out.append(parts[i].as_str());
        proof {
            if i == 0 {
                assert(out@ =~= all[0]);
            }
        }
        i += 1;
    }
    assert(all.take(all.len() as int) =~= all);
    out
}

/// The texts of a list, one behind the other.
pub open spec fn concat(parts: Seq<Seq<char>>) -> Seq<char>
    decreases parts.len(),
{
    if parts.len() == 0 {
        Seq::empty()
    } else {
        concat(parts.drop_last()) + parts.last()
    }
}

// ---------------------------------------------------------------------------
// Searching
// ---------------------------------------------------------------------------

/// `pat` stands in `s` at position `i`.
pub open spec fn occurs_at(s: Seq<char>, pat: Seq<char>, i: int) -> bool {
    0 <= i && i + pat.len() <= s.len() && s.subrange(i, i + pat.len()) == pat
}

/// `pat` stands somewhere in `s`.
pub open spec fn has(s: Seq<char>, pat: Seq<char>) -> bool {
    exists|i: int| #[trigger] occurs_at(s, pat, i)
}

/// `s` begins with `pat`.
pub open spec fn begins(s: Seq<char>, pat: Seq<char>) -> bool {
    occurs_at(s, pat, 0)
}

/// `s` ends with `pat`.
pub open spec fn ends(s: Seq<char>, pat: Seq<char>) -> bool {
    occurs_at(s, pat, s.len() - pat.len())
}

/// The first position at or after `from` where `pat` stands.
pub open spec fn first_at(s: Seq<char>, pat: Seq<char>, from: int) -> Option<int>
    decreases s.len() - from + 1,
{
    if from < 0 || from + pat.len() > s.len() {
        None
    } else if occurs_at(s, pat, from) {
        Some(from)
    } else {
        first_at(s, pat, from + 1)
    }
}

/// The last position at or before `upto` where `pat` stands.
pub open spec fn last_at(s: Seq<char>, pat: Seq<char>, upto: int) -> Option<int>
    decreases upto + 1,
{
    if upto < 0 {
        None
    } else if occurs_at(s, pat, upto) {
        Some(upto)
    } else {
        last_at(s, pat, upto - 1)
    }
}

/// The last position where `pat` stands in `s`.
pub open spec fn last_occurrence(s: Seq<char>, pat: Seq<char>) -> Option<int> {
    last_at(s, pat, s.len() - pat.len())
}

/// Whether `pat` stands in `s` at `i`.
pub fn stands_at(s: &[char], pat: &[char], i: usize) -> (r: bool)
    ensures
        r == occurs_at(s@, pat@, i as int),
{
    if s.len() < pat.len() || s.len() - pat.len() < i {
        return false;
    }
    let n: usize = s.len();
    let mut k: usize = 0;
    while k < pat.len()
        invariant
            k <= pat@.len(),
            i + pat@.len() <= n,
            n == s@.len(),
            forall|j: int| 0 <= j < k ==> s@[i + j] == pat@[j],
        decreases pat@.len() - k,
    {
        if s[i + k] != pat[k] {
            assert(s@.subrange(i as int, i + pat@.len())[k as int] != pat@[k as int]);
            return false;
        }
        k += 1;
    }
    assert(s@.subrange(i as int, i + pat@.len()) =~= pat@);
    true
}

/// A first position found from `from` on is one at which `pat` stands, and no
/// earlier one is.
pub proof fn lemma_first_at(s: Seq<char>, pat: Seq<char>, from: int)
    requires
        0 <= from,
    ensures
        match first_at(s, pat, from) {
            Some(i) => {
                &&& from <= i
                &&& occurs_at(s, pat, i)
                &&& forall|j: int| from <= j < i ==> !#[trigger] occurs_at(s, pat, j)
            },
            None => forall|j: int| from <= j ==> !#[trigger] occurs_at(s, pat, j),
        },
    decreases s.len() - from + 1,
{
    if from + pat.len() <= s.len() && !occurs_at(s, pat, from) {
        lemma_first_at(s, pat, from + 1);
    }
}

/// A last position found up to `upto` is one at which `pat` stands, and no later
/// one is.
pub proof fn lemma_last_at(s: Seq<char>, pat: Seq<char>, upto: int)
    ensures
        match last_at(s, pat, upto) {
            Some(i) => {
                &&& 0 <= i <= upto
                &&& occurs_at(s, pat, i)
                &&& forall|j: int| i < j <= upto ==> !#[trigger] occurs_at(s, pat, j)
            },
            None => forall|j: int| j <= upto ==> !#[trigger] occurs_at(s, pat, j),
        },
    decreases upto + 1,
{
    if 0 <= upto && !occurs_at(s, pat, upto) {
        lemma_last_at(s, pat, upto - 1);
    }
}

/// Finds `pat` in `s` from `from` on.
pub fn find_from(s: &[char], pat: &[char], from: usize) -> (r: Option<usize>)
    requires
        from <= s@.len(),
    ensures
        match r {
            Some(i) => first_at(s@, pat@, from as int) == Some(i as int),
            None => first_at(s@, pat@, from as int) is None,
        },
{
    let mut i: usize = from;
    while i <= s.len() && pat.len() <= s.len() - i
        invariant
            from <= i <= s@.len() + 1,
            first_at(s@, pat@, from as int) == first_at(s@, pat@, i as int),
        decreases s@.len() + 1 - i,
    {
        if stands_at(s, pat, i) {
            return Some(i);
        }
        if i == s.len() {
            assert(s@.subrange(i as int, i as int) =~= pat@);
            return None;
        }
        i += 1;
    }
    None
}

/// Finds the last place of `pat` in `s`.
pub fn find_last(s: &[char], pat: &[char]) -> (r: Option<usize>)
    ensures
        match r {
            Some(i) => last_occurrence(s@, pat@) == Some(i as int),
            None => last_occurrence(s@, pat@) is None,
        },
{
    if s.len() < pat.len() {
        return None;
    }
    let mut i: usize = s.len() - pat.len();
    loop
        invariant
            i + pat@.len() <= s@.len(),
            last_occurrence(s@, pat@) == last_at(s@, pat@, i as int),
        decreases i,
    {
        if stands_at(s, pat, i) {
            return Some(i);
        }
        if i == 0 {
            assert(last_at(s@, pat@, -1) is None);
            return None;
        }
        i -= 1;
    }
}

/// Whether `pat` stands anywhere in `s`.
pub fn contains(s: &str, pat: &str) -> (r: bool)
    ensures
        r == has(s@, pat@),
{
    let cs = chars_of(s);
    let ps = chars_of(pat);
    proof {
        lemma_first_at(s@, pat@, 0);
    }
    match find_from(&cs, &ps, 0) {
        Some(_) => true,
        None => false,
    }
}

/// Whether `s` begins with `pat`.
pub fn starts_with(s: &str, pat: &str) -> (r: bool)
    ensures
        r == begins(s@, pat@),
{
    let cs = chars_of(s);
    let ps = chars_of(pat);
    stands_at(&cs, &ps, 0)
}

/// Whether `s` ends with `pat`.
pub fn ends_with(s: &str, pat: &str) -> (r: bool)
    ensures
        r == ends(s@, pat@),
{
    let cs = chars_of(s);
    let ps = chars_of(pat);
    if cs.len() < ps.len() {
        return false;
    }
    stands_at(&cs, &ps, cs.len() - ps.len())
}

/// What follows `pat` at the beginning of `s`.
pub open spec fn after_prefix(s: Seq<char>, pat: Seq<char>) -> Option<Seq<char>> {
    if begins(s, pat) {
        Some(s.skip(pat.len() as int))
    } else {
        None
    }
}

/// Strips `pat` off the front of `s`.
pub fn strip_prefix(s: &str, pat: &str) -> (r: Option<String>)
    ensures
        option_text(r) == after_prefix(s@, pat@),
{
    let cs = chars_of(s);
    let ps = chars_of(pat);
    if stands_at(&cs, &ps, 0) {
        assert(cs@.subrange(ps@.len() as int, cs@.len() as int) =~= s@.skip(pat@.len() as int));
        Some(text_of(slice_subrange(&cs, ps.len(), cs.len())))
    } else {
        None
    }
}

/// What precedes `pat` at the end of `s`.
pub open spec fn before_suffix(s: Seq<char>, pat: Seq<char>) -> Option<Seq<char>> {
    if ends(s, pat) {
        Some(s.take(s.len() - pat.len()))
    } else {
        None
    }
}

/// Strips `pat` off the end of `s`.
pub fn strip_suffix(s: &str, pat: &str) -> (r: Option<String>)
    ensures
        option_text(r) == before_suffix(s@, pat@),
{
    let cs = chars_of(s);
    let ps = chars_of(pat);
    if ps.len() <= cs.len() && stands_at(&cs, &ps, cs.len() - ps.len()) {
        assert(cs@.subrange(0, cs@.len() - ps@.len()) =~= s@.take(s@.len() - pat@.len()));
        Some(text_of(slice_subrange(&cs, 0, cs.len() - ps.len())))
    } else {
        None
    }
}

/// What stands before and after the first `pat` in `s`.
pub open spec fn halves(s: Seq<char>, pat: Seq<char>) -> Option<(Seq<char>, Seq<char>)> {
    match first_at(s, pat, 0) {
        Some(i) => Some((s.take(i), s.skip(i + pat.len()))),
        None => None,
    }
}

/// Splits `s` at the first `pat`.
pub fn split_once(s: &str, pat: &str) -> (r: Option<(String, String)>)
    ensures
        match r {
            Some((before, after)) => halves(s@, pat@) == Some((before@, after@)),
            None => halves(s@, pat@) is None,
        },
{
    let cs = chars_of(s);
    let ps = chars_of(pat);
    let n: usize = cs.len();
    proof {
        lemma_first_at(s@, pat@, 0);
    }
    match find_from(&cs, &ps, 0) {
        Some(i) => {
            assert(cs@.subrange(0, i as int) =~= s@.take(i as int));
            assert(cs@.subrange(i + ps@.len(), cs@.len() as int) =~= s@.skip(i + pat@.len()));
            Some(
                (
                    text_of(slice_subrange(&cs, 0, i)),
                    text_of(slice_subrange(&cs, i + ps.len(), n)),
                ),
            )
        },
        None => None,
    }
}

/// `s` with each `pat`, taken from the left, replaced by `rep`.
pub open spec fn replaced(s: Seq<char>, pat: Seq<char>, rep: Seq<char>) -> Seq<char>
    decreases s.len(),
{
    if pat.len() == 0 || s.len() < pat.len() {
        s
    } else if begins(s, pat) {
        rep + replaced(s.skip(pat.len() as int), pat, rep)
    } else {
        seq![s[0]] + replaced(s.skip(1), pat, rep)
    }
}

/// Replaces each `pat` in `s` by `rep`.
pub fn replace(s: &str, pat: &str, rep: &str) -> (r: String)
    requires
        pat@.len() > 0,
    ensures
        r@ == replaced(s@, pat@, rep@),
{
    let cs = chars_of(s);
    let ps = chars_of(pat);
    let mut out = String::new();
    let mut i: usize = 0;
    assert(cs@.skip(0) =~= cs@);
    while i < cs.len()
        invariant
            i <= cs@.len(),
            ps@ == pat@,
            cs@ == s@,
            pat@.len() > 0,
            out@ + replaced(cs@.skip(i as int), ps@, rep@) == replaced(s@, pat@, rep@),
        decreases cs@.len() - i,
    {
        let ghost rest = cs@.skip(i as int);
        let ghost before = out@;
        if stands_at(&cs, &ps, i) {
            proof {
                assert(rest.subrange(0, ps@.len() as int) =~= cs@.subrange(
                    i as int,
                    i + ps@.len(),
                ));
                assert(begins(rest, ps@));
                assert(rest.skip(ps@.len() as int) =~= cs@.skip(i + ps@.len()));
            }
            out.append(rep);
            i += ps.len();
            proof {
                assert(before + (rep@ + replaced(cs@.skip(i as int), ps@, rep@)) =~= before + rep@
                    + replaced(cs@.skip(i as int), ps@, rep@));
            }
        } else {
            out.push(cs[i]);
            proof {
                if begins(rest, ps@) {
                    assert(cs@.subrange(i as int, i + ps@.len()) =~= rest.subrange(
                        0,
                        ps@.len() as int,
                    ));
                }
                assert(rest.skip(1) =~= cs@.skip(i + 1));
                if rest.len() < ps@.len() {
                    assert(rest =~= seq![rest[0]] + rest.skip(1));
                }
                assert(before + (seq![rest[0]] + replaced(cs@.skip(i + 1), ps@, rep@))
                    =~= before.push(rest[0]) + replaced(cs@.skip(i + 1), ps@, rep@));
            }
            i += 1;
        }
    }
    assert(cs@.skip(i as int) =~= Seq::<char>::empty());
    assert(out@ + Seq::<char>::empty() =~= out@);
    out
}

// ---------------------------------------------------------------------------
// Splitting
// ---------------------------------------------------------------------------

/// A class of characters at which a text is cut.
pub trait Cut {
    spec fn cuts(c: char) -> bool;

    fn cut(c: char) -> (r: bool)
        ensures
            r == Self::cuts(c),
    ;
}

/// Cut at white space.
pub struct AtSpace;

impl Cut for AtSpace {
    open spec fn cuts(c: char) -> bool {
        is_space(c)
    }

    fn cut(c: char) -> bool {
        space(c)
    }
}

/// Cut at line feeds.
pub struct AtLineFeed;

impl Cut for AtLineFeed {
    open spec fn cuts(c: char) -> bool {
        c == '\n'
    }

    fn cut(c: char) -> bool {
        c == '\n'
    }
}

/// The pieces of `s` between the characters at which `C` cuts: one more than
/// there are cuts, empty ones included.
pub open spec fn pieces_of<C: Cut>(s: Seq<char>) -> Seq<Seq<char>>
    decreases s.len(),
{
    if s.len() == 0 {
        seq![Seq::empty()]
    } else {
        let before = pieces_of::<C>(s.drop_last());
        if C::cuts(s.last()) {
            before.push(Seq::empty())
        } else {
            before.drop_last().push(before.last().push(s.last()))
        }
    }
}

/// Splits `s` at the characters of `C`.
pub fn pieces<C: Cut>(s: &str) -> (r: Vec<String>)
    ensures
        texts(r@) == pieces_of::<C>(s@),
        r@.len() > 0,
{
    let cs = chars_of(s);
    let mut done: Vec<String> = Vec::new();
    let mut current = String::new();
    let mut i: usize = 0;
    assert(texts(done@).push(current@) =~= pieces_of::<C>(cs@.take(0)));
    while i < cs.len()
        invariant
            i <= cs@.len(),
            cs@ == s@,
            texts(done@).push(current@) == pieces_of::<C>(cs@.take(i as int)),
        decreases cs@.len() - i,
    {
        let ghost before = texts(done@);
        let ghost word = current@;
        assert(cs@.take(i as int + 1).drop_last() =~= cs@.take(i as int));
        assert(before.push(word).drop_last() =~= before);
        if C::cut(cs[i]) {
            done.push(current);
            current = String::new();
            assert(texts(done@) =~= before.push(word));
        } else {
            current.push(cs[i]);
        }
        i += 1;
    }
    assert(cs@.take(cs@.len() as int) =~= cs@);
    let ghost before = texts(done@);
    done.push(current);
    assert(texts(done@) =~= before.push(current@));
    done
}

/// The members of a list that are not empty.
pub open spec fn nonempty(ps: Seq<Seq<char>>) -> Seq<Seq<char>>
    decreases ps.len(),
{
    if ps.len() == 0 {
        Seq::empty()
    } else if ps.last().len() == 0 {
        nonempty(ps.drop_last())
    } else {
        nonempty(ps.drop_last()).push(ps.last())
    }
}

/// The maximal runs of characters between cuts.
pub open spec fn words_of<C: Cut>(s: Seq<char>) -> Seq<Seq<char>> {
    nonempty(pieces_of::<C>(s))
}

/// Splits `s` into its words.
pub fn words<C: Cut>(s: &str) -> (r: Vec<String>)
    ensures
        texts(r@) == words_of::<C>(s@),
{
    let ps = pieces::<C>(s);
    let mut out: Vec<String> = Vec::new();
    let mut i: usize = 0;
    while i < ps.len()
        invariant
            i <= ps@.len(),
            texts(ps@) == pieces_of::<C>(s@),
            texts(out@) == nonempty(texts(ps@).take(i as int)),
        decreases ps@.len() - i,
    {
        let ghost before = texts(out@);
        assert(texts(ps@).take(i as int + 1).drop_last() =~= texts(ps@).take(i as int));
        assert(texts(ps@)[i as int] == ps@[i as int]@);
        if !ps[i].as_str().is_empty() {
            out.push(ps[i].clone());
            assert(texts(out@) =~= before.push(ps@[i as int]@));
        }
        i += 1;
    }
    assert(texts(ps@).take(ps@.len() as int) =~= texts(ps@));
    out
}

/// A line without the carriage return that ends it.
pub open spec fn without_return(line: Seq<char>) -> Seq<char> {
    if line.len() > 0 && line.last() == '\r' {
        line.drop_last()
    } else {
        line
    }
}

/// The lines of a text. A line ends at a line feed, which a carriage return may
/// precede; the last line need not be ended.
pub open spec fn lines_of(s: Seq<char>) -> Seq<Seq<char>> {
    let ps = pieces_of::<AtLineFeed>(s);
    let ended = ps.drop_last().map_values(|l: Seq<char>| without_return(l));
    if ps.last().len() == 0 {
        ended
    } else {
        ended.push(ps.last())
    }
}

/// Only whole lines: nothing, or a text that a line feed ends.
pub open spec fn whole_lines(s: Seq<char>) -> bool {
    s.len() == 0 || s.last() == '\n'
}

proof fn lemma_pieces_append<C: Cut>(a: Seq<char>, b: Seq<char>)
    requires
        a.len() == 0 || C::cuts(a.last()),
    ensures
        pieces_of::<C>(a + b) == pieces_of::<C>(a).drop_last() + pieces_of::<C>(b),
        pieces_of::<C>(b).len() > 0,
    decreases b.len(),
{
    if b.len() == 0 {
        assert(a + b =~= a);
        assert(pieces_of::<C>(a) =~= pieces_of::<C>(a).drop_last() + pieces_of::<C>(b));
    } else {
        let front = b.drop_last();
        lemma_pieces_append::<C>(a, front);
        assert((a + b).drop_last() =~= a + front);
        assert((a + b).last() == b.last());
        let head = pieces_of::<C>(a).drop_last();
        let ps = pieces_of::<C>(front);
        assert((head + ps).last() == ps.last());
        if C::cuts(b.last()) {
            assert((head + ps).push(Seq::empty()) =~= head + ps.push(Seq::empty()));
        } else {
            let word = ps.last().push(b.last());
            assert((head + ps).drop_last().push(word) =~= head + ps.drop_last().push(word));
        }
    }
}

/// The lines of two texts, the first of which has only whole lines, are those of
/// the one followed by those of the other.
pub proof fn lemma_lines_append(a: Seq<char>, b: Seq<char>)
    requires
        whole_lines(a),
    ensures
        lines_of(a + b) == lines_of(a) + lines_of(b),
{
    lemma_pieces_append::<AtLineFeed>(a, b);
    lemma_pieces_append::<AtLineFeed>(a, Seq::empty());
    assert(a + Seq::<char>::empty() =~= a);
    let pa = pieces_of::<AtLineFeed>(a);
    let pb = pieces_of::<AtLineFeed>(b);
    assert(pa.last().len() == 0);
    let f = |l: Seq<char>| without_return(l);
    assert((pa.drop_last() + pb).drop_last() =~= pa.drop_last() + pb.drop_last());
    assert((pa.drop_last() + pb.drop_last()).map_values(f) =~= pa.drop_last().map_values(f)
        + pb.drop_last().map_values(f));
    assert((pa.drop_last() + pb).last() == pb.last());
    assert(lines_of(a + b) =~= lines_of(a) + lines_of(b));
}

proof fn lemma_pieces_uncut<C: Cut>(s: Seq<char>)
    requires
        forall|i: int| 0 <= i < s.len() ==> !C::cuts(#[trigger] s[i]),
    ensures
        pieces_of::<C>(s) == seq![s],
    decreases s.len(),
{
    if s.len() == 0 {
        assert(s =~= Seq::<char>::empty());
    } else {
        let front = s.drop_last();
        assert forall|i: int| 0 <= i < front.len() implies !C::cuts(#[trigger] front[i]) by {
            assert(front[i] == s[i]);
        }
        lemma_pieces_uncut::<C>(front);
        assert(!C::cuts(s[s.len() - 1]));
        assert(front.push(s.last()) =~= s);
        assert(seq![front].drop_last().push(s) =~= seq![s]);
    }
}

/// A text without line feeds, ended by one, is one line.
pub proof fn lemma_one_line(s: Seq<char>)
    requires
        !s.contains('\n'),
    ensures
        lines_of(s + seq!['\n']) == seq![without_return(s)],
        whole_lines(s + seq!['\n']),
{
    let t = s + seq!['\n'];
    assert forall|i: int| 0 <= i < s.len() implies !AtLineFeed::cuts(#[trigger] s[i]) by {
        assert(s.contains(s[i]));
    }
    lemma_pieces_uncut::<AtLineFeed>(s);
    assert(t.drop_last() =~= s);
    let ps = pieces_of::<AtLineFeed>(t);
    assert(ps =~= seq![s, Seq::<char>::empty()]);
    assert(ps.drop_last() =~= seq![s]);
    assert(lines_of(t) =~= seq![without_return(s)]);
}

/// Trimming takes off a carriage return at the end of a line.
pub proof fn lemma_trim_return(s: Seq<char>)
    ensures
        trim_of(without_return(s)) == trim_of(s),
{
    if s.len() > 0 && s.last() == '\r' {
        lemma_trim_last(s);
    }
}

proof fn lemma_trim_last(s: Seq<char>)
    requires
        s.len() > 0,
        is_space(s.last()),
    ensures
        trim_of(s.drop_last()) == trim_of(s),
    decreases s.len(),
{
    let d = s.drop_last();
    if s.len() == 1 {
        assert(d =~= Seq::<char>::empty());
        assert(s.skip(1) =~= Seq::<char>::empty());
    } else if is_space(s[0]) {
        assert(s.skip(1).drop_last() =~= d.skip(1));
        assert(s.skip(1).last() == s.last());
        lemma_trim_last(s.skip(1));
    }
}

/// Splits `s` into its lines.
pub fn lines(s: &str) -> (r: Vec<String>)
    ensures
        texts(r@) == lines_of(s@),
{
    let ps = pieces::<AtLineFeed>(s);
    let ghost all = texts(ps@);
    let ghost ended = all.drop_last().map_values(|l: Seq<char>| without_return(l));
    let last: usize = ps.len() - 1;
    let mut out: Vec<String> = Vec::new();
    let mut i: usize = 0;
    while i < last
        invariant
            i <= last,
            last + 1 == ps@.len(),
            all == texts(ps@),
            ended == all.drop_last().map_values(|l: Seq<char>| without_return(l)),
            texts(out@) == ended.take(i as int),
        decreases last - i,
    {
        let ghost before = texts(out@);
        assert(all[i as int] == ps@[i as int]@);
        let line = chars_of(ps[i].as_str());
        if line.len() > 0 && line[line.len() - 1] == '\r' {
            out.push(text_of(slice_subrange(&line, 0, line.len() - 1)));
        } else {
            out.push(ps[i].clone());
        }
        assert(texts(out@) =~= before.push(without_return(all[i as int])));
        assert(ended.take(i as int + 1) =~= ended.take(i as int).push(ended[i as int]));
        i += 1;
    }
    assert(ended.take(last as int) =~= ended);
    assert(all.last() == ps@[last as int]@);
    if !ps[last].as_str().is_empty() {
        let ghost before = texts(out@);
        out.push(ps[last].clone());
        assert(texts(out@) =~= before.push(all.last()));
    }
    out
}

/// `s` without the white space it begins with.
pub open spec fn trim_front_of(s: Seq<char>) -> Seq<char>
    decreases s.len(),
{
    if s.len() > 0 && is_space(s[0]) {
        trim_front_of(s.skip(1))
    } else {
        s
    }
}

/// `s` without the white space it ends with.
pub open spec fn trim_back_of(s: Seq<char>) -> Seq<char>
    decreases s.len(),
{
    if s.len() > 0 && is_space(s.last()) {
        trim_back_of(s.drop_last())
    } else {
        s
    }
}

/// `s` without the white space around it.
pub open spec fn trim_of(s: Seq<char>) -> Seq<char> {
    trim_back_of(trim_front_of(s))
}

fn front(cs: &[char]) -> (a: usize)
    ensures
        a <= cs@.len(),
        cs@.skip(a as int) == trim_front_of(cs@),
{
    let mut a: usize = 0;
    assert(cs@.skip(0) =~= cs@);
    while a < cs.len() && space(cs[a])
        invariant
            a <= cs@.len(),
            trim_front_of(cs@.skip(a as int)) == trim_front_of(cs@),
        decreases cs@.len() - a,
    {
        assert(cs@.skip(a as int).skip(1) =~= cs@.skip(a + 1));
        a += 1;
    }
    a
}

fn back(cs: &[char]) -> (b: usize)
    ensures
        b <= cs@.len(),
        cs@.take(b as int) == trim_back_of(cs@),
{
    let mut b: usize = cs.len();
    assert(cs@.take(b as int) =~= cs@);
    while b > 0 && space(cs[b - 1])
        invariant
            b <= cs@.len(),
            trim_back_of(cs@.take(b as int)) == trim_back_of(cs@),
        decreases b,
    {
        assert(cs@.take(b as int).drop_last() =~= cs@.take(b - 1));
        b -= 1;
    }
    b
}

/// Trims the front of `s`.
pub fn trim_start(s: &str) -> (r: String)
    ensures
        r@ == trim_front_of(s@),
{
    let cs = chars_of(s);
    let a: usize = front(&cs);
    assert(cs@.subrange(a as int, cs@.len() as int) =~= cs@.skip(a as int));
    text_of(slice_subrange(&cs, a, cs.len()))
}

/// Trims the end of `s`.
pub fn trim_end(s: &str) -> (r: String)
    ensures
        r@ == trim_back_of(s@),
{
    let cs = chars_of(s);
    let b: usize = back(&cs);
    assert(cs@.subrange(0, b as int) =~= cs@.take(b as int));
    text_of(slice_subrange(&cs, 0, b))
}

/// Trims both ends of `s`.
pub fn trim(s: &str) -> (r: String)
    ensures
        r@ == trim_of(s@),
{
    let t = trim_start(s);
    trim_end(t.as_str())
}

// ---------------------------------------------------------------------------
// Rendering
// ---------------------------------------------------------------------------

/// `s` with its ASCII capitals made small.
pub open spec fn lower_of(s: Seq<char>) -> Seq<char> {
    s.map_values(|c: char| lower_char(c))
}

/// ASCII lower case.
pub fn ascii_lower(s: &str) -> (r: String)
    ensures
        r@ == lower_of(s@),
{
    let cs = chars_of(s);
    let mut out = String::new();
    let mut i: usize = 0;
    while i < cs.len()
        invariant
            i <= cs@.len(),
            out@ == lower_of(cs@).take(i as int),
        decreases cs@.len() - i,
    {
        out.push(ascii_lower_char(cs[i]));
        assert(lower_of(cs@).take(i as int + 1) =~= lower_of(cs@).take(i as int).push(
            lower_char(cs@[i as int]),
        ));
        i += 1;
    }
    assert(lower_of(cs@).take(cs@.len() as int) =~= lower_of(cs@));
    out
}

/// The decimal digit of a number below ten.
pub open spec fn digit_of(n: nat) -> char {
    ((0x30 + n) as u32) as char
}

/// A number in decimal.
pub open spec fn decimal_of(n: nat) -> Seq<char>
    decreases n,
{
    if n < 10 {
        seq![digit_of(n)]
    } else {
        decimal_of(n / 10).push(digit_of(n % 10))
    }
}

/// Renders a number in decimal.
pub fn decimal(n: u64) -> (r: String)
    ensures
        r@ == decimal_of(n as nat),
    decreases n,
{
    if n < 10 {
        let mut s = String::new();
        s.push((0x30 + n as u8) as char);
        assert(s@ =~= seq![digit_of(n as nat)]);
        s
    } else {
        let mut s = decimal(n / 10);
        s.push((0x30 + (n % 10) as u8) as char);
        s
    }
}

/// Renders a count in decimal.
pub fn count(n: usize) -> (r: String)
    ensures
        r@ == decimal_of(n as nat),
{
    decimal(n as u64)
}

/// A number is written on one line.
pub proof fn lemma_decimal_one_line(n: nat)
    ensures
        !decimal_of(n).contains('\n'),
    decreases n,
{
    let d = decimal_of(n);
    if n < 10 {
        if d.contains('\n') {
            let i = choose|i: int| 0 <= i < d.len() && d[i] == '\n';
            assert(d[i] == digit_of(n));
            assert(digit_of(n) as u32 == 0x30 + n);
        }
    } else {
        lemma_decimal_one_line(n / 10);
        if d.contains('\n') {
            let i = choose|i: int| 0 <= i < d.len() && d[i] == '\n';
            let before = decimal_of(n / 10);
            if i < before.len() {
                assert(before[i] == '\n');
            } else {
                assert(d[i] == digit_of(n % 10));
                assert(digit_of(n % 10) as u32 == 0x30 + n % 10);
            }
        }
    }
}

/// `n` blanks.
pub open spec fn blanks(n: int) -> Seq<char> {
    Seq::new(if n > 0 { n as nat } else { 0 }, |i: int| ' ')
}

/// Appends `n` blanks to `s`.
pub fn push_blanks(s: &mut String, n: usize)
    ensures
        final(s)@ == old(s)@ + blanks(n as int),
{
    let mut i: usize = 0;
    assert(old(s)@ + blanks(0) =~= old(s)@);
    while i < n
        invariant
            i <= n,
            s@ == old(s)@ + blanks(i as int),
        decreases n - i,
    {
        s.push(' ');
        assert(old(s)@ + blanks(i + 1) =~= (old(s)@ + blanks(i as int)).push(' '));
        i += 1;
    }
}

/// `s` filled up with blanks on the right to `width` characters.
pub open spec fn padded(s: Seq<char>, width: int) -> Seq<char> {
    s + blanks(width - s.len())
}

/// `s` filled up with blanks on the left to `width` characters.
pub open spec fn padded_left(s: Seq<char>, width: int) -> Seq<char> {
    blanks(width - s.len()) + s
}

/// Left-justifies `s` in `width` columns.
pub fn pad(s: &str, width: usize) -> (r: String)
    ensures
        r@ == padded(s@, width as int),
{
    let n: usize = s.unicode_len();
    let mut out = s.to_owned();
    if n < width {
        push_blanks(&mut out, width - n);
    } else {
        assert(s@ + blanks(width - s@.len()) =~= s@);
    }
    out
}

/// Right-justifies `s` in `width` columns.
pub fn pad_left(s: &str, width: usize) -> (r: String)
    ensures
        r@ == padded_left(s@, width as int),
{
    let n: usize = s.unicode_len();
    let mut out = String::new();
    if n < width {
        push_blanks(&mut out, width - n);
        assert(Seq::<char>::empty() + blanks(width - n) =~= blanks(width - n));
    } else {
        assert(blanks(width - s@.len()) =~= Seq::<char>::empty());
    }
    out.append(s);
    out
}

// ---------------------------------------------------------------------------
// Bytes
// ---------------------------------------------------------------------------

/// How many bytes UTF-8 takes for `c`.
pub open spec fn width_of(c: char) -> nat {
    if (c as u32) < 0x80 {
        1
    } else if (c as u32) < 0x800 {
        2
    } else if (c as u32) < 0x10000 {
        3
    } else {
        4
    }
}

/// How many bytes UTF-8 takes for `s`.
pub open spec fn bytes_of(s: Seq<char>) -> nat
    decreases s.len(),
{
    if s.len() == 0 {
        0
    } else {
        bytes_of(s.drop_last()) + width_of(s.last())
    }
}

/// The byte count of a concatenation is the sum of its parts'.
pub proof fn lemma_bytes_concat(a: Seq<char>, b: Seq<char>)
    ensures
        bytes_of(a + b) == bytes_of(a) + bytes_of(b),
    decreases b.len(),
{
    if b.len() == 0 {
        assert(a + b =~= a);
    } else {
        lemma_bytes_concat(a, b.drop_last());
        assert((a + b).drop_last() =~= a + b.drop_last());
    }
}

/// The byte count of a text is the length of its UTF-8 encoding.
pub proof fn lemma_bytes_encoded(s: Seq<char>)
    ensures
        bytes_of(s) == utf8::encode_utf8(s).len(),
    decreases s.len(),
{
    if s.len() > 0 {
        let head = s.take(1);
        let rest = s.drop_first();
        lemma_bytes_encoded(rest);
        lemma_bytes_concat(head, rest);
        utf8::char_is_scalar(s[0]);
        assert(head + rest =~= s);
        assert(head.drop_last() =~= Seq::<char>::empty());
        assert(bytes_of(head.drop_last()) == 0);
        assert(bytes_of(head) == width_of(s[0]));
    }
}

/// The number of bytes in `s`.
pub fn byte_len(s: &str) -> (r: usize)
    ensures
        r == bytes_of(s@),
{
    proof {
        lemma_bytes_encoded(s@);
    }
    s.as_bytes().len()
}

/// The number of bytes in one character.
pub fn width(c: char) -> (r: usize)
    ensures
        r == width_of(c),
{
    let n: u32 = c as u32;
    if n < 0x80 {
        1
    } else if n < 0x800 {
        2
    } else if n < 0x10000 {
        3
    } else {
        4
    }
}

// ---------------------------------------------------------------------------
// Order
// ---------------------------------------------------------------------------

/// `a` comes before `b` in the lexicographic order by code point, which is also
/// the order of their UTF-8 bytes.
pub open spec fn earlier(a: Seq<char>, b: Seq<char>) -> bool
    decreases b.len(),
{
    if b.len() == 0 {
        false
    } else if a.len() == 0 {
        true
    } else if a[0] != b[0] {
        (a[0] as u32) < (b[0] as u32)
    } else {
        earlier(a.skip(1), b.skip(1))
    }
}

/// Whether `a` comes before `b`.
pub fn comes_before(a: &str, b: &str) -> (r: bool)
    ensures
        r == earlier(a@, b@),
{
    let x = chars_of(a);
    let y = chars_of(b);
    let mut i: usize = 0;
    assert(x@.skip(0) =~= x@ && y@.skip(0) =~= y@);
    while i < x.len() && i < y.len()
        invariant
            i <= x@.len(),
            i <= y@.len(),
            x@ == a@,
            y@ == b@,
            earlier(a@, b@) == earlier(x@.skip(i as int), y@.skip(i as int)),
        decreases x@.len() - i,
    {
        if x[i] != y[i] {
            return (x[i] as u32) < (y[i] as u32);
        }
        assert(x@.skip(i as int).skip(1) =~= x@.skip(i + 1));
        assert(y@.skip(i as int).skip(1) =~= y@.skip(i + 1));
        i += 1;
    }
    i < y.len()
}

/// No text comes before itself.
pub proof fn lemma_earlier_irreflexive(a: Seq<char>)
    ensures
        !earlier(a, a),
    decreases a.len(),
{
    if a.len() > 0 {
        lemma_earlier_irreflexive(a.skip(1));
    }
}

/// The order of texts is transitive.
pub proof fn lemma_earlier_transitive(a: Seq<char>, b: Seq<char>, c: Seq<char>)
    requires
        earlier(a, b),
        earlier(b, c),
    ensures
        earlier(a, c),
    decreases b.len(),
{
    if a.len() > 0 && b.len() > 0 && c.len() > 0 && a[0] == b[0] && b[0] == c[0] {
        lemma_earlier_transitive(a.skip(1), b.skip(1), c.skip(1));
    }
}

/// Of two different texts one comes before the other.
pub proof fn lemma_earlier_total(a: Seq<char>, b: Seq<char>)
    ensures
        earlier(a, b) || earlier(b, a) || a == b,
    decreases b.len(),
{
    if a.len() == 0 && b.len() == 0 {
        assert(a =~= b);
    } else if a.len() > 0 && b.len() > 0 && a[0] != b[0] {
        utf8::char_u32_cast(a[0], a[0] as u32);
        utf8::char_u32_cast(b[0], b[0] as u32);
    } else if a.len() > 0 && b.len() > 0 && a[0] == b[0] {
        lemma_earlier_total(a.skip(1), b.skip(1));
        if a.skip(1) == b.skip(1) {
            assert(a =~= seq![a[0]] + a.skip(1));
            assert(b =~= seq![b[0]] + b.skip(1));
        }
    }
}

} // verus!
