//! What the functions on text give, in terms of the characters they are given.

use vstd::prelude::*;
use crate::switch;
use crate::text;
use crate::text::Cut;

verus! {

/// Pieces are read apart: those of two texts with a cut between them are those of
/// the one and then those of the other.
pub proof fn law_pieces<C: Cut>(a: Seq<char>, c: char, b: Seq<char>)
    requires
        C::cuts(c),
    ensures
        text::pieces_of::<C>(a + seq![c] + b) == text::pieces_of::<C>(a) + text::pieces_of::<C>(b),
    decreases b.len(),
{
    let s = a + seq![c] + b;
    if b.len() == 0 {
        assert(s.drop_last() =~= a);
        assert(text::pieces_of::<C>(a).push(Seq::empty()) =~= text::pieces_of::<C>(a)
            + text::pieces_of::<C>(b));
    } else {
        law_pieces::<C>(a, c, b.drop_last());
        lemma_some_piece::<C>(b.drop_last());
        assert(s.drop_last() =~= a + seq![c] + b.drop_last());
        assert(s.last() == b.last());
        let x = text::pieces_of::<C>(a);
        let y = text::pieces_of::<C>(b.drop_last());
        assert((x + y).drop_last() =~= x + y.drop_last());
        assert((x + y).last() == y.last());
        assert(text::pieces_of::<C>(s) =~= x + text::pieces_of::<C>(b));
    }
}

proof fn lemma_some_piece<C: Cut>(s: Seq<char>)
    ensures
        text::pieces_of::<C>(s).len() > 0,
    decreases s.len(),
{
    if s.len() > 0 {
        lemma_some_piece::<C>(s.drop_last());
    }
}

/// A text without a cut is one piece, and one word where it is not empty.
pub proof fn law_uncut<C: Cut>(s: Seq<char>)
    requires
        forall|i: int| 0 <= i < s.len() ==> !C::cuts(#[trigger] s[i]),
    ensures
        text::pieces_of::<C>(s) == seq![s],
        s.len() > 0 ==> text::words_of::<C>(s) == seq![s],
        s.len() == 0 ==> text::words_of::<C>(s).len() == 0,
    decreases s.len(),
{
    if s.len() > 0 {
        let front = s.drop_last();
        assert forall|i: int| 0 <= i < front.len() implies !C::cuts(#[trigger] front[i]) by {
            assert(front[i] == s[i]);
        }
        law_uncut::<C>(front);
        assert(s[s.len() - 1] == s.last());
        assert(front.push(s.last()) =~= s);
        assert(seq![front].drop_last() =~= Seq::<Seq<char>>::empty());
        assert(text::pieces_of::<C>(s) =~= seq![s]);
    } else {
        assert(s =~= Seq::<char>::empty());
        assert(text::pieces_of::<C>(s) =~= seq![s]);
    }
    let ps = seq![s];
    assert(ps.drop_last() =~= Seq::<Seq<char>>::empty());
    assert(text::nonempty(ps.drop_last()) =~= Seq::<Seq<char>>::empty());
    if s.len() > 0 {
        assert(text::nonempty(ps) =~= seq![s]);
    }
}

proof fn lemma_nonempty(a: Seq<Seq<char>>, b: Seq<Seq<char>>)
    ensures
        text::nonempty(a + b) == text::nonempty(a) + text::nonempty(b),
    decreases b.len(),
{
    if b.len() == 0 {
        assert(a + b =~= a);
        assert(text::nonempty(a) + text::nonempty(b) =~= text::nonempty(a));
    } else {
        lemma_nonempty(a, b.drop_last());
        assert((a + b).drop_last() =~= a + b.drop_last());
        assert((a + b).last() == b.last());
        assert(text::nonempty(a + b) =~= text::nonempty(a) + text::nonempty(b));
    }
}

/// Words are read apart, however many cuts are between them.
pub proof fn law_words<C: Cut>(a: Seq<char>, c: char, b: Seq<char>)
    requires
        C::cuts(c),
    ensures
        text::words_of::<C>(a + seq![c] + b) == text::words_of::<C>(a) + text::words_of::<C>(b),
{
    law_pieces::<C>(a, c, b);
    lemma_nonempty(text::pieces_of::<C>(a), text::pieces_of::<C>(b));
}

/// A text joined from parts is the parts with the separator between each two.
pub proof fn law_joins(parts: Seq<Seq<char>>, part: Seq<char>, sep: Seq<char>)
    ensures
        text::join_of(Seq::empty(), sep).len() == 0,
        text::join_of(seq![part], sep) == part,
        parts.len() > 0 ==> text::join_of(parts.push(part), sep) == text::join_of(parts, sep) + sep
            + part,
{
    assert(parts.push(part).drop_last() =~= parts);
}

proof fn lemma_trim_front(s: Seq<char>)
    ensures
        ({
            let t = text::trim_front_of(s);
            let k = s.len() - t.len();
            &&& 0 <= k
            &&& t == s.skip(k)
            &&& forall|i: int| 0 <= i < k ==> text::is_space(#[trigger] s[i])
            &&& t.len() > 0 ==> !text::is_space(t[0])
        }),
    decreases s.len(),
{
    if s.len() > 0 && text::is_space(s[0]) {
        let rest = s.skip(1);
        lemma_trim_front(rest);
        let t = text::trim_front_of(rest);
        let k = rest.len() - t.len();
        assert(s.skip(k + 1) =~= rest.skip(k));
        assert forall|i: int| 0 <= i < k + 1 implies text::is_space(#[trigger] s[i]) by {
            if i > 0 {
                assert(rest[i - 1] == s[i]);
            }
        }
    } else {
        assert(s.skip(0) =~= s);
    }
}

proof fn lemma_trim_back(s: Seq<char>)
    ensures
        ({
            let t = text::trim_back_of(s);
            &&& t.len() <= s.len()
            &&& t == s.take(t.len() as int)
            &&& forall|i: int| t.len() <= i < s.len() ==> text::is_space(#[trigger] s[i])
            &&& t.len() > 0 ==> !text::is_space(t.last())
        }),
    decreases s.len(),
{
    if s.len() > 0 && text::is_space(s.last()) {
        let front = s.drop_last();
        lemma_trim_back(front);
        let t = text::trim_back_of(front);
        assert(s.take(t.len() as int) =~= front.take(t.len() as int));
        assert forall|i: int| t.len() <= i < s.len() implies text::is_space(#[trigger] s[i]) by {
            if i < front.len() {
                assert(front[i] == s[i]);
            }
        }
    } else {
        assert(s.take(s.len() as int) =~= s);
    }
}

/// What is trimmed off a text is white space at its ends, all of it and nothing
/// else: what remains begins and ends with something else.
pub proof fn law_trims(s: Seq<char>)
    ensures
        exists|a: int, b: int|
            {
                &&& 0 <= a <= b <= s.len()
                &&& #[trigger] s.subrange(a, b) == text::trim_of(s)
                &&& forall|i: int| 0 <= i < a ==> text::is_space(#[trigger] s[i])
                &&& forall|i: int| b <= i < s.len() ==> text::is_space(#[trigger] s[i])
            },
        text::trim_of(s).len() > 0 ==> !text::is_space(text::trim_of(s)[0]) && !text::is_space(
            text::trim_of(s).last(),
        ),
{
    lemma_trim_front(s);
    let t = text::trim_front_of(s);
    lemma_trim_back(t);
    let u = text::trim_back_of(t);
    let a = s.len() - t.len();
    let b = a + u.len();
    assert(s.subrange(a, b) =~= u);
    assert forall|i: int| b <= i < s.len() implies text::is_space(#[trigger] s[i]) by {
        assert(t[i - a] == s[i]);
    }
    if u.len() > 0 {
        assert(u[0] == t[0]);
    }
}

/// Small letters: each of the capital letters of ASCII becomes the small one, and
/// nothing else changes.
pub proof fn law_small_letters(s: Seq<char>, i: int)
    requires
        0 <= i < s.len(),
    ensures
        text::lower_of(s).len() == s.len(),
        65 <= s[i] as u32 <= 90 ==> text::lower_of(s)[i] as u32 == s[i] as u32 + 32,
        !(65 <= s[i] as u32 <= 90) ==> text::lower_of(s)[i] == s[i],
{
}

/// A pattern is replaced where it first stands, and on from behind it; a text
/// without it stays.
pub proof fn law_replacing(s: Seq<char>, pat: Seq<char>, rep: Seq<char>)
    requires
        pat.len() > 0,
    ensures
        match text::first_at(s, pat, 0) {
            Some(i) => text::replaced(s, pat, rep) == s.take(i) + rep + text::replaced(
                s.skip(i + pat.len()),
                pat,
                rep,
            ),
            None => text::replaced(s, pat, rep) == s,
        },
    decreases s.len(),
{
    text::lemma_first_at(s, pat, 0);
    if s.len() < pat.len() {
    } else if text::begins(s, pat) {
        assert(s.take(0) + rep =~= rep);
    } else {
        let rest = s.skip(1);
        law_replacing(rest, pat, rep);
        text::lemma_first_at(rest, pat, 0);
        assert(seq![s[0]] + rest =~= s);
        assert forall|j: int| 0 <= j && j + pat.len() <= rest.len() implies (#[trigger]
        text::occurs_at(rest, pat, j) <==> text::occurs_at(s, pat, j + 1)) by {
            assert(rest.subrange(j, j + pat.len()) =~= s.subrange(j + 1, j + 1 + pat.len()));
        }
        match text::first_at(s, pat, 0) {
            Some(i) => {
                assert(i > 0);
                assert(text::occurs_at(rest, pat, i - 1));
                let k = text::first_at(rest, pat, 0)->0;
                assert(text::occurs_at(s, pat, k + 1));
                assert(k == i - 1);
                assert(rest.skip(k + pat.len()) =~= s.skip(i + pat.len()));
                assert(seq![s[0]] + (rest.take(k) + rep + text::replaced(
                    rest.skip(k + pat.len()),
                    pat,
                    rep,
                )) =~= s.take(i) + rep + text::replaced(s.skip(i + pat.len()), pat, rep));
            },
            None => {
                if let Some(k) = text::first_at(rest, pat, 0) {
                    assert(text::occurs_at(s, pat, k + 1));
                }
            },
        }
    }
}

/// A padded text is the text and blanks, behind it or before it, up to the width,
/// and the text alone where it is as wide already.
pub proof fn law_padding(s: Seq<char>, width: int)
    ensures
        text::padded(s, width).take(s.len() as int) == s,
        text::padded_left(s, width).skip(text::padded_left(s, width).len() - s.len()) == s,
        s.len() >= width ==> text::padded(s, width) == s && text::padded_left(s, width) == s,
        s.len() < width ==> text::padded(s, width).len() == width && text::padded_left(
            s,
            width,
        ).len() == width,
        forall|i: int| s.len() <= i < width ==> (#[trigger] text::padded(s, width)[i]) == ' ',
        forall|i: int|
            0 <= i < width - s.len() ==> (#[trigger] text::padded_left(s, width)[i]) == ' ',
{
    assert(text::padded(s, width).take(s.len() as int) =~= s);
    assert(text::padded_left(s, width).skip(text::padded_left(s, width).len() - s.len()) =~= s);
    if s.len() >= width {
        assert(text::padded(s, width) =~= s);
        assert(text::padded_left(s, width) =~= s);
    }
}

/// One text comes before another exactly where, behind what they have in common,
/// it ends first or goes on with the smaller character.
pub proof fn law_earlier(a: Seq<char>, b: Seq<char>)
    ensures
        text::earlier(a, b) <==> exists|k: int| #[trigger] parts_at(a, b, k),
    decreases b.len(),
{
    if b.len() > 0 && a.len() > 0 && a[0] == b[0] {
        let x = a.skip(1);
        let y = b.skip(1);
        law_earlier(x, y);
        if exists|k: int| #[trigger] parts_at(x, y, k) {
            let k = choose|k: int| #[trigger] parts_at(x, y, k);
            assert forall|i: int| 0 <= i < k + 1 implies #[trigger] a[i] == b[i] by {
                if i > 0 {
                    assert(x[i - 1] == y[i - 1]);
                }
            }
            assert(parts_at(a, b, k + 1));
        }
        if exists|k: int| #[trigger] parts_at(a, b, k) {
            let k = choose|k: int| #[trigger] parts_at(a, b, k);
            assert(k > 0);
            assert forall|i: int| 0 <= i < k - 1 implies #[trigger] x[i] == y[i] by {
                assert(a[i + 1] == b[i + 1]);
            }
            assert(parts_at(x, y, k - 1));
        }
    } else if b.len() > 0 {
        if text::earlier(a, b) {
            assert(parts_at(a, b, 0));
        }
        if exists|k: int| #[trigger] parts_at(a, b, k) {
            let k = choose|k: int| #[trigger] parts_at(a, b, k);
            if k > 0 {
                assert(a[0] == b[0]);
            }
        }
    }
}

/// Two texts have their first `k` characters in common, and there the one ends or
/// has the smaller character.
pub open spec fn parts_at(a: Seq<char>, b: Seq<char>, k: int) -> bool {
    &&& 0 <= k < b.len()
    &&& k <= a.len()
    &&& forall|i: int| 0 <= i < k ==> #[trigger] a[i] == b[i]
    &&& k == a.len() || (a[k] as u32) < (b[k] as u32)
}

// ---------------------------------------------------------------------------
// Numbers
// ---------------------------------------------------------------------------

/// A decimal digit.
pub open spec fn is_decimal(c: char) -> bool {
    48 <= c as u32 && c as u32 <= 57
}

/// One more digit behind a number makes ten times the number and the digit.
pub proof fn law_digits(s: Seq<char>, c: char)
    ensures
        switch::number_of(Seq::empty()) == Some(0nat),
        is_decimal(c) && switch::number_of(s) is Some ==> switch::number_of(s.push(c)) == Some(
            (10 * switch::number_of(s)->0 + (c as u32 - 48)) as nat,
        ),
        !is_decimal(c) || switch::number_of(s) is None ==> switch::number_of(s.push(c)) is None,
{
    assert(s.push(c).drop_last() =~= s);
}

/// A text holds a number of 32 bits exactly where it is decimal digits, perhaps
/// behind one plus sign, that are not too many; without a digit it holds none.
pub proof fn law_parsed_numbers(s: Seq<char>)
    requires
        s.len() == 0 || s[0] != '+',
    ensures
        switch::parsed(s) is Some <==> s.len() > 0 && switch::number_of(s) is Some
            && switch::number_of(s)->0 <= 0xffff_ffff,
        switch::parsed(s) matches Some(n) ==> switch::number_of(s) == Some(n as nat),
        switch::parsed(seq!['+'] + s) == switch::parsed(s),
{
    assert((seq!['+'] + s).skip(1) =~= s);
}

} // verus!
