//! Which test speaks for which symbol, and why.

use vstd::prelude::*;
use crate::claims;
use crate::claims::{Claimant, ClaimKind, ClaimView, Words};
use crate::inventory;
use crate::inventory::{InventoryView, TestIdView, TestItemView, TestKind};
use crate::order;
use crate::symbol::{SymbolIdView, SymbolView, Triviality, Visibility};
use crate::text;

verus! {

// ---------------------------------------------------------------------------
// Names
// ---------------------------------------------------------------------------

/// The last segment of a path is what stands behind its last pair of colons: it
/// holds no such pair, and is the path itself where there is none.
pub proof fn law_leaves(path: Seq<char>)
    ensures
        ({
            let leaf = claims::leaf_of(path);
            &&& text::has(path, "::"@) <==> leaf != path
            &&& text::has(path, "::"@) ==> text::ends(path, "::"@ + leaf)
            &&& !text::has(leaf, "::"@)
        }),
{
    reveal_strlit("::");
    let pair = "::"@;
    text::lemma_last_at(path, pair, path.len() - pair.len());
    let leaf = claims::leaf_of(path);
    match text::last_occurrence(path, pair) {
        Some(i) => {
            assert(text::occurs_at(path, pair, i));
            assert(leaf.len() == path.len() - i - 2);
            let tail = pair + leaf;
            assert(path.subrange(i, i + 2) == pair);
            assert forall|k: int| 0 <= k < tail.len() implies #[trigger] path.subrange(
                i,
                path.len() as int,
            )[k] == tail[k] by {
                if k < 2 {
                    assert(path.subrange(i, i + 2)[k] == path[i + k]);
                }
            }
            assert(path.subrange(i, i + tail.len()) =~= tail);
            assert(path.len() - tail.len() == i);
            if text::has(leaf, pair) {
                let k = choose|k: int| #[trigger] text::occurs_at(leaf, pair, k);
                assert(path.subrange(i + 2 + k, i + 2 + k + 2) =~= leaf.subrange(k, k + 2));
                assert(text::occurs_at(path, pair, i + 2 + k));
            }
        },
        None => {
            if text::has(path, pair) {
                let k = choose|k: int| #[trigger] text::occurs_at(path, pair, k);
                assert(k <= path.len() - pair.len());
            }
        },
    }
}

/// The crate of a path is what stands before its first pair of colons.
pub proof fn law_crates(path: Seq<char>)
    ensures
        ({
            let name = claims::crate_of(path);
            &&& text::has(path, "::"@) <==> name != path
            &&& text::has(path, "::"@) ==> text::begins(path, name + "::"@)
            &&& forall|k: int| 0 <= k < name.len() ==> !#[trigger] text::occurs_at(path, "::"@, k)
        }),
{
    reveal_strlit("::");
    let pair = "::"@;
    let name = claims::crate_of(path);
    text::lemma_first_at(path, pair, 0);
    match text::first_at(path, pair, 0) {
        Some(i) => {
            assert(text::occurs_at(path, pair, i));
            assert(path.subrange(i, i + 2) == pair);
            let head = name + pair;
            assert forall|k: int| 0 <= k < head.len() implies #[trigger] path.subrange(
                0,
                head.len() as int,
            )[k] == head[k] by {
                if k >= i {
                    assert(path.subrange(i, i + 2)[k - i] == path[k]);
                }
            }
            assert(path.subrange(0, head.len() as int) =~= head);
        },
        None => {
            if text::has(path, pair) {
                let k = choose|k: int| #[trigger] text::occurs_at(path, pair, k);
                assert(0 <= k);
            }
        },
    }
}

/// A word that nearly every test name has.
pub open spec fn says_little(w: Seq<char>) -> bool {
    ||| w == "test"@ || w == "tests"@ || w == "it"@ || w == "should"@
    ||| w == "when"@ || w == "then"@ || w == "case"@
}

proof fn lemma_without_noise(a: Seq<Seq<char>>, b: Seq<Seq<char>>)
    ensures
        claims::without_noise(a + b) == claims::without_noise(a) + claims::without_noise(b),
    decreases b.len(),
{
    if b.len() == 0 {
        assert(a + b =~= a);
        assert(claims::without_noise(a) + claims::without_noise(b) =~= claims::without_noise(a));
    } else {
        lemma_without_noise(a, b.drop_last());
        assert((a + b).drop_last() =~= a + b.drop_last());
        assert((a + b).last() == b.last());
        assert(claims::without_noise(a + b) =~= claims::without_noise(a) + claims::without_noise(b));
    }
}

proof fn lemma_words_after(a: Seq<char>, sep: char, b: Seq<char>)
    requires
        sep == '_' || sep == '-',
    ensures
        claims::name_words(a + seq![sep] + b).done == claims::name_words(a).ended().done
            + claims::name_words(b).done,
        claims::name_words(a + seq![sep] + b).current == claims::name_words(b).current,
    decreases b.len(),
{
    let s = a + seq![sep] + b;
    if b.len() == 0 {
        assert(s.drop_last() =~= a);
        assert(s.last() == sep);
        assert(claims::name_words(b).done =~= Seq::<Seq<char>>::empty());
        assert(claims::name_words(a).ended().done + claims::name_words(b).done =~= claims::name_words(
            a,
        ).ended().done);
        assert(claims::name_words(a).ended().current =~= Seq::<char>::empty());
    } else {
        lemma_words_after(a, sep, b.drop_last());
        assert(s.drop_last() =~= a + seq![sep] + b.drop_last());
        assert(s.last() == b.last());
        let head = claims::name_words(a).ended().done;
        let before = claims::name_words(b.drop_last());
        assert(head + before.done.push(before.current) =~= (head + before.done).push(before.current));
    }
}

proof fn lemma_words_at_capital(a: Seq<char>, b: Seq<char>)
    requires
        b.len() > 0,
        text::is_capital(b[0]),
        b[0] != '_',
        b[0] != '-',
    ensures
        claims::name_words(a + b).done == claims::name_words(a).ended().done + claims::name_words(
            b,
        ).done,
        claims::name_words(a + b).current == claims::name_words(b).current,
    decreases b.len(),
{
    let s = a + b;
    assert(s.drop_last() =~= a + b.drop_last());
    assert(s.last() == b.last());
    let head = claims::name_words(a).ended().done;
    if b.len() == 1 {
        assert(b.drop_last() =~= Seq::<char>::empty());
        assert(claims::name_words(b.drop_last()).done =~= Seq::<Seq<char>>::empty());
        assert(s.drop_last() =~= a);
        assert(claims::name_words(b).done =~= Seq::<Seq<char>>::empty());
        assert(head + claims::name_words(b).done =~= head);
    } else {
        assert(b.drop_last()[0] == b[0]);
        lemma_words_at_capital(a, b.drop_last());
        let before = claims::name_words(b.drop_last());
        assert(head + before.done.push(before.current) =~= (head + before.done).push(before.current));
    }
}

proof fn lemma_ended(a: Seq<Seq<char>>, w: Words, all: Words)
    requires
        all.done == a + w.done,
        all.current == w.current,
    ensures
        all.ended().done == a + w.ended().done,
{
    assert((a + w.done).push(w.current) =~= a + w.done.push(w.current));
}

/// Words are read apart: the tokens of two names that `_` or `-` joins are those
/// of the one and then those of the other.
pub proof fn law_separators(a: Seq<char>, sep: char, b: Seq<char>)
    requires
        sep == '_' || sep == '-',
    ensures
        claims::tokens_of(a + seq![sep] + b) == claims::tokens_of(a) + claims::tokens_of(b),
{
    lemma_words_after(a, sep, b);
    let head = claims::name_words(a).ended().done;
    lemma_ended(head, claims::name_words(b), claims::name_words(a + seq![sep] + b));
    lemma_without_noise(head, claims::name_words(b).ended().done);
}

/// A capital letter begins a word: the tokens of a name up to it and from it on
/// are those of the name.
pub proof fn law_capitals(a: Seq<char>, b: Seq<char>)
    requires
        b.len() > 0,
        'A' as u32 <= b[0] as u32 <= 'Z' as u32,
    ensures
        claims::tokens_of(a + b) == claims::tokens_of(a) + claims::tokens_of(b),
{
    assert(b[0] != '_' && b[0] != '-');
    lemma_words_at_capital(a, b);
    let head = claims::name_words(a).ended().done;
    lemma_ended(head, claims::name_words(b), claims::name_words(a + b));
    lemma_without_noise(head, claims::name_words(b).ended().done);
}

/// A name in small letters, digits aside, is one word.
pub open spec fn is_small(w: Seq<char>) -> bool {
    forall|i: int|
        0 <= i < w.len() ==> (97 <= (#[trigger] w[i]) as u32 <= 122 || 48 <= w[i] as u32 <= 57)
}

proof fn lemma_small(w: Seq<char>)
    requires
        is_small(w),
    ensures
        claims::name_words(w) == (Words { done: Seq::empty(), current: w }),
    decreases w.len(),
{
    if w.len() > 0 {
        let front = w.drop_last();
        assert forall|i: int| 0 <= i < front.len() implies (97 <= (#[trigger] front[i]) as u32 <= 122
            || 48 <= front[i] as u32 <= 57) by {
            assert(front[i] == w[i]);
        }
        lemma_small(front);
        let c = w[w.len() - 1];
        assert(w.last() == c);
        assert(text::lowered(c) =~= seq![c]);
        assert(front + seq![c] =~= w);
    } else {
        assert(w =~= Seq::<char>::empty());
    }
}

/// A word in small letters is its own token, unless nearly every test name has it:
/// then it is none.
pub proof fn law_single_words(w: Seq<char>)
    requires
        is_small(w),
        w.len() > 0,
    ensures
        claims::tokens_of(w) == if says_little(w) {
            Seq::<Seq<char>>::empty()
        } else {
            seq![w]
        },
{
    lemma_small(w);
    let all = claims::name_words(w).ended().done;
    assert(all =~= seq![w]);
    assert(all.drop_last() =~= Seq::<Seq<char>>::empty());
    assert(claims::without_noise(all.drop_last()) =~= Seq::<Seq<char>>::empty());
    if !says_little(w) {
        assert(claims::without_noise(all) =~= seq![w]);
    }
}

/// A word that begins with a capital letter is the token in small letters.
pub proof fn law_capital_words(c: char, w: Seq<char>)
    requires
        'A' as u32 <= c as u32 <= 'Z' as u32,
        is_small(w),
    ensures
        claims::tokens_of(seq![c] + w) == claims::tokens_of(seq![text::lower_char(c)] + w),
{
    let low = text::lower_char(c);
    let a = seq![low] + w;
    assert(is_small(a)) by {
        assert forall|i: int| 0 <= i < a.len() implies (97 <= (#[trigger] a[i]) as u32 <= 122 || 48
            <= a[i] as u32 <= 57) by {
            if i > 0 {
                assert(a[i] == w[i - 1]);
            }
        }
    }
    lemma_small(a);
    lemma_capital_word(c, w);
}

proof fn lemma_capital_word(c: char, w: Seq<char>)
    requires
        'A' as u32 <= c as u32 <= 'Z' as u32,
        is_small(w),
    ensures
        claims::name_words(seq![c] + w) == (Words {
            done: Seq::empty(),
            current: seq![text::lower_char(c)] + w,
        }),
    decreases w.len(),
{
    let s = seq![c] + w;
    if w.len() == 0 {
        assert(s =~= seq![c]);
        assert(s.drop_last() =~= Seq::<char>::empty());
        assert(claims::name_words(s.drop_last()).done =~= Seq::<Seq<char>>::empty());
        assert(seq![text::lower_char(c)] + w =~= seq![text::lower_char(c)]);
    } else {
        let front = w.drop_last();
        assert forall|i: int| 0 <= i < front.len() implies (97 <= (#[trigger] front[i]) as u32 <= 122
            || 48 <= front[i] as u32 <= 57) by {
            assert(front[i] == w[i]);
        }
        lemma_capital_word(c, front);
        assert(s.drop_last() =~= seq![c] + front);
        let d = w[w.len() - 1];
        assert(s.last() == d);
        assert(text::lowered(d) =~= seq![d]);
        assert(seq![text::lower_char(c)] + front + seq![d] =~= seq![text::lower_char(c)] + w);
    }
}

/// A test name speaks for a symbol name of three characters or more exactly where
/// the symbol name has a token and each of its tokens is one of the test name's.
pub proof fn law_names_speak(test_name: Seq<char>, name: Seq<char>)
    ensures
        claims::names(test_name, name) <==> {
            &&& name.len() > 2
            &&& exists|w: Seq<char>| #[trigger] claims::tokens_of(name).contains(w)
            &&& forall|w: Seq<char>| #[trigger]
                claims::tokens_of(name).contains(w) ==> claims::tokens_of(test_name).contains(w)
        },
{
    let wanted = claims::tokens_of(name);
    if wanted.len() > 0 {
        assert(wanted.contains(wanted[0]));
    }
    if claims::names(test_name, name) {
        assert forall|w: Seq<char>| #[trigger] wanted.contains(w) implies claims::tokens_of(
            test_name,
        ).contains(w) by {
            let k = choose|k: int| 0 <= k < wanted.len() && wanted[k] == w;
            assert(claims::tokens_of(test_name).contains(wanted[k]));
        }
    } else if wanted.len() > 0 && name.len() > 2 {
        let k = choose|k: int|
            0 <= k < wanted.len() && !claims::tokens_of(test_name).contains(#[trigger] wanted[k]);
        assert(wanted.contains(wanted[k]));
    }
}

/// A name with the same tokens and more still speaks.
pub proof fn law_longer_names_still_speak(a: Seq<char>, b: Seq<char>, name: Seq<char>)
    requires
        claims::names(a, name),
    ensures
        claims::names(a + seq!['_'] + b, name),
        claims::names(b + seq!['_'] + a, name),
{
    law_separators(a, '_', b);
    law_separators(b, '_', a);
    let ta = claims::tokens_of(a);
    let tb = claims::tokens_of(b);
    let wanted = claims::tokens_of(name);
    assert forall|i: int| 0 <= i < wanted.len() implies (ta + tb).contains(#[trigger] wanted[i])
        && (tb + ta).contains(wanted[i]) by {
        assert(ta.contains(wanted[i]));
        let k = choose|k: int| 0 <= k < ta.len() && ta[k] == wanted[i];
        assert((ta + tb)[k] == wanted[i]);
        assert((tb + ta)[tb.len() + k] == wanted[i]);
    }
}

// ---------------------------------------------------------------------------
// Claims
// ---------------------------------------------------------------------------

/// A symbol with logic, of this identity.
pub open spec fn has_logic(s: SymbolView, id: SymbolIdView) -> bool {
    s.id == id && s.triviality == Triviality::Normal
}

/// A test module in a symbol's own file.
pub open spec fn shares_file(t: TestItemView, s: SymbolView) -> bool {
    t.enclosing_test_module is Some && s.id.file == t.id.file
}

/// How a test speaks for one symbol with logic.
pub open spec fn speaks_as(t: TestItemView, s: SymbolView, kind: ClaimKind) -> bool {
    let named = claims::names(claims::leaf_of(t.id.path), s.name);
    match kind {
        ClaimKind::Doctest => false,
        ClaimKind::SameFileTestModule => t.kind == TestKind::Unit && shares_file(t, s),
        ClaimKind::NameSimilarity => named && ((t.kind == TestKind::Unit && !shares_file(t, s)) || (
        t.kind == TestKind::Integration && s.visibility == Visibility::Public)),
        ClaimKind::IntegrationSurface => !named && t.kind == TestKind::Integration && s.visibility
            == Visibility::Public && claims::crate_of(s.path) == claims::crate_of(t.id.path),
    }
}

/// A test makes a claim.
pub open spec fn makes(t: TestItemView, symbols: Seq<SymbolView>, c: ClaimView) -> bool {
    &&& c.test == t.id
    &&& (c.kind == ClaimKind::Doctest && t.kind == TestKind::Doctest && t.doctest_target == Some(
        c.symbol,
    )) || exists|k: int|
        0 <= k < symbols.len() && has_logic(#[trigger] symbols[k], c.symbol) && speaks_as(
            t,
            symbols[k],
            c.kind,
        )
}

proof fn lemma_scorable(symbols: Seq<SymbolView>, s: SymbolView)
    ensures
        inventory::scorable_of(symbols).contains(s) <==> symbols.contains(s) && s.triviality
            == Triviality::Normal,
    decreases symbols.len(),
{
    let all = inventory::scorable_of(symbols);
    if symbols.len() > 0 {
        let front = symbols.drop_last();
        let before = inventory::scorable_of(front);
        lemma_scorable(front, s);
        if symbols.contains(s) {
            let k = choose|k: int| 0 <= k < symbols.len() && symbols[k] == s;
            if k < front.len() {
                assert(front[k] == s);
            }
        }
        if front.contains(s) {
            let k = choose|k: int| 0 <= k < front.len() && front[k] == s;
            assert(symbols[k] == s);
        }
        assert(symbols[symbols.len() - 1] == symbols.last());
        if before.contains(s) {
            let k = choose|k: int| 0 <= k < before.len() && before[k] == s;
            assert(all[k] == s);
        }
        if all.contains(s) {
            let k = choose|k: int| 0 <= k < all.len() && all[k] == s;
            if k < before.len() {
                assert(before[k] == s);
            }
        }
        if s == symbols.last() && s.triviality == Triviality::Normal {
            assert(all[all.len() - 1] == s);
        }
    }
}

proof fn lemma_module_claims(t: TestItemView, symbols: Seq<SymbolView>, c: ClaimView)
    ensures
        claims::same_file_claims(t, symbols).contains(c) <==> c.test == t.id && c.kind
            == ClaimKind::SameFileTestModule && exists|k: int|
            0 <= k < symbols.len() && (#[trigger] symbols[k]).id == c.symbol && shares_file(
                t,
                symbols[k],
            ),
    decreases symbols.len(),
{
    let all = claims::same_file_claims(t, symbols);
    if symbols.len() > 0 {
        let front = symbols.drop_last();
        let before = claims::same_file_claims(t, front);
        let n = symbols.len() - 1;
        lemma_module_claims(t, front, c);
        assert(symbols[n] == symbols.last());
        assert(all == before || all.drop_last() =~= before);
        lemma_pushed(before, all, c);
        if exists|k: int|
            0 <= k < front.len() && (#[trigger] front[k]).id == c.symbol && shares_file(t, front[k]) {
            let k = choose|k: int|
                0 <= k < front.len() && (#[trigger] front[k]).id == c.symbol && shares_file(
                    t,
                    front[k],
                );
            assert(symbols[k] == front[k]);
        }
        if exists|k: int|
            0 <= k < symbols.len() && (#[trigger] symbols[k]).id == c.symbol && shares_file(
                t,
                symbols[k],
            ) {
            let k = choose|k: int|
                0 <= k < symbols.len() && (#[trigger] symbols[k]).id == c.symbol && shares_file(
                    t,
                    symbols[k],
                );
            if k < n {
                assert(front[k] == symbols[k]);
            }
        }
    }
}

proof fn lemma_pushed(before: Seq<ClaimView>, all: Seq<ClaimView>, c: ClaimView)
    requires
        all == before || (all.len() == before.len() + 1 && all.drop_last() == before),
    ensures
        all == before ==> (all.contains(c) <==> before.contains(c)),
        all.len() == before.len() + 1 ==> (all.contains(c) <==> before.contains(c) || all.last()
            == c),
{
    if all.len() == before.len() + 1 {
        if before.contains(c) {
            let k = choose|k: int| 0 <= k < before.len() && before[k] == c;
            assert(all.drop_last()[k] == all[k]);
            assert(all[k] == c);
        }
        if all.contains(c) {
            let k = choose|k: int| 0 <= k < all.len() && all[k] == c;
            if k < before.len() {
                assert(all.drop_last()[k] == all[k]);
                assert(before[k] == c);
            }
        }
        if all.last() == c {
            assert(all[all.len() - 1] == c);
        }
    }
}

proof fn lemma_named_claims(t: TestItemView, symbols: Seq<SymbolView>, c: ClaimView)
    requires
        t.kind == TestKind::Unit,
    ensures
        claims::named_claims(t, symbols).contains(c) <==> c.test == t.id && c.kind
            == ClaimKind::NameSimilarity && exists|k: int|
            0 <= k < symbols.len() && (#[trigger] symbols[k]).id == c.symbol && speaks_as(
                t,
                symbols[k],
                c.kind,
            ),
    decreases symbols.len(),
{
    let all = claims::named_claims(t, symbols);
    if symbols.len() > 0 {
        let front = symbols.drop_last();
        let before = claims::named_claims(t, front);
        let n = symbols.len() - 1;
        lemma_named_claims(t, front, c);
        assert(symbols[n] == symbols.last());
        assert(all == before || all.drop_last() =~= before);
        lemma_pushed(before, all, c);
        if exists|k: int|
            0 <= k < front.len() && (#[trigger] front[k]).id == c.symbol && speaks_as(
                t,
                front[k],
                c.kind,
            ) {
            let k = choose|k: int|
                0 <= k < front.len() && (#[trigger] front[k]).id == c.symbol && speaks_as(
                    t,
                    front[k],
                    c.kind,
                );
            assert(symbols[k] == front[k]);
        }
        if exists|k: int|
            0 <= k < symbols.len() && (#[trigger] symbols[k]).id == c.symbol && speaks_as(
                t,
                symbols[k],
                c.kind,
            ) {
            let k = choose|k: int|
                0 <= k < symbols.len() && (#[trigger] symbols[k]).id == c.symbol && speaks_as(
                    t,
                    symbols[k],
                    c.kind,
                );
            if k < n {
                assert(front[k] == symbols[k]);
            }
        }
    }
}

proof fn lemma_surface_claims(t: TestItemView, symbols: Seq<SymbolView>, c: ClaimView)
    requires
        t.kind == TestKind::Integration,
    ensures
        claims::surface_claims(t, symbols).contains(c) <==> c.test == t.id && exists|k: int|
            0 <= k < symbols.len() && (#[trigger] symbols[k]).id == c.symbol && speaks_as(
                t,
                symbols[k],
                c.kind,
            ),
    decreases symbols.len(),
{
    let all = claims::surface_claims(t, symbols);
    if symbols.len() > 0 {
        let front = symbols.drop_last();
        let before = claims::surface_claims(t, front);
        let n = symbols.len() - 1;
        lemma_surface_claims(t, front, c);
        assert(symbols[n] == symbols.last());
        assert(all == before || all.drop_last() =~= before);
        lemma_pushed(before, all, c);
        if exists|k: int|
            0 <= k < front.len() && (#[trigger] front[k]).id == c.symbol && speaks_as(
                t,
                front[k],
                c.kind,
            ) {
            let k = choose|k: int|
                0 <= k < front.len() && (#[trigger] front[k]).id == c.symbol && speaks_as(
                    t,
                    front[k],
                    c.kind,
                );
            assert(symbols[k] == front[k]);
        }
        if exists|k: int|
            0 <= k < symbols.len() && (#[trigger] symbols[k]).id == c.symbol && speaks_as(
                t,
                symbols[k],
                c.kind,
            ) {
            let k = choose|k: int|
                0 <= k < symbols.len() && (#[trigger] symbols[k]).id == c.symbol && speaks_as(
                    t,
                    symbols[k],
                    c.kind,
                );
            if k < n {
                assert(front[k] == symbols[k]);
            }
        }
    }
}

proof fn lemma_makes(t: TestItemView, symbols: Seq<SymbolView>, c: ClaimView)
    ensures
        claims::claims_of_test(t, inventory::scorable_of(symbols)).contains(c) <==> makes(
            t,
            symbols,
            c,
        ),
{
    let scorable = inventory::scorable_of(symbols);
    let all = claims::claims_of_test(t, scorable);
    let direct = claims::same_file_claims(t, scorable);
    let named = claims::named_claims(t, scorable);
    lemma_module_claims(t, scorable, c);
    if t.kind == TestKind::Unit {
        lemma_named_claims(t, scorable, c);
        assert(all.contains(c) <==> direct.contains(c) || named.contains(c)) by {
            if all.contains(c) {
                let k = choose|k: int| 0 <= k < all.len() && all[k] == c;
                if k < direct.len() {
                    assert(direct[k] == c);
                } else {
                    assert(named[k - direct.len()] == c);
                }
            }
            if direct.contains(c) {
                let k = choose|k: int| 0 <= k < direct.len() && direct[k] == c;
                assert(all[k] == c);
            }
            if named.contains(c) {
                let k = choose|k: int| 0 <= k < named.len() && named[k] == c;
                assert(all[direct.len() + k] == c);
            }
        }
    }
    if t.kind == TestKind::Integration {
        lemma_surface_claims(t, scorable, c);
    }
    if t.kind == TestKind::Doctest {
        if all.contains(c) {
            assert(all[0] == c);
        }
        if t.doctest_target is Some {
            assert(all.contains(all[0]));
        }
    }
    if exists|k: int|
        0 <= k < symbols.len() && has_logic(#[trigger] symbols[k], c.symbol) && speaks_as(
            t,
            symbols[k],
            c.kind,
        ) {
        let k = choose|k: int|
            0 <= k < symbols.len() && has_logic(#[trigger] symbols[k], c.symbol) && speaks_as(
                t,
                symbols[k],
                c.kind,
            );
        lemma_scorable(symbols, symbols[k]);
        assert(symbols.contains(symbols[k]));
        let j = choose|j: int| 0 <= j < scorable.len() && scorable[j] == symbols[k];
        assert(scorable[j].id == c.symbol && speaks_as(t, scorable[j], c.kind));
    }
    if exists|j: int|
        0 <= j < scorable.len() && (#[trigger] scorable[j]).id == c.symbol && speaks_as(
            t,
            scorable[j],
            c.kind,
        ) {
        let j = choose|j: int|
            0 <= j < scorable.len() && (#[trigger] scorable[j]).id == c.symbol && speaks_as(
                t,
                scorable[j],
                c.kind,
            );
        assert(scorable.contains(scorable[j]));
        lemma_scorable(symbols, scorable[j]);
        let k = choose|k: int| 0 <= k < symbols.len() && symbols[k] == scorable[j];
        assert(has_logic(symbols[k], c.symbol));
    }
    if c.kind == ClaimKind::SameFileTestModule && t.kind == TestKind::Unit {
        assert(direct.contains(c) <==> c.test == t.id && exists|j: int|
            0 <= j < scorable.len() && (#[trigger] scorable[j]).id == c.symbol && speaks_as(
                t,
                scorable[j],
                c.kind,
            )) by {
            if exists|j: int|
                0 <= j < scorable.len() && (#[trigger] scorable[j]).id == c.symbol && shares_file(
                    t,
                    scorable[j],
                ) {
                let j = choose|j: int|
                    0 <= j < scorable.len() && (#[trigger] scorable[j]).id == c.symbol
                        && shares_file(t, scorable[j]);
                assert(speaks_as(t, scorable[j], c.kind));
            }
        }
    }
}

/// The claims are exactly those that a test of the inventory makes: an example on
/// the item it stands on; a unit test in a test module on every symbol with logic
/// of its file, and a unit test elsewhere on those that its name names; an
/// integration test on the public symbols with logic that it names, and on the
/// other public ones of its crate.
pub proof fn law_claims(inv: InventoryView, c: ClaimView)
    ensures
        claims::claims_in(inv).contains(c) <==> exists|i: int|
            0 <= i < inv.tests.len() && makes(#[trigger] inv.tests[i], inv.symbols, c),
{
    lemma_claims_of_tests(inv.tests, inv.symbols, c);
}

proof fn lemma_claims_of_tests(tests: Seq<TestItemView>, symbols: Seq<SymbolView>, c: ClaimView)
    ensures
        claims::claims_of_tests(tests, inventory::scorable_of(symbols)).contains(c) <==> exists|
            i: int,
        |
            0 <= i < tests.len() && makes(#[trigger] tests[i], symbols, c),
    decreases tests.len(),
{
    let scorable = inventory::scorable_of(symbols);
    let all = claims::claims_of_tests(tests, scorable);
    if tests.len() > 0 {
        let front = tests.drop_last();
        let n = tests.len() - 1;
        let before = claims::claims_of_tests(front, scorable);
        let here = claims::claims_of_test(tests.last(), scorable);
        lemma_claims_of_tests(front, symbols, c);
        lemma_makes(tests.last(), symbols, c);
        assert(tests[n] == tests.last());
        if all.contains(c) {
            let k = choose|k: int| 0 <= k < all.len() && all[k] == c;
            if k < before.len() {
                assert(before[k] == c);
                let i = choose|i: int|
                    0 <= i < front.len() && makes(#[trigger] front[i], symbols, c);
                assert(tests[i] == front[i]);
            } else {
                assert(here[k - before.len()] == c);
            }
        }
        if exists|i: int| 0 <= i < tests.len() && makes(#[trigger] tests[i], symbols, c) {
            let i = choose|i: int| 0 <= i < tests.len() && makes(#[trigger] tests[i], symbols, c);
            if i < n {
                assert(front[i] == tests[i]);
                let k = choose|k: int| 0 <= k < before.len() && before[k] == c;
                assert(all[k] == c);
            } else {
                let k = choose|k: int| 0 <= k < here.len() && here[k] == c;
                assert(all[before.len() + k] == c);
            }
        }
    }
}

/// An example is more certain than a test module, that more than a name, and that
/// more than the public surface; the first two alone are direct.
pub proof fn law_certainty(kind: ClaimKind)
    ensures
        ClaimKind::Doctest.rank() < ClaimKind::SameFileTestModule.rank(),
        ClaimKind::SameFileTestModule.rank() < ClaimKind::NameSimilarity.rank(),
        ClaimKind::NameSimilarity.rank() < ClaimKind::IntegrationSurface.rank(),
        kind.direct() <==> kind == ClaimKind::Doctest || kind == ClaimKind::SameFileTestModule,
{
}

/// Of two claimants the less certain never stands first.
pub proof fn law_claimants_by_certainty(edges: Seq<ClaimView>, symbol: SymbolIdView, i: int, j: int)
    requires
        0 <= i < j < order::sorted::<Claimant>(claims::edges_to(edges, symbol)).len(),
    ensures
        ({
            let all = order::sorted::<Claimant>(claims::edges_to(edges, symbol));
            &&& all[j].1 == ClaimKind::Doctest ==> all[i].1 == ClaimKind::Doctest
            &&& all[j].1 == ClaimKind::SameFileTestModule ==> all[i].1 == ClaimKind::Doctest
                || all[i].1 == ClaimKind::SameFileTestModule
            &&& all[i].1 == ClaimKind::IntegrationSurface ==> all[j].1
                == ClaimKind::IntegrationSurface
        }),
{
    let all = order::sorted::<Claimant>(claims::edges_to(edges, symbol));
    order::lemma_sorted::<Claimant>(claims::edges_to(edges, symbol));
    assert(<Claimant as order::Ranked>::ranks(all[i], all[j]));
}

/// A symbol is unclaimed exactly where it has logic and no claim is on it; directly
/// so where the claims on it, if any, are neither an example nor a test module.
pub proof fn law_unclaimed_symbols(inv: InventoryView, edges: Seq<ClaimView>, s: SymbolView)
    ensures
        claims::unclaimed_of(edges, inventory::scorable_of(inv.symbols), false).contains(s) <==> {
            &&& inv.symbols.contains(s)
            &&& s.triviality == Triviality::Normal
            &&& forall|i: int| 0 <= i < edges.len() ==> (#[trigger] edges[i]).symbol != s.id
        },
        claims::unclaimed_of(edges, inventory::scorable_of(inv.symbols), true).contains(s) <==> {
            &&& inv.symbols.contains(s)
            &&& s.triviality == Triviality::Normal
            &&& forall|i: int|
                0 <= i < edges.len() && (#[trigger] edges[i]).symbol == s.id ==> edges[i].kind
                    == ClaimKind::NameSimilarity || edges[i].kind == ClaimKind::IntegrationSurface
        },
{
    let scorable = inventory::scorable_of(inv.symbols);
    lemma_scorable(inv.symbols, s);
    claims::law_unclaimed(edges, scorable, false, s);
    claims::law_unclaimed(edges, scorable, true, s);
}

/// A more certain kind of claim weighs more; an example weighs everything.
pub proof fn law_weights(a: ClaimKind, b: ClaimKind)
    ensures
        a.rank() < b.rank() <==> a.certainty() > b.certainty(),
        ClaimKind::Doctest.certainty() == 100,
        ClaimKind::SameFileTestModule.certainty() == 90,
        ClaimKind::NameSimilarity.certainty() == 70,
        ClaimKind::IntegrationSurface.certainty() == 20,
{
}

/// A test speaks for a symbol exactly where one of the claims is the test's on the
/// symbol, of whatever kind.
pub proof fn law_speaking(edges: Seq<ClaimView>, test: TestIdView, symbol: SymbolIdView)
    ensures
        claims::speaks_for(edges, test, symbol) <==> exists|kind: ClaimKind| #[trigger]
            edges.contains(ClaimView { test, symbol, kind }),
{
    if claims::speaks_for(edges, test, symbol) {
        let i = choose|i: int|
            0 <= i < edges.len() && (#[trigger] edges[i]).test == test && edges[i].symbol == symbol;
        assert(edges[i] == ClaimView { test, symbol, kind: edges[i].kind });
        assert(edges.contains(ClaimView { test, symbol, kind: edges[i].kind }));
    }
    if exists|kind: ClaimKind| #[trigger] edges.contains(ClaimView { test, symbol, kind }) {
        let kind = choose|kind: ClaimKind| #[trigger]
            edges.contains(ClaimView { test, symbol, kind });
        let i = choose|i: int| 0 <= i < edges.len() && edges[i] == (ClaimView { test, symbol, kind });
        assert(edges[i].test == test);
    }
}

} // verus!
