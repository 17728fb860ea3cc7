//! What the rewrite plans and what it writes.

use vstd::prelude::*;
use crate::fastmutate;
use crate::fastmutate::{EditView, FastMutantView, FastOutcome, OpeningView, SkipReason};
use crate::inventory;
use crate::switch;
use crate::symbol::{ReturnShape, SymbolView, Triviality};
use crate::syntax::{DefinitionView, FuncView, SigView, TraitFuncView};
use crate::text;

verus! {

// ---------------------------------------------------------------------------
// The guard
// ---------------------------------------------------------------------------

/// The call that asks the switch whether a mutant is active.
pub open spec fn asks(id: u32) -> Seq<char> {
    "::oracle_switch::active("@ + text::decimal_of(id as nat) + "u32)"@
}

proof fn lemma_guard_begins(id: u32, ret: ReturnShape, inner: Option<Seq<char>>)
    ensures
        text::begins(fastmutate::guard_text(id, ret, inner), " if "@ + asks(id) + " {"@),
{
    reveal_strlit(" if ::oracle_switch::active(");
    reveal_strlit(
        "u32) { #[allow(unused_imports)] use ::oracle_switch::{ViaDefault as _, ViaFallback as _}; match (&&::oracle_switch::Probe::<",
    );
    reveal_strlit(" if ");
    reveal_strlit("::oracle_switch::active(");
    reveal_strlit("u32)");
    reveal_strlit(" {");
    let a = " if ::oracle_switch::active("@;
    let d = text::decimal_of(id as nat);
    let c =
        "u32) { #[allow(unused_imports)] use ::oracle_switch::{ViaDefault as _, ViaFallback as _}; match (&&::oracle_switch::Probe::<"@;
    let head = " if "@ + asks(id) + " {"@;
    let g = fastmutate::guard_text(id, ret, inner);
    assert(a =~= " if "@ + "::oracle_switch::active("@);
    assert(c.take(6) =~= "u32)"@ + " {"@);
    assert(head =~= a + d + c.take(6));
    assert(g.subrange(0, (a + d + c).len() as int) =~= a + d + c);
    assert(g.subrange(0, head.len() as int) =~= head) by {
        assert forall|i: int| 0 <= i < head.len() implies #[trigger] g.subrange(
            0,
            head.len() as int,
        )[i] == head[i] by {
            assert(g[i] == g.subrange(0, (a + d + c).len() as int)[i]);
        }
    }
}

/// A guard is an `if`, and its condition is the question whether its own mutant is
/// active, and nothing else: what stands between the `if` and the first opening
/// brace is that call.
pub proof fn law_guard_asks_the_switch(id: u32, ret: ReturnShape, inner: Option<Seq<char>>)
    ensures
        ({
            let g = fastmutate::guard_text(id, ret, inner);
            let end = 4 + asks(id).len();
            &&& text::begins(g, " if "@)
            &&& text::first_at(g, " {"@, 0) == Some(end as int)
            &&& g.subrange(4, end as int) == asks(id)
        }),
{
    lemma_guard_begins(id, ret, inner);
    reveal_strlit(" if ");
    reveal_strlit("::oracle_switch::active(");
    reveal_strlit("u32)");
    reveal_strlit(" {");
    switch::lemma_decimal_number(id as nat);
    let g = fastmutate::guard_text(id, ret, inner);
    let head = " if "@ + asks(id) + " {"@;
    let d = text::decimal_of(id as nat);
    let end = 4 + asks(id).len() as int;
    assert(g.subrange(0, head.len() as int) == head);
    assert forall|i: int| 0 <= i < head.len() implies #[trigger] g[i] == head[i] by {
        assert(g.subrange(0, head.len() as int)[i] == g[i]);
    }
    assert(g.subrange(0, 4) =~= " if "@);
    assert(g.subrange(4, end) =~= asks(id)) by {
        assert forall|i: int| 0 <= i < asks(id).len() implies #[trigger] g.subrange(4, end)[i]
            == asks(id)[i] by {
            assert(g[i + 4] == head[i + 4]);
        }
    }
    assert(g.subrange(end, end + 2) =~= " {"@) by {
        assert(g[end] == head[end]);
        assert(g[end + 1] == head[end + 1]);
    }
    assert(text::occurs_at(g, " {"@, end));
    assert forall|j: int| 0 <= j < end implies !#[trigger] text::occurs_at(g, " {"@, j) by {
        assert(g[j + 1] == head[j + 1]);
        if text::occurs_at(g, " {"@, j) {
            assert(g.subrange(j, j + 2)[1] == g[j + 1]);
            assert(" {"@[1] == '{');
            if j + 1 < 4 {
                assert(head[j + 1] == " if "@[j + 1]);
            } else if j + 1 < end {
                let k = j + 1 - 4;
                assert(head[j + 1] == asks(id)[k]);
                if k < 24 {
                    assert(asks(id)[k] == "::oracle_switch::active("@[k]);
                } else if k < 24 + d.len() {
                    assert(asks(id)[k] == d[k - 24]);
                } else {
                    assert(asks(id)[k] == "u32)"@[k - 24 - d.len()]);
                }
            } else {
                assert(head[j + 1] == " {"@[0]);
            }
        }
    }
    text::lemma_first_at(g, " {"@, 0);
}

/// Two mutants never share a guard.
pub proof fn law_guards_differ(
    a: u32,
    b: u32,
    ret: ReturnShape,
    inner: Option<Seq<char>>,
    other: ReturnShape,
    outer: Option<Seq<char>>,
)
    requires
        a != b,
    ensures
        fastmutate::guard_text(a, ret, inner) != fastmutate::guard_text(b, other, outer),
{
    let g = fastmutate::guard_text(a, ret, inner);
    let h = fastmutate::guard_text(b, other, outer);
    if g == h {
        law_guard_asks_the_switch(a, ret, inner);
        law_guard_asks_the_switch(b, other, outer);
        assert(asks(a) == asks(b));
        reveal_strlit("::oracle_switch::active(");
        reveal_strlit("u32)");
        let da = text::decimal_of(a as nat);
        let db = text::decimal_of(b as nat);
        assert(da.len() == db.len());
        assert(asks(a).subrange(24, 24 + da.len() as int) =~= da);
        assert(asks(b).subrange(24, 24 + db.len() as int) =~= db);
        switch::lemma_decimal_number(a as nat);
        switch::lemma_decimal_number(b as nat);
    }
}

/// What a guard does where its mutant is active: it probes the type it was given,
/// or `()` where nothing is returned, and returns the default, inside `Ok` exactly
/// for a `Result`, after noting that the mutation applied. Where there is no
/// default it notes that, and the body runs.
pub proof fn law_guard_returns_the_default(id: u32, ret: ReturnShape, inner: Option<Seq<char>>)
    ensures
        ({
            let g = fastmutate::guard_text(id, ret, inner);
            let probed = if ret == ReturnShape::Unit {
                "()"@
            } else if inner is Some {
                inner->0
            } else {
                "_"@
            };
            let value = if ret == ReturnShape::ResultLike {
                "Ok(__oracle_v)"@
            } else {
                "__oracle_v"@
            };
            text::ends(
                g,
                " match (&&::oracle_switch::Probe::<"@ + probed
                    + ">::new()).oracle_default() { Some(__oracle_v) => { ::oracle_switch::note(::oracle_switch::Note::Applied); return "@
                    + value
                    + "; } None => ::oracle_switch::note(::oracle_switch::Note::Inert), } }"@,
            )
        }),
{
    reveal_strlit(
        "u32) { #[allow(unused_imports)] use ::oracle_switch::{ViaDefault as _, ViaFallback as _}; match (&&::oracle_switch::Probe::<",
    );
    reveal_strlit(" match (&&::oracle_switch::Probe::<");
    let a = " if ::oracle_switch::active("@ + text::decimal_of(id as nat);
    let c =
        "u32) { #[allow(unused_imports)] use ::oracle_switch::{ViaDefault as _, ViaFallback as _}; match (&&::oracle_switch::Probe::<"@;
    let m = " match (&&::oracle_switch::Probe::<"@;
    let probed = if ret == ReturnShape::Unit {
        "()"@
    } else if inner is Some {
        inner->0
    } else {
        "_"@
    };
    let value = if ret == ReturnShape::ResultLike {
        "Ok(__oracle_v)"@
    } else {
        "__oracle_v"@
    };
    let e =
        ">::new()).oracle_default() { Some(__oracle_v) => { ::oracle_switch::note(::oracle_switch::Note::Applied); return "@;
    let f = "; } None => ::oracle_switch::note(::oracle_switch::Note::Inert), } }"@;
    let g = fastmutate::guard_text(id, ret, inner);
    assert(c.skip(c.len() - m.len()) =~= m);
    let tail = m + probed + e + value + f;
    let whole = a + c + probed + e + value + f;
    assert(g =~= whole);
    lemma_tail(a, c, m, probed + e + value + f);
    assert(whole =~= a + c + (probed + e + value + f));
    assert(tail =~= m + (probed + e + value + f));
}

proof fn lemma_tail(a: Seq<char>, c: Seq<char>, m: Seq<char>, rest: Seq<char>)
    requires
        m.len() <= c.len(),
        c.skip(c.len() - m.len()) == m,
    ensures
        text::ends(a + c + rest, m + rest),
{
    let g = a + c + rest;
    let tail = m + rest;
    let from = g.len() - tail.len();
    assert forall|i: int| 0 <= i < tail.len() implies #[trigger] g.subrange(from, g.len() as int)[i]
        == tail[i] by {
        if i < m.len() {
            assert(c.skip(c.len() - m.len())[i] == c[c.len() - m.len() + i]);
        }
    }
    assert(g.subrange(from, from + tail.len()) =~= tail);
}

// ---------------------------------------------------------------------------
// The plan
// ---------------------------------------------------------------------------

/// A symbol can carry a switch: it has logic, can call the switch, and returns a
/// value that can be named and made.
pub open spec fn can_carry(s: SymbolView) -> bool {
    &&& s.triviality == Triviality::Normal
    &&& !s.is_const
    &&& s.returns != ReturnShape::ImplTrait
    &&& s.returns != ReturnShape::Never
}

/// Each symbol that can carry a switch gets one, in order, and each other is
/// listed with its path.
pub proof fn law_plan_takes_all_it_can(symbols: Seq<SymbolView>)
    ensures
        fastmutate::plan_for(symbols).mutants.map_values(|m: FastMutantView| (m.symbol, m.path))
            == symbols.filter(|s: SymbolView| can_carry(s)).map_values(
            |s: SymbolView| (s.id, s.path),
        ),
        fastmutate::plan_for(symbols).skipped.map_values(|e: (Seq<char>, SkipReason)| e.0)
            == symbols.filter(|s: SymbolView| !can_carry(s)).map_values(|s: SymbolView| s.path),
    decreases symbols.len(),
{
    reveal(Seq::filter);
    let plan = fastmutate::plan_for(symbols);
    let of = |m: FastMutantView| (m.symbol, m.path);
    let at = |s: SymbolView| (s.id, s.path);
    let named = |e: (Seq<char>, SkipReason)| e.0;
    let path = |s: SymbolView| s.path;
    let kept = symbols.filter(|s: SymbolView| can_carry(s));
    let left = symbols.filter(|s: SymbolView| !can_carry(s));
    if symbols.len() == 0 {
        assert(plan.mutants.map_values(of) =~= kept.map_values(at));
        assert(plan.skipped.map_values(named) =~= left.map_values(path));
    } else {
        let front = symbols.drop_last();
        let s = symbols.last();
        let before = fastmutate::plan_for(front);
        law_plan_takes_all_it_can(front);
        let kept0 = front.filter(|s: SymbolView| can_carry(s));
        let left0 = front.filter(|s: SymbolView| !can_carry(s));
        if can_carry(s) {
            assert(kept == kept0.push(s));
            assert(plan.mutants.map_values(of) =~= before.mutants.map_values(of).push(at(s)));
            assert(kept.map_values(at) =~= kept0.map_values(at).push(at(s)));
        } else {
            assert(left == left0.push(s));
            assert(plan.skipped.map_values(named) =~= before.skipped.map_values(named).push(s.path));
            assert(left.map_values(path) =~= left0.map_values(path).push(s.path));
        }
    }
}

/// The reason for which a symbol is left alone is the first that holds: that there
/// is no logic, that it is `const`, that its type cannot be named, that it never
/// returns.
pub proof fn law_skip_reasons(s: SymbolView)
    ensures
        fastmutate::skips(s) is None <==> can_carry(s),
        fastmutate::skips(s) == Some(SkipReason::NotScorable) <==> s.triviality
            != Triviality::Normal,
        fastmutate::skips(s) == Some(SkipReason::ConstFn) <==> s.triviality == Triviality::Normal
            && s.is_const,
        fastmutate::skips(s) == Some(SkipReason::ImplTraitReturn) <==> s.triviality
            == Triviality::Normal && !s.is_const && s.returns == ReturnShape::ImplTrait,
        fastmutate::skips(s) == Some(SkipReason::NeverReturns) <==> s.triviality
            == Triviality::Normal && !s.is_const && s.returns == ReturnShape::Never,
{
}

proof fn lemma_planned(symbols: Seq<SymbolView>)
    ensures
        forall|k: int|
            0 <= k < fastmutate::plan_for(symbols).skipped.len() ==> exists|i: int|
                0 <= i < symbols.len() && fastmutate::skips(#[trigger] symbols[i]) == Some(
                    (#[trigger] fastmutate::plan_for(symbols).skipped[k]).1,
                ) && symbols[i].path == fastmutate::plan_for(symbols).skipped[k].0,
    decreases symbols.len(),
{
    if symbols.len() > 0 {
        let front = symbols.drop_last();
        let before = fastmutate::plan_for(front).skipped;
        let now = fastmutate::plan_for(symbols).skipped;
        lemma_planned(front);
        assert forall|k: int| 0 <= k < now.len() implies exists|i: int|
            0 <= i < symbols.len() && fastmutate::skips(#[trigger] symbols[i]) == Some(
                (#[trigger] now[k]).1,
            ) && symbols[i].path == now[k].0 by {
            if k < before.len() {
                assert(now[k] == before[k]);
                let i = choose|i: int|
                    0 <= i < front.len() && fastmutate::skips(#[trigger] front[i]) == Some(
                        before[k].1,
                    ) && front[i].path == before[k].0;
                assert(symbols[i] == front[i]);
            } else {
                assert(fastmutate::skips(symbols[symbols.len() - 1]) == Some(now[k].1));
            }
        }
    }
}

/// What a plan lists as left alone is a symbol's, with that symbol's reason.
pub proof fn law_skipped_for_a_reason(symbols: Seq<SymbolView>, k: int)
    requires
        0 <= k < fastmutate::plan_for(symbols).skipped.len(),
    ensures
        exists|i: int|
            0 <= i < symbols.len() && (#[trigger] symbols[i]).path == fastmutate::plan_for(
                symbols,
            ).skipped[k].0 && match fastmutate::plan_for(symbols).skipped[k].1 {
                SkipReason::NotScorable => symbols[i].triviality != Triviality::Normal,
                SkipReason::ConstFn => symbols[i].is_const,
                SkipReason::ImplTraitReturn => symbols[i].returns == ReturnShape::ImplTrait,
                SkipReason::NeverReturns => symbols[i].returns == ReturnShape::Never,
            },
{
    lemma_planned(symbols);
    let e = fastmutate::plan_for(symbols).skipped[k];
    let i = choose|i: int|
        0 <= i < symbols.len() && fastmutate::skips(#[trigger] symbols[i]) == Some(e.1)
            && symbols[i].path == e.0;
    law_skip_reasons(symbols[i]);
}

/// What a body is said to be replaced by: `()` exactly where nothing is returned,
/// a default inside `Ok` exactly for a `Result`, and a plain default otherwise.
pub proof fn law_replacements(ret: ReturnShape)
    ensures
        fastmutate::replacement_for(ret) == "()"@ <==> ret == ReturnShape::Unit,
        fastmutate::replacement_for(ret) == "Ok(Default::default())"@ <==> ret
            == ReturnShape::ResultLike,
        fastmutate::replacement_for(ret) == "Default::default()"@ <==> ret != ReturnShape::Unit
            && ret != ReturnShape::ResultLike,
{
    reveal_strlit("()");
    reveal_strlit("Ok(Default::default())");
    reveal_strlit("Default::default()");
    assert("()"@.len() == 2);
    assert("Ok(Default::default())"@.len() == 22);
    assert("Default::default()"@.len() == 18);
}

/// Looking a mutant up gives one of that id, where there is one.
pub proof fn law_lookup(mutants: Seq<FastMutantView>, id: u32)
    ensures
        match fastmutate::mutant_with(mutants, id) {
            Some(m) => mutants.contains(m) && m.id == id,
            None => forall|i: int| 0 <= i < mutants.len() ==> (#[trigger] mutants[i]).id != id,
        },
    decreases mutants.len(),
{
    if mutants.len() > 0 {
        let rest = mutants.skip(1);
        law_lookup(rest, id);
        assert(mutants.contains(mutants[0]));
        if mutants[0].id != id {
            match fastmutate::mutant_with(rest, id) {
                Some(m) => {
                    let k = choose|k: int| 0 <= k < rest.len() && rest[k] == m;
                    assert(mutants[k + 1] == m);
                },
                None => {
                    assert forall|i: int| 0 <= i < mutants.len() implies (#[trigger] mutants[i]).id
                        != id by {
                        if i > 0 {
                            assert(rest[i - 1] == mutants[i]);
                        }
                    }
                },
            }
        }
    }
}

/// The mutants to install in a file are those whose symbol is of the file, in
/// order.
pub proof fn law_mutants_of_a_file(mutants: Seq<FastMutantView>, file: Seq<char>)
    ensures
        fastmutate::mutants_in(mutants, file) == mutants.filter(
            |m: FastMutantView| m.symbol.file == file,
        ),
    decreases mutants.len(),
{
    reveal(Seq::filter);
    if mutants.len() > 0 {
        law_mutants_of_a_file(mutants.drop_last(), file);
    }
}

// ---------------------------------------------------------------------------
// Places
// ---------------------------------------------------------------------------

/// A position of a text stands at a line and a column: so many line feeds before
/// it, and so many characters behind the last of them.
pub open spec fn stands_at(s: Seq<char>, at: int, line: nat, col: nat) -> bool {
    &&& 0 <= at < s.len()
    &&& line == fastmutate::feeds(s.take(at)) + 1
    &&& col <= at
    &&& !s.subrange(at - col, at).contains('\n')
    &&& at == col || s[at - col - 1] == '\n'
}

proof fn lemma_whole_lines(s: Seq<char>)
    requires
        s.len() == 0 || s.last() == '\n',
    ensures
        fastmutate::kept_lines(s).len() == fastmutate::feeds(s),
    decreases s.len(),
{
    if s.len() > 0 {
        lemma_line_count(s);
    }
}

proof fn lemma_line_count(s: Seq<char>)
    ensures
        s.len() == 0 || s.last() == '\n' ==> fastmutate::kept_lines(s).len() == fastmutate::feeds(s),
        s.len() > 0 && s.last() != '\n' ==> fastmutate::kept_lines(s).len() == fastmutate::feeds(s)
            + 1,
        s.len() > 0 ==> fastmutate::kept_lines(s).len() > 0 && fastmutate::kept_lines(
            s,
        ).last().len() > 0 && fastmutate::kept_lines(s).last().last() == s.last(),
    decreases s.len(),
{
    if s.len() > 0 {
        lemma_line_count(s.drop_last());
    }
}

proof fn lemma_first_line(s: Seq<char>, col: int)
    requires
        0 <= col < s.len(),
        !s.take(col).contains('\n'),
    ensures
        fastmutate::kept_lines(s).len() > 0,
        fastmutate::kept_lines(s)[0].len() > col,
        fastmutate::kept_lines(s)[0].take(col) == s.take(col),
    decreases s.len(),
{
    let front = s.drop_last();
    let before = fastmutate::kept_lines(front);
    let all = fastmutate::kept_lines(s);
    if s.len() == 1 {
        assert(front =~= Seq::<char>::empty());
        assert(all =~= seq![seq![s.last()]]);
        assert(all[0].take(0) =~= s.take(0));
    } else if col < s.len() - 1 {
        assert(front.take(col) =~= s.take(col));
        lemma_first_line(front, col);
        assert(all[0].take(col) =~= before[0].take(col));
    } else {
        lemma_unended(front);
        assert(s.take(col) =~= front);
        lemma_line_count(front);
        if front.last() == '\n' {
            assert(front.contains(front[front.len() - 1]));
        }
        assert(before =~= seq![front]);
        assert(all =~= seq![front.push(s.last())]);
        assert(all[0].take(col) =~= front);
    }
}

proof fn lemma_unended(s: Seq<char>)
    requires
        s.len() > 0,
        !s.contains('\n'),
    ensures
        fastmutate::kept_lines(s) == seq![s],
    decreases s.len(),
{
    let front = s.drop_last();
    if s.len() == 1 {
        assert(front =~= Seq::<char>::empty());
        assert(fastmutate::kept_lines(front).len() == 0);
        assert(seq![s.last()] =~= s);
        assert(fastmutate::kept_lines(s) =~= seq![s]);
    } else {
        assert forall|i: int| 0 <= i < front.len() implies front[i] != '\n' by {
            assert(s.contains(s[i]));
        }
        lemma_unended(front);
        assert(s.contains(s[s.len() - 2]));
        assert(front.last() == s[s.len() - 2]);
        assert(front.push(s.last()) =~= s);
        let before = fastmutate::kept_lines(front);
        assert(before.last() == front);
        assert(before.drop_last() =~= Seq::<Seq<char>>::empty());
        assert(fastmutate::kept_lines(s) == before.drop_last().push(before.last().push(s.last())));
        assert(fastmutate::kept_lines(s) =~= seq![s]);
    }
}

/// The byte offset of a line and a column is how many bytes stand before the
/// character there.
pub proof fn law_offsets(s: Seq<char>, at: int, line: nat, col: nat)
    requires
        stands_at(s, at, line, col),
    ensures
        fastmutate::offset_of(s, line, col) == Some(text::bytes_of(s.take(at))),
{
    let start = at - col;
    let a = s.take(start);
    let b = s.skip(start);
    assert(a + b =~= s);
    assert(a.len() == 0 || a.last() == '\n');
    fastmutate::lemma_kept_append(a, b);
    lemma_whole_lines(a);
    let la = fastmutate::kept_lines(a);
    let lb = fastmutate::kept_lines(b);
    let all = fastmutate::kept_lines(s);
    assert(all == la + lb);
    assert(b.take(col as int) =~= s.subrange(start, at));
    lemma_first_line(b, col as int);
    assert(s.take(at) =~= a + b.take(col as int));
    lemma_feeds(a, b.take(col as int));
    assert(line == la.len() + 1);
    assert(all[line - 1] == lb[0]);
    assert(all.take(line - 1) =~= la);
    fastmutate::lemma_kept_lines(a);
    text::lemma_bytes_concat(a, b.take(col as int));
}

proof fn lemma_feeds(a: Seq<char>, b: Seq<char>)
    requires
        !b.contains('\n'),
    ensures
        fastmutate::feeds(a + b) == fastmutate::feeds(a),
    decreases b.len(),
{
    if b.len() == 0 {
        assert(a + b =~= a);
    } else {
        let front = b.drop_last();
        assert forall|i: int| 0 <= i < front.len() implies front[i] != '\n' by {
            assert(b.contains(b[i]));
        }
        assert(b.contains(b[b.len() - 1]));
        assert((a + b).drop_last() =~= a + front);
        lemma_feeds(a, front);
    }
}

/// There is an offset exactly for the lines that a text has.
pub proof fn law_offsets_need_a_line(s: Seq<char>, line: nat, col: nat)
    ensures
        fastmutate::offset_of(s, line, col) is Some <==> 1 <= line && (line <= fastmutate::feeds(s)
            || (line == fastmutate::feeds(s) + 1 && s.len() > 0 && s.last() != '\n')),
{
    lemma_line_count(s);
}

proof fn lemma_boundary_found(s: Seq<char>, k: int)
    requires
        0 <= k <= s.len(),
    ensures
        fastmutate::boundary(s, text::bytes_of(s.take(k))) == Some(k as nat),
    decreases k,
{
    if k == 0 {
        assert(s.take(0) =~= Seq::<char>::empty());
    } else {
        let rest = s.skip(1);
        let head = seq![s[0]];
        assert(s.take(k) =~= head + rest.take(k - 1));
        text::lemma_bytes_concat(head, rest.take(k - 1));
        assert(head.drop_last() =~= Seq::<char>::empty());
        assert(text::bytes_of(head.drop_last()) == 0);
        assert(text::bytes_of(head) == text::width_of(s[0]));
        lemma_boundary_found(rest, k - 1);
    }
}

/// The character at a place is one byte wide, as a brace is, and what is inserted
/// for the place stands right behind it; everything else stays where it was.
pub proof fn law_insertions_follow_the_brace(s: Seq<char>, at: int, line: nat, col: nat, e: EditView)
    requires
        stands_at(s, at, line, col),
        s[at] == '{',
        fastmutate::offset_of(s, line, col) == Some(e.brace as nat),
    ensures
        fastmutate::inserted(s, e) == Some(
            s.take(at) + seq!['{'] + e.insertion + s.skip(at + 1),
        ),
{
    law_offsets(s, at, line, col);
    let before = s.take(at + 1);
    assert(before.drop_last() =~= s.take(at));
    assert(text::bytes_of(before) == e.brace + 1);
    lemma_boundary_found(s, at + 1);
    assert(before =~= s.take(at) + seq!['{']);
}

/// The type that is probed for a default: `()` where nothing is written, the
/// success type of a `Result` that names one and nothing for one that does not,
/// and the whole type otherwise.
pub proof fn law_probed_types(sig: SigView)
    ensures
        sig.output is None ==> fastmutate::probe_of(sig) == Some("()"@),
        sig.output is Some ==> {
            let ty = sig.output->0;
            let result = ty.shape is Path && ty.shape->Path_0 == Some("Result"@);
            &&& !result ==> fastmutate::probe_of(sig) == Some(ty.text)
            &&& result && ty.shape->Path_1 is Some ==> fastmutate::probe_of(sig) == Some(
                ty.shape->Path_1->0.text,
            )
            &&& result && ty.shape->Path_1 is None ==> fastmutate::probe_of(sig) is None
        },
{
}

/// A method is the first of its block whose name is at a place.
pub open spec fn first_method_at(funcs: Seq<FuncView>, line: u32, col: u32, i: int) -> bool {
    &&& 0 <= i < funcs.len()
    &&& funcs[i].sig.line as u32 == line
    &&& funcs[i].sig.column as u32 + 1 == col
    &&& forall|j: int|
        0 <= j < i ==> !((#[trigger] funcs[j]).sig.line as u32 == line && funcs[j].sig.column as u32
            + 1 == col)
}

/// The body that is found in a block is that of the first method whose name is at
/// the place, and none is found where no name is.
pub proof fn law_openings_in_a_block(funcs: Seq<FuncView>, line: u32, col: u32)
    ensures
        match fastmutate::opening_in_impl(funcs, line, col) {
            Some(o) => exists|i: int| #[trigger]
                first_method_at(funcs, line, col, i) && o.line == funcs[i].body.open_line as u32
                    && o.col == funcs[i].body.open_column as u32 && o.probe == fastmutate::probe_of(
                    funcs[i].sig,
                ),
            None => forall|i: int| !#[trigger] first_method_at(funcs, line, col, i),
        },
    decreases funcs.len(),
{
    if funcs.len() > 0 {
        let rest = funcs.skip(1);
        law_openings_in_a_block(rest, line, col);
        let here = funcs[0].sig.line as u32 == line && funcs[0].sig.column as u32 + 1 == col;
        if here {
            assert(first_method_at(funcs, line, col, 0));
        } else {
            assert forall|i: int| #[trigger] first_method_at(funcs, line, col, i) implies i > 0
                && first_method_at(rest, line, col, i - 1) by {
                assert forall|j: int| 0 <= j < i - 1 implies !((#[trigger] rest[j]).sig.line as u32
                    == line && rest[j].sig.column as u32 + 1 == col) by {
                    assert(rest[j] == funcs[j + 1]);
                }
            }
            if let Some(o) = fastmutate::opening_in_impl(rest, line, col) {
                let i = choose|i: int| #[trigger]
                    first_method_at(rest, line, col, i) && o.line == rest[i].body.open_line as u32
                        && o.col == rest[i].body.open_column as u32 && o.probe
                        == fastmutate::probe_of(rest[i].sig);
                assert(funcs[i + 1] == rest[i]);
                assert forall|j: int| 0 <= j < i + 1 implies !((#[trigger] funcs[j]).sig.line as u32
                    == line && funcs[j].sig.column as u32 + 1 == col) by {
                    if j > 0 {
                        assert(rest[j - 1] == funcs[j]);
                    }
                }
                assert(first_method_at(funcs, line, col, i + 1));
            }
        }
    }
}

/// A function is found by the place of its name: a free function by its own, and a
/// function of a trait only where it has a body.
pub proof fn law_openings(f: FuncView, t: TraitFuncView, line: u32, col: u32)
    ensures
        ({
            let o = fastmutate::opening_in(DefinitionView::Func(f), line, col);
            &&& o is Some <==> f.sig.line as u32 == line && f.sig.column as u32 + 1 == col
            &&& o is Some ==> o->0.line == f.body.open_line as u32 && o->0.col
                == f.body.open_column as u32 && o->0.probe == fastmutate::probe_of(f.sig)
        }),
        ({
            let o = fastmutate::opening_in_trait(seq![t], line, col);
            &&& o is Some <==> t.default is Some && t.sig.line as u32 == line && t.sig.column as u32
                + 1 == col
            &&& o is Some ==> o->0.line == t.default->0.open_line as u32 && o->0.col
                == t.default->0.open_column as u32 && o->0.probe == fastmutate::probe_of(t.sig)
        }),
{
    assert(seq![t].skip(1) =~= Seq::<TraitFuncView>::empty());
    assert(fastmutate::opening_in_trait(seq![t].skip(1), line, col) is None);
}

/// A function is looked for in every item, in order, and in the items of a module.
pub proof fn law_openings_are_looked_for(
    items: Seq<DefinitionView>,
    item: DefinitionView,
    line: u32,
    col: u32,
)
    ensures
        fastmutate::opening_in_all(Seq::empty(), line, col) is None,
        fastmutate::opening_in_all(items, line, col) is Some ==> fastmutate::opening_in_all(
            items.push(item),
            line,
            col,
        ) == fastmutate::opening_in_all(items, line, col),
        fastmutate::opening_in_all(items, line, col) is None ==> fastmutate::opening_in_all(
            items.push(item),
            line,
            col,
        ) == fastmutate::opening_in(item, line, col),
        item matches DefinitionView::Mod(_, _, Some(inner)) ==> fastmutate::opening_in(
            item,
            line,
            col,
        ) == fastmutate::opening_in_all(inner, line, col),
{
    assert(items.push(item).drop_last() =~= items);
}

/// What is inserted for a mutant: the guard of its own number, for the return type
/// of its symbol, at the brace of its symbol's body. On the first line of a text
/// that a byte order mark begins, the brace stands one character further on.
pub proof fn law_edits(
    items: Seq<DefinitionView>,
    source: Seq<char>,
    symbols: Seq<SymbolView>,
    m: FastMutantView,
    s: SymbolView,
    o: OpeningView,
)
    requires
        inventory::symbol_with(symbols, m.symbol) == Some(s),
        fastmutate::opening_in_all(items, s.id.line, s.id.col) == Some(o),
        o.col < u32::MAX,
    ensures
        ({
            let marked = o.line == 1 && text::begins(source, "\u{feff}"@);
            let offset = fastmutate::offset_of(
                source,
                o.line as nat,
                if marked {
                    (o.col + 1) as nat
                } else {
                    o.col as nat
                },
            );
            let e = fastmutate::edit_for(items, source, symbols, m);
            &&& e is Some <==> offset is Some
            &&& e is Some ==> e->0.brace == offset->0 as usize && e->0.insertion
                == fastmutate::guard_text(m.id, s.returns, o.probe)
        }),
{
}

/// Every mutant whose body is found gets its insertion, and no other does.
pub proof fn law_every_mutant_is_inserted(
    items: Seq<DefinitionView>,
    source: Seq<char>,
    symbols: Seq<SymbolView>,
    mutants: Seq<FastMutantView>,
    m: FastMutantView,
)
    ensures
        ({
            let before = fastmutate::edits_for(items, source, symbols, mutants);
            let after = fastmutate::edits_for(items, source, symbols, mutants.push(m));
            let e = fastmutate::edit_for(items, source, symbols, m);
            &&& e is Some ==> after == before + seq![e->0]
            &&& e is None ==> after == before
            &&& fastmutate::edits_for(items, source, symbols, Seq::empty()).len() == 0
        }),
{
    assert(mutants.push(m).drop_last() =~= mutants);
    let before = fastmutate::edits_for(items, source, symbols, mutants);
    if let Some(e) = fastmutate::edit_for(items, source, symbols, m) {
        assert(before.push(e) =~= before + seq![e]);
    }
}

// ---------------------------------------------------------------------------
// Runs
// ---------------------------------------------------------------------------

/// A run that fails caught the mutant, whatever was noted. A run that passes and
/// applied the mutation let it survive. One that passes and could not make it says
/// nothing, and one that noted neither never reached it.
pub proof fn law_outcomes(passed: bool, notes: Seq<char>)
    ensures
        fastmutate::outcome_of(passed, notes) == FastOutcome::Caught <==> !passed,
        fastmutate::outcome_of(passed, notes) == FastOutcome::Survived <==> passed && text::has(
            notes,
            "applied"@,
        ),
        fastmutate::outcome_of(passed, notes) == FastOutcome::Inert <==> passed && !text::has(
            notes,
            "applied"@,
        ) && text::has(notes, "inert"@),
        fastmutate::outcome_of(passed, notes) == FastOutcome::Unreached <==> passed && !text::has(
            notes,
            "applied"@,
        ) && !text::has(notes, "inert"@),
{
}

// ---------------------------------------------------------------------------
// The manifest
// ---------------------------------------------------------------------------

/// The dependency on the switch, on a line of its own.
pub open spec fn dependency(path: Seq<char>) -> Seq<char> {
    "oracle-switch = { path = \""@ + path + "\" }\n"@
}

/// The header that the first table of dependencies begins with.
pub open spec fn opens_dependencies(lines: Seq<Seq<char>>, i: int) -> bool {
    &&& 0 <= i < lines.len()
    &&& fastmutate::is_header(lines[i])
    &&& forall|j: int| 0 <= j < i ==> !fastmutate::is_header(#[trigger] lines[j])
}

proof fn lemma_first_header(lines: Seq<Seq<char>>, from: int)
    requires
        0 <= from <= lines.len(),
    ensures
        match fastmutate::first_header(lines, from) {
            Some(i) => from <= i < lines.len() && fastmutate::is_header(lines[i]) && forall|j: int|
                from <= j < i ==> !fastmutate::is_header(#[trigger] lines[j]),
            None => forall|j: int|
                from <= j < lines.len() ==> !fastmutate::is_header(#[trigger] lines[j]),
        },
    decreases lines.len() - from,
{
    if from < lines.len() && !fastmutate::is_header(lines[from]) {
        lemma_first_header(lines, from + 1);
    }
}

/// A manifest is patched by one line, right below the header of its dependencies:
/// what stands before the header, the header, and what stands behind it stay. A
/// manifest without such a header stays as it is and gets one at its end, with the
/// same line below.
pub proof fn law_patching_adds_the_switch(manifest: Seq<char>, path: Seq<char>)
    ensures
        ({
            let lines = fastmutate::kept_lines(manifest);
            let out = fastmutate::patched(manifest, path);
            &&& forall|i: int| #[trigger]
                opens_dependencies(lines, i) ==> out == text::concat(lines.take(i)) + (
                if lines[i].last() == '\n' {
                    lines[i]
                } else {
                    lines[i] + "\n"@
                }) + dependency(path) + text::concat(lines.skip(i + 1))
            &&& (forall|i: int| 0 <= i < lines.len() ==> !fastmutate::is_header(#[trigger] lines[i]))
                ==> out == manifest + "\n[dependencies]\n"@ + dependency(path)
        }),
{
    reveal_strlit("\n");
    reveal_strlit("\" }");
    reveal_strlit("\" }\n");
    let lines = fastmutate::kept_lines(manifest);
    let out = fastmutate::patched(manifest, path);
    fastmutate::lemma_kept_lines(manifest);
    lemma_first_header(lines, 0);
    assert("\" }"@ + "\n"@ =~= "\" }\n"@);
    let line = fastmutate::switch_line(path);
    assert(line + "\n"@ =~= dependency(path));
    assert forall|i: int| #[trigger] opens_dependencies(lines, i) implies out == text::concat(
        lines.take(i),
    ) + (if lines[i].last() == '\n' {
        lines[i]
    } else {
        lines[i] + "\n"@
    }) + dependency(path) + text::concat(lines.skip(i + 1)) by {
        let k = fastmutate::first_header(lines, 0)->0;
        assert(fastmutate::is_header(lines[i]));
        assert(fastmutate::is_header(lines[k]));
        assert(i == k);
        assert(lines[i].push('\n') =~= lines[i] + "\n"@);
        let a = text::concat(lines.take(i));
        let h = fastmutate::ended(lines[i]);
        let b = text::concat(lines.skip(i + 1));
        assert(a + h + line + "\n"@ + b =~= a + h + (line + "\n"@) + b);
    }
    if forall|i: int| 0 <= i < lines.len() ==> !fastmutate::is_header(#[trigger] lines[i]) {
        assert(manifest + "\n[dependencies]\n"@ + line + "\n"@ =~= manifest + "\n[dependencies]\n"@
            + (line + "\n"@));
    }
}

/// A header of the dependencies is `dependencies` in one pair of brackets, with
/// white space around or inside them, and perhaps a comment behind.
pub proof fn law_dependency_headers(line: Seq<char>)
    ensures
        fastmutate::is_header(line) <==> {
            let bare = match text::first_at(line, "#"@, 0) {
                Some(i) => text::trim_of(line.take(i)),
                None => text::trim_of(line),
            };
            &&& bare.len() >= 2
            &&& bare[0] == '['
            &&& bare.last() == ']'
            &&& text::trim_of(bare.subrange(1, bare.len() - 1)) == "dependencies"@
        },
{
    reveal_strlit("[");
    reveal_strlit("]");
    let bare = match text::first_at(line, "#"@, 0) {
        Some(i) => text::trim_of(line.take(i)),
        None => text::trim_of(line),
    };
    assert(fastmutate::bare_line(line) == bare);
    if bare.len() >= 1 {
        let rest = bare.skip(1);
        assert(bare.subrange(0, 1)[0] == bare[0]);
        if bare[0] == '[' {
            assert(bare.subrange(0, 1) =~= "["@);
            if rest.len() >= 1 {
                let n = rest.len() - 1;
                assert(rest.subrange(n, n + 1)[0] == rest[n]);
                assert(rest.take(n) =~= bare.subrange(1, bare.len() - 1));
                if rest[n] == ']' {
                    assert(rest.subrange(n, n + 1) =~= "]"@);
                }
            }
        }
    }
}

/// The build output is the one entry of a tree that is not copied.
pub proof fn law_copied_entries(name: Seq<char>)
    ensures
        fastmutate::is_copied(name) <==> name != "target"@,
{
}

/// A line of a text begins with a tag, behind white space.
pub open spec fn some_line_begins(s: Seq<char>, tag: Seq<char>) -> bool {
    exists|i: int|
        0 <= i < text::lines_of(s).len() && text::begins(
            text::trim_front_of(#[trigger] text::lines_of(s)[i]),
            tag,
        )
}

/// A manifest is a virtual workspace's exactly where a line opens the workspace
/// table and none a package's.
pub proof fn law_virtual_workspaces(manifest: Seq<char>)
    ensures
        fastmutate::is_virtual(manifest) <==> some_line_begins(manifest, "[workspace]"@)
            && !some_line_begins(manifest, "[package]"@),
{
    assert(fastmutate::has_table(manifest, "[workspace]"@) == some_line_begins(
        manifest,
        "[workspace]"@,
    ));
    assert(fastmutate::has_table(manifest, "[package]"@) == some_line_begins(
        manifest,
        "[package]"@,
    ));
}

} // verus!
