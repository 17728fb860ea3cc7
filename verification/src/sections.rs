//! How the audit's text falls into sections: which lines can begin with what.

use vstd::prelude::*;
use crate::claims;
use crate::lint::{FindingView, OracleStrength, Rule, TestOracles, TestOraclesView};
use crate::order;
use crate::report;
use crate::report::{ReportView, SummaryView};
use crate::text;
use crate::text::{AtSpace, Cut};

verus! {

// ---------------------------------------------------------------------------
// Lines
// ---------------------------------------------------------------------------

/// A line begins at `p`.
pub open spec fn begins_line(s: Seq<char>, p: int) -> bool {
    p == 0 || s[p - 1] == '\n'
}

/// No line of a text begins with a title.
pub open spec fn untitled(s: Seq<char>, title: Seq<char>) -> bool {
    forall|p: int|
        0 <= p < s.len() && begins_line(s, p) ==> !#[trigger] text::occurs_at(s, title, p)
}

/// What the section of unclaimed symbols begins with.
pub open spec fn unclaimed_title() -> Seq<char> {
    "unclaimed symbols ("@
}

/// The text has no line feed.
pub open spec fn one_line(s: Seq<char>) -> bool {
    !s.contains('\n')
}

/// No line behind the first begins with a `u`.
spec fn calm(s: Seq<char>) -> bool {
    forall|p: int| 0 <= p < s.len() - 1 && #[trigger] s[p] == '\n' ==> s[p + 1] != 'u'
}

/// Such a text that does not end a line.
spec fn tail(s: Seq<char>) -> bool {
    calm(s) && (s.len() == 0 || s.last() != '\n')
}

/// Whole lines, none of which begins with a `u`.
spec fn block(s: Seq<char>) -> bool {
    calm(s) && text::whole_lines(s) && (s.len() == 0 || s[0] != 'u')
}

proof fn lemma_one_line_tail(s: Seq<char>)
    requires
        one_line(s),
    ensures
        tail(s),
{
    assert forall|p: int| 0 <= p < s.len() - 1 && #[trigger] s[p] == '\n' implies s[p + 1]
        != 'u' by {
        assert(s.contains(s[p]));
    }
    if s.len() > 0 {
        assert(s.contains(s.last()));
    }
}

proof fn glue(a: Seq<char>, b: Seq<char>)
    requires
        tail(a),
        tail(b),
    ensures
        tail(a + b),
        a.len() > 0 ==> (a + b).len() > 0 && (a + b)[0] == a[0],
{
    let s = a + b;
    assert forall|p: int| 0 <= p < s.len() - 1 && #[trigger] s[p] == '\n' implies s[p + 1]
        != 'u' by {
        if p < a.len() {
            assert(a[p] == '\n');
        } else {
            assert(b[p - a.len()] == '\n');
        }
    }
}

proof fn glue_line(a: Seq<char>, b: Seq<char>)
    requires
        tail(a),
        one_line(b),
    ensures
        tail(a + b),
        a.len() > 0 ==> (a + b).len() > 0 && (a + b)[0] == a[0],
{
    lemma_one_line_tail(b);
    glue(a, b);
}

/// A text that a line feed ends is a block.
proof fn close(a: Seq<char>)
    requires
        tail(a),
        a.len() > 0,
        a[0] != 'u',
    ensures
        block(a + "\n"@),
{
    reveal_strlit("\n");
    let s = a + "\n"@;
    assert forall|p: int| 0 <= p < s.len() - 1 && #[trigger] s[p] == '\n' implies s[p + 1]
        != 'u' by {
        assert(a[p] == '\n');
    }
}

proof fn stack(a: Seq<char>, b: Seq<char>)
    requires
        block(a),
        block(b),
    ensures
        block(a + b),
{
    let s = a + b;
    assert forall|p: int| 0 <= p < s.len() - 1 && #[trigger] s[p] == '\n' implies s[p + 1]
        != 'u' by {
        if p < a.len() {
            assert(a[p] == '\n');
        } else {
            assert(b[p - a.len()] == '\n');
        }
    }
}

proof fn lemma_title()
    ensures
        unclaimed_title().len() == 19,
        unclaimed_title()[0] == 'u',
        one_line(unclaimed_title()),
{
    reveal_strlit("unclaimed symbols (");
}

proof fn lemma_block_untitled(s: Seq<char>)
    requires
        block(s),
    ensures
        untitled(s, unclaimed_title()),
{
    lemma_title();
    let t = unclaimed_title();
    assert forall|p: int| 0 <= p < s.len() && begins_line(s, p) implies !#[trigger] text::occurs_at(
        s,
        t,
        p,
    ) by {
        if text::occurs_at(s, t, p) {
            assert(s.subrange(p, p + t.len())[0] == s[p]);
            if p > 0 {
                assert(s[p - 1] == '\n');
            }
        }
    }
}

/// Texts of which no line begins with a title make such a text.
proof fn lemma_untitled_append(a: Seq<char>, b: Seq<char>)
    requires
        untitled(a, unclaimed_title()),
        untitled(b, unclaimed_title()),
        text::whole_lines(a),
    ensures
        untitled(a + b, unclaimed_title()),
{
    lemma_title();
    let t = unclaimed_title();
    let s = a + b;
    let n = a.len() as int;
    assert forall|p: int| 0 <= p < s.len() && begins_line(s, p) implies !#[trigger] text::occurs_at(
        s,
        t,
        p,
    ) by {
        if text::occurs_at(s, t, p) {
            if p >= n {
                assert(begins_line(b, p - n));
                assert(b.subrange(p - n, p - n + t.len()) =~= s.subrange(p, p + t.len()));
                assert(text::occurs_at(b, t, p - n));
            } else if p + t.len() <= n {
                assert(begins_line(a, p));
                assert(a.subrange(p, p + t.len()) =~= s.subrange(p, p + t.len()));
                assert(text::occurs_at(a, t, p));
            } else {
                assert(s.subrange(p, p + t.len())[n - 1 - p] == s[n - 1]);
                assert(t.contains(t[n - 1 - p]));
            }
        }
    }
}

proof fn lemma_title_line(x: Seq<char>)
    requires
        one_line(x),
        !text::begins(x, unclaimed_title()),
    ensures
        untitled(x + "\n"@, unclaimed_title()),
        text::whole_lines(x + "\n"@),
{
    reveal_strlit("\n");
    lemma_title();
    let t = unclaimed_title();
    let s = x + "\n"@;
    assert forall|p: int| 0 <= p < s.len() && begins_line(s, p) implies !#[trigger] text::occurs_at(
        s,
        t,
        p,
    ) by {
        if p > 0 {
            assert(s[p - 1] == x[p - 1]);
            assert(x.contains(x[p - 1]));
        } else if text::occurs_at(s, t, 0) {
            if t.len() <= x.len() {
                assert(x.subrange(0, t.len() as int) =~= s.subrange(0, t.len() as int));
            } else {
                assert(s.subrange(0, t.len() as int)[x.len() as int] == '\n');
                assert(t.contains(t[x.len() as int]));
            }
        }
    }
}

// ---------------------------------------------------------------------------
// Texts on one line
// ---------------------------------------------------------------------------

proof fn lemma_lines_join(a: Seq<char>, b: Seq<char>)
    requires
        one_line(a),
        one_line(b),
    ensures
        one_line(a + b),
{
    if (a + b).contains('\n') {
        let i = choose|i: int| 0 <= i < (a + b).len() && (a + b)[i] == '\n';
        if i < a.len() {
            assert(a[i] == '\n');
        } else {
            assert(b[i - a.len()] == '\n');
        }
    }
}

proof fn lemma_part(s: Seq<char>, a: int, b: int)
    requires
        one_line(s),
        0 <= a <= b <= s.len(),
    ensures
        one_line(s.subrange(a, b)),
{
    let t = s.subrange(a, b);
    if t.contains('\n') {
        let i = choose|i: int| 0 <= i < t.len() && t[i] == '\n';
        assert(s[a + i] == '\n');
    }
}

proof fn lemma_padded(s: Seq<char>, width: int)
    requires
        one_line(s),
    ensures
        one_line(text::padded(s, width)),
{
    let b = text::blanks(width - s.len());
    if b.contains('\n') {
        let i = choose|i: int| 0 <= i < b.len() && b[i] == '\n';
    }
    lemma_lines_join(s, b);
}

proof fn lemma_truncated(s: Seq<char>, max: int)
    requires
        one_line(s),
        max > 0,
    ensures
        one_line(report::truncated(s, max)),
{
    if s.len() > max {
        lemma_part(s, 0, max - 1);
        assert(s.take(max - 1) =~= s.subrange(0, max - 1));
        assert(!seq!['~'].contains('\n'));
        lemma_lines_join(s.take(max - 1), seq!['~']);
        assert(s.take(max - 1).push('~') =~= s.take(max - 1) + seq!['~']);
    }
}

proof fn lemma_leaf(path: Seq<char>)
    requires
        one_line(path),
    ensures
        one_line(claims::leaf_of(path)),
{
    reveal_strlit("::");
    if let Some(i) = text::last_occurrence(path, "::"@) {
        text::lemma_last_at(path, "::"@, path.len() - "::"@.len());
        lemma_part(path, i + 2, path.len() as int);
        assert(path.skip(i + 2) =~= path.subrange(i + 2, path.len() as int));
    }
}

proof fn lemma_counted(n: nat, noun: Seq<char>)
    requires
        one_line(noun),
    ensures
        one_line(report::counted(n, noun)),
{
    reveal_strlit(" ");
    reveal_strlit("s");
    text::lemma_decimal_one_line(n);
    assert(one_line(" "@));
    assert(one_line("s"@));
    lemma_lines_join(text::decimal_of(n), " "@);
    lemma_lines_join(text::decimal_of(n) + " "@, noun);
    lemma_lines_join(text::decimal_of(n) + " "@ + noun, "s"@);
}

proof fn lemma_joined(parts: Seq<Seq<char>>, sep: Seq<char>)
    requires
        forall|i: int| 0 <= i < parts.len() ==> one_line(#[trigger] parts[i]),
        one_line(sep),
    ensures
        one_line(text::join_of(parts, sep)),
    decreases parts.len(),
{
    if parts.len() == 0 {
        assert(one_line(Seq::<char>::empty()));
    } else if parts.len() > 1 {
        let front = parts.drop_last();
        assert forall|i: int| 0 <= i < front.len() implies one_line(#[trigger] front[i]) by {
            assert(front[i] == parts[i]);
        }
        lemma_joined(front, sep);
        assert(one_line(parts[parts.len() - 1]));
        lemma_lines_join(text::join_of(front, sep), sep);
        lemma_lines_join(text::join_of(front, sep) + sep, parts.last());
    }
}

/// A text is calm that is made of one-line texts with indented breaks between them.
proof fn lemma_broken(parts: Seq<Seq<char>>, indent: int)
    requires
        indent > 0,
        forall|i: int| 0 <= i < parts.len() ==> one_line(#[trigger] parts[i]),
    ensures
        tail(text::join_of(parts, "\n"@ + text::blanks(indent))),
    decreases parts.len(),
{
    let sep = "\n"@ + text::blanks(indent);
    if parts.len() == 1 {
        lemma_one_line_tail(parts[0]);
    } else if parts.len() > 1 {
        reveal_strlit("\n");
        let front = parts.drop_last();
        assert forall|i: int| 0 <= i < front.len() implies one_line(#[trigger] front[i]) by {
            assert(front[i] == parts[i]);
        }
        lemma_broken(front, indent);
        assert(one_line(parts[parts.len() - 1]));
        assert(tail(sep));
        glue(text::join_of(front, sep), sep);
        glue_line(text::join_of(front, sep) + sep, parts.last());
    }
}

proof fn lemma_pieces_whole<C: Cut>(s: Seq<char>)
    requires
        C::cuts('\n'),
    ensures
        text::pieces_of::<C>(s).len() > 0,
        forall|i: int|
            0 <= i < text::pieces_of::<C>(s).len() ==> one_line(
                #[trigger] text::pieces_of::<C>(s)[i],
            ),
    decreases s.len(),
{
    let ps = text::pieces_of::<C>(s);
    if s.len() == 0 {
        assert(one_line(Seq::<char>::empty()));
    } else {
        let before = text::pieces_of::<C>(s.drop_last());
        lemma_pieces_whole::<C>(s.drop_last());
        let last = before[before.len() - 1];
        assert(one_line(last));
        assert forall|i: int| 0 <= i < ps.len() implies one_line(#[trigger] ps[i]) by {
            if C::cuts(s.last()) {
                if i < before.len() {
                    assert(ps[i] == before[i]);
                }
            } else {
                if i < before.len() - 1 {
                    assert(ps[i] == before[i]);
                } else {
                    assert(!seq![s.last()].contains('\n'));
                    lemma_lines_join(last, seq![s.last()]);
                    assert(ps[i] =~= last + seq![s.last()]);
                }
            }
        }
    }
}

proof fn lemma_nonempty(ps: Seq<Seq<char>>)
    requires
        forall|i: int| 0 <= i < ps.len() ==> one_line(#[trigger] ps[i]),
    ensures
        forall|i: int|
            0 <= i < text::nonempty(ps).len() ==> one_line(#[trigger] text::nonempty(ps)[i]),
    decreases ps.len(),
{
    if ps.len() > 0 {
        let front = ps.drop_last();
        assert forall|i: int| 0 <= i < front.len() implies one_line(#[trigger] front[i]) by {
            assert(front[i] == ps[i]);
        }
        lemma_nonempty(front);
        assert(one_line(ps[ps.len() - 1]));
        let before = text::nonempty(front);
        let all = text::nonempty(ps);
        assert forall|i: int| 0 <= i < all.len() implies one_line(#[trigger] all[i]) by {
            if i < before.len() {
                assert(all[i] == before[i]);
            }
        }
    }
}

proof fn lemma_filled(words: Seq<Seq<char>>, room: int)
    requires
        forall|i: int| 0 <= i < words.len() ==> one_line(#[trigger] words[i]),
    ensures
        one_line(report::fill(words, room).current),
        forall|i: int|
            0 <= i < report::fill(words, room).lines.len() ==> one_line(
                #[trigger] report::fill(words, room).lines[i],
            ),
    decreases words.len(),
{
    if words.len() == 0 {
        assert(one_line(Seq::<char>::empty()));
    } else {
        let front = words.drop_last();
        assert forall|i: int| 0 <= i < front.len() implies one_line(#[trigger] front[i]) by {
            assert(front[i] == words[i]);
        }
        lemma_filled(front, room);
        assert(one_line(words[words.len() - 1]));
        reveal_strlit(" ");
        assert(one_line(" "@));
        let before = report::fill(front, room);
        lemma_lines_join(before.current, " "@);
        lemma_lines_join(before.current + " "@, words.last());
    }
}

proof fn lemma_wrapped(s: Seq<char>, indent: int, width: int)
    requires
        indent > 0,
    ensures
        tail(report::wrapped(s, indent, width)),
{
    lemma_pieces_whole::<AtSpace>(s);
    lemma_nonempty(text::pieces_of::<AtSpace>(s));
    let words = text::words_of::<AtSpace>(s);
    lemma_filled(words, width - indent);
    lemma_broken(report::fill(words, width - indent).all(), indent);
}

// ---------------------------------------------------------------------------
// The sections
// ---------------------------------------------------------------------------

/// The names and texts that the audit quotes are on one line each, and no file is
/// named like the title of a section.
pub open spec fn quotable(r: ReportView) -> bool {
    let files = report::distinct(report::finding_files(r.findings));
    &&& forall|i: int|
        0 <= i < r.parse_failures.len() ==> one_line((#[trigger] r.parse_failures[i]).0) && one_line(
            r.parse_failures[i].1,
        )
    &&& forall|i: int| 0 <= i < r.findings.len() ==> quotable_finding(#[trigger] r.findings[i])
    &&& forall|i: int|
        0 <= i < files.len() ==> one_line(#[trigger] files[i]) && !text::begins(
            files[i],
            unclaimed_title(),
        )
    &&& forall|i: int| 0 <= i < r.tests.len() ==> one_line((#[trigger] r.tests[i]).test.path)
    &&& forall|i: int| 0 <= i < r.unclaimed.len() ==> one_line(#[trigger] r.unclaimed[i])
}

/// What a finding quotes is on one line each.
pub open spec fn quotable_finding(f: FindingView) -> bool {
    &&& one_line(f.test.path)
    &&& one_line(f.snippet)
    &&& f.symbol is Some ==> one_line(f.symbol->0)
}

proof fn lemma_head(s: SummaryView)
    ensures
        block(report::head_text(s)),
{
    reveal_strlit("cargo-oracle  static audit (v0)\n  ");
    reveal_strlit(" files, ");
    reveal_strlit(" symbols (");
    reveal_strlit(" scorable, ");
    reveal_strlit("accessor");
    reveal_strlit(" skipped), ");
    reveal_strlit(" tests (");
    reveal_strlit(" doctests)\n\n");
    let a = "cargo-oracle  static audit (v0)\n  "@;
    assert(tail(a));
    text::lemma_decimal_one_line(s.files);
    text::lemma_decimal_one_line(s.symbols_total);
    text::lemma_decimal_one_line(s.symbols_scorable);
    text::lemma_decimal_one_line(s.tests_total);
    text::lemma_decimal_one_line(s.doctests);
    assert(one_line("accessor"@));
    lemma_counted(s.symbols_accessor, "accessor"@);
    let b = a + text::decimal_of(s.files);
    glue_line(a, text::decimal_of(s.files));
    assert(one_line(" files, "@));
    glue_line(b, " files, "@);
    let c = b + " files, "@ + text::decimal_of(s.symbols_total);
    glue_line(b + " files, "@, text::decimal_of(s.symbols_total));
    assert(one_line(" symbols ("@));
    glue_line(c, " symbols ("@);
    let d = c + " symbols ("@ + text::decimal_of(s.symbols_scorable);
    glue_line(c + " symbols ("@, text::decimal_of(s.symbols_scorable));
    assert(one_line(" scorable, "@));
    glue_line(d, " scorable, "@);
    let e = d + " scorable, "@ + report::counted(s.symbols_accessor, "accessor"@);
    glue_line(d + " scorable, "@, report::counted(s.symbols_accessor, "accessor"@));
    assert(one_line(" skipped), "@));
    glue_line(e, " skipped), "@);
    let f = e + " skipped), "@ + text::decimal_of(s.tests_total);
    glue_line(e + " skipped), "@, text::decimal_of(s.tests_total));
    assert(one_line(" tests ("@));
    glue_line(f, " tests ("@);
    let g = f + " tests ("@ + text::decimal_of(s.doctests);
    glue_line(f + " tests ("@, text::decimal_of(s.doctests));
    let z = " doctests)\n\n"@;
    let whole = g + z;
    assert(g[0] == 'c');
    assert forall|p: int| 0 <= p < whole.len() - 1 && #[trigger] whole[p] == '\n' implies whole[p
        + 1] != 'u' by {
        if p < g.len() - 1 {
            assert(g[p] == '\n');
        } else if p >= g.len() {
            assert(z[p - g.len()] == '\n');
        }
    }
    assert(whole == report::head_text(s));
}

proof fn lemma_failures(fails: Seq<(Seq<char>, Seq<char>)>)
    requires
        forall|i: int|
            0 <= i < fails.len() ==> one_line((#[trigger] fails[i]).0) && one_line(fails[i].1),
    ensures
        block(report::failure_lines(fails)),
        block(report::failures_text(fails)),
    decreases fails.len(),
{
    if fails.len() > 0 {
        let front = fails.drop_last();
        assert forall|i: int| 0 <= i < front.len() implies one_line((#[trigger] front[i]).0)
            && one_line(front[i].1) by {
            assert(front[i] == fails[i]);
        }
        lemma_failures(front);
        assert(one_line(fails[fails.len() - 1].0));
        reveal_strlit("  ");
        reveal_strlit(": ");
        reveal_strlit("\n");
        reveal_strlit("could not parse:\n");
        let (file, message) = fails.last();
        assert(tail("  "@));
        glue_line("  "@, file);
        assert(one_line(": "@));
        glue_line("  "@ + file, ": "@);
        glue_line("  "@ + file + ": "@, message);
        close("  "@ + file + ": "@ + message);
        stack(report::failure_lines(front), "  "@ + file + ": "@ + message + "\n"@);
        assert(block("could not parse:\n"@));
        assert(block("\n"@));
        stack("could not parse:\n"@, report::failure_lines(fails));
        stack("could not parse:\n"@ + report::failure_lines(fails), "\n"@);
    }
}

proof fn lemma_rule(rule: Rule)
    ensures
        one_line(rule.id_of()),
        one_line(rule.name_of()),
{
    reveal_strlit("ORC001");
    reveal_strlit("ORC002");
    reveal_strlit("ORC003");
    reveal_strlit("ORC004");
    reveal_strlit("ORC005");
    reveal_strlit("ORC006");
    reveal_strlit("ORC007");
    reveal_strlit("ORC008");
    reveal_strlit("ORC009");
    reveal_strlit("ORC010");
    reveal_strlit("no-oracle");
    reveal_strlit("discriminant-only");
    reveal_strlit("unwrap-only");
    reveal_strlit("matches-wildcard");
    reveal_strlit("should-panic-unqualified");
    reveal_strlit("discarded-result");
    reveal_strlit("tautological-assert");
    reveal_strlit("ignored-test");
    reveal_strlit("computed-expectation");
    reveal_strlit("oracle-shape-mismatch");
}

proof fn lemma_finding(f: FindingView, verbose: bool)
    requires
        quotable_finding(f),
    ensures
        block(report::finding_text(f, verbose)),
{
    reveal_strlit("  ");
    reveal_strlit(":");
    reveal_strlit(" ");
    reveal_strlit("\n");
    reveal_strlit("high");
    reveal_strlit("med ");
    reveal_strlit("low ");
    reveal_strlit("         on ");
    reveal_strlit("         ");
    assert(tail("  "@));
    assert(one_line(":"@));
    assert(one_line(" "@));
    let mark = report::severity_mark(f.rule.weight());
    assert(one_line(mark));
    lemma_rule(f.rule);
    text::lemma_decimal_one_line(f.line as nat);
    lemma_padded(text::decimal_of(f.line as nat), 5);
    lemma_padded(f.rule.name_of(), 24);
    lemma_leaf(f.test.path);
    let number = text::padded(text::decimal_of(f.line as nat), 5);
    let name = text::padded(f.rule.name_of(), 24);
    let leaf = claims::leaf_of(f.test.path);
    let a = "  "@ + mark + ":"@ + number + " "@ + f.rule.id_of() + " "@ + name + " "@ + leaf;
    glue_line("  "@, mark);
    glue_line("  "@ + mark, ":"@);
    glue_line("  "@ + mark + ":"@, number);
    glue_line("  "@ + mark + ":"@ + number, " "@);
    glue_line("  "@ + mark + ":"@ + number + " "@, f.rule.id_of());
    glue_line("  "@ + mark + ":"@ + number + " "@ + f.rule.id_of(), " "@);
    glue_line("  "@ + mark + ":"@ + number + " "@ + f.rule.id_of() + " "@, name);
    glue_line("  "@ + mark + ":"@ + number + " "@ + f.rule.id_of() + " "@ + name, " "@);
    glue_line("  "@ + mark + ":"@ + number + " "@ + f.rule.id_of() + " "@ + name + " "@, leaf);
    close(a);
    let head = a + "\n"@;
    let on = match f.symbol {
        Some(s) => "         on "@ + s + "\n"@,
        None => Seq::empty(),
    };
    if let Some(s) = f.symbol {
        assert(tail("         on "@));
        glue_line("         on "@, s);
        close("         on "@ + s);
    }
    assert(tail("         "@));
    let quote = if f.snippet.len() == 0 {
        Seq::empty()
    } else {
        "         "@ + report::truncated(f.snippet, 96) + "\n"@
    };
    if f.snippet.len() > 0 {
        lemma_truncated(f.snippet, 96);
        glue_line("         "@, report::truncated(f.snippet, 96));
        close("         "@ + report::truncated(f.snippet, 96));
    }
    let reason = if verbose {
        "         "@ + report::wrapped(f.rule.why_of(), 9, 78) + "\n"@
    } else {
        Seq::empty()
    };
    if verbose {
        lemma_wrapped(f.rule.why_of(), 9, 78);
        glue("         "@, report::wrapped(f.rule.why_of(), 9, 78));
        close("         "@ + report::wrapped(f.rule.why_of(), 9, 78));
    }
    assert(block(on) && block(quote) && block(reason));
    stack(head, on);
    stack(head + on, quote);
    stack(head + on + quote, reason);
    assert(report::finding_text(f, verbose) == head + on + quote + reason);
}

proof fn lemma_file_findings(fs: Seq<FindingView>, file: Seq<char>, verbose: bool)
    requires
        forall|i: int| 0 <= i < fs.len() ==> quotable_finding(#[trigger] fs[i]),
    ensures
        block(report::file_findings(fs, file, verbose)),
    decreases fs.len(),
{
    if fs.len() > 0 {
        let front = fs.drop_last();
        assert forall|i: int| 0 <= i < front.len() implies quotable_finding(#[trigger] front[i]) by {
            assert(front[i] == fs[i]);
        }
        lemma_file_findings(front, file, verbose);
        assert(quotable_finding(fs[fs.len() - 1]));
        lemma_finding(fs.last(), verbose);
        stack(report::file_findings(front, file, verbose), report::finding_text(fs.last(), verbose));
    }
}

proof fn lemma_finding_sections(fs: Seq<FindingView>, files: Seq<Seq<char>>, verbose: bool)
    requires
        forall|i: int| 0 <= i < fs.len() ==> quotable_finding(#[trigger] fs[i]),
        forall|i: int|
            0 <= i < files.len() ==> one_line(#[trigger] files[i]) && !text::begins(
                files[i],
                unclaimed_title(),
            ),
    ensures
        untitled(report::finding_sections(fs, files, verbose), unclaimed_title()),
        text::whole_lines(report::finding_sections(fs, files, verbose)),
    decreases files.len(),
{
    if files.len() > 0 {
        let front = files.drop_last();
        assert forall|i: int| 0 <= i < front.len() implies one_line(#[trigger] front[i])
            && !text::begins(front[i], unclaimed_title()) by {
            assert(front[i] == files[i]);
        }
        lemma_finding_sections(fs, front, verbose);
        reveal_strlit("\n");
        let file = files[files.len() - 1];
        assert(one_line(file));
        lemma_title_line(file);
        lemma_file_findings(fs, file, verbose);
        let found = report::file_findings(fs, file, verbose);
        assert(block("\n"@));
        stack(found, "\n"@);
        lemma_block_untitled(found + "\n"@);
        lemma_untitled_append(file + "\n"@, found + "\n"@);
        let section = file + "\n"@ + found + "\n"@;
        assert(section =~= (file + "\n"@) + (found + "\n"@));
        lemma_untitled_append(report::finding_sections(fs, front, verbose), section);
    }
}

proof fn lemma_verdict_lines(tests: Seq<TestOraclesView>, verbose: bool)
    requires
        forall|i: int| 0 <= i < tests.len() ==> one_line((#[trigger] tests[i]).test.path),
    ensures
        block(report::verdict_lines(tests, verbose)),
    decreases tests.len(),
{
    if tests.len() > 0 {
        let front = tests.drop_last();
        assert forall|i: int| 0 <= i < front.len() implies one_line((#[trigger] front[i]).test.path) by {
            assert(front[i] == tests[i]);
        }
        lemma_verdict_lines(front, verbose);
        let t = tests[tests.len() - 1];
        assert(one_line(t.test.path));
        reveal_strlit("  ");
        reveal_strlit(" ");
        reveal_strlit("none");
        reveal_strlit("weak");
        reveal_strlit("partial");
        reveal_strlit("strong");
        assert(tail("  "@));
        assert(one_line(" "@));
        assert(one_line(t.strength.name_of()));
        let name = text::padded(t.strength.name_of(), 8);
        let path = text::padded(report::truncated(t.test.path, 58), 58);
        let rules = text::join_of(report::rule_ids(t.findings), " "@);
        lemma_padded(t.strength.name_of(), 8);
        lemma_truncated(t.test.path, 58);
        lemma_padded(report::truncated(t.test.path, 58), 58);
        assert forall|i: int| 0 <= i < report::rule_ids(t.findings).len() implies one_line(
            #[trigger] report::rule_ids(t.findings)[i],
        ) by {
            lemma_rule(t.findings[i].rule);
        }
        lemma_joined(report::rule_ids(t.findings), " "@);
        glue_line("  "@, name);
        glue_line("  "@ + name, " "@);
        glue_line("  "@ + name + " "@, path);
        glue_line("  "@ + name + " "@ + path, " "@);
        glue_line("  "@ + name + " "@ + path + " "@, rules);
        close("  "@ + name + " "@ + path + " "@ + rules);
        stack(report::verdict_lines(front, verbose), report::verdict_line(t));
    }
}

proof fn lemma_verdicts(tests: Seq<TestOraclesView>, verbose: bool)
    requires
        forall|i: int| 0 <= i < tests.len() ==> one_line((#[trigger] tests[i]).test.path),
    ensures
        block(report::verdicts_text(tests, verbose)),
{
    let shown = order::sorted::<&TestOracles>(tests);
    order::lemma_sorted::<&TestOracles>(tests);
    assert forall|i: int| 0 <= i < shown.len() implies one_line((#[trigger] shown[i]).test.path) by {
        assert(shown.contains(shown[i]));
        let k = choose|k: int| 0 <= k < tests.len() && tests[k] == shown[i];
        assert(one_line(tests[k].test.path));
    }
    lemma_verdict_lines(shown, verbose);
    reveal_strlit("per-test oracle strength\n");
    assert(block("per-test oracle strength\n"@));
    stack("per-test oracle strength\n"@, report::verdict_lines(shown, verbose));
}

proof fn lemma_names(names: Seq<Seq<char>>)
    requires
        forall|i: int| 0 <= i < names.len() ==> one_line(#[trigger] names[i]),
    ensures
        block(report::name_lines(names)),
    decreases names.len(),
{
    if names.len() > 0 {
        let front = names.drop_last();
        assert forall|i: int| 0 <= i < front.len() implies one_line(#[trigger] front[i]) by {
            assert(front[i] == names[i]);
        }
        lemma_names(front);
        assert(one_line(names[names.len() - 1]));
        reveal_strlit("  ");
        assert(tail("  "@));
        glue_line("  "@, names.last());
        close("  "@ + names.last());
        stack(report::name_lines(front), "  "@ + names.last() + "\n"@);
    }
}

proof fn lemma_strength_part(table: Seq<(OracleStrength, usize)>, k: OracleStrength)
    ensures
        one_line(report::strength_part(table, k)),
{
    reveal_strlit("none");
    reveal_strlit("weak");
    reveal_strlit("partial");
    reveal_strlit("strong");
    reveal_strlit(" ");
    assert(one_line(k.name_of()));
    assert(one_line(" "@));
    text::lemma_decimal_one_line(report::strength_count(table, k));
    lemma_lines_join(k.name_of(), " "@);
    lemma_lines_join(k.name_of() + " "@, text::decimal_of(report::strength_count(table, k)));
}

proof fn lemma_totals(s: SummaryView)
    ensures
        block(report::totals_text(s)),
{
    reveal_strlit("\nsummary\n  oracle strength   ");
    reveal_strlit("   ");
    reveal_strlit("\n  findings          ");
    reveal_strlit(" high, ");
    reveal_strlit(" medium, ");
    reveal_strlit(" low\n  unclaimed         ");
    reveal_strlit(" of ");
    reveal_strlit(" scorable symbols\n");
    let a = "\nsummary\n  oracle strength   "@;
    assert(tail(a));
    assert(one_line("   "@));
    let strong = report::strength_part(s.strength, OracleStrength::Strong);
    let partial = report::strength_part(s.strength, OracleStrength::Partial);
    let weak = report::strength_part(s.strength, OracleStrength::Weak);
    let absent = report::strength_part(s.strength, OracleStrength::Absent);
    lemma_strength_part(s.strength, OracleStrength::Strong);
    lemma_strength_part(s.strength, OracleStrength::Partial);
    lemma_strength_part(s.strength, OracleStrength::Weak);
    lemma_strength_part(s.strength, OracleStrength::Absent);
    glue_line(a, strong);
    glue_line(a + strong, "   "@);
    glue_line(a + strong + "   "@, partial);
    glue_line(a + strong + "   "@ + partial, "   "@);
    let b = a + strong + "   "@ + partial + "   "@ + weak;
    glue_line(a + strong + "   "@ + partial + "   "@, weak);
    glue_line(b, "   "@);
    let c = b + "   "@ + absent;
    glue_line(b + "   "@, absent);
    assert(tail("\n  findings          "@));
    glue(c, "\n  findings          "@);
    text::lemma_decimal_one_line(s.findings_high);
    text::lemma_decimal_one_line(s.findings_medium);
    text::lemma_decimal_one_line(s.findings_low);
    text::lemma_decimal_one_line(s.symbols_unclaimed);
    text::lemma_decimal_one_line(s.symbols_scorable);
    let d = c + "\n  findings          "@ + text::decimal_of(s.findings_high);
    glue_line(c + "\n  findings          "@, text::decimal_of(s.findings_high));
    assert(one_line(" high, "@));
    glue_line(d, " high, "@);
    let e = d + " high, "@ + text::decimal_of(s.findings_medium);
    glue_line(d + " high, "@, text::decimal_of(s.findings_medium));
    assert(one_line(" medium, "@));
    glue_line(e, " medium, "@);
    let f = e + " medium, "@ + text::decimal_of(s.findings_low);
    glue_line(e + " medium, "@, text::decimal_of(s.findings_low));
    assert(tail(" low\n  unclaimed         "@));
    glue(f, " low\n  unclaimed         "@);
    let g = f + " low\n  unclaimed         "@ + text::decimal_of(s.symbols_unclaimed);
    glue_line(f + " low\n  unclaimed         "@, text::decimal_of(s.symbols_unclaimed));
    assert(one_line(" of "@));
    glue_line(g, " of "@);
    let h = g + " of "@ + text::decimal_of(s.symbols_scorable);
    glue_line(g + " of "@, text::decimal_of(s.symbols_scorable));
    let z = " scorable symbols\n"@;
    let body = z.drop_last();
    assert(one_line(body));
    glue_line(h, body);
    assert(h[0] == '\n');
    close(h + body);
    reveal_strlit("\n");
    assert(h + body + "\n"@ =~= h + z);
    assert(h + z == report::totals_text(s));
}

proof fn lemma_note()
    ensures
        block(report::AUDIT_NOTE@),
{
    reveal_strlit(
        "\nthis is a static audit: it reports oracles that cannot discriminate and\nsymbols nobody claims. whether a symbol is actually *verified* needs the\nmutation evidence of `cargo oracle verify` (slice v3).\n",
    );
}

/// The line that the section of `n` unclaimed symbols begins with.
pub open spec fn unclaimed_line(n: nat) -> Seq<char> {
    unclaimed_title() + text::decimal_of(n) + ") -- no test speaks for these at all"@
}

/// The symbols that the section lists: all of them, or the first ones.
pub open spec fn unclaimed_shown(paths: Seq<Seq<char>>, verbose: bool) -> Seq<Seq<char>> {
    if verbose || paths.len() <= 15 {
        paths
    } else {
        paths.take(15)
    }
}

/// What stands behind them: how many more there are, where not all are listed.
pub open spec fn unclaimed_more(n: nat, verbose: bool) -> Seq<char> {
    if verbose || n <= 15 {
        Seq::empty()
    } else {
        "  ... and "@ + text::decimal_of((n - 15) as nat) + " more\n"@
    }
}

/// The audit has a section of unclaimed symbols exactly where there are any: a
/// line with their number, the symbols, in order, one on each line, and how many
/// more there are where not all are listed. No other line of the audit begins like
/// that section's first.
pub proof fn law_unclaimed_have_a_section(r: ReportView, verbose: bool)
    requires
        quotable(r),
    ensures
        r.unclaimed.len() == 0 ==> untitled(report::audit_text(r, verbose), unclaimed_title()),
        r.unclaimed.len() > 0 ==> exists|before: Seq<char>, after: Seq<char>|
            {
                &&& #[trigger] untitled(before, unclaimed_title())
                &&& text::whole_lines(before)
                &&& #[trigger] untitled(after, unclaimed_title())
                &&& report::audit_text(r, verbose) == before + unclaimed_line(r.unclaimed.len())
                    + "\n"@ + report::name_lines(unclaimed_shown(r.unclaimed, verbose))
                    + unclaimed_more(r.unclaimed.len(), verbose) + after
                &&& untitled(
                    report::name_lines(unclaimed_shown(r.unclaimed, verbose)) + unclaimed_more(
                        r.unclaimed.len(),
                        verbose,
                    ),
                    unclaimed_title(),
                )
            },
{
    let t = unclaimed_title();
    let front = audit_front(r, verbose);
    let verdicts = report::verdicts_text(r.tests, verbose);
    let after = report::totals_text(r.summary) + report::AUDIT_NOTE@;
    lemma_front(r, verbose);
    lemma_after(r.summary);
    lemma_verdicts(r.tests, verbose);
    let section = report::unclaimed_text(r.unclaimed, verbose);
    let whole = report::audit_text(r, verbose);
    assert(whole =~= front + verdicts + section + after);
    if r.unclaimed.len() == 0 {
        lemma_block_untitled(verdicts);
        lemma_untitled_append(front, verdicts);
        lemma_untitled_append(front + verdicts, after);
        assert(whole =~= front + verdicts + after);
    } else {
        reveal_strlit("\n");
        assert(block("\n"@));
        stack(verdicts, "\n"@);
        lemma_block_untitled(verdicts + "\n"@);
        lemma_untitled_append(front, verdicts + "\n"@);
        lemma_section(r.unclaimed, verbose);
        let before = front + (verdicts + "\n"@);
        let line = unclaimed_line(r.unclaimed.len());
        let names = report::name_lines(unclaimed_shown(r.unclaimed, verbose));
        let more = unclaimed_more(r.unclaimed.len(), verbose);
        lemma_regroup(front, verdicts, line, names, more, after);
        assert(whole == before + line + "\n"@ + names + more + after);
        assert(untitled(before, t) && untitled(after, t));
    }
}

/// What stands before the verdicts.
spec fn audit_front(r: ReportView, verbose: bool) -> Seq<char> {
    report::head_text(r.summary) + report::failures_text(r.parse_failures) + report::findings_text(
        r.findings,
        verbose,
    )
}

proof fn lemma_front(r: ReportView, verbose: bool)
    requires
        quotable(r),
    ensures
        untitled(audit_front(r, verbose), unclaimed_title()),
        text::whole_lines(audit_front(r, verbose)),
{
    let head = report::head_text(r.summary);
    let failures = report::failures_text(r.parse_failures);
    let findings = report::findings_text(r.findings, verbose);
    lemma_head(r.summary);
    lemma_failures(r.parse_failures);
    stack(head, failures);
    lemma_block_untitled(head + failures);
    if r.findings.len() == 0 {
        reveal_strlit("no findings.\n\n");
        assert(block("no findings.\n\n"@));
        lemma_block_untitled("no findings.\n\n"@);
    } else {
        lemma_finding_sections(
            r.findings,
            report::distinct(report::finding_files(r.findings)),
            verbose,
        );
    }
    lemma_untitled_append(head + failures, findings);
}

proof fn lemma_after(s: SummaryView)
    ensures
        untitled(report::totals_text(s) + report::AUDIT_NOTE@, unclaimed_title()),
{
    lemma_totals(s);
    lemma_note();
    stack(report::totals_text(s), report::AUDIT_NOTE@);
    lemma_block_untitled(report::totals_text(s) + report::AUDIT_NOTE@);
}

proof fn lemma_regroup(
    front: Seq<char>,
    verdicts: Seq<char>,
    line: Seq<char>,
    names: Seq<char>,
    more: Seq<char>,
    after: Seq<char>,
)
    ensures
        front + verdicts + ("\n"@ + line + "\n"@ + names + more) + after == front + (verdicts
            + "\n"@) + line + "\n"@ + names + more + after,
{
    assert(front + verdicts + ("\n"@ + line + "\n"@ + names + more) + after =~= front + (verdicts
        + "\n"@) + line + "\n"@ + names + more + after);
}

proof fn lemma_more(n: nat)
    requires
        n > 15,
    ensures
        block(unclaimed_more(n, false)),
{
    reveal_strlit("  ... and ");
    reveal_strlit(" more\n");
    reveal_strlit("\n");
    text::lemma_decimal_one_line((n - 15) as nat);
    assert(tail("  ... and "@));
    let a = "  ... and "@ + text::decimal_of((n - 15) as nat);
    glue_line("  ... and "@, text::decimal_of((n - 15) as nat));
    let z = " more\n"@;
    let body = z.drop_last();
    assert(one_line(body));
    glue_line(a, body);
    close(a + body);
    assert(a + body + "\n"@ =~= unclaimed_more(n, false));
}

proof fn lemma_section(paths: Seq<Seq<char>>, verbose: bool)
    requires
        paths.len() > 0,
        forall|i: int| 0 <= i < paths.len() ==> one_line(#[trigger] paths[i]),
    ensures
        report::unclaimed_text(paths, verbose) == "\n"@ + unclaimed_line(paths.len()) + "\n"@
            + report::name_lines(unclaimed_shown(paths, verbose)) + unclaimed_more(
            paths.len(),
            verbose,
        ),
        untitled(
            report::name_lines(unclaimed_shown(paths, verbose)) + unclaimed_more(
                paths.len(),
                verbose,
            ),
            unclaimed_title(),
        ),
{
    let shown = unclaimed_shown(paths, verbose);
    let more = unclaimed_more(paths.len(), verbose);
    assert forall|i: int| 0 <= i < shown.len() implies one_line(#[trigger] shown[i]) by {
        assert(shown[i] == paths[i]);
    }
    lemma_names(shown);
    if !(verbose || paths.len() <= 15) {
        lemma_more(paths.len());
    }
    stack(report::name_lines(shown), more);
    lemma_block_untitled(report::name_lines(shown) + more);
    lemma_section_line(paths.len());
    let d = text::decimal_of(paths.len());
    let names = report::name_lines(shown);
    let line = "\nunclaimed symbols ("@ + d + ") -- no test speaks for these at all\n"@;
    assert(report::unclaimed_text(paths, verbose) == line + names + more);
}

proof fn lemma_section_line(n: nat)
    ensures
        "\nunclaimed symbols ("@ + text::decimal_of(n) + ") -- no test speaks for these at all\n"@
            == "\n"@ + unclaimed_line(n) + "\n"@,
{
    reveal_strlit("\n");
    reveal_strlit("\nunclaimed symbols (");
    reveal_strlit("unclaimed symbols (");
    reveal_strlit(") -- no test speaks for these at all\n");
    reveal_strlit(") -- no test speaks for these at all");
    let t = unclaimed_title();
    let d = text::decimal_of(n);
    let z = ") -- no test speaks for these at all"@;
    assert("\nunclaimed symbols ("@ =~= "\n"@ + t);
    assert(") -- no test speaks for these at all\n"@ =~= z + "\n"@);
    assert("\n"@ + t + d + (z + "\n"@) =~= "\n"@ + (t + d + z) + "\n"@);
}

} // verus!
