//! Source text as tokens: words, literals and single marks.

use vstd::prelude::*;
use vstd::slice::slice_subrange;
use crate::text;

verus! {

// ---------------------------------------------------------------------------
// Cutting a text into tokens
// ---------------------------------------------------------------------------

/// Where the word that reaches to `i` ends.
pub open spec fn word_end(s: Seq<char>, i: int) -> int
    decreases s.len() - i,
{
    if 0 <= i < s.len() && text::is_wordy(s[i]) {
        word_end(s, i + 1)
    } else {
        i
    }
}

/// Where the number signs that reach to `i` end.
pub open spec fn hashes_end(s: Seq<char>, i: int) -> int
    decreases s.len() - i,
{
    if 0 <= i < s.len() && s[i] == '#' {
        hashes_end(s, i + 1)
    } else {
        i
    }
}

/// Where a literal ends whose closing quote is looked for from `i` on. A backslash
/// takes the next character with it.
pub open spec fn quoted_end(s: Seq<char>, i: int, quote: char) -> int
    decreases s.len() - i,
{
    if !(0 <= i < s.len()) {
        s.len() as int
    } else if s[i] == quote {
        i + 1
    } else if s[i] == '\\' && i + 1 < s.len() {
        quoted_end(s, i + 2, quote)
    } else {
        quoted_end(s, i + 1, quote)
    }
}

/// Where a raw literal ends whose closing quote, with its number signs, is looked
/// for from `i` on.
pub open spec fn raw_end(s: Seq<char>, i: int, hashes: int) -> int
    decreases s.len() - i,
{
    if !(0 <= i < s.len()) {
        s.len() as int
    } else if s[i] == '"' && hashes_end(s, i + 1) >= i + 1 + hashes {
        i + 1 + hashes
    } else {
        raw_end(s, i + 1, hashes)
    }
}

/// Where the character literal or the lone quote at `i` ends.
pub open spec fn char_end(s: Seq<char>, i: int) -> int {
    if i + 1 < s.len() && s[i + 1] == '\\' {
        quoted_end(s, i + 1, '\'')
    } else if i + 2 < s.len() && s[i + 2] == '\'' {
        i + 3
    } else {
        i + 1
    }
}

/// The words that make the literal behind them a raw one.
pub open spec fn is_raw(word: Seq<char>) -> bool {
    word == "r"@ || word == "br"@ || word == "cr"@
}

/// Where the token at `i` ends. A word right before a quote is part of the literal.
pub open spec fn token_end(s: Seq<char>, i: int) -> int {
    let e = word_end(s, i);
    let h = hashes_end(s, e);
    if e > i {
        if is_raw(s.subrange(i, e)) && h < s.len() && s[h] == '"' {
            raw_end(s, h + 1, h - e)
        } else if e < s.len() && s[e] == '"' {
            quoted_end(s, e + 1, '"')
        } else if e < s.len() && s[e] == '\'' && s.subrange(i, e) == "b"@ {
            char_end(s, e)
        } else {
            e
        }
    } else if s[i] == '"' {
        quoted_end(s, i + 1, '"')
    } else if s[i] == '\'' {
        char_end(s, i)
    } else {
        i + 1
    }
}

proof fn lemma_word_end(s: Seq<char>, i: int)
    requires
        0 <= i <= s.len(),
    ensures
        i <= word_end(s, i) <= s.len(),
    decreases s.len() - i,
{
    if i < s.len() && text::is_wordy(s[i]) {
        lemma_word_end(s, i + 1);
    }
}

proof fn lemma_hashes_end(s: Seq<char>, i: int)
    requires
        0 <= i <= s.len(),
    ensures
        i <= hashes_end(s, i) <= s.len(),
    decreases s.len() - i,
{
    if i < s.len() && s[i] == '#' {
        lemma_hashes_end(s, i + 1);
    }
}

proof fn lemma_quoted_end(s: Seq<char>, i: int, quote: char)
    requires
        0 <= i,
    ensures
        quoted_end(s, i, quote) <= s.len(),
        i <= s.len() ==> i <= quoted_end(s, i, quote),
    decreases s.len() - i,
{
    if i < s.len() && s[i] != quote {
        if s[i] == '\\' && i + 1 < s.len() {
            lemma_quoted_end(s, i + 2, quote);
        } else {
            lemma_quoted_end(s, i + 1, quote);
        }
    }
}

proof fn lemma_raw_end(s: Seq<char>, i: int, hashes: int)
    requires
        0 <= i <= s.len(),
        0 <= hashes,
    ensures
        i <= raw_end(s, i, hashes) <= s.len(),
    decreases s.len() - i,
{
    if i < s.len() {
        lemma_hashes_end(s, i + 1);
        lemma_raw_end(s, i + 1, hashes);
    }
}

/// A token is not empty and ends in the text.
pub proof fn lemma_token_end(s: Seq<char>, i: int)
    requires
        0 <= i < s.len(),
    ensures
        i < token_end(s, i) <= s.len(),
{
    lemma_word_end(s, i);
    let e = word_end(s, i);
    lemma_hashes_end(s, e);
    let h = hashes_end(s, e);
    if e > i {
        if h < s.len() {
            lemma_raw_end(s, h + 1, h - e);
        }
        if e < s.len() {
            lemma_quoted_end(s, e + 1, '"');
            lemma_quoted_end(s, e + 1, '\'');
        }
    } else {
        lemma_quoted_end(s, i + 1, '"');
        lemma_quoted_end(s, i + 1, '\'');
    }
}

/// The tokens of a text from `i` on.
pub open spec fn tokens_from(s: Seq<char>, i: int) -> Seq<Seq<char>>
    decreases s.len() - i,
{
    if !(0 <= i < s.len()) {
        Seq::empty()
    } else if text::is_space(s[i]) {
        tokens_from(s, i + 1)
    } else if !(i < token_end(s, i) <= s.len()) {
        Seq::empty()
    } else {
        seq![s.subrange(i, token_end(s, i))] + tokens_from(s, token_end(s, i))
    }
}

/// The tokens of a text.
pub open spec fn tokens_of(s: Seq<char>) -> Seq<Seq<char>> {
    tokens_from(s, 0)
}

fn end_of_word(s: &Vec<char>, i: usize) -> (r: usize)
    requires
        i <= s@.len(),
    ensures
        r == word_end(s@, i as int),
        i <= r <= s@.len(),
{
    let mut k: usize = i;
    while k < s.len() && text::wordy(s[k])
        invariant
            i <= k <= s@.len(),
            word_end(s@, i as int) == word_end(s@, k as int),
        decreases s@.len() - k,
    {
        k += 1;
    }
    k
}

fn end_of_hashes(s: &Vec<char>, i: usize) -> (r: usize)
    requires
        i <= s@.len(),
    ensures
        r == hashes_end(s@, i as int),
        i <= r <= s@.len(),
{
    let mut k: usize = i;
    while k < s.len() && s[k] == '#'
        invariant
            i <= k <= s@.len(),
            hashes_end(s@, i as int) == hashes_end(s@, k as int),
        decreases s@.len() - k,
    {
        k += 1;
    }
    k
}

fn end_of_quoted(s: &Vec<char>, i: usize, quote: char) -> (r: usize)
    requires
        i <= s@.len(),
    ensures
        r == quoted_end(s@, i as int, quote),
        r <= s@.len(),
{
    let mut k: usize = i;
    while k < s.len()
        invariant
            i <= k <= s@.len(),
            quoted_end(s@, i as int, quote) == quoted_end(s@, k as int, quote),
        decreases s@.len() - k,
    {
        if s[k] == quote {
            return k + 1;
        }
        if s[k] == '\\' && k + 1 < s.len() {
            k += 2;
        } else {
            k += 1;
        }
    }
    k
}

fn end_of_raw(s: &Vec<char>, i: usize, hashes: usize) -> (r: usize)
    requires
        i <= s@.len(),
    ensures
        r == raw_end(s@, i as int, hashes as int),
        r <= s@.len(),
{
    let mut k: usize = i;
    while k < s.len()
        invariant
            i <= k <= s@.len(),
            raw_end(s@, i as int, hashes as int) == raw_end(s@, k as int, hashes as int),
        decreases s@.len() - k,
    {
        if s[k] == '"' {
            let h: usize = end_of_hashes(s, k + 1);
            if h - (k + 1) >= hashes {
                return k + 1 + hashes;
            }
        }
        k += 1;
    }
    k
}

fn end_of_char(s: &Vec<char>, i: usize) -> (r: usize)
    requires
        i < s@.len(),
    ensures
        r == char_end(s@, i as int),
        r <= s@.len(),
{
    let n: usize = s.len();
    if n - i > 1 && s[i + 1] == '\\' {
        end_of_quoted(s, i + 1, '\'')
    } else if n - i > 2 && s[i + 2] == '\'' {
        i + 3
    } else {
        i + 1
    }
}

fn end_of_token(s: &Vec<char>, i: usize) -> (r: usize)
    requires
        i < s@.len(),
    ensures
        r == token_end(s@, i as int),
        i < r <= s@.len(),
{
    proof {
        lemma_token_end(s@, i as int);
    }
    let n: usize = s.len();
    let e: usize = end_of_word(s, i);
    if e > i {
        let word = text::text_of(slice_subrange(s, i, e));
        let h: usize = end_of_hashes(s, e);
        let raw = text::same(word.as_str(), "r") || text::same(word.as_str(), "br") || text::same(
            word.as_str(),
            "cr",
        );
        if raw && h < n && s[h] == '"' {
            return end_of_raw(s, h + 1, h - e);
        }
        if e < n && s[e] == '"' {
            return end_of_quoted(s, e + 1, '"');
        }
        if e < n && s[e] == '\'' && text::same(word.as_str(), "b") {
            return end_of_char(s, e);
        }
        return e;
    }
    if s[i] == '"' {
        end_of_quoted(s, i + 1, '"')
    } else if s[i] == '\'' {
        end_of_char(s, i)
    } else {
        i + 1
    }
}

/// Cuts a text into tokens.
pub fn tokens(s: &str) -> (r: Vec<String>)
    ensures
        text::texts(r@) == tokens_of(s@),
{
    let cs = text::chars_of(s);
    let mut out: Vec<String> = Vec::new();
    let mut i: usize = 0;
    assert(text::texts(out@) + tokens_from(s@, 0) =~= tokens_of(s@));
    while i < cs.len()
        invariant
            i <= cs@.len(),
            cs@ == s@,
            text::texts(out@) + tokens_from(s@, i as int) == tokens_of(s@),
        decreases cs@.len() - i,
    {
        if text::space(cs[i]) {
            i += 1;
        } else {
            let e: usize = end_of_token(&cs, i);
            let ghost before = text::texts(out@);
            let token = text::text_of(slice_subrange(&cs, i, e));
            let ghost tv = token@;
            out.push(token);
            assert(text::texts(out@) =~= before.push(tv));
            assert(before + (seq![tv] + tokens_from(s@, e as int)) =~= before.push(tv) + tokens_from(
                s@,
                e as int,
            ));
            i = e;
        }
    }
    assert(text::texts(out@) + tokens_from(s@, i as int) =~= text::texts(out@));
    out
}

// ---------------------------------------------------------------------------
// Nesting
// ---------------------------------------------------------------------------

/// An opening bracket.
pub open spec fn opens(t: Seq<char>) -> bool {
    t == "("@ || t == "["@ || t == "{"@
}

/// A closing bracket.
pub open spec fn closes(t: Seq<char>) -> bool {
    t == ")"@ || t == "]"@ || t == "}"@
}

/// How many brackets are open behind the tokens of a list.
pub open spec fn brackets(ts: Seq<Seq<char>>) -> nat
    decreases ts.len(),
{
    if ts.len() == 0 {
        0
    } else {
        let before = brackets(ts.drop_last());
        if opens(ts.last()) {
            before + 1
        } else if closes(ts.last()) && before > 0 {
            (before - 1) as nat
        } else {
            before
        }
    }
}

/// How many angle brackets of generic arguments are open behind the tokens of a
/// list. The first opens at the very start or behind `::`.
pub open spec fn angles(ts: Seq<Seq<char>>) -> nat
    decreases ts.len(),
{
    if ts.len() == 0 {
        0
    } else {
        let front = ts.drop_last();
        let before = angles(front);
        if ts.last() == "<"@ && (before > 0 || front.len() == 0 || front.last() == ":"@) {
            before + 1
        } else if ts.last() == ">"@ && before > 0 && front.last() != "-"@ {
            (before - 1) as nat
        } else {
            before
        }
    }
}

/// A comma in no brackets.
pub open spec fn parts(ts: Seq<Seq<char>>, i: int) -> bool {
    ts[i] == ","@ && brackets(ts.take(i)) == 0 && angles(ts.take(i)) == 0
}

/// The first comma from `i` on that is in no brackets.
pub open spec fn comma_from(ts: Seq<Seq<char>>, i: int) -> Option<int>
    decreases ts.len() - i,
{
    if !(0 <= i < ts.len()) {
        None
    } else if parts(ts, i) {
        Some(i)
    } else {
        comma_from(ts, i + 1)
    }
}

/// Where the pattern that begins at `i` ends: before a guard, before the next
/// argument, or with the tokens.
pub open spec fn pattern_end(ts: Seq<Seq<char>>, i: int) -> int
    decreases ts.len() - i,
{
    if !(0 <= i < ts.len()) || ts[i] == "if"@ || parts(ts, i) {
        i
    } else {
        pattern_end(ts, i + 1)
    }
}

/// The pattern among the arguments of `matches!`: the second of them, without its
/// guard.
pub open spec fn pattern_of(ts: Seq<Seq<char>>) -> Option<Seq<Seq<char>>> {
    match comma_from(ts, 0) {
        Some(i) => Some(ts.subrange(i + 1, pattern_end(ts, i + 1))),
        None => None,
    }
}

fn is_opening(t: &str) -> (r: bool)
    ensures
        r == opens(t@),
{
    text::same(t, "(") || text::same(t, "[") || text::same(t, "{")
}

fn is_closing(t: &str) -> (r: bool)
    ensures
        r == closes(t@),
{
    text::same(t, ")") || text::same(t, "]") || text::same(t, "}")
}

proof fn lemma_marks()
    ensures
        forall|t: Seq<char>| !(#[trigger] opens(t) && closes(t)),
        "<"@ != ">"@,
{
    reveal_strlit("(");
    reveal_strlit("[");
    reveal_strlit("{");
    reveal_strlit(")");
    reveal_strlit("]");
    reveal_strlit("}");
    reveal_strlit("<");
    reveal_strlit(">");
    assert("<"@[0] == '<' && ">"@[0] == '>');
    assert("("@[0] == '(' && ")"@[0] == ')' && "["@[0] == '[' && "]"@[0] == ']');
    assert("{"@[0] == '{' && "}"@[0] == '}');
}

/// Counts the brackets that are open before each token of a list.
fn bracket_depths(ts: &Vec<String>) -> (r: Vec<usize>)
    ensures
        r@.len() == ts@.len(),
        forall|i: int| 0 <= i < ts@.len() ==> #[trigger] r@[i] == brackets(text::texts(ts@).take(i)),
{
    let ghost all = text::texts(ts@);
    let mut out: Vec<usize> = Vec::new();
    let mut depth: usize = 0;
    let mut i: usize = 0;
    while i < ts.len()
        invariant
            i <= ts@.len(),
            all == text::texts(ts@),
            out@.len() == i,
            depth <= i,
            depth == brackets(all.take(i as int)),
            forall|k: int| 0 <= k < i ==> #[trigger] out@[k] == brackets(all.take(k)),
        decreases ts@.len() - i,
    {
        assert(all.take(i as int + 1).drop_last() =~= all.take(i as int));
        assert(all[i as int] == ts@[i as int]@);
        out.push(depth);
        let t = ts[i].as_str();
        if is_opening(t) {
            depth += 1;
        } else if is_closing(t) && depth > 0 {
            depth -= 1;
        }
        i += 1;
    }
    out
}

/// Counts the angle brackets that are open before each token of a list.
fn angle_depths(ts: &Vec<String>) -> (r: Vec<usize>)
    ensures
        r@.len() == ts@.len(),
        forall|i: int| 0 <= i < ts@.len() ==> #[trigger] r@[i] == angles(text::texts(ts@).take(i)),
{
    let ghost all = text::texts(ts@);
    let mut out: Vec<usize> = Vec::new();
    let mut depth: usize = 0;
    let mut i: usize = 0;
    while i < ts.len()
        invariant
            i <= ts@.len(),
            all == text::texts(ts@),
            out@.len() == i,
            depth <= i,
            depth == angles(all.take(i as int)),
            forall|k: int| 0 <= k < i ==> #[trigger] out@[k] == angles(all.take(k)),
        decreases ts@.len() - i,
    {
        assert(all.take(i as int + 1).drop_last() =~= all.take(i as int));
        assert(all[i as int] == ts@[i as int]@);
        proof {
            lemma_marks();
            if i > 0 {
                assert(all.take(i as int).last() == ts@[i - 1]@);
            }
        }
        out.push(depth);
        let t = ts[i].as_str();
        if text::same(t, "<") && (depth > 0 || i == 0 || text::same(ts[i - 1].as_str(), ":")) {
            depth += 1;
        } else if text::same(t, ">") && depth > 0 && !text::same(ts[i - 1].as_str(), "-") {
            depth -= 1;
        }
        i += 1;
    }
    out
}

/// The pattern among the arguments of `matches!`.
pub fn pattern(ts: &Vec<String>) -> (r: Option<Vec<String>>)
    ensures
        match r {
            Some(p) => pattern_of(text::texts(ts@)) == Some(text::texts(p@)),
            None => pattern_of(text::texts(ts@)) is None,
        },
{
    let ghost all = text::texts(ts@);
    let inside = bracket_depths(ts);
    let generic = angle_depths(ts);
    let mut i: usize = 0;
    while i < ts.len() && !(text::same(ts[i].as_str(), ",") && inside[i] == 0 && generic[i] == 0)
        invariant
            i <= ts@.len(),
            all == text::texts(ts@),
            inside@.len() == ts@.len(),
            generic@.len() == ts@.len(),
            forall|k: int| 0 <= k < ts@.len() ==> #[trigger] inside@[k] == brackets(all.take(k)),
            forall|k: int| 0 <= k < ts@.len() ==> #[trigger] generic@[k] == angles(all.take(k)),
            comma_from(all, 0) == comma_from(all, i as int),
        decreases ts@.len() - i,
    {
        assert(all[i as int] == ts@[i as int]@);
        i += 1;
    }
    if i >= ts.len() {
        return None;
    }
    assert(all[i as int] == ts@[i as int]@);
    let start: usize = i + 1;
    let mut out: Vec<String> = Vec::new();
    let mut k: usize = start;
    assert(text::texts(out@) =~= all.subrange(start as int, k as int));
    while k < ts.len() && !text::same(ts[k].as_str(), "if") && !(text::same(ts[k].as_str(), ",")
        && inside[k] == 0 && generic[k] == 0)
        invariant
            start <= k <= ts@.len(),
            all == text::texts(ts@),
            inside@.len() == ts@.len(),
            generic@.len() == ts@.len(),
            forall|k: int| 0 <= k < ts@.len() ==> #[trigger] inside@[k] == brackets(all.take(k)),
            forall|k: int| 0 <= k < ts@.len() ==> #[trigger] generic@[k] == angles(all.take(k)),
            pattern_end(all, start as int) == pattern_end(all, k as int),
            text::texts(out@) == all.subrange(start as int, k as int),
        decreases ts@.len() - k,
    {
        assert(all[k as int] == ts@[k as int]@);
        let ghost before = text::texts(out@);
        out.push(ts[k].clone());
        assert(text::texts(out@) =~= before.push(all[k as int]));
        assert(all.subrange(start as int, k + 1) =~= before.push(all[k as int]));
        k += 1;
    }
    if k < ts.len() {
        assert(all[k as int] == ts@[k as int]@);
    }
    Some(out)
}

// ---------------------------------------------------------------------------
// Bindings
// ---------------------------------------------------------------------------

/// A word that can name a binding: no literal, no number, no name in capitals, and
/// no word of the language.
pub open spec fn can_bind(t: Seq<char>) -> bool {
    &&& t.len() > 0
    &&& text::is_wordy(t[0])
    &&& text::is_wordy(t.last())
    &&& !text::is_capital(t[0])
    &&& !text::is_digit(t[0])
    &&& t != "_"@
    &&& t != "ref"@
    &&& t != "mut"@
    &&& t != "box"@
    &&& t != "true"@
    &&& t != "false"@
}

/// The token at `i` of a pattern is followed by what makes it the name of a field,
/// a path, a constructor or a macro.
pub open spec fn named_on(ts: Seq<Seq<char>>, i: int) -> bool {
    i + 1 < ts.len() && (ts[i + 1] == ":"@ || ts[i + 1] == "("@ || ts[i + 1] == "{"@ || ts[i + 1]
        == "!"@)
}

/// The token at `i` of a pattern is the rest of a path.
pub open spec fn in_path(ts: Seq<Seq<char>>, i: int) -> bool {
    i >= 2 && ts[i - 1] == ":"@ && ts[i - 2] == ":"@
}

/// A literal, or a truth value.
pub open spec fn is_value(t: Seq<char>) -> bool {
    &&& t.len() > 0
    &&& {
        ||| text::is_digit(t[0])
        ||| t[0] == '"'
        ||| t[0] == '\'' && t.len() > 1
        ||| text::is_wordy(t[0]) && !text::is_wordy(t.last())
        ||| t == "true"@
        ||| t == "false"@
    }
}

/// A word that can name a constant or a variant.
pub open spec fn is_name(t: Seq<char>) -> bool {
    t.len() > 0 && text::is_capital(t[0]) && text::is_wordy(t[0]) && text::is_wordy(t.last())
}

/// The token at `i` of a pattern is inside of brackets, and in no generic arguments.
pub open spec fn in_field(ts: Seq<Seq<char>>, i: int) -> bool {
    brackets(ts.take(i)) > 0 && angles(ts.take(i)) == 0
}

/// The token at `i` of a pattern binds a field: it names a binding inside of
/// brackets.
pub open spec fn binds_at(ts: Seq<Seq<char>>, i: int) -> bool {
    can_bind(ts[i]) && !named_on(ts, i) && !in_path(ts, i) && in_field(ts, i)
}

/// The token at `i` of a pattern is what a value is tested against: a literal, or,
/// for a field, a constant or a variant without fields.
pub open spec fn tests_at(ts: Seq<Seq<char>>, i: int) -> bool {
    !named_on(ts, i) && (is_value(ts[i]) || (is_name(ts[i]) && in_field(ts, i)))
}

/// The token at `i` of a pattern observes something: it binds a field or tests a
/// value.
pub open spec fn observes_at(ts: Seq<Seq<char>>, i: int) -> bool {
    binds_at(ts, i) || tests_at(ts, i)
}

/// A pattern observes something beside a variant.
pub open spec fn observes(ts: Seq<Seq<char>>) -> bool {
    exists|i: int| 0 <= i < ts.len() && #[trigger] observes_at(ts, i)
}

/// The token at `i` can stand in a bare path, or between two: a mark of theirs, or
/// a word that another segment or a capital letter makes no binding.
pub open spec fn bare_at(ts: Seq<Seq<char>>, i: int) -> bool {
    ||| ts[i] == ":"@
    ||| ts[i] == "|"@
    ||| is_name(ts[i])
    ||| can_bind(ts[i]) && i + 1 < ts.len() && ts[i + 1] == ":"@
}

/// A pattern is nothing but paths to variants.
pub open spec fn is_bare(ts: Seq<Seq<char>>) -> bool {
    ts.len() > 0 && forall|i: int| 0 <= i < ts.len() ==> #[trigger] bare_at(ts, i)
}

fn may_bind(t: &str) -> (r: bool)
    ensures
        r == can_bind(t@),
{
    let cs = text::chars_of(t);
    let n: usize = cs.len();
    if n == 0 {
        return false;
    }
    text::wordy(cs[0]) && text::wordy(cs[n - 1]) && !text::capital(cs[0]) && !text::digit(cs[0])
        && !text::same(t, "_") && !text::same(t, "ref") && !text::same(t, "mut") && !text::same(
        t,
        "box",
    ) && !text::same(t, "true") && !text::same(t, "false")
}

fn value(t: &str) -> (r: bool)
    ensures
        r == is_value(t@),
{
    let cs = text::chars_of(t);
    let n: usize = cs.len();
    if n == 0 {
        return false;
    }
    text::digit(cs[0]) || cs[0] == '"' || (cs[0] == '\'' && n > 1) || (text::wordy(cs[0])
        && !text::wordy(cs[n - 1])) || text::same(t, "true") || text::same(t, "false")
}

fn capital_name(t: &str) -> (r: bool)
    ensures
        r == is_name(t@),
{
    let cs = text::chars_of(t);
    let n: usize = cs.len();
    n > 0 && text::capital(cs[0]) && text::wordy(cs[0]) && text::wordy(cs[n - 1])
}

fn is_named_on(ts: &Vec<String>, i: usize) -> (r: bool)
    requires
        i < ts@.len(),
    ensures
        r == named_on(text::texts(ts@), i as int),
{
    let n: usize = ts.len();
    if n - i < 2 {
        return false;
    }
    assert(text::texts(ts@)[i + 1] == ts@[i + 1]@);
    let next = ts[i + 1].as_str();
    text::same(next, ":") || text::same(next, "(") || text::same(next, "{") || text::same(next, "!")
}

fn is_in_path(ts: &Vec<String>, i: usize) -> (r: bool)
    requires
        i < ts@.len(),
    ensures
        r == in_path(text::texts(ts@), i as int),
{
    if i < 2 {
        return false;
    }
    assert(text::texts(ts@)[i - 1] == ts@[i - 1]@);
    assert(text::texts(ts@)[i - 2] == ts@[i - 2]@);
    text::same(ts[i - 1].as_str(), ":") && text::same(ts[i - 2].as_str(), ":")
}

/// Whether a pattern observes something beside a variant.
pub fn observes_more(ts: &Vec<String>) -> (r: bool)
    ensures
        r == observes(text::texts(ts@)),
{
    let ghost all = text::texts(ts@);
    let inside = bracket_depths(ts);
    let generic = angle_depths(ts);
    let mut i: usize = 0;
    while i < ts.len()
        invariant
            i <= ts@.len(),
            all == text::texts(ts@),
            inside@.len() == ts@.len(),
            generic@.len() == ts@.len(),
            forall|k: int| 0 <= k < ts@.len() ==> #[trigger] inside@[k] == brackets(all.take(k)),
            forall|k: int| 0 <= k < ts@.len() ==> #[trigger] generic@[k] == angles(all.take(k)),
            forall|k: int| 0 <= k < i ==> !#[trigger] observes_at(all, k),
        decreases ts@.len() - i,
    {
        assert(all[i as int] == ts@[i as int]@);
        let t = ts[i].as_str();
        let field = inside[i] > 0 && generic[i] == 0;
        let free = !is_named_on(ts, i);
        let binds = field && free && !is_in_path(ts, i) && may_bind(t);
        let tests = free && (value(t) || (field && capital_name(t)));
        assert(binds == binds_at(all, i as int));
        assert(tests == tests_at(all, i as int));
        if binds || tests {
            assert(observes_at(all, i as int));
            return true;
        }
        assert(!observes_at(all, i as int));
        i += 1;
    }
    false
}

/// Whether a pattern is nothing but paths to variants.
pub fn bare(ts: &Vec<String>) -> (r: bool)
    ensures
        r == is_bare(text::texts(ts@)),
{
    let ghost all = text::texts(ts@);
    let n: usize = ts.len();
    let mut i: usize = 0;
    while i < n
        invariant
            i <= n == ts@.len(),
            all == text::texts(ts@),
            forall|k: int| 0 <= k < i ==> #[trigger] bare_at(all, k),
        decreases n - i,
    {
        assert(all[i as int] == ts@[i as int]@);
        let t = ts[i].as_str();
        let mut fits = text::same(t, ":") || text::same(t, "|") || capital_name(t);
        if !fits && n - i > 1 && may_bind(t) {
            assert(all[i + 1] == ts@[i + 1]@);
            fits = text::same(ts[i + 1].as_str(), ":");
        }
        assert(fits == bare_at(all, i as int));
        if !fits {
            return false;
        }
        i += 1;
    }
    n > 0
}

} // verus!
