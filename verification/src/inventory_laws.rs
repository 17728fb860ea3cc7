//! What the walk reads off attributes, signatures, bodies and documentation.

use vstd::prelude::*;
use crate::inventory;
use crate::inventory::{
    AtCommaOrSpace, FileRole, Found, Place, ShouldPanic, SourceFileView, TestKind,
};
use crate::lower;
use crate::symbol::{
    ReturnShape, RequiredOracle, SelfKind, SymbolIdView, SymbolKind, SymbolView, Triviality,
    Visibility,
};
use crate::syntax::{
    AttrView, BodyView, DefinitionView, EntryView, ExpressionView, FuncView, ParamView,
    ShapeView, SigView, TraitFuncView, TyShapeView, TyView, VisView,
};
use crate::text;

verus! {

// ---------------------------------------------------------------------------
// Bodies
// ---------------------------------------------------------------------------

/// The body whose one statement is an expression.
pub open spec fn alone(body: BodyView, e: ExpressionView) -> BodyView {
    BodyView { statements: 1, first: Some(e), ..body }
}

/// One of the fifteen methods that only hand on what they are called on.
pub open spec fn hands_on(method: Seq<char>) -> bool {
    ||| method == "clone"@ || method == "to_string"@ || method == "to_owned"@
    ||| method == "as_str"@ || method == "as_ref"@ || method == "as_slice"@
    ||| method == "to_vec"@ || method == "into"@ || method == "iter"@
    ||| method == "len"@ || method == "is_empty"@ || method == "borrow"@
    ||| method == "deref"@ || method == "copied"@ || method == "cloned"@
}

/// A body that is one method call is an accessor exactly where the method is one
/// of the fifteen that hand on, takes nothing, and is called on what would be a
/// trivial body itself. Any other method makes it a body with logic.
pub proof fn law_method_bodies(
    body: BodyView,
    receiver: ExpressionView,
    method: Seq<char>,
    arguments: usize,
    e: ExpressionView,
)
    requires
        e.shape == ShapeView::MethodCall(Box::new(receiver), method, arguments),
    ensures
        inventory::triviality_as(alone(body, e)) == Triviality::Accessor <==> hands_on(method)
            && arguments == 0 && inventory::triviality_as(alone(body, receiver))
            != Triviality::Normal,
        inventory::triviality_as(alone(body, e)) != Triviality::Empty,
        !hands_on(method) ==> inventory::triviality_as(alone(body, e)) == Triviality::Normal,
{
    lemma_trivial(body, receiver);
}

proof fn lemma_trivial(body: BodyView, e: ExpressionView)
    ensures
        inventory::triviality_as(alone(body, e)) != Triviality::Normal <==> inventory::accesses(e),
{
}

/// A body that is a reference is an accessor exactly where what it refers to would
/// be a trivial body itself.
pub proof fn law_reference_bodies(body: BodyView, inner: ExpressionView, e: ExpressionView)
    requires
        e.shape == ShapeView::Reference(Box::new(inner)),
    ensures
        inventory::triviality_as(alone(body, e)) == Triviality::Accessor <==> inventory::triviality_as(
            alone(body, inner),
        ) != Triviality::Normal,
        inventory::triviality_as(alone(body, e)) != Triviality::Empty,
{
    lemma_trivial(body, inner);
}

/// The other bodies of one expression. A literal is an accessor, and so is a field
/// of `self` and of nothing else. `()` is empty. Everything else has logic: a name,
/// a call, a macro, an operator, a tuple of something.
pub proof fn law_plain_bodies(body: BodyView, e: ExpressionView)
    requires
        !(e.shape is MethodCall),
        !(e.shape is Reference),
    ensures
        ({
            let t = inventory::triviality_as(alone(body, e));
            &&& t == Triviality::Empty <==> e.shape == ShapeView::Tuple(0)
            &&& t == Triviality::Accessor <==> e.shape is Literal || (e.shape is Field
                && e.shape->Field_0.shape == ShapeView::Path(Some("self"@)))
        }),
{
}

/// A body with no statement is empty. One with several, or with one that is no
/// expression, has logic.
pub proof fn law_statements(body: BodyView)
    ensures
        body.statements == 0 ==> inventory::triviality_as(body) == Triviality::Empty,
        body.statements >= 2 ==> inventory::triviality_as(body) == Triviality::Normal,
        body.statements == 1 && body.first is None ==> inventory::triviality_as(body)
            == Triviality::Normal,
        body.statements == 1 && body.first is Some ==> inventory::triviality_as(body)
            == inventory::triviality_as(alone(body, body.first->0)),
{
}

// ---------------------------------------------------------------------------
// Attributes
// ---------------------------------------------------------------------------

/// A function is a test exactly where the last segment of an attribute names one
/// of the harnesses.
pub proof fn law_test_attributes(attrs: Seq<AttrView>)
    ensures
        inventory::mark_test(attrs) <==> exists|i: int|
            0 <= i < attrs.len() && {
                let last = (#[trigger] attrs[i]).last;
                ||| last == Some("test"@)
                ||| last == Some("rstest"@)
                ||| last == Some("test_case"@)
                ||| last == Some("proptest"@)
                ||| last == Some("quickcheck"@)
                ||| last == Some("bench"@)
            },
{
    assert forall|i: int| 0 <= i < attrs.len() implies (inventory::marks_test(attrs[i]) <==> {
        let last = (#[trigger] attrs[i]).last;
        ||| last == Some("test"@)
        ||| last == Some("rstest"@)
        ||| last == Some("test_case"@)
        ||| last == Some("proptest"@)
        ||| last == Some("quickcheck"@)
        ||| last == Some("bench"@)
    }) by {
    }
}

/// An entry of a `cfg` is `test`, or is `all` or `any` with `test` inside.
pub open spec fn asks_for_test(e: EntryView) -> bool {
    ||| e.name == Some("test"@)
    ||| (e.name == Some("all"@) || e.name == Some("any"@)) && e.inner.contains(Some("test"@))
}

/// An entry of a `cfg` is a group that is not looked into, such as `not(..)`.
pub open spec fn is_opaque(e: EntryView) -> bool {
    e.grouped && e.name != Some("test"@) && e.name != Some("all"@) && e.name != Some("any"@)
}

/// A `cfg` compiles for tests exactly where an entry asks for `test`, itself or
/// one level inside `all` or `any`, and no group such as `not(..)` stands before
/// it.
pub proof fn law_cfg_test(entries: Seq<EntryView>)
    ensures
        inventory::entries_name_test(entries) <==> exists|i: int|
            0 <= i < entries.len() && asks_for_test(#[trigger] entries[i]) && forall|j: int|
                0 <= j < i ==> !is_opaque(#[trigger] entries[j]),
    decreases entries.len(),
{
    reveal_strlit("test");
    reveal_strlit("all");
    reveal_strlit("any");
    assert("test"@.len() != "all"@.len());
    assert("test"@.len() != "any"@.len());
    if entries.len() > 0 {
        let rest = entries.skip(1);
        law_cfg_test(rest);
        if exists|i: int|
            0 <= i < entries.len() && asks_for_test(#[trigger] entries[i]) && forall|j: int|
                0 <= j < i ==> !is_opaque(#[trigger] entries[j]) {
            let i = choose|i: int|
                0 <= i < entries.len() && asks_for_test(#[trigger] entries[i]) && forall|j: int|
                    0 <= j < i ==> !is_opaque(#[trigger] entries[j]);
            if i > 0 {
                assert(!is_opaque(entries[0]));
                assert(rest[i - 1] == entries[i]);
                assert forall|j: int| 0 <= j < i - 1 implies !is_opaque(#[trigger] rest[j]) by {
                    assert(rest[j] == entries[j + 1]);
                }
                assert(inventory::entries_name_test(rest));
            }
        }
        if inventory::entries_name_test(entries) {
            if asks_for_test(entries[0]) {
            } else {
                assert(inventory::entries_name_test(rest));
                let i = choose|i: int|
                    0 <= i < rest.len() && asks_for_test(#[trigger] rest[i]) && forall|j: int|
                        0 <= j < i ==> !is_opaque(#[trigger] rest[j]);
                assert(entries[i + 1] == rest[i]);
                assert forall|j: int| 0 <= j < i + 1 implies !is_opaque(#[trigger] entries[j]) by {
                    if j > 0 {
                        assert(entries[j] == rest[j - 1]);
                    }
                }
            }
        }
    }
}

/// Only a `cfg` attribute with a list can compile an item for tests.
pub proof fn law_cfg_attributes(attrs: Seq<AttrView>)
    ensures
        inventory::have_cfg_test(attrs) <==> exists|i: int|
            0 <= i < attrs.len() && (#[trigger] attrs[i]).name == Some("cfg"@)
                && attrs[i].meta is List && inventory::entries_name_test(attrs[i].meta->List_1),
{
    assert forall|i: int| 0 <= i < attrs.len() implies (inventory::is_cfg_test(attrs[i]) <==> (
    #[trigger] attrs[i]).name == Some("cfg"@) && attrs[i].meta is List
        && inventory::entries_name_test(attrs[i].meta->List_1)) by {
    }
}

proof fn lemma_attr_named(attrs: Seq<AttrView>, name: Seq<char>)
    ensures
        match inventory::attr_named(attrs, name) {
            Some(a) => exists|i: int|
                0 <= i < attrs.len() && #[trigger] attrs[i] == a && a.name == Some(name)
                    && forall|j: int| 0 <= j < i ==> (#[trigger] attrs[j]).name != Some(name),
            None => forall|i: int| 0 <= i < attrs.len() ==> (#[trigger] attrs[i]).name != Some(name),
        },
    decreases attrs.len(),
{
    if attrs.len() > 0 && attrs[0].name != Some(name) {
        let rest = attrs.skip(1);
        lemma_attr_named(rest, name);
        match inventory::attr_named(rest, name) {
            Some(a) => {
                let i = choose|i: int|
                    0 <= i < rest.len() && #[trigger] rest[i] == a && a.name == Some(name)
                        && forall|j: int| 0 <= j < i ==> (#[trigger] rest[j]).name != Some(name);
                assert(attrs[i + 1] == a);
                assert forall|j: int| 0 <= j < i + 1 implies (#[trigger] attrs[j]).name != Some(
                    name,
                ) by {
                    if j > 0 {
                        assert(rest[j - 1] == attrs[j]);
                    }
                }
            },
            None => {
                assert forall|i: int| 0 <= i < attrs.len() implies (#[trigger] attrs[i]).name
                    != Some(name) by {
                    if i > 0 {
                        assert(rest[i - 1] == attrs[i]);
                    }
                }
            },
        }
    } else if attrs.len() > 0 {
        assert(attrs[0].name == Some(name));
    }
}

/// An attribute is the first of its name.
pub open spec fn first_named(attrs: Seq<AttrView>, name: Seq<char>, i: int) -> bool {
    &&& 0 <= i < attrs.len()
    &&& attrs[i].name == Some(name)
    &&& forall|j: int| 0 <= j < i ==> (#[trigger] attrs[j]).name != Some(name)
}

/// A panic is expected exactly where there is a `should_panic`, and it is named
/// exactly where the list of the first one mentions `expected`.
pub proof fn law_should_panic(attrs: Seq<AttrView>)
    ensures
        inventory::panic_expectation(attrs) is Some <==> exists|i: int|
            0 <= i < attrs.len() && (#[trigger] attrs[i]).name == Some("should_panic"@),
        forall|i: int| #[trigger]
            first_named(attrs, "should_panic"@, i) ==> (inventory::panic_expectation(attrs) == Some(
                ShouldPanic::Qualified,
            ) <==> attrs[i].meta is List && text::has(attrs[i].meta->List_0, "expected"@)),
{
    let name = "should_panic"@;
    lemma_attr_named(attrs, name);
    assert forall|i: int| #[trigger] first_named(attrs, name, i) implies (
    inventory::panic_expectation(attrs) == Some(ShouldPanic::Qualified) <==> attrs[i].meta is List
        && text::has(attrs[i].meta->List_0, "expected"@)) by {
        assert(attrs[i].name == Some(name));
        let a = inventory::attr_named(attrs, name)->0;
        let k = choose|k: int|
            0 <= k < attrs.len() && #[trigger] attrs[k] == a && a.name == Some(name) && forall|
                j: int,
            |
                0 <= j < k ==> (#[trigger] attrs[j]).name != Some(name);
        assert(attrs[k].name == Some(name));
        assert(i == k);
    }
}

// ---------------------------------------------------------------------------
// Signatures
// ---------------------------------------------------------------------------

/// Only `pub` is public, and only `pub(crate)` is the crate's.
pub proof fn law_visibilities(vis: VisView)
    ensures
        inventory::visibility_as(vis) == Visibility::Public <==> vis is Public,
        inventory::visibility_as(vis) == Visibility::Crate <==> vis == VisView::Restricted(
            Some("crate"@),
        ),
        inventory::visibility_as(vis) == Visibility::Private <==> !(vis is Public) && vis
            != VisView::Restricted(Some("crate"@)),
{
}

/// The receiver is the first parameter, and decides by its reference and its
/// `mut`; a `mut` without a reference is a receiver by value.
pub proof fn law_receivers(sig: SigView)
    ensures
        ({
            let k = inventory::self_kind_as(sig);
            let some = sig.params.len() > 0;
            &&& k == SelfKind::RefMut <==> some && sig.params[0] == ParamView::Receiver(true, true)
            &&& k == SelfKind::Ref <==> some && sig.params[0] == ParamView::Receiver(true, false)
            &&& k == SelfKind::Value <==> some && (sig.params[0] == ParamView::Receiver(false, true)
                || sig.params[0] == ParamView::Receiver(false, false))
            &&& k == SelfKind::NoSelf <==> !some || sig.params[0] is Typed
        }),
{
}

/// What a return type promises: nothing where there is none or it is `()`, an
/// outcome where its path ends in `Result` or `Option`, and a value otherwise.
pub proof fn law_return_shapes(output: Option<TyView>)
    ensures
        ({
            let r = inventory::return_shape_as(output);
            &&& r == ReturnShape::Unit <==> output is None || output->0.shape == TyShapeView::Tuple(0)
            &&& r == ReturnShape::Never <==> output is Some && output->0.shape is Never
            &&& r == ReturnShape::ImplTrait <==> output is Some && output->0.shape is ImplTrait
            &&& r == ReturnShape::ResultLike <==> output is Some && output->0.shape is Path
                && output->0.shape->Path_0 == Some("Result"@)
            &&& r == ReturnShape::OptionLike <==> output is Some && output->0.shape is Path
                && output->0.shape->Path_0 == Some("Option"@)
        }),
{
    reveal_strlit("Result");
    reveal_strlit("Option");
    assert("Result"@[0] == 'R' && "Option"@[0] == 'O');
}

/// A function takes something by `&mut` exactly where a parameter other than a
/// receiver is of such a type.
pub proof fn law_mutable_parameters(sig: SigView)
    ensures
        inventory::takes_mut(sig) <==> exists|i: int|
            0 <= i < sig.params.len() && (#[trigger] sig.params[i]) is Typed
                && sig.params[i]->Typed_0.shape == TyShapeView::Reference(true),
{
    assert forall|i: int| 0 <= i < sig.params.len() implies (inventory::is_mut_param(sig.params[i])
        <==> (#[trigger] sig.params[i]) is Typed && sig.params[i]->Typed_0.shape
        == TyShapeView::Reference(true)) by {
    }
}

/// A success carries no payload exactly where the type is a `Result` or an
/// `Option` whose first argument is `()`.
pub proof fn law_unit_results(output: Option<TyView>)
    ensures
        inventory::unit_wrapper(output) <==> {
            &&& output is Some
            &&& output->0.shape is Path
            &&& output->0.shape->Path_0 == Some("Result"@) || output->0.shape->Path_0 == Some(
                "Option"@,
            )
            &&& output->0.shape->Path_1 is Some
            &&& output->0.shape->Path_1->0.shape == TyShapeView::Tuple(0)
        },
{
}

// ---------------------------------------------------------------------------
// Documentation
// ---------------------------------------------------------------------------

/// Only `doc` attributes with a text are documentation, each a line of its own.
pub proof fn law_documentation(attrs: Seq<AttrView>, a: AttrView)
    ensures
        a.name == Some("doc"@) && a.meta is Value && a.meta->Value_0 is Some ==> inventory::doc_of(
            attrs.push(a),
        ) == inventory::doc_of(attrs) + a.meta->Value_0->0 + "\n"@,
        !(a.name == Some("doc"@) && a.meta is Value && a.meta->Value_0 is Some)
            ==> inventory::doc_of(attrs.push(a)) == inventory::doc_of(attrs),
        inventory::doc_of(Seq::empty()).len() == 0,
{
    reveal_strlit("\n");
    assert(attrs.push(a).drop_last() =~= attrs);
    if a.name == Some("doc"@) && a.meta is Value && a.meta->Value_0 is Some {
        let d = inventory::doc_of(attrs) + a.meta->Value_0->0;
        assert(d.push('\n') =~= d + "\n"@);
    }
}

/// A line opens or closes a fence: behind white space it begins with three
/// backticks.
pub open spec fn is_fence(line: Seq<char>) -> bool {
    let t = text::trim_front_of(line);
    t.len() >= 3 && t[0] == '`' && t[1] == '`' && t[2] == '`'
}

/// What stands behind the backticks of a fence.
pub open spec fn info_of(line: Seq<char>) -> Seq<char> {
    text::trim_front_of(line).skip(3)
}

proof fn lemma_fence(line: Seq<char>)
    ensures
        text::after_prefix(text::trim_front_of(line), "```"@) is Some <==> is_fence(line),
        is_fence(line) ==> text::after_prefix(text::trim_front_of(line), "```"@) == Some(
            info_of(line),
        ),
{
    reveal_strlit("```");
    let t = text::trim_front_of(line);
    if t.len() >= 3 {
        let head = t.subrange(0, 3);
        assert(head[0] == t[0] && head[1] == t[1] && head[2] == t[2]);
        if is_fence(line) {
            assert(head =~= "```"@);
        }
        if head == "```"@ {
            assert("```"@[0] == '`' && "```"@[1] == '`' && "```"@[2] == '`');
        }
    }
}

proof fn lemma_outside(lines: Seq<Seq<char>>, done: Seq<Seq<char>>, before: Seq<Seq<char>>)
    requires
        inventory::fences(before) == (inventory::Fences { done, open: None }),
        forall|i: int| 0 <= i < lines.len() ==> !is_fence(#[trigger] lines[i]),
    ensures
        inventory::fences(before + lines) == (inventory::Fences { done, open: None }),
    decreases lines.len(),
{
    if lines.len() == 0 {
        assert(before + lines =~= before);
    } else {
        let front = lines.drop_last();
        assert forall|i: int| 0 <= i < front.len() implies !is_fence(#[trigger] front[i]) by {
            assert(front[i] == lines[i]);
        }
        lemma_outside(front, done, before);
        lemma_fence(lines.last());
        assert(!is_fence(lines[lines.len() - 1]));
        assert((before + lines).drop_last() =~= before + front);
        assert((before + lines).last() == lines.last());
    }
}

/// The code of a block as it is compiled.
pub open spec fn compiled_code(code: Seq<Seq<char>>) -> Seq<Seq<char>> {
    code.map_values(|line: Seq<char>| inventory::code_line(line))
}

proof fn lemma_inside(
    code: Seq<Seq<char>>,
    done: Seq<Seq<char>>,
    compiled: bool,
    before: Seq<Seq<char>>,
)
    requires
        inventory::fences(before) == (inventory::Fences {
            done,
            open: Some((compiled, Seq::empty())),
        }),
        forall|i: int| 0 <= i < code.len() ==> !is_fence(#[trigger] code[i]),
    ensures
        inventory::fences(before + code) == (inventory::Fences {
            done,
            open: Some((compiled, compiled_code(code))),
        }),
    decreases code.len(),
{
    if code.len() == 0 {
        assert(before + code =~= before);
        assert(compiled_code(code) =~= Seq::<Seq<char>>::empty());
    } else {
        let front = code.drop_last();
        assert forall|i: int| 0 <= i < front.len() implies !is_fence(#[trigger] front[i]) by {
            assert(front[i] == code[i]);
        }
        lemma_inside(front, done, compiled, before);
        lemma_fence(code.last());
        assert(!is_fence(code[code.len() - 1]));
        assert((before + code).drop_last() =~= before + front);
        assert((before + code).last() == code.last());
        assert(compiled_code(code) =~= compiled_code(front).push(
            inventory::code_line(code.last()),
        ));
    }
}

/// A block between two fences is one example, made of its lines in order, where
/// its info string lets it be compiled, and none where it does not. What came
/// before stays, and prose adds nothing.
pub proof fn law_examples(
    before: Seq<Seq<char>>,
    prose: Seq<Seq<char>>,
    opening: Seq<char>,
    code: Seq<Seq<char>>,
    closing: Seq<char>,
)
    requires
        inventory::fences(before).open is None,
        forall|i: int| 0 <= i < prose.len() ==> !is_fence(#[trigger] prose[i]),
        forall|i: int| 0 <= i < code.len() ==> !is_fence(#[trigger] code[i]),
        is_fence(opening),
        is_fence(closing),
    ensures
        ({
            let after = inventory::fences(before + prose + seq![opening] + code + seq![closing]);
            &&& after.open is None
            &&& inventory::is_runnable(info_of(opening)) ==> after.done == inventory::fences(
                before,
            ).done.push(text::join_of(compiled_code(code), "\n"@))
            &&& !inventory::is_runnable(info_of(opening)) ==> after.done == inventory::fences(
                before,
            ).done
        }),
{
    let start = inventory::fences(before);
    lemma_outside(prose, start.done, before);
    let a = before + prose;
    let b = a + seq![opening];
    lemma_fence(opening);
    assert(b.drop_last() =~= a);
    assert(b.last() == opening);
    lemma_inside(code, start.done, inventory::is_runnable(info_of(opening)), b);
    let c = b + code;
    let d = c + seq![closing];
    lemma_fence(closing);
    assert(d.drop_last() =~= c);
    assert(d.last() == closing);
}

/// A fence that nothing closes is no example, and no more is one without a fence.
pub proof fn law_open_fences(before: Seq<Seq<char>>, opening: Seq<char>, code: Seq<Seq<char>>)
    requires
        inventory::fences(before).open is None,
        forall|i: int| 0 <= i < code.len() ==> !is_fence(#[trigger] code[i]),
        is_fence(opening),
    ensures
        inventory::fences(before + seq![opening] + code).done == inventory::fences(before).done,
        inventory::fences(before + code).done == inventory::fences(before).done,
        inventory::fences(Seq::empty()).done.len() == 0,
{
    let start = inventory::fences(before);
    let b = before + seq![opening];
    lemma_fence(opening);
    assert(b.drop_last() =~= before);
    assert(b.last() == opening);
    lemma_inside(code, start.done, inventory::is_runnable(info_of(opening)), b);
    lemma_outside(code, start.done, before);
}

/// A line that `#` hides is compiled without the mark, whatever stands before the
/// mark; a lone `#` is an empty line; every other line is compiled as it stands.
pub proof fn law_hidden_lines(line: Seq<char>)
    ensures
        ({
            let t = text::trim_front_of(line);
            let hidden = t.len() >= 2 && t[0] == '#' && t[1] == ' ';
            &&& hidden ==> inventory::code_line(line) == t.skip(2)
            &&& t == seq!['#'] ==> inventory::code_line(line) == Seq::<char>::empty()
            &&& !hidden && t != seq!['#'] ==> inventory::code_line(line) == line
        }),
{
    reveal_strlit("# ");
    reveal_strlit("#");
    let t = text::trim_front_of(line);
    assert("#"@ =~= seq!['#']);
    if t.len() >= 2 {
        let head = t.subrange(0, 2);
        assert(head[0] == t[0] && head[1] == t[1]);
        if t[0] == '#' && t[1] == ' ' {
            assert(head =~= "# "@);
        }
        if head == "# "@ {
            assert("# "@[0] == '#' && "# "@[1] == ' ');
        }
    }
}

/// The tags of an info string.
pub open spec fn tags(info: Seq<char>) -> Seq<Seq<char>> {
    text::pieces_of::<AtCommaOrSpace>(text::lower_of(text::trim_of(info)))
}

/// A tag that leaves a block to be compiled as Rust.
pub open spec fn speaks_rust(tag: Seq<char>) -> bool {
    ||| tag == "rust"@ || tag == "should_panic"@ || tag == "no_run"@ || tag == "compile_fail"@
    ||| tag == "test_harness"@ || tag == "standalone"@ || tag == "standalone_crate"@
    ||| text::begins(tag, "edition"@) || text::begins(tag, "ignore-"@)
    ||| tag.len() == 5 && tag[0] == 'e' && forall|i: int|
        1 <= i < 5 ==> 48 <= (#[trigger] tag[i]) as u32 && tag[i] as u32 <= 57
}

/// The first tag of a list that is not empty.
pub open spec fn leads(words: Seq<Seq<char>>, i: int) -> bool {
    &&& 0 <= i < words.len()
    &&& words[i].len() > 0
    &&& forall|j: int| 0 <= j < i ==> (#[trigger] words[j]).len() == 0
}

proof fn lemma_leads(words: Seq<Seq<char>>)
    ensures
        match inventory::first_tag(words) {
            Some(w) => exists|i: int| #[trigger] leads(words, i) && words[i] == w,
            None => forall|i: int| 0 <= i < words.len() ==> (#[trigger] words[i]).len() == 0,
        },
    decreases words.len(),
{
    if words.len() > 0 {
        let rest = words.skip(1);
        lemma_leads(rest);
        if words[0].len() > 0 {
            assert(leads(words, 0));
        } else {
            match inventory::first_tag(rest) {
                Some(w) => {
                    let i = choose|i: int| #[trigger] leads(rest, i) && rest[i] == w;
                    assert forall|j: int| 0 <= j < i + 1 implies (#[trigger] words[j]).len()
                        == 0 by {
                        if j > 0 {
                            assert(rest[j - 1] == words[j]);
                        }
                    }
                    assert(leads(words, i + 1));
                },
                None => {
                    assert forall|i: int| 0 <= i < words.len() implies (#[trigger] words[i]).len()
                        == 0 by {
                        if i > 0 {
                            assert(rest[i - 1] == words[i]);
                        }
                    }
                },
            }
        }
    }
}

/// Which blocks are compiled. None with the tag `text`, `ignore` or `markdown` is.
/// One without tags is, one with the tag `rust` is, and any other exactly where its
/// first tag speaks of Rust.
pub proof fn law_compiled_blocks(info: Seq<char>)
    ensures
        ({
            let all = tags(info);
            let stopped = all.contains("text"@) || all.contains("ignore"@) || all.contains(
                "markdown"@,
            );
            &&& stopped ==> !inventory::is_runnable(info)
            &&& !stopped && all.contains("rust"@) ==> inventory::is_runnable(info)
            &&& (forall|i: int| 0 <= i < all.len() ==> (#[trigger] all[i]).len() == 0)
                ==> inventory::is_runnable(info)
            &&& !stopped && !all.contains("rust"@) ==> forall|i: int| #[trigger]
                leads(all, i) ==> (inventory::is_runnable(info) <==> speaks_rust(all[i]))
        }),
{
    let all = tags(info);
    reveal_strlit("text");
    reveal_strlit("ignore");
    reveal_strlit("markdown");
    lemma_leads(all);
    if all.contains("text"@) {
        let k = choose|k: int| 0 <= k < all.len() && all[k] == "text"@;
        assert(inventory::is_stop_tag(all[k]));
    }
    if all.contains("ignore"@) {
        let k = choose|k: int| 0 <= k < all.len() && all[k] == "ignore"@;
        assert(inventory::is_stop_tag(all[k]));
    }
    if all.contains("markdown"@) {
        let k = choose|k: int| 0 <= k < all.len() && all[k] == "markdown"@;
        assert(inventory::is_stop_tag(all[k]));
    }
    assert(!(all.contains("text"@) || all.contains("ignore"@) || all.contains("markdown"@))
        ==> forall|i: int| 0 <= i < all.len() ==> !inventory::is_stop_tag(#[trigger] all[i]));
    assert forall|i: int| #[trigger] leads(all, i) && !(all.contains("text"@) || all.contains(
        "ignore"@,
    ) || all.contains("markdown"@)) && !all.contains("rust"@) implies (inventory::is_runnable(info)
        <==> speaks_rust(all[i])) by {
        assert(all[i].len() > 0);
        let w = inventory::first_tag(all)->0;
        let k = choose|k: int| #[trigger] leads(all, k) && all[k] == w;
        assert(i == k);
        assert(inventory::is_rust_tag(w) <==> speaks_rust(w));
    }
}

// ---------------------------------------------------------------------------
// Items
// ---------------------------------------------------------------------------

/// The path of something in a module: the crate, the modules and the name, with a
/// pair of colons between each two.
pub open spec fn path_in(place: Place, name: Seq<char>) -> Seq<char> {
    text::join_of(seq![place.crate_name] + place.modules + seq![name], "::"@)
}

/// A free function is one thing: a test where its attributes say so, nothing where
/// only tests can see it, and else a symbol of that name that stands where the
/// function does, with a test for each example on it.
pub proof fn law_free_functions(place: Place, f: FuncView)
    requires
        inventory::column_fits(f.sig),
        inventory::examples_of(f.attrs).len() <= usize::MAX,
    ensures
        ({
            let found = inventory::found_in(place, DefinitionView::Func(f));
            let tests_only = place.test_module is Some || place.role == FileRole::IntegrationTest;
            &&& inventory::mark_test(f.attrs) ==> {
                &&& found.symbols.len() == 0
                &&& found.tests.len() == 1
                &&& found.tests[0].id.file == place.file
                &&& found.tests[0].id.line == f.sig.line as u32
                &&& found.tests[0].span.start == f.sig.fn_line as u32
                &&& found.tests[0].span.end == f.body.end_line as u32
                &&& found.tests[0].body == Some(f.body)
                &&& found.tests[0].id.path == path_in(place, f.sig.name)
                &&& found.tests[0].kind == TestKind::Integration <==> place.role
                    == FileRole::IntegrationTest
                &&& found.tests[0].kind == TestKind::Unit <==> place.role == FileRole::Source
                &&& found.tests[0].is_ignored <==> exists|i: int|
                    0 <= i < f.attrs.len() && (#[trigger] f.attrs[i]).name == Some("ignore"@)
                &&& found.tests[0].should_panic is Some <==> exists|i: int|
                    0 <= i < f.attrs.len() && (#[trigger] f.attrs[i]).name == Some("should_panic"@)
                &&& found.tests[0].enclosing_test_module == place.test_module
                &&& found.tests[0].is_async == f.sig.is_async
                &&& found.tests[0].doctest_target is None
            }
            &&& !inventory::mark_test(f.attrs) && tests_only ==> found.symbols.len() == 0
                && found.tests.len() == 0
            &&& !inventory::mark_test(f.attrs) && !tests_only ==> {
                &&& found.symbols.len() == 1
                &&& found.symbols[0].kind == SymbolKind::Free
                &&& found.symbols[0].path == path_in(place, f.sig.name)
                &&& found.symbols[0].trait_name is None
                &&& is_symbol_of(found.symbols[0], place, f.attrs, f.sig, f.body, f.vis)
                &&& found.tests.len() == inventory::examples_of(f.attrs).len()
                &&& examples_aim_at(found, found.symbols[0])
            }
        }),
{
    lemma_attr_named(f.attrs, "ignore"@);
    law_should_panic(f.attrs);
    let front = seq![place.crate_name] + place.modules;
    assert(front.push(f.sig.name) =~= front + seq![f.sig.name]);
}

/// A symbol has what its signature, its body and its place say.
pub open spec fn is_symbol_of(
    s: SymbolView,
    place: Place,
    attrs: Seq<AttrView>,
    sig: SigView,
    body: BodyView,
    vis: VisView,
) -> bool {
    &&& s.id.file == place.file
    &&& s.id.line == sig.line as u32
    &&& s.id.col == sig.column as u32 + 1
    &&& s.name == sig.name
    &&& s.span.start == sig.fn_line as u32
    &&& s.span.end == body.end_line as u32
    &&& s.visibility == inventory::visibility_as(vis)
    &&& s.self_kind == inventory::self_kind_as(sig)
    &&& s.returns == inventory::return_shape_as(sig.output)
    &&& s.has_mut_param == inventory::takes_mut(sig)
    &&& s.triviality == inventory::triviality_as(body)
    &&& s.is_async == sig.is_async
    &&& s.is_const == sig.is_const
    &&& s.is_unsafe == sig.is_unsafe
    &&& s.returns_unit_ok == inventory::unit_wrapper(sig.output)
    &&& s.doctests == inventory::examples_of(attrs).len()
    &&& (s.required_oracle == RequiredOracle::PostState || s.required_oracle
        == RequiredOracle::Both) <==> (s.self_kind == SelfKind::RefMut || s.has_mut_param)
    &&& (s.required_oracle == RequiredOracle::ReturnValue || s.required_oracle
        == RequiredOracle::Both) <==> (s.returns != ReturnShape::Unit && s.returns
        != ReturnShape::Never)
}

/// Every test that was found is an example on one symbol.
pub open spec fn examples_aim_at(found: Found, s: SymbolView) -> bool {
    forall|i: int|
        0 <= i < found.tests.len() ==> {
            &&& (#[trigger] found.tests[i]).kind == TestKind::Doctest
            &&& found.tests[i].doctest_target == Some(s.id)
            &&& found.tests[i].id.file == s.id.file
            &&& found.tests[i].span == s.span
            &&& found.tests[i].id.path == s.path + " (doctest "@ + text::decimal_of((i + 1) as nat)
                + ")"@
            &&& !found.tests[i].is_ignored
            &&& found.tests[i].should_panic is None
            &&& found.tests[i].enclosing_test_module is None
        }
}

/// A method of an `impl` block is what a free function would be, under a path with
/// its type. Where the block implements a trait, it is that trait's.
pub proof fn law_methods(place: Place, ty: Seq<char>, of: Option<Seq<char>>, f: FuncView)
    requires
        inventory::column_fits(f.sig),
        inventory::examples_of(f.attrs).len() <= usize::MAX,
        !inventory::mark_test(f.attrs),
    ensures
        ({
            let found = inventory::found_in_method(place, ty, of, f);
            let tests_only = place.test_module is Some || place.role == FileRole::IntegrationTest;
            &&& tests_only ==> found.symbols.len() == 0 && found.tests.len() == 0
            &&& !tests_only ==> {
                &&& found.symbols.len() == 1
                &&& found.symbols[0].trait_name == of
                &&& found.symbols[0].kind == SymbolKind::TraitImpl <==> of is Some
                &&& found.symbols[0].kind == SymbolKind::Inherent <==> of is None
                &&& is_symbol_of(found.symbols[0], place, f.attrs, f.sig, f.body, f.vis)
                &&& text::ends(found.symbols[0].path, "::"@ + f.sig.name)
                &&& text::has(found.symbols[0].path, ty)
                &&& of is Some ==> text::has(found.symbols[0].path, " as "@ + of->0 + ">::"@)
                &&& examples_aim_at(found, found.symbols[0])
            }
        }),
{
    let p = place.prefix();
    let name = f.sig.name;
    reveal_strlit("::");
    reveal_strlit(">::");
    reveal_strlit("::<");
    reveal_strlit(" as ");
    match of {
        Some(t) => {
            let path = p + "::<"@ + ty + " as "@ + t + ">::"@ + name;
            let from = p.len() as int + 3;
            assert(path.subrange(from, from + ty.len()) =~= ty);
            assert(text::occurs_at(path, ty, from));
            let tail = "::"@ + name;
            assert(path.subrange(path.len() - tail.len(), path.len() as int) =~= tail);
            let mid = " as "@ + t + ">::"@;
            let at: int = from + ty.len();
            assert(path.subrange(at, at + mid.len()) =~= mid);
            assert(text::occurs_at(path, mid, at));
        },
        None => {
            let path = p + "::"@ + ty + "::"@ + name;
            let from = p.len() as int + 2;
            assert(path.subrange(from, from + ty.len()) =~= ty);
            assert(text::occurs_at(path, ty, from));
            let tail = "::"@ + name;
            assert(path.subrange(path.len() - tail.len(), path.len() as int) =~= tail);
        },
    }
}

/// A function of a trait is a symbol exactly where it has a body, with the
/// visibility of the trait.
pub proof fn law_trait_functions(place: Place, name: Seq<char>, vis: VisView, f: TraitFuncView)
    requires
        inventory::column_fits(f.sig),
        inventory::examples_of(f.attrs).len() <= usize::MAX,
    ensures
        ({
            let found = inventory::found_in_default(place, name, vis, f);
            &&& f.default is None ==> found.symbols.len() == 0 && found.tests.len() == 0
            &&& f.default is Some ==> {
                &&& found.symbols.len() == 1
                &&& found.symbols[0].kind == SymbolKind::TraitDefault
                &&& is_symbol_of(found.symbols[0], place, f.attrs, f.sig, f.default->0, vis)
                &&& examples_aim_at(found, found.symbols[0])
            }
        }),
{
}

/// A module whose items stand in another file gives nothing here. One whose items
/// stand here gives what they do, one segment further down, and is for tests from
/// the first `cfg(test)` on.
pub proof fn law_modules(
    place: Place,
    attrs: Seq<AttrView>,
    name: Seq<char>,
    items: Seq<DefinitionView>,
)
    ensures
        inventory::found_in(place, DefinitionView::Mod(attrs, name, None)) == Found::nothing(),
        ({
            let inner = place.inside(attrs, name);
            &&& inventory::found_in(place, DefinitionView::Mod(attrs, name, Some(items)))
                == inventory::found_in_all(inner, items)
            &&& inner.file == place.file
            &&& inner.crate_name == place.crate_name
            &&& inner.role == place.role
            &&& inner.modules == place.modules.push(name)
            &&& place.test_module is Some ==> inner.test_module == place.test_module
            &&& place.test_module is None ==> (inner.test_module is Some
                <==> inventory::have_cfg_test(attrs))
            &&& place.test_module is None && inner.test_module is Some ==> inner.test_module == Some(
                inner.prefix(),
            )
        }),
{
}

/// The items of a file are read one by one: nothing is found that no item gives,
/// and nothing that one gives is lost.
pub proof fn law_items_are_read_apart(
    place: Place,
    a: Seq<DefinitionView>,
    b: Seq<DefinitionView>,
)
    ensures
        inventory::found_in_all(place, a + b).symbols == inventory::found_in_all(place, a).symbols
            + inventory::found_in_all(place, b).symbols,
        inventory::found_in_all(place, a + b).tests == inventory::found_in_all(place, a).tests
            + inventory::found_in_all(place, b).tests,
    decreases b.len(),
{
    if b.len() == 0 {
        assert(a + b =~= a);
    } else {
        law_items_are_read_apart(place, a, b.drop_last());
        assert((a + b).drop_last() =~= a + b.drop_last());
        assert((a + b).last() == b.last());
    }
}

/// The methods of a block are read one by one.
pub proof fn law_methods_are_read_apart(
    place: Place,
    ty: Seq<char>,
    of: Option<Seq<char>>,
    a: Seq<FuncView>,
    b: Seq<FuncView>,
)
    ensures
        inventory::found_in_impl(place, ty, of, a + b).symbols == inventory::found_in_impl(
            place,
            ty,
            of,
            a,
        ).symbols + inventory::found_in_impl(place, ty, of, b).symbols,
        inventory::found_in_impl(place, ty, of, a + b).tests == inventory::found_in_impl(
            place,
            ty,
            of,
            a,
        ).tests + inventory::found_in_impl(place, ty, of, b).tests,
    decreases b.len(),
{
    if b.len() == 0 {
        assert(a + b =~= a);
    } else {
        law_methods_are_read_apart(place, ty, of, a, b.drop_last());
        assert((a + b).drop_last() =~= a + b.drop_last());
        assert((a + b).last() == b.last());
    }
}

// ---------------------------------------------------------------------------
// Files
// ---------------------------------------------------------------------------

/// The module path of a file. An integration test has none. A crate's root, which
/// is `lib` or `main` at the top or the `main` of a program's own directory below
/// `bin`, and every `mod` stand for the directory they are in; every other file
/// adds its own name.
pub proof fn law_module_paths(parents: Seq<Seq<char>>, stem: Seq<char>)
    ensures
        inventory::modules_at(parents, Some(stem), FileRole::IntegrationTest).len() == 0,
        inventory::modules_at(parents, Some(stem), FileRole::Source) == parents || inventory::modules_at(
            parents,
            Some(stem),
            FileRole::Source,
        ) == parents + seq![stem],
        inventory::modules_at(parents, Some(stem), FileRole::Source) == parents <==> {
            ||| stem == "mod"@
            ||| parents.len() == 0 && (stem == "lib"@ || stem == "main"@)
            ||| parents.len() == 2 && parents[0] == "bin"@ && stem == "main"@
        },
{
    assert(parents.push(stem) =~= parents + seq![stem]);
    assert(parents.push(stem).len() == parents.len() + 1);
}

proof fn lemma_gathered(files: Seq<SourceFileView>, s: SymbolView)
    ensures
        inventory::gathered(files).symbols.contains(s) <==> exists|i: int|
            0 <= i < files.len() && (#[trigger] files[i]).outcome() is Ok
                && files[i].outcome()->Ok_0.symbols.contains(s),
    decreases files.len(),
{
    if files.len() > 0 {
        let front = files.drop_last();
        let n = files.len() - 1;
        lemma_gathered(front, s);
        let all = inventory::gathered(files).symbols;
        let before = inventory::gathered(front).symbols;
        assert(files[n] == files.last());
        if exists|i: int|
            0 <= i < files.len() && (#[trigger] files[i]).outcome() is Ok
                && files[i].outcome()->Ok_0.symbols.contains(s) {
            let i = choose|i: int|
                0 <= i < files.len() && (#[trigger] files[i]).outcome() is Ok
                    && files[i].outcome()->Ok_0.symbols.contains(s);
            if i < n {
                assert(front[i] == files[i]);
                let k = choose|k: int| 0 <= k < before.len() && before[k] == s;
                assert(all[k] == s);
            } else {
                let here = files[n].outcome()->Ok_0.symbols;
                let k = choose|k: int| 0 <= k < here.len() && here[k] == s;
                assert(all[before.len() + k] == s);
            }
        }
        if all.contains(s) {
            let k = choose|k: int| 0 <= k < all.len() && all[k] == s;
            if k < before.len() {
                assert(before[k] == s);
                let i = choose|i: int|
                    0 <= i < front.len() && (#[trigger] front[i]).outcome() is Ok
                        && front[i].outcome()->Ok_0.symbols.contains(s);
                assert(files[i] == front[i]);
            } else {
                let here = files[n].outcome()->Ok_0.symbols;
                assert(here[k - before.len()] == s);
            }
        }
    }
}

/// A workspace has the symbols that its files have that can be read, and no
/// others: a file that cannot be read takes none of the others' away.
pub proof fn law_symbols_come_from_files(files: Seq<SourceFileView>, s: SymbolView)
    ensures
        inventory::gathered(files).symbols.contains(s) <==> exists|i: int|
            0 <= i < files.len() && (#[trigger] files[i]).outcome() is Ok
                && files[i].outcome()->Ok_0.symbols.contains(s),
{
    lemma_gathered(files, s);
}

/// A file that could not be read is recorded with its own message, and one that
/// can be read is not recorded, unless another of its name is.
pub proof fn law_failures_are_recorded(files: Seq<SourceFileView>, rel: Seq<char>)
    ensures
        inventory::failure_of(files, rel) is Some <==> exists|i: int|
            0 <= i < files.len() && (#[trigger] files[i]).rel == rel && files[i].outcome() is Err,
    decreases files.len(),
{
    if files.len() > 0 {
        let front = files.drop_last();
        let n = files.len() - 1;
        law_failures_are_recorded(front, rel);
        assert(files[n] == files.last());
        if inventory::failure_of(front, rel) is Some {
            let i = choose|i: int|
                0 <= i < front.len() && (#[trigger] front[i]).rel == rel && front[i].outcome() is Err;
            assert(files[i] == front[i]);
        }
        if exists|i: int|
            0 <= i < files.len() && (#[trigger] files[i]).rel == rel && files[i].outcome() is Err {
            let i = choose|i: int|
                0 <= i < files.len() && (#[trigger] files[i]).rel == rel && files[i].outcome() is Err;
            if i < n {
                assert(front[i] == files[i]);
            }
        }
    }
}

/// A crate is named like its package, with an underscore for each hyphen.
pub proof fn law_crate_names(package: Seq<char>)
    ensures
        inventory::crate_named(package) == package.map_values(
            |c: char|
                if c == '-' {
                    '_'
                } else {
                    c
                },
        ),
    decreases package.len(),
{
    reveal_strlit("-");
    reveal_strlit("_");
    let f = |c: char|
        if c == '-' {
            '_'
        } else {
            c
        };
    if package.len() > 0 {
        let rest = package.skip(1);
        law_crate_names(rest);
        assert(package.subrange(0, 1)[0] == package[0]);
        if package[0] == '-' {
            assert(package.subrange(0, 1) =~= "-"@);
        }
        assert(package.map_values(f) =~= seq![f(package[0])] + rest.map_values(f));
        assert("_"@ =~= seq!['_']);
    } else {
        assert(package.map_values(f) =~= package);
    }
}

/// A walk leaves out exactly the directories below its own that have a manifest.
pub proof fn law_separate_packages(is_dir: bool, is_walk_root: bool, has_manifest: bool)
    ensures
        !inventory::is_kept(is_dir, is_walk_root, has_manifest) <==> is_dir && has_manifest
            && !is_walk_root,
{
}

/// Source is what the extension `rs` says.
pub proof fn law_source_files(extension: Option<Seq<char>>)
    ensures
        inventory::names_source(extension) <==> extension == Some("rs"@),
{
}

/// An example that has a `main` of its own is read as that; every other is read as
/// the body of a function around it.
pub proof fn law_example_bodies(code: Seq<char>)
    ensures
        text::has(code, "fn main"@) && lower::snippet_holds(code) is Some
            ==> inventory::example_body(code) == inventory::main_of(
            lower::snippet_holds(code)->0,
        ),
        text::has(code, "fn main"@) && lower::snippet_holds(code) is None
            ==> inventory::example_body(code) is None,
        !text::has(code, "fn main"@) ==> match lower::function_holds(
            "fn __doctest() {\n"@ + code + "\n}"@,
        ) {
            Some(f) => inventory::example_body(code) == Some(f.body),
            None => inventory::example_body(code) is None,
        },
{
}

/// The `main` that is read is the first function of that name.
pub proof fn law_mains(items: Seq<DefinitionView>, i: int)
    requires
        0 <= i < items.len(),
        is_main(items[i]),
        forall|j: int| 0 <= j < i ==> !is_main(#[trigger] items[j]),
    ensures
        inventory::main_of(items) == Some(items[i]->Func_0.body),
    decreases items.len(),
{
    if i > 0 {
        let rest = items.skip(1);
        assert(!is_main(items[0]));
        assert forall|j: int| 0 <= j < i - 1 implies !is_main(#[trigger] rest[j]) by {
            assert(rest[j] == items[j + 1]);
        }
        law_mains(rest, i - 1);
    }
}

/// A function named `main`.
pub open spec fn is_main(item: DefinitionView) -> bool {
    item is Func && item->Func_0.sig.name == "main"@
}

/// Looking a symbol up gives one of that identity, where there is one.
pub proof fn law_symbol_lookup(symbols: Seq<SymbolView>, id: SymbolIdView)
    ensures
        match inventory::symbol_with(symbols, id) {
            Some(s) => symbols.contains(s) && s.id == id,
            None => forall|i: int| 0 <= i < symbols.len() ==> (#[trigger] symbols[i]).id != id,
        },
    decreases symbols.len(),
{
    if symbols.len() > 0 {
        let front = symbols.drop_last();
        law_symbol_lookup(front, id);
        assert(symbols[symbols.len() - 1] == symbols.last());
        if let Some(s) = inventory::symbol_with(front, id) {
            let k = choose|k: int| 0 <= k < front.len() && front[k] == s;
            assert(symbols[k] == s);
        }
        assert forall|i: int| 0 <= i < front.len() implies #[trigger] symbols[i] == front[i] by {
        }
        assert(symbols.contains(symbols.last()));
        if inventory::symbol_with(symbols, id) is None {
            assert forall|i: int| 0 <= i < symbols.len() implies (#[trigger] symbols[i]).id
                != id by {
                if i < front.len() {
                    assert(front[i] == symbols[i]);
                }
            }
        }
    }
}

} // verus!
