//! Reading source text: from what the parser made of it to [`crate::syntax`].
//!
//! The parser is `syn`. Its values are opaque to a proof, so each of them is
//! opened one level at a time by a small function that hands out its fields, and
//! what a value holds has a name. The functions that put a syntax tree together
//! out of those fields are proved to build exactly what the names say.

use vstd::prelude::*;
use quote::ToTokens;
use syn::spanned::Spanned;
use syn::Expr;
use syn::Visibility as WrittenVisibility;
use crate::syntax;
use crate::syntax::{
    Arg, ArgView, Attr, AttrView, Body, BodyView, Definition, DefinitionView, Entry,
    Expression, ExpressionView, Func, FuncView, Mac, MacView, Meta, MetaView, Node, NodeView, Param,
    ParamView, Shape, ShapeView, Sig, SigView, TraitFunc, TraitFuncView, Ty, TyShape, TyShapeView,
    TyView, Vis, VisView,
};
use crate::text;

verus! {

/// An expression as `syn` parsed it.
#[verifier::external_type_specification]
#[verifier::external_body]
pub struct ExExpr(syn::Expr);

/// What an expression holds.
pub uninterp spec fn expr_holds(e: syn::Expr) -> ExpressionView;

/// An expression opened one level.
enum ExprParts<'a> {
    Literal,
    Tuple(usize),
    Field(&'a syn::Expr),
    Path,
    Reference(&'a syn::Expr),
    MethodCall(&'a syn::Expr, String, usize),
    Macro(&'a syn::Macro),
    Binary(&'a syn::Expr, &'a syn::Expr),
    Unary(&'a syn::Expr),
    Call,
    Other,
}

spec fn expr_parts(p: ExprParts, name: Option<Seq<char>>) -> ShapeView {
    match p {
        ExprParts::Literal => ShapeView::Literal,
        ExprParts::Tuple(n) => ShapeView::Tuple(n),
        ExprParts::Field(base) => ShapeView::Field(Box::new(expr_holds(*base))),
        ExprParts::Path => ShapeView::Path(name),
        ExprParts::Reference(inner) => ShapeView::Reference(Box::new(expr_holds(*inner))),
        ExprParts::MethodCall(receiver, method, n) => ShapeView::MethodCall(
            Box::new(expr_holds(*receiver)),
            method@,
            n,
        ),
        ExprParts::Macro(m) => ShapeView::Macro(macro_holds(*m).name, macro_holds(*m).tokens),
        ExprParts::Binary(left, right) => ShapeView::Binary(
            expr_holds(*left).text,
            expr_holds(*right).text,
        ),
        ExprParts::Unary(inner) => ShapeView::Unary(Box::new(expr_holds(*inner))),
        ExprParts::Call => ShapeView::Call,
        ExprParts::Other => ShapeView::Other,
    }
}

/// The identifier that an expression is, if it is one.
spec fn ident_of(e: ExpressionView) -> Option<Seq<char>> {
    match e.shape {
        ShapeView::Path(name) => name,
        _ => None,
    }
}

/// Tells the variants of `syn::Expr` apart and hands out their fields: of a
/// tuple and of a method call the number of members and arguments
/// (`Punctuated::len`). What a path's identifier is, [`expr_ident`] says.
#[verifier::external_body]
fn open_expr(e: &syn::Expr) -> (r: ExprParts<'_>)
    ensures
        expr_parts(r, ident_of(expr_holds(*e))) == expr_holds(*e).shape,
{
    match e {
        Expr::Lit(_) => ExprParts::Literal,
        Expr::Tuple(t) => ExprParts::Tuple(t.elems.len()),
        Expr::Field(f) => ExprParts::Field(&f.base),
        Expr::Path(_) => ExprParts::Path,
        Expr::Reference(r) => ExprParts::Reference(&r.expr),
        Expr::MethodCall(m) => ExprParts::MethodCall(&m.receiver, m.method.to_string(), m.args.len()),
        Expr::Macro(m) => ExprParts::Macro(&m.mac),
        Expr::Binary(b) => ExprParts::Binary(&b.left, &b.right),
        Expr::Unary(u) => ExprParts::Unary(&u.expr),
        Expr::Call(_) => ExprParts::Call,
        _ => ExprParts::Other,
    }
}

/// The identifier of an expression that is a path of one plain segment
/// (`Path::get_ident`), and none of any other.
#[verifier::external_body]
fn expr_ident(e: &syn::Expr) -> (r: Option<String>)
    ensures
        text::option_text(r) == ident_of(expr_holds(*e)),
{
    match e {
        Expr::Path(p) => p.path.get_ident().map(|i| i.to_string()),
        _ => None,
    }
}

/// The text of an expression's tokens: `ToTokens::to_token_stream`, displayed.
#[verifier::external_body]
fn expr_text(e: &syn::Expr) -> (r: String)
    ensures
        r@ == expr_holds(*e).text,
{
    e.to_token_stream().to_string()
}

/// Builds an expression.
fn lower_expr(e: &syn::Expr) -> (r: Expression)
    ensures
        r@ == expr_holds(*e),
    decreases expr_holds(*e),
{
    let parts = open_expr(e);
    let ghost held = expr_holds(*e);
    let shape = match parts {
        ExprParts::Literal => Shape::Literal,
        ExprParts::Tuple(n) => Shape::Tuple(n),
        ExprParts::Field(base) => {
            assert(held.shape->Field_0 == expr_holds(*base));
            Shape::Field(Box::new(lower_expr(base)))
        },
        ExprParts::Path => Shape::Path(expr_ident(e)),
        ExprParts::Reference(inner) => {
            assert(held.shape->Reference_0 == expr_holds(*inner));
            Shape::Reference(Box::new(lower_expr(inner)))
        },
        ExprParts::MethodCall(receiver, method, n) => {
            assert(held.shape->MethodCall_0 == expr_holds(*receiver));
            Shape::MethodCall(Box::new(lower_expr(receiver)), method, n)
        },
        ExprParts::Macro(m) => {
            let opened = open_macro(m);
            Shape::Macro(opened.name, opened.tokens)
        },
        ExprParts::Binary(left, right) => Shape::Binary(expr_text(left), expr_text(right)),
        ExprParts::Unary(inner) => {
            assert(held.shape->Unary_0 == expr_holds(*inner));
            Shape::Unary(Box::new(lower_expr(inner)))
        },
        ExprParts::Call => Shape::Call,
        ExprParts::Other => Shape::Other,
    };
    Expression { text: expr_text(e), shape }
}

/// A call of a function as `syn` parsed it.
#[verifier::external_type_specification]
#[verifier::external_body]
pub struct ExExprCall(syn::ExprCall);

/// A method call as `syn` parsed it.
#[verifier::external_type_specification]
#[verifier::external_body]
pub struct ExExprMethodCall(syn::ExprMethodCall);

/// A visitor that collects the names called in an expression.
struct CallCollector {
    names: Vec<String>,
}

impl<'ast> syn::visit::Visit<'ast> for CallCollector {
    /// Keeps the last segment of the path called, and goes on inside.
    #[verifier::external_body]
    fn visit_expr_call(&mut self, node: &'ast syn::ExprCall) {
        if let syn::Expr::Path(p) = &*node.func {
            self.names.extend(p.path.segments.last().map(|s| s.ident.to_string()));
        }
        syn::visit::visit_expr_call(self, node);
    }

    /// Keeps the method called, and goes on inside.
    #[verifier::external_body]
    fn visit_expr_method_call(&mut self, node: &'ast syn::ExprMethodCall) {
        self.names.push(node.method.to_string());
        syn::visit::visit_expr_method_call(self, node);
    }
}

/// The names that an expression calls.
pub uninterp spec fn expr_calls(e: syn::Expr) -> Seq<Seq<char>>;

/// The names of the functions and methods called in an expression, in the order
/// in which `syn::visit::visit_expr` comes to the calls. A function called
/// through anything but a path has no name.
#[verifier::external_body]
fn called_names(e: &syn::Expr) -> (r: Vec<String>)
    ensures
        text::texts(r@) == expr_calls(*e),
{
    let mut collector = CallCollector { names: Vec::new() };
    syn::visit::Visit::visit_expr(&mut collector, e);
    collector.names
}

/// A macro call as `syn` parsed it.
#[verifier::external_type_specification]
#[verifier::external_body]
pub struct ExMacro(syn::Macro);

/// What a macro call holds.
pub uninterp spec fn macro_holds(m: syn::Macro) -> MacView;

/// A macro call opened one level.
struct MacroParts {
    name: Option<String>,
    line: Option<usize>,
    tokens: String,
}

/// The path and the tokens of a macro call: the last segment of its path, the
/// line of the first one, and the tokens between its delimiters, displayed.
#[verifier::external_body]
fn open_macro(m: &syn::Macro) -> (r: MacroParts)
    ensures
        text::option_text(r.name) == macro_holds(*m).name,
        r.line == macro_holds(*m).line,
        r.tokens@ == macro_holds(*m).tokens,
{
    MacroParts {
        name: m.path.segments.last().map(|s| s.ident.to_string()),
        line: m.path.segments.first().map(|s| s.ident.span().start().line),
        tokens: m.tokens.to_string(),
    }
}

spec fn arg_holds(e: syn::Expr) -> ArgView {
    ArgView { expr: expr_holds(e), calls: expr_calls(e) }
}

/// The arguments of a macro call: `Macro::parse_body_with` on comma-separated
/// expressions, and none where the tokens are not that.
#[verifier::external_body]
fn macro_arguments(m: &syn::Macro) -> (r: Vec<syn::Expr>)
    ensures
        r@.map_values(|e: syn::Expr| arg_holds(e)) == macro_holds(*m).args,
{
    let parser = syn::punctuated::Punctuated::<syn::Expr, syn::token::Comma>::parse_terminated;
    match m.parse_body_with(parser) {
        Ok(args) => args.into_iter().collect(),
        Err(_) => Vec::new(),
    }
}

/// Builds a macro call.
fn lower_macro(m: &syn::Macro) -> (r: Mac)
    ensures
        r@ == macro_holds(*m),
{
    let parts = open_macro(m);
    let found = macro_arguments(m);
    let ghost held = macro_holds(*m).args;
    let mut args: Vec<Arg> = Vec::new();
    let mut i: usize = 0;
    while i < found.len()
        invariant
            i <= found@.len(),
            args@.len() == i,
            held == found@.map_values(|e: syn::Expr| arg_holds(e)),
            forall|k: int| 0 <= k < i ==> (#[trigger] args@[k])@ == held[k],
        decreases found@.len() - i,
    {
        args.push(Arg { expr: lower_expr(&found[i]), calls: called_names(&found[i]) });
        i += 1;
    }
    let r = Mac { name: parts.name, line: parts.line, tokens: parts.tokens, args };
    assert(r@.args =~= held);
    r
}

// ---------------------------------------------------------------------------
// Types and signatures
// ---------------------------------------------------------------------------

/// A type as `syn` parsed it.
#[verifier::external_type_specification]
#[verifier::external_body]
pub struct ExType(syn::Type);

/// What a type holds.
pub uninterp spec fn type_holds(t: syn::Type) -> TyView;

/// A type opened one level.
enum TypeParts<'a> {
    Never,
    Tuple(usize),
    ImplTrait,
    Path(Option<String>, Option<&'a syn::Type>),
    Reference(bool),
    Other,
}

spec fn type_parts(p: TypeParts) -> TyShapeView {
    match p {
        TypeParts::Never => TyShapeView::Never,
        TypeParts::Tuple(n) => TyShapeView::Tuple(n),
        TypeParts::ImplTrait => TyShapeView::ImplTrait,
        TypeParts::Path(last, argument) => TyShapeView::Path(
            text::option_text(last),
            match argument {
                Some(t) => Some(Box::new(type_holds(*t))),
                None => None,
            },
        ),
        TypeParts::Reference(mutable) => TyShapeView::Reference(mutable),
        TypeParts::Other => TyShapeView::Other,
    }
}

/// Tells the variants of `syn::Type` apart and hands out their fields: of a path
/// its last segment, and the first of that segment's arguments in angle brackets
/// where it is a type.
#[verifier::external_body]
fn open_type(t: &syn::Type) -> (r: TypeParts<'_>)
    ensures
        type_parts(r) == type_holds(*t).shape,
{
    match t {
        syn::Type::Never(_) => TypeParts::Never,
        syn::Type::Tuple(t) => TypeParts::Tuple(t.elems.len()),
        syn::Type::ImplTrait(_) => TypeParts::ImplTrait,
        syn::Type::Path(p) => TypeParts::Path(
            p.path.segments.last().map(|s| s.ident.to_string()),
            match p.path.segments.last().map(|s| &s.arguments) {
                Some(syn::PathArguments::AngleBracketed(a)) => match a.args.first() { Some(syn::GenericArgument::Type(t)) => Some(t), _ => None },
                _ => None,
            },
        ),
        syn::Type::Reference(r) => TypeParts::Reference(r.mutability.is_some()),
        _ => TypeParts::Other,
    }
}

/// The text of a type's tokens: `ToTokens::to_token_stream`, displayed.
#[verifier::external_body]
fn type_text(t: &syn::Type) -> (r: String)
    ensures
        r@ == type_holds(*t).text,
{
    t.to_token_stream().to_string()
}

/// Builds a type.
fn lower_type(t: &syn::Type) -> (r: Ty)
    ensures
        r@ == type_holds(*t),
    decreases type_holds(*t),
{
    let parts = open_type(t);
    let ghost held = type_holds(*t);
    let shape = match parts {
        TypeParts::Never => TyShape::Never,
        TypeParts::Tuple(n) => TyShape::Tuple(n),
        TypeParts::ImplTrait => TyShape::ImplTrait,
        TypeParts::Path(last, argument) => {
            let lowered = match argument {
                Some(a) => {
                    assert(held.shape->Path_1 is Some);
                    assert(held.shape->Path_1->0 == type_holds(*a));
                    Some(Box::new(lower_type(a)))
                },
                None => None,
            };
            TyShape::Path(last, lowered)
        },
        TypeParts::Reference(mutable) => TyShape::Reference(mutable),
        TypeParts::Other => TyShape::Other,
    };
    Ty { text: type_text(t), shape }
}

/// A parameter as `syn` parsed it.
#[verifier::external_type_specification]
#[verifier::external_body]
pub struct ExFnArg(syn::FnArg);

/// What a parameter holds.
pub uninterp spec fn argument_holds(a: syn::FnArg) -> ParamView;

/// A parameter opened one level.
enum ArgumentParts<'a> {
    Receiver(bool, bool),
    Typed(&'a syn::Type),
}

spec fn argument_parts(p: ArgumentParts) -> ParamView {
    match p {
        ArgumentParts::Receiver(reference, mutable) => ParamView::Receiver(reference, mutable),
        ArgumentParts::Typed(t) => ParamView::Typed(type_holds(*t)),
    }
}

/// Tells the variants of `syn::FnArg` apart: of a receiver whether `&` and `mut`
/// are written, of another parameter its type.
#[verifier::external_body]
fn open_argument(a: &syn::FnArg) -> (r: ArgumentParts<'_>)
    ensures
        argument_parts(r) == argument_holds(*a),
{
    match a {
        syn::FnArg::Receiver(r) => ArgumentParts::Receiver(
            r.reference.is_some(),
            r.mutability.is_some(),
        ),
        syn::FnArg::Typed(t) => ArgumentParts::Typed(&t.ty),
    }
}

/// A signature as `syn` parsed it.
#[verifier::external_type_specification]
#[verifier::external_body]
pub struct ExSignature(syn::Signature);

/// What a signature holds.
pub uninterp spec fn signature_holds(s: syn::Signature) -> SigView;

/// A signature opened one level.
struct SignatureParts<'a> {
    name: String,
    line: usize,
    column: usize,
    fn_line: usize,
    is_async: bool,
    is_const: bool,
    is_unsafe: bool,
    inputs: Vec<&'a syn::FnArg>,
    output: Option<&'a syn::Type>,
}

spec fn signature_parts(p: SignatureParts) -> SigView {
    SigView {
        name: p.name@,
        line: p.line,
        column: p.column,
        fn_line: p.fn_line,
        is_async: p.is_async,
        is_const: p.is_const,
        is_unsafe: p.is_unsafe,
        params: p.inputs@.map_values(|a: &syn::FnArg| argument_holds(*a)),
        output: match p.output {
            Some(t) => Some(type_holds(*t)),
            None => None,
        },
    }
}

/// The fields of `syn::Signature`: the name and where it stands, the line of the
/// `fn` keyword, which modifiers are written, the parameters, and the return type
/// where one is written.
#[verifier::external_body]
fn open_signature(s: &syn::Signature) -> (r: SignatureParts<'_>)
    ensures
        signature_parts(r) == signature_holds(*s),
{
    SignatureParts {
        name: s.ident.to_string(),
        line: s.ident.span().start().line,
        column: s.ident.span().start().column,
        fn_line: s.fn_token.span.start().line,
        is_async: s.asyncness.is_some(),
        is_const: s.constness.is_some(),
        is_unsafe: s.unsafety.is_some(),
        inputs: s.inputs.iter().collect(),
        output: match &s.output { syn::ReturnType::Type(_, t) => Some(t), syn::ReturnType::Default => None },
    }
}

/// Builds a signature.
fn lower_signature(s: &syn::Signature) -> (r: Sig)
    ensures
        r@ == signature_holds(*s),
{
    let parts = open_signature(s);
    let ghost held = signature_holds(*s).params;
    let mut params: Vec<Param> = Vec::new();
    let mut i: usize = 0;
    while i < parts.inputs.len()
        invariant
            i <= parts.inputs@.len(),
            params@.len() == i,
            held == parts.inputs@.map_values(|a: &syn::FnArg| argument_holds(*a)),
            forall|k: int| 0 <= k < i ==> (#[trigger] params@[k])@ == held[k],
        decreases parts.inputs@.len() - i,
    {
        let param = match open_argument(parts.inputs[i]) {
            ArgumentParts::Receiver(reference, mutable) => Param::Receiver(reference, mutable),
            ArgumentParts::Typed(t) => Param::Typed(lower_type(t)),
        };
        assert(param@ == held[i as int]);
        params.push(param);
        i += 1;
    }
    let output = match parts.output {
        Some(t) => Some(lower_type(t)),
        None => None,
    };
    let r = Sig {
        name: parts.name,
        line: parts.line,
        column: parts.column,
        fn_line: parts.fn_line,
        is_async: parts.is_async,
        is_const: parts.is_const,
        is_unsafe: parts.is_unsafe,
        params,
        output,
    };
    assert(r@.params =~= held);
    r
}

// ---------------------------------------------------------------------------
// Attributes and visibility
// ---------------------------------------------------------------------------

/// An attribute as `syn` parsed it.
#[verifier::external_type_specification]
#[verifier::external_body]
pub struct ExAttribute(syn::Attribute);

/// What an attribute holds.
pub uninterp spec fn attribute_holds(a: syn::Attribute) -> AttrView;

/// What an attribute holds besides its path, opened one level.
enum MetaParts {
    Path,
    List(String),
    Value(Option<String>),
}

/// The path of an attribute: its identifier (`Path::get_ident`), and its last
/// segment.
#[verifier::external_body]
fn attribute_path(a: &syn::Attribute) -> (r: (Option<String>, Option<String>))
    ensures
        text::option_text(r.0) == attribute_holds(*a).name,
        text::option_text(r.1) == attribute_holds(*a).last,
{
    (
        a.path().get_ident().map(|i| i.to_string()),
        a.path().segments.last().map(|s| s.ident.to_string()),
    )
}

/// Tells the variants of `syn::Meta` apart: of a list its tokens, displayed, and
/// of a value the contents of a string literal (`LitStr::value`).
#[verifier::external_body]
fn open_meta(a: &syn::Attribute) -> (r: MetaParts)
    ensures
        match attribute_holds(*a).meta {
            MetaView::Path => r is Path,
            MetaView::List(tokens, _) => r is List && r->List_0@ == tokens,
            MetaView::Value(value) => r is Value && text::option_text(r->Value_0) == value,
        },
{
    match &a.meta {
        syn::Meta::Path(_) => MetaParts::Path,
        syn::Meta::List(list) => MetaParts::List(list.tokens.to_string()),
        syn::Meta::NameValue(nv) => MetaParts::Value(match &nv.value {
            syn::Expr::Lit(syn::ExprLit { lit: syn::Lit::Str(s), .. }) => Some(s.value()),
            _ => None,
        }),
    }
}

/// The entries of an attribute's list, as far as they can be read:
/// `Attribute::parse_nested_meta`, which reads names separated by commas, and
/// behind each name the names in parentheses in the same way.
#[verifier::external_body]
fn attribute_entries(a: &syn::Attribute) -> (r: Vec<Entry>)
    ensures
        attribute_holds(*a).meta matches MetaView::List(_, entries) ==> r@.map_values(
            |e: Entry| e@,
        ) == entries,
{
    let mut out: Vec<Entry> = Vec::new();
    let _ = a.parse_nested_meta(|meta| {
        let mut entry = Entry { name: meta.path.get_ident().map(|i| i.to_string()), grouped: meta.input.peek(syn::token::Paren), inner: Vec::new() };
        let _ = meta.parse_nested_meta(|m| {
            entry.inner.push(m.path.get_ident().map(|i| i.to_string()));
            Ok(())
        });
        out.push(entry);
        Ok(())
    });
    out
}

/// Builds an attribute.
fn lower_attribute(a: &syn::Attribute) -> (r: Attr)
    ensures
        r@ == attribute_holds(*a),
{
    let (name, last) = attribute_path(a);
    let meta = match open_meta(a) {
        MetaParts::Path => Meta::Path,
        MetaParts::List(tokens) => Meta::List(tokens, attribute_entries(a)),
        MetaParts::Value(value) => Meta::Value(value),
    };
    Attr { name, last, meta }
}

spec fn attributes_hold(s: Seq<syn::Attribute>) -> Seq<AttrView> {
    s.map_values(|a: syn::Attribute| attribute_holds(a))
}

/// Builds a list of attributes.
fn lower_attributes(attrs: &Vec<syn::Attribute>) -> (r: Vec<Attr>)
    ensures
        syntax::attr_views(r@) == attributes_hold(attrs@),
{
    let mut out: Vec<Attr> = Vec::new();
    let mut i: usize = 0;
    while i < attrs.len()
        invariant
            i <= attrs@.len(),
            out@.len() == i,
            forall|k: int| 0 <= k < i ==> (#[trigger] out@[k])@ == attribute_holds(attrs@[k]),
        decreases attrs@.len() - i,
    {
        out.push(lower_attribute(&attrs[i]));
        i += 1;
    }
    assert(syntax::attr_views(out@) =~= attributes_hold(attrs@));
    out
}

/// A visibility as `syn` parsed it.
#[verifier::external_type_specification]
#[verifier::external_body]
pub struct ExVisibility(WrittenVisibility);

/// What a visibility holds.
pub uninterp spec fn visibility_holds(v: syn::Visibility) -> VisView;

/// Tells the variants of `syn::Visibility` apart: of a restricted one the
/// identifier of its path (`Path::get_ident`).
#[verifier::external_body]
fn lower_visibility(v: &syn::Visibility) -> (r: Vis)
    ensures
        r@ == visibility_holds(*v),
{
    match v {
        syn::Visibility::Public(_) => Vis::Public,
        syn::Visibility::Restricted(r) => Vis::Restricted(r.path.get_ident().map(|i| i.to_string())),
        syn::Visibility::Inherited => Vis::Inherited,
    }
}

// ---------------------------------------------------------------------------
// Bodies
// ---------------------------------------------------------------------------

/// One place in a body, opened one level.
enum NodeParts<'a> {
    Macro(&'a syn::Macro),
    MethodCall(Option<String>, String, usize),
    Try(usize),
    Local(bool, usize, Option<&'a syn::Expr>),
    ItemBegin,
    ItemEnd,
}

spec fn node_parts(p: NodeParts) -> NodeView {
    match p {
        NodeParts::Macro(m) => NodeView::Macro(macro_holds(*m)),
        NodeParts::MethodCall(receiver, method, line) => NodeView::MethodCall(
            text::option_text(receiver),
            method@,
            line,
        ),
        NodeParts::Try(line) => NodeView::Try(line),
        NodeParts::Local(wild, line, init) => NodeView::Local(
            wild,
            line,
            match init {
                Some(e) => Some(expr_holds(*e)),
                None => None,
            },
        ),
        NodeParts::ItemBegin => NodeView::ItemBegin,
        NodeParts::ItemEnd => NodeView::ItemEnd,
    }
}

/// A macro in expression position as `syn` parsed it.
#[verifier::external_type_specification]
#[verifier::external_body]
pub struct ExExprMacro(syn::ExprMacro);

/// A macro in statement position as `syn` parsed it.
#[verifier::external_type_specification]
#[verifier::external_body]
pub struct ExStmtMacro(syn::StmtMacro);

/// A `?` expression as `syn` parsed it.
#[verifier::external_type_specification]
#[verifier::external_body]
pub struct ExExprTry(syn::ExprTry);

/// A `let` as `syn` parsed it.
#[verifier::external_type_specification]
#[verifier::external_body]
pub struct ExLocal(syn::Local);

/// An item as `syn` parsed it.
#[verifier::external_type_specification]
#[verifier::external_body]
pub struct ExItem(syn::Item);

/// A visitor that collects what the audit looks at in a body.
struct NodeCollector<'a> {
    found: Vec<NodeParts<'a>>,
}

impl<'ast> syn::visit::Visit<'ast> for NodeCollector<'ast> {
    /// Keeps a macro in expression position.
    #[verifier::external_body]
    fn visit_expr_macro(&mut self, node: &'ast syn::ExprMacro) {
        self.found.push(NodeParts::Macro(&node.mac));
        syn::visit::visit_expr_macro(self, node);
    }

    /// Keeps a macro in statement position, which is a node of its own.
    #[verifier::external_body]
    fn visit_stmt_macro(&mut self, node: &'ast syn::StmtMacro) {
        self.found.push(NodeParts::Macro(&node.mac));
        syn::visit::visit_stmt_macro(self, node);
    }

    /// Keeps a method call, with the identifier of its receiver.
    #[verifier::external_body]
    fn visit_expr_method_call(&mut self, node: &'ast syn::ExprMethodCall) {
        let receiver = match &*node.receiver {
            syn::Expr::Path(p) => p.path.get_ident().map(|i| i.to_string()),
            _ => None,
        };
        let line = node.method.span().start().line;
        self.found.push(NodeParts::MethodCall(receiver, node.method.to_string(), line));
        syn::visit::visit_expr_method_call(self, node);
    }

    /// Keeps a `?`.
    #[verifier::external_body]
    fn visit_expr_try(&mut self, node: &'ast syn::ExprTry) {
        self.found.push(NodeParts::Try(node.question_token.span.start().line));
        syn::visit::visit_expr_try(self, node);
    }

    /// Keeps a `let`.
    #[verifier::external_body]
    fn visit_local(&mut self, node: &'ast syn::Local) {
        let wild = matches!(&node.pat, syn::Pat::Wild(_));
        let line = node.let_token.span.start().line;
        let init = node.init.as_ref().map(|i| &*i.expr);
        self.found.push(NodeParts::Local(wild, line, init));
        syn::visit::visit_local(self, node);
    }

    /// Keeps where an item declared inside the body begins and ends.
    #[verifier::external_body]
    fn visit_item(&mut self, node: &'ast syn::Item) {
        self.found.push(NodeParts::ItemBegin);
        syn::visit::visit_item(self, node);
        self.found.push(NodeParts::ItemEnd);
    }
}

/// A body as `syn` parsed it.
#[verifier::external_type_specification]
#[verifier::external_body]
pub struct ExBlock(syn::Block);

/// What a body holds.
pub uninterp spec fn block_holds(b: syn::Block) -> BodyView;

/// What the audit looks at in a body, in the order in which
/// `syn::visit::visit_block` comes to it: each node before what it contains, and
/// what an item declared inside contains between the item's beginning and its end.
#[verifier::external_body]
fn block_nodes(b: &syn::Block) -> (r: Vec<NodeParts<'_>>)
    ensures
        r@.map_values(|p: NodeParts| node_parts(p)) == block_holds(*b).nodes,
{
    let mut collector = NodeCollector { found: Vec::new() };
    syn::visit::Visit::visit_block(&mut collector, b);
    collector.found
}

/// A body opened one level.
struct BlockParts<'a> {
    statements: usize,
    first: Option<&'a syn::Expr>,
    open_line: usize,
    open_column: usize,
    end_line: usize,
}

/// The fields of `syn::Block`: how many statements there are, the first one where
/// it is an expression, and where the braces stand (`Spanned::span` gives the end).
#[verifier::external_body]
fn open_block(b: &syn::Block) -> (r: BlockParts<'_>)
    ensures
        r.statements == block_holds(*b).statements,
        r.open_line == block_holds(*b).open_line,
        r.open_column == block_holds(*b).open_column,
        r.end_line == block_holds(*b).end_line,
        match r.first {
            Some(e) => block_holds(*b).first == Some(expr_holds(*e)),
            None => block_holds(*b).first is None,
        },
{
    BlockParts {
        statements: b.stmts.len(),
        first: match b.stmts.first() { Some(syn::Stmt::Expr(e, _)) => Some(e), _ => None },
        open_line: b.brace_token.span.open().start().line,
        open_column: b.brace_token.span.open().start().column,
        end_line: b.span().end().line,
    }
}

/// Builds one node of a body.
fn lower_node(p: &NodeParts<'_>) -> (r: Node)
    ensures
        r@ == node_parts(*p),
{
    match p {
        NodeParts::Macro(m) => Node::Macro(lower_macro(m)),
        NodeParts::MethodCall(receiver, method, line) => Node::MethodCall(
            text::copy_option(receiver),
            method.clone(),
            *line,
        ),
        NodeParts::Try(line) => Node::Try(*line),
        NodeParts::Local(wild, line, init) => {
            let init = match init {
                Some(e) => Some(lower_expr(e)),
                None => None,
            };
            Node::Local(*wild, *line, init)
        },
        NodeParts::ItemBegin => Node::ItemBegin,
        NodeParts::ItemEnd => Node::ItemEnd,
    }
}

/// Builds a body.
fn lower_block(b: &syn::Block) -> (r: Body)
    ensures
        r@ == block_holds(*b),
{
    let parts = open_block(b);
    let found = block_nodes(b);
    let ghost held = block_holds(*b).nodes;
    let mut nodes: Vec<Node> = Vec::new();
    let mut i: usize = 0;
    while i < found.len()
        invariant
            i <= found@.len(),
            nodes@.len() == i,
            held == found@.map_values(|p: NodeParts| node_parts(p)),
            forall|k: int| 0 <= k < i ==> (#[trigger] nodes@[k])@ == held[k],
        decreases found@.len() - i,
    {
        nodes.push(lower_node(&found[i]));
        i += 1;
    }
    let first = match parts.first {
        Some(e) => Some(lower_expr(e)),
        None => None,
    };
    let r = Body {
        statements: parts.statements,
        first,
        open_line: parts.open_line,
        open_column: parts.open_column,
        end_line: parts.end_line,
        nodes,
    };
    assert(r@.nodes =~= held);
    r
}

// ---------------------------------------------------------------------------
// Items
// ---------------------------------------------------------------------------

/// An item of an `impl` block as `syn` parsed it.
#[verifier::external_type_specification]
#[verifier::external_body]
pub struct ExImplItem(syn::ImplItem);

/// The function that an item of an `impl` block holds, if it is one.
pub uninterp spec fn impl_item_holds(i: syn::ImplItem) -> Option<FuncView>;

/// A function opened one level.
struct FuncParts<'a> {
    attrs: &'a Vec<syn::Attribute>,
    vis: &'a syn::Visibility,
    sig: &'a syn::Signature,
    block: &'a syn::Block,
}

spec fn func_parts(p: FuncParts) -> FuncView {
    FuncView {
        attrs: attributes_hold(p.attrs@),
        vis: visibility_holds(*p.vis),
        sig: signature_holds(*p.sig),
        body: block_holds(*p.block),
    }
}

/// The fields of `syn::ImplItemFn`; no other item of an `impl` block is a
/// function.
#[verifier::external_body]
fn open_impl_item(i: &syn::ImplItem) -> (r: Option<FuncParts<'_>>)
    ensures
        match r {
            Some(p) => impl_item_holds(*i) == Some(func_parts(p)),
            None => impl_item_holds(*i) is None,
        },
{
    match i {
        syn::ImplItem::Fn(f) => Some(FuncParts { attrs: &f.attrs, vis: &f.vis, sig: &f.sig, block: &f.block }),
        _ => None,
    }
}

/// Builds a function.
fn lower_func(p: FuncParts<'_>) -> (r: Func)
    ensures
        r@ == func_parts(p),
{
    Func {
        attrs: lower_attributes(p.attrs),
        vis: lower_visibility(p.vis),
        sig: lower_signature(p.sig),
        body: lower_block(p.block),
    }
}

/// The functions among the items of an `impl` block.
spec fn impl_items_hold(s: Seq<syn::ImplItem>) -> Seq<FuncView>
    decreases s.len(),
{
    if s.len() == 0 {
        Seq::empty()
    } else {
        match impl_item_holds(s.last()) {
            Some(f) => impl_items_hold(s.drop_last()).push(f),
            None => impl_items_hold(s.drop_last()),
        }
    }
}

/// Builds the functions of an `impl` block.
fn lower_impl_items(items: &Vec<syn::ImplItem>) -> (r: Vec<Func>)
    ensures
        r@.map_values(|f: Func| f@) == impl_items_hold(items@),
{
    let mut out: Vec<Func> = Vec::new();
    let mut i: usize = 0;
    while i < items.len()
        invariant
            i <= items@.len(),
            out@.map_values(|f: Func| f@) == impl_items_hold(items@.take(i as int)),
        decreases items@.len() - i,
    {
        let ghost before = out@.map_values(|f: Func| f@);
        assert(items@.take(i as int + 1).drop_last() =~= items@.take(i as int));
        match open_impl_item(&items[i]) {
            Some(p) => {
                let f = lower_func(p);
                let ghost view = f@;
                out.push(f);
                assert(out@.map_values(|f: Func| f@) =~= before.push(view));
            },
            None => {},
        }
        i += 1;
    }
    assert(items@.take(items@.len() as int) =~= items@);
    out
}

/// An item of a trait as `syn` parsed it.
#[verifier::external_type_specification]
#[verifier::external_body]
pub struct ExTraitItem(syn::TraitItem);

/// The function that an item of a trait holds, if it is one.
pub uninterp spec fn trait_item_holds(i: syn::TraitItem) -> Option<TraitFuncView>;

/// A function of a trait opened one level.
struct TraitFuncParts<'a> {
    attrs: &'a Vec<syn::Attribute>,
    sig: &'a syn::Signature,
    default: Option<&'a syn::Block>,
}

spec fn trait_func_parts(p: TraitFuncParts) -> TraitFuncView {
    TraitFuncView {
        attrs: attributes_hold(p.attrs@),
        sig: signature_holds(*p.sig),
        default: match p.default {
            Some(b) => Some(block_holds(*b)),
            None => None,
        },
    }
}

/// The fields of `syn::TraitItemFn`; no other item of a trait is a function.
#[verifier::external_body]
fn open_trait_item(i: &syn::TraitItem) -> (r: Option<TraitFuncParts<'_>>)
    ensures
        match r {
            Some(p) => trait_item_holds(*i) == Some(trait_func_parts(p)),
            None => trait_item_holds(*i) is None,
        },
{
    match i {
        syn::TraitItem::Fn(f) => Some(TraitFuncParts { attrs: &f.attrs, sig: &f.sig, default: f.default.as_ref() }),
        _ => None,
    }
}

/// The functions among the items of a trait.
spec fn trait_items_hold(s: Seq<syn::TraitItem>) -> Seq<TraitFuncView>
    decreases s.len(),
{
    if s.len() == 0 {
        Seq::empty()
    } else {
        match trait_item_holds(s.last()) {
            Some(f) => trait_items_hold(s.drop_last()).push(f),
            None => trait_items_hold(s.drop_last()),
        }
    }
}

/// Builds the functions of a trait.
fn lower_trait_items(items: &Vec<syn::TraitItem>) -> (r: Vec<TraitFunc>)
    ensures
        r@.map_values(|f: TraitFunc| f@) == trait_items_hold(items@),
{
    let mut out: Vec<TraitFunc> = Vec::new();
    let mut i: usize = 0;
    while i < items.len()
        invariant
            i <= items@.len(),
            out@.map_values(|f: TraitFunc| f@) == trait_items_hold(items@.take(i as int)),
        decreases items@.len() - i,
    {
        let ghost before = out@.map_values(|f: TraitFunc| f@);
        assert(items@.take(i as int + 1).drop_last() =~= items@.take(i as int));
        match open_trait_item(&items[i]) {
            Some(p) => {
                let default = match p.default {
                    Some(b) => Some(lower_block(b)),
                    None => None,
                };
                let f = TraitFunc {
                    attrs: lower_attributes(p.attrs),
                    sig: lower_signature(p.sig),
                    default,
                };
                let ghost view = f@;
                out.push(f);
                assert(out@.map_values(|f: TraitFunc| f@) =~= before.push(view));
            },
            None => {},
        }
        i += 1;
    }
    assert(items@.take(items@.len() as int) =~= items@);
    out
}

/// What an item holds.
pub uninterp spec fn item_holds(i: syn::Item) -> DefinitionView;

/// What the items of a list hold.
pub open spec fn items_hold(s: Seq<syn::Item>) -> Seq<DefinitionView> {
    s.map_values(|i: syn::Item| item_holds(i))
}

/// An item opened one level.
enum ItemParts<'a> {
    Func(FuncParts<'a>),
    Impl(&'a syn::Type, Option<String>, &'a Vec<syn::ImplItem>),
    Trait(String, &'a syn::Visibility, &'a Vec<syn::TraitItem>),
    Mod(&'a Vec<syn::Attribute>, String, Option<&'a Vec<syn::Item>>),
    Other,
}

spec fn item_parts(p: ItemParts) -> DefinitionView {
    match p {
        ItemParts::Func(f) => DefinitionView::Func(func_parts(f)),
        ItemParts::Impl(ty, of, items) => DefinitionView::Impl(
            type_holds(*ty),
            text::option_text(of),
            impl_items_hold(items@),
        ),
        ItemParts::Trait(name, vis, items) => DefinitionView::Trait(
            name@,
            visibility_holds(*vis),
            trait_items_hold(items@),
        ),
        ItemParts::Mod(attrs, name, items) => DefinitionView::Mod(
            attributes_hold(attrs@),
            name@,
            match items {
                Some(items) => Some(items_hold(items@)),
                None => None,
            },
        ),
        ItemParts::Other => DefinitionView::Other,
    }
}

/// Tells the variants of `syn::Item` apart and hands out their fields: of an
/// `impl` block the tokens of the trait's path, displayed, where it implements one.
#[verifier::external_body]
fn open_item(i: &syn::Item) -> (r: ItemParts<'_>)
    ensures
        item_parts(r) == item_holds(*i),
{
    match i {
        syn::Item::Fn(f) => ItemParts::Func(FuncParts { attrs: &f.attrs, vis: &f.vis, sig: &f.sig, block: &f.block }),
        syn::Item::Impl(b) => ItemParts::Impl(&b.self_ty, b.trait_.as_ref().map(|t| t.1.to_token_stream().to_string()), &b.items),
        syn::Item::Trait(t) => ItemParts::Trait(t.ident.to_string(), &t.vis, &t.items),
        syn::Item::Mod(m) => ItemParts::Mod(&m.attrs, m.ident.to_string(), m.content.as_ref().map(|c| &c.1)),
        _ => ItemParts::Other,
    }
}

/// Builds an item.
fn lower_item(i: &syn::Item) -> (r: Definition)
    ensures
        r@ == item_holds(*i),
    decreases item_holds(*i), 0nat,
{
    let parts = open_item(i);
    let ghost held = item_holds(*i);
    match parts {
        ItemParts::Func(f) => Definition::Func(lower_func(f)),
        ItemParts::Impl(ty, of, items) => Definition::Impl(
            lower_type(ty),
            of,
            lower_impl_items(items),
        ),
        ItemParts::Trait(name, vis, items) => Definition::Trait(
            name,
            lower_visibility(vis),
            lower_trait_items(items),
        ),
        ItemParts::Mod(attrs, name, items) => {
            let items = match items {
                Some(items) => {
                    assert(held->Mod_2 is Some);
                    assert(held->Mod_2->0 == items_hold(items@));
                    Some(lower_items(items))
                },
                None => None,
            };
            Definition::Mod(lower_attributes(attrs), name, items)
        },
        ItemParts::Other => Definition::Other,
    }
}

/// Builds a list of items.
fn lower_items(items: &Vec<syn::Item>) -> (r: Vec<Definition>)
    ensures
        syntax::definition_views(r@) == items_hold(items@),
    decreases items_hold(items@), 1nat,
{
    let ghost held = items_hold(items@);
    let mut out: Vec<Definition> = Vec::new();
    let mut i: usize = 0;
    while i < items.len()
        invariant
            i <= items@.len(),
            held == items_hold(items@),
            syntax::definition_views(out@) == held.take(i as int),
        decreases items@.len() - i,
    {
        assert(held[i as int] == item_holds(items@[i as int]));
        let ghost before = out@;
        let item = lower_item(&items[i]);
        out.push(item);
        assert(out@.drop_last() =~= before);
        assert(held.take(i as int + 1) =~= held.take(i as int).push(held[i as int]));
        i += 1;
    }
    assert(held.take(held.len() as int) =~= held);
    out
}

// ---------------------------------------------------------------------------
// Source text
// ---------------------------------------------------------------------------

/// What the parser makes of a file: its items, or the message that says why it
/// is no file.
pub uninterp spec fn file_holds(source: Seq<char>) -> Result<Seq<DefinitionView>, Seq<char>>;

/// The items of a source file: `syn::parse_file`, its error displayed.
#[verifier::external_body]
fn parse_source(source: &str) -> (r: Result<Vec<syn::Item>, String>)
    ensures
        match r {
            Ok(items) => file_holds(source@) == Ok::<Seq<DefinitionView>, Seq<char>>(
                items_hold(items@),
            ),
            Err(message) => file_holds(source@) == Err::<Seq<DefinitionView>, Seq<char>>(message@),
        },
{
    match syn::parse_file(source) {
        Ok(file) => Ok(file.items),
        Err(e) => Err(e.to_string()),
    }
}

/// Reads a source file.
pub fn read_file(source: &str) -> (r: Result<Vec<Definition>, String>)
    ensures
        match r {
            Ok(items) => file_holds(source@) == Ok::<Seq<DefinitionView>, Seq<char>>(
                syntax::definition_views(items@),
            ),
            Err(message) => file_holds(source@) == Err::<Seq<DefinitionView>, Seq<char>>(message@),
        },
{
    match parse_source(source) {
        Ok(items) => Ok(lower_items(&items)),
        Err(message) => Err(message),
    }
}

/// What the parser makes of a snippet that is a file of its own.
pub uninterp spec fn snippet_holds(source: Seq<char>) -> Option<Seq<DefinitionView>>;

/// The items of a snippet: `syn::parse_str` for a `syn::File`, which unlike
/// `syn::parse_file` takes neither a byte order mark nor a `#!` line.
#[verifier::external_body]
fn parse_snippet(source: &str) -> (r: Option<Vec<syn::Item>>)
    ensures
        match r {
            Some(items) => snippet_holds(source@) == Some(items_hold(items@)),
            None => snippet_holds(source@) is None,
        },
{
    match syn::parse_str::<syn::File>(source) {
        Ok(file) => Some(file.items),
        Err(_) => None,
    }
}

/// Reads a snippet that is a file of its own.
pub fn read_snippet(source: &str) -> (r: Option<Vec<Definition>>)
    ensures
        match r {
            Some(items) => snippet_holds(source@) == Some(syntax::definition_views(items@)),
            None => snippet_holds(source@) is None,
        },
{
    match parse_snippet(source) {
        Some(items) => Some(lower_items(&items)),
        None => None,
    }
}

/// What the parser makes of a text that is one function.
pub uninterp spec fn function_holds(source: Seq<char>) -> Option<FuncView>;

/// The function that a text is: `syn::parse_str` for a `syn::ItemFn`, as the
/// item `syn::Item::Fn`.
#[verifier::external_body]
fn parse_function(source: &str) -> (r: Option<syn::Item>)
    ensures
        match r {
            Some(item) => function_holds(source@) is Some && item_holds(item)
                == DefinitionView::Func(function_holds(source@)->0),
            None => function_holds(source@) is None,
        },
{
    match syn::parse_str::<syn::ItemFn>(source) {
        Ok(f) => Some(syn::Item::Fn(f)),
        Err(_) => None,
    }
}

/// Reads a text that is one function.
pub fn read_function(source: &str) -> (r: Option<Func>)
    ensures
        match r {
            Some(f) => function_holds(source@) == Some(f@),
            None => function_holds(source@) is None,
        },
{
    match parse_function(source) {
        Some(item) => match lower_item(&item) {
            Definition::Func(f) => Some(f),
            _ => None,
        },
        None => None,
    }
}

} // verus!
