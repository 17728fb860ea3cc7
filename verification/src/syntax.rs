//! Source code, reduced to what the audit reads off it.
//!
//! A parsed file holds far more than the audit asks for. The types here keep
//! the part that decides something: items and their signatures, the attributes
//! that mark tests, and, of a function body, the oracles that could fail in it.
//! Every type has a mathematical counterpart, its *view*, in which the contracts
//! of the other modules are written.

use vstd::prelude::*;
use crate::text;

verus! {

// ---------------------------------------------------------------------------
// Expressions
// ---------------------------------------------------------------------------

/// An expression: its tokens as text, and what it is.
pub struct Expression {
    pub text: String,
    pub shape: Shape,
}

/// The kinds of expression that the audit tells apart.
pub enum Shape {
    /// A literal.
    Literal,
    /// A tuple of so many members.
    Tuple(usize),
    /// `base.field`
    Field(Box<Expression>),
    /// A path, with its name where it is a single plain identifier.
    Path(Option<String>),
    /// `&inner`
    Reference(Box<Expression>),
    /// `receiver.method(..)` with so many arguments.
    MethodCall(Box<Expression>, String, usize),
    /// A macro call: the last segment of its path, and its tokens as text.
    Macro(Option<String>, String),
    /// A binary operation: its two sides as text.
    Binary(String, String),
    /// A unary operation on `inner`.
    Unary(Box<Expression>),
    /// A call of a function.
    Call,
    /// Anything else.
    Other,
}

/// An expression, as a mathematical value.
#[verifier::ext_equal]
pub struct ExpressionView {
    pub text: Seq<char>,
    pub shape: ShapeView,
}

/// What an expression is, as a mathematical value.
#[verifier::ext_equal]
pub enum ShapeView {
    Literal,
    Tuple(usize),
    Field(Box<ExpressionView>),
    Path(Option<Seq<char>>),
    Reference(Box<ExpressionView>),
    MethodCall(Box<ExpressionView>, Seq<char>, usize),
    Macro(Option<Seq<char>>, Seq<char>),
    Binary(Seq<char>, Seq<char>),
    Unary(Box<ExpressionView>),
    Call,
    Other,
}

impl Expression {
    pub open spec fn model(self) -> ExpressionView
        decreases self,
    {
        ExpressionView {
            text: self.text@,
            shape: match self.shape {
                Shape::Literal => ShapeView::Literal,
                Shape::Tuple(n) => ShapeView::Tuple(n),
                Shape::Field(base) => ShapeView::Field(Box::new((*base).model())),
                Shape::Path(name) => ShapeView::Path(text::option_text(name)),
                Shape::Reference(inner) => ShapeView::Reference(Box::new((*inner).model())),
                Shape::MethodCall(receiver, method, n) => ShapeView::MethodCall(
                    Box::new((*receiver).model()),
                    method@,
                    n,
                ),
                Shape::Macro(name, tokens) => ShapeView::Macro(text::option_text(name), tokens@),
                Shape::Binary(left, right) => ShapeView::Binary(left@, right@),
                Shape::Unary(inner) => ShapeView::Unary(Box::new((*inner).model())),
                Shape::Call => ShapeView::Call,
                Shape::Other => ShapeView::Other,
            },
        }
    }

    /// A copy of the expression.
    pub fn copy(&self) -> (r: Self)
        ensures
            r@ == self@,
        decreases self,
    {
        let shape = match &self.shape {
            Shape::Literal => Shape::Literal,
            Shape::Tuple(n) => Shape::Tuple(*n),
            Shape::Field(base) => Shape::Field(Box::new(base.copy())),
            Shape::Path(name) => Shape::Path(text::copy_option(name)),
            Shape::Reference(inner) => Shape::Reference(Box::new(inner.copy())),
            Shape::MethodCall(receiver, method, n) => Shape::MethodCall(
                Box::new(receiver.copy()),
                method.clone(),
                *n,
            ),
            Shape::Macro(name, tokens) => Shape::Macro(text::copy_option(name), tokens.clone()),
            Shape::Binary(left, right) => Shape::Binary(left.clone(), right.clone()),
            Shape::Unary(inner) => Shape::Unary(Box::new(inner.copy())),
            Shape::Call => Shape::Call,
            Shape::Other => Shape::Other,
        };
        Expression { text: self.text.clone(), shape }
    }
}

impl View for Expression {
    type V = ExpressionView;

    open spec fn view(&self) -> ExpressionView {
        self.model()
    }
}

// ---------------------------------------------------------------------------
// Bodies
// ---------------------------------------------------------------------------

/// One argument of an assertion: the expression, and the names of the functions
/// and methods called in it, outermost first.
pub struct Arg {
    pub expr: Expression,
    pub calls: Vec<String>,
}

/// An argument, as a mathematical value.
#[verifier::ext_equal]
pub struct ArgView {
    pub expr: ExpressionView,
    pub calls: Seq<Seq<char>>,
}

impl View for Arg {
    type V = ArgView;

    open spec fn view(&self) -> ArgView {
        ArgView { expr: self.expr@, calls: text::texts(self.calls@) }
    }
}

impl Arg {
    /// A copy of the argument.
    pub fn copy(&self) -> (r: Self)
        ensures
            r@ == self@,
    {
        Arg { expr: self.expr.copy(), calls: text::copy_texts(&self.calls) }
    }
}

/// A macro call in a body.
pub struct Mac {
    /// The last segment of its path.
    pub name: Option<String>,
    /// The line of the first segment of its path, counting from one.
    pub line: Option<usize>,
    /// What stands between its delimiters, as text.
    pub tokens: String,
    /// The comma-separated expressions between its delimiters; none where they
    /// are something else.
    pub args: Vec<Arg>,
}

/// A macro call, as a mathematical value.
#[verifier::ext_equal]
pub struct MacView {
    pub name: Option<Seq<char>>,
    pub line: Option<usize>,
    pub tokens: Seq<char>,
    pub args: Seq<ArgView>,
}

impl View for Mac {
    type V = MacView;

    open spec fn view(&self) -> MacView {
        MacView {
            name: text::option_text(self.name),
            line: self.line,
            tokens: self.tokens@,
            args: self.args@.map_values(|a: Arg| a@),
        }
    }
}

impl Mac {
    /// A copy of the macro call.
    pub fn copy(&self) -> (r: Self)
        ensures
            r@ == self@,
    {
        let mut args: Vec<Arg> = Vec::new();
        let mut i: usize = 0;
        while i < self.args.len()
            invariant
                i <= self.args@.len(),
                args@.len() == i,
                forall|k: int| 0 <= k < i ==> (#[trigger] args@[k])@ == self.args@[k]@,
            decreases self.args@.len() - i,
        {
            args.push(self.args[i].copy());
            i += 1;
        }
        let r = Mac {
            name: text::copy_option(&self.name),
            line: self.line,
            tokens: self.tokens.clone(),
            args,
        };
        assert(r@.args =~= self@.args);
        r
    }
}

/// One place in a body that the audit looks at.
pub enum Node {
    /// A macro call.
    Macro(Mac),
    /// A method call: the receiver where it is a single plain identifier, the
    /// method, and the line of the method's name.
    MethodCall(Option<String>, String, usize),
    /// A `?`, and its line.
    Try(usize),
    /// A `let`: whether its pattern is `_`, its line, and its initializer.
    Local(bool, usize, Option<Expression>),
    /// An item declared inside the body begins.
    ItemBegin,
    /// An item declared inside the body ends.
    ItemEnd,
}

/// One place in a body, as a mathematical value.
#[verifier::ext_equal]
pub enum NodeView {
    Macro(MacView),
    MethodCall(Option<Seq<char>>, Seq<char>, usize),
    Try(usize),
    Local(bool, usize, Option<ExpressionView>),
    ItemBegin,
    ItemEnd,
}

/// The view of an optional expression.
pub open spec fn option_expr(e: Option<Expression>) -> Option<ExpressionView> {
    match e {
        Some(e) => Some(e@),
        None => None,
    }
}

impl View for Node {
    type V = NodeView;

    open spec fn view(&self) -> NodeView {
        match *self {
            Node::Macro(m) => NodeView::Macro(m@),
            Node::MethodCall(receiver, method, line) => NodeView::MethodCall(
                text::option_text(receiver),
                method@,
                line,
            ),
            Node::Try(line) => NodeView::Try(line),
            Node::Local(wild, line, init) => NodeView::Local(wild, line, option_expr(init)),
            Node::ItemBegin => NodeView::ItemBegin,
            Node::ItemEnd => NodeView::ItemEnd,
        }
    }
}

/// Copies an optional expression.
fn copy_option_expr(e: &Option<Expression>) -> (r: Option<Expression>)
    ensures
        option_expr(r) == option_expr(*e),
{
    match e {
        Some(e) => Some(e.copy()),
        None => None,
    }
}

impl Node {
    /// A copy of the node.
    pub fn copy(&self) -> (r: Self)
        ensures
            r@ == self@,
    {
        match self {
            Node::Macro(m) => Node::Macro(m.copy()),
            Node::MethodCall(receiver, method, line) => Node::MethodCall(
                text::copy_option(receiver),
                method.clone(),
                *line,
            ),
            Node::Try(line) => Node::Try(*line),
            Node::Local(wild, line, init) => Node::Local(*wild, *line, copy_option_expr(init)),
            Node::ItemBegin => Node::ItemBegin,
            Node::ItemEnd => Node::ItemEnd,
        }
    }
}

/// A function body.
pub struct Body {
    /// How many statements it has.
    pub statements: usize,
    /// The first statement, where that is an expression.
    pub first: Option<Expression>,
    /// The line of its opening brace, counting from one.
    pub open_line: usize,
    /// The column of its opening brace, counting from zero.
    pub open_column: usize,
    /// The line of its closing brace, counting from one.
    pub end_line: usize,
    /// What the audit looks at in it, in source order. What stands in an item
    /// declared inside the body is between the item's beginning and its end.
    pub nodes: Vec<Node>,
}

/// A function body, as a mathematical value.
#[verifier::ext_equal]
pub struct BodyView {
    pub statements: usize,
    pub first: Option<ExpressionView>,
    pub open_line: usize,
    pub open_column: usize,
    pub end_line: usize,
    pub nodes: Seq<NodeView>,
}

impl View for Body {
    type V = BodyView;

    open spec fn view(&self) -> BodyView {
        BodyView {
            statements: self.statements,
            first: option_expr(self.first),
            open_line: self.open_line,
            open_column: self.open_column,
            end_line: self.end_line,
            nodes: self.nodes@.map_values(|n: Node| n@),
        }
    }
}

impl Body {
    /// A copy of the body.
    pub fn copy(&self) -> (r: Self)
        ensures
            r@ == self@,
    {
        let mut nodes: Vec<Node> = Vec::new();
        let mut i: usize = 0;
        while i < self.nodes.len()
            invariant
                i <= self.nodes@.len(),
                nodes@.len() == i,
                forall|k: int| 0 <= k < i ==> (#[trigger] nodes@[k])@ == self.nodes@[k]@,
            decreases self.nodes@.len() - i,
        {
            nodes.push(self.nodes[i].copy());
            i += 1;
        }
        let r = Body {
            statements: self.statements,
            first: copy_option_expr(&self.first),
            open_line: self.open_line,
            open_column: self.open_column,
            end_line: self.end_line,
            nodes,
        };
        assert(r@.nodes =~= self@.nodes);
        r
    }
}

// ---------------------------------------------------------------------------
// Signatures
// ---------------------------------------------------------------------------

/// A type: its tokens as text, and what it is.
pub struct Ty {
    pub text: String,
    pub shape: TyShape,
}

/// The kinds of type that the audit tells apart.
pub enum TyShape {
    /// `!`
    Never,
    /// A tuple of so many members.
    Tuple(usize),
    /// `impl Trait`
    ImplTrait,
    /// A path: the name of its last segment, and the first argument in angle
    /// brackets behind that segment, where it is a type.
    Path(Option<String>, Option<Box<Ty>>),
    /// A reference, and whether it is `&mut`.
    Reference(bool),
    /// Anything else.
    Other,
}

/// A type, as a mathematical value.
#[verifier::ext_equal]
pub struct TyView {
    pub text: Seq<char>,
    pub shape: TyShapeView,
}

/// What a type is, as a mathematical value.
#[verifier::ext_equal]
pub enum TyShapeView {
    Never,
    Tuple(usize),
    ImplTrait,
    Path(Option<Seq<char>>, Option<Box<TyView>>),
    Reference(bool),
    Other,
}

impl Ty {
    pub open spec fn model(self) -> TyView
        decreases self,
    {
        TyView {
            text: self.text@,
            shape: match self.shape {
                TyShape::Never => TyShapeView::Never,
                TyShape::Tuple(n) => TyShapeView::Tuple(n),
                TyShape::ImplTrait => TyShapeView::ImplTrait,
                TyShape::Path(last, argument) => TyShapeView::Path(
                    text::option_text(last),
                    match argument {
                        Some(ty) => Some(Box::new((*ty).model())),
                        None => None,
                    },
                ),
                TyShape::Reference(mutable) => TyShapeView::Reference(mutable),
                TyShape::Other => TyShapeView::Other,
            },
        }
    }
}

impl View for Ty {
    type V = TyView;

    open spec fn view(&self) -> TyView {
        self.model()
    }
}

/// The view of an optional type.
pub open spec fn option_ty(t: Option<Ty>) -> Option<TyView> {
    match t {
        Some(t) => Some(t@),
        None => None,
    }
}

/// One parameter of a function.
pub enum Param {
    /// A receiver: whether it is a reference, and whether it is `mut`.
    Receiver(bool, bool),
    /// A typed parameter.
    Typed(Ty),
}

/// One parameter, as a mathematical value.
#[verifier::ext_equal]
pub enum ParamView {
    Receiver(bool, bool),
    Typed(TyView),
}

impl View for Param {
    type V = ParamView;

    open spec fn view(&self) -> ParamView {
        match *self {
            Param::Receiver(reference, mutable) => ParamView::Receiver(reference, mutable),
            Param::Typed(t) => ParamView::Typed(t@),
        }
    }
}

/// A function's signature.
pub struct Sig {
    pub name: String,
    /// The line of the name, counting from one.
    pub line: usize,
    /// The column of the name, counting from zero.
    pub column: usize,
    /// The line of the `fn` keyword, counting from one.
    pub fn_line: usize,
    pub is_async: bool,
    pub is_const: bool,
    pub is_unsafe: bool,
    pub params: Vec<Param>,
    /// The return type, where one is written.
    pub output: Option<Ty>,
}

/// A function's signature, as a mathematical value.
#[verifier::ext_equal]
pub struct SigView {
    pub name: Seq<char>,
    pub line: usize,
    pub column: usize,
    pub fn_line: usize,
    pub is_async: bool,
    pub is_const: bool,
    pub is_unsafe: bool,
    pub params: Seq<ParamView>,
    pub output: Option<TyView>,
}

impl View for Sig {
    type V = SigView;

    open spec fn view(&self) -> SigView {
        SigView {
            name: self.name@,
            line: self.line,
            column: self.column,
            fn_line: self.fn_line,
            is_async: self.is_async,
            is_const: self.is_const,
            is_unsafe: self.is_unsafe,
            params: self.params@.map_values(|p: Param| p@),
            output: option_ty(self.output),
        }
    }
}

// ---------------------------------------------------------------------------
// Attributes and visibility
// ---------------------------------------------------------------------------

/// One entry of a nested attribute list, such as `all(test, unix)` in
/// `#[cfg(all(test, unix))]`.
pub struct Entry {
    /// Its name, where it is a single plain identifier.
    pub name: Option<String>,
    /// Whether parentheses follow the name.
    pub grouped: bool,
    /// The names of the entries in those parentheses.
    pub inner: Vec<Option<String>>,
}

/// One entry of a nested attribute list, as a mathematical value.
#[verifier::ext_equal]
pub struct EntryView {
    pub name: Option<Seq<char>>,
    pub grouped: bool,
    pub inner: Seq<Option<Seq<char>>>,
}

impl View for Entry {
    type V = EntryView;

    open spec fn view(&self) -> EntryView {
        EntryView {
            name: text::option_text(self.name),
            grouped: self.grouped,
            inner: self.inner@.map_values(|n: Option<String>| text::option_text(n)),
        }
    }
}

/// What an attribute holds besides its path.
pub enum Meta {
    /// Nothing.
    Path,
    /// A list in delimiters: its tokens as text, and its entries.
    List(String, Vec<Entry>),
    /// A value: the contents of a string literal, where it is one.
    Value(Option<String>),
}

/// What an attribute holds, as a mathematical value.
#[verifier::ext_equal]
pub enum MetaView {
    Path,
    List(Seq<char>, Seq<EntryView>),
    Value(Option<Seq<char>>),
}

impl View for Meta {
    type V = MetaView;

    open spec fn view(&self) -> MetaView {
        match *self {
            Meta::Path => MetaView::Path,
            Meta::List(tokens, entries) => MetaView::List(
                tokens@,
                entries@.map_values(|e: Entry| e@),
            ),
            Meta::Value(value) => MetaView::Value(text::option_text(value)),
        }
    }
}

/// An attribute.
pub struct Attr {
    /// Its path, where that is a single plain identifier.
    pub name: Option<String>,
    /// The last segment of its path.
    pub last: Option<String>,
    pub meta: Meta,
}

/// An attribute, as a mathematical value.
#[verifier::ext_equal]
pub struct AttrView {
    pub name: Option<Seq<char>>,
    pub last: Option<Seq<char>>,
    pub meta: MetaView,
}

impl View for Attr {
    type V = AttrView;

    open spec fn view(&self) -> AttrView {
        AttrView {
            name: text::option_text(self.name),
            last: text::option_text(self.last),
            meta: self.meta@,
        }
    }
}

/// The views of a list of attributes.
pub open spec fn attr_views(attrs: Seq<Attr>) -> Seq<AttrView> {
    attrs.map_values(|a: Attr| a@)
}

/// How widely an item can be seen, as written.
pub enum Vis {
    /// `pub`
    Public,
    /// `pub(..)`, with the path where it is a single plain identifier.
    Restricted(Option<String>),
    /// Nothing written.
    Inherited,
}

/// How widely an item can be seen, as a mathematical value.
#[verifier::ext_equal]
pub enum VisView {
    Public,
    Restricted(Option<Seq<char>>),
    Inherited,
}

impl View for Vis {
    type V = VisView;

    open spec fn view(&self) -> VisView {
        match *self {
            Vis::Public => VisView::Public,
            Vis::Restricted(path) => VisView::Restricted(text::option_text(path)),
            Vis::Inherited => VisView::Inherited,
        }
    }
}

// ---------------------------------------------------------------------------
// Items
// ---------------------------------------------------------------------------

/// A function with a body.
pub struct Func {
    pub attrs: Vec<Attr>,
    pub vis: Vis,
    pub sig: Sig,
    pub body: Body,
}

/// A function with a body, as a mathematical value.
#[verifier::ext_equal]
pub struct FuncView {
    pub attrs: Seq<AttrView>,
    pub vis: VisView,
    pub sig: SigView,
    pub body: BodyView,
}

impl View for Func {
    type V = FuncView;

    open spec fn view(&self) -> FuncView {
        FuncView {
            attrs: attr_views(self.attrs@),
            vis: self.vis@,
            sig: self.sig@,
            body: self.body@,
        }
    }
}

/// A function of a trait, which may have a default body.
pub struct TraitFunc {
    pub attrs: Vec<Attr>,
    pub sig: Sig,
    pub default: Option<Body>,
}

/// A function of a trait, as a mathematical value.
#[verifier::ext_equal]
pub struct TraitFuncView {
    pub attrs: Seq<AttrView>,
    pub sig: SigView,
    pub default: Option<BodyView>,
}

/// The view of an optional body.
pub open spec fn option_body(b: Option<Body>) -> Option<BodyView> {
    match b {
        Some(b) => Some(b@),
        None => None,
    }
}

impl View for TraitFunc {
    type V = TraitFuncView;

    open spec fn view(&self) -> TraitFuncView {
        TraitFuncView {
            attrs: attr_views(self.attrs@),
            sig: self.sig@,
            default: option_body(self.default),
        }
    }
}

/// An item of a module.
pub enum Definition {
    /// A function.
    Func(Func),
    /// An `impl` block: the type, the tokens of the trait's path where there is
    /// one, and its functions.
    Impl(Ty, Option<String>, Vec<Func>),
    /// A trait: its name, its visibility, and its functions.
    Trait(String, Vis, Vec<TraitFunc>),
    /// A module: its attributes, its name, and its items where they are inline.
    Mod(Vec<Attr>, String, Option<Vec<Definition>>),
    /// Anything else.
    Other,
}

/// An item, as a mathematical value.
#[verifier::ext_equal]
pub enum DefinitionView {
    Func(FuncView),
    Impl(TyView, Option<Seq<char>>, Seq<FuncView>),
    Trait(Seq<char>, VisView, Seq<TraitFuncView>),
    Mod(Seq<AttrView>, Seq<char>, Option<Seq<DefinitionView>>),
    Other,
}

impl Definition {
    pub open spec fn model(self) -> DefinitionView
        decreases self,
    {
        match self {
            Definition::Func(f) => DefinitionView::Func(f@),
            Definition::Impl(ty, of, funcs) => DefinitionView::Impl(
                ty@,
                text::option_text(of),
                funcs@.map_values(|f: Func| f@),
            ),
            Definition::Trait(name, vis, funcs) => DefinitionView::Trait(
                name@,
                vis@,
                funcs@.map_values(|f: TraitFunc| f@),
            ),
            Definition::Mod(attrs, name, items) => DefinitionView::Mod(
                attr_views(attrs@),
                name@,
                match items {
                    Some(items) => Some(definition_views(items@)),
                    None => None,
                },
            ),
            Definition::Other => DefinitionView::Other,
        }
    }
}

/// The views of a list of items.
pub open spec fn definition_views(items: Seq<Definition>) -> Seq<DefinitionView>
    decreases items,
{
    if items.len() == 0 {
        Seq::empty()
    } else {
        definition_views(items.drop_last()).push(items.last().model())
    }
}

impl View for Definition {
    type V = DefinitionView;

    open spec fn view(&self) -> DefinitionView {
        self.model()
    }
}

/// A list of items is viewed item by item.
pub proof fn lemma_definition_views(items: Seq<Definition>)
    ensures
        definition_views(items).len() == items.len(),
        forall|i: int| 0 <= i < items.len() ==> #[trigger] definition_views(items)[i] == items[i]@,
    decreases items.len(),
{
    if items.len() > 0 {
        let front = items.drop_last();
        lemma_definition_views(front);
        assert forall|i: int| 0 <= i < items.len() implies #[trigger] definition_views(items)[i]
            == items[i]@ by {
            if i < front.len() {
                assert(definition_views(front)[i] == front[i]@);
            }
        }
    }
}

} // verus!
