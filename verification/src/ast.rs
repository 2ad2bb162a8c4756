use std::ops::Range;
use vstd::prelude::*;

use crate::names::NameMap;

verus! {

/// A type annotation as the parser produced it: no annotation (a dynamic value),
/// or a name, which is a primitive or a struct.
#[derive(Debug)]
pub enum Type {
    Value,
    Struct { name: String, span: Range<usize> },
}

/// The mathematical value of a [`Type`].
pub enum TypeView {
    Value,
    Struct { name: Seq<char>, start: int, end: int },
}

impl View for Type {
    type V = TypeView;

    open spec fn view(&self) -> TypeView {
        match self {
            Type::Value => TypeView::Value,
            Type::Struct { name, span } => TypeView::Struct {
                name: name@,
                start: span.start as int,
                end: span.end as int,
            },
        }
    }
}

/// A name in the source: a plain name, or `base.field` for a field of a struct value.
#[derive(Debug)]
pub enum Name {
    Name { name: String, span: Range<usize> },
    DotName { base: String, base_span: Range<usize>, field: String, field_span: Range<usize> },
}

impl Name {
    /// The variable the name starts with.
    pub open spec fn spec_basename(&self) -> Seq<char> {
        match self {
            Name::Name { name, .. } => name@,
            Name::DotName { base, .. } => base@,
        }
    }

    /// The span of the variable the name starts with.
    pub open spec fn spec_basespan(&self) -> (int, int) {
        match self {
            Name::Name { span, .. } => (span.start as int, span.end as int),
            Name::DotName { base_span, .. } => (base_span.start as int, base_span.end as int),
        }
    }

    /// The span of the whole name.
    pub open spec fn spec_span(&self) -> (int, int) {
        match self {
            Name::Name { span, .. } => (span.start as int, span.end as int),
            Name::DotName { base_span, field_span, .. } => (
                base_span.start as int,
                field_span.end as int,
            ),
        }
    }

    pub fn basename(&self) -> (r: &String)
        ensures
            r@ == self.spec_basename(),
    {
        match self {
            Name::Name { name, .. } => name,
            Name::DotName { base, .. } => base,
        }
    }

    /// The field, for a `base.field` name.
    pub fn fieldname(&self) -> (r: Option<&String>)
        ensures
            match self {
                Name::Name { .. } => r is None,
                Name::DotName { field, .. } => r == Some(field),
            },
    {
        match self {
            Name::Name { .. } => None,
            Name::DotName { field, .. } => Some(field),
        }
    }

    pub fn basespan(&self) -> (r: Range<usize>)
        ensures
            (r.start as int, r.end as int) == self.spec_basespan(),
    {
        match self {
            Name::Name { span, .. } => span.start..span.end,
            Name::DotName { base_span, .. } => base_span.start..base_span.end,
        }
    }

    pub fn span(&self) -> (r: Range<usize>)
        ensures
            (r.start as int, r.end as int) == self.spec_span(),
    {
        match self {
            Name::Name { span, .. } => span.start..span.end,
            Name::DotName { base_span, field_span, .. } => base_span.start..field_span.end,
        }
    }
}

/// A literal value. A number literal is known to the checkers only by whether it
/// is a finite whole number.
#[derive(Debug)]
pub enum Value {
    Boolean(bool),
    Number { integral: bool },
    String(String),
}

/// Unary operators.
#[derive(Debug, Clone, Copy, PartialEq, Eq)]
pub enum UnOp {
    Not,
    Length,
    Minus,
    Round,
    Abs,
    Floor,
    Ceil,
    Sqrt,
    Sin,
    Cos,
    Tan,
    Asin,
    Acos,
    Atan,
    Ln,
    Log,
    AntiLn,
    AntiLog,
}

/// Binary operators.
#[derive(Debug, Clone, Copy, PartialEq, Eq)]
pub enum BinOp {
    Add,
    Sub,
    Mul,
    Div,
    Mod,
    Lt,
    Gt,
    Eq,
    And,
    Or,
    Join,
    In,
    Of,
    Le,
    Ge,
    Ne,
    FloorDiv,
}

/// A keyword argument `name = value` of a call.
#[derive(Debug)]
pub struct Kwarg {
    pub name: String,
    pub span: Range<usize>,
    pub value: Expr,
}

/// A field `name: value` of a struct literal.
#[derive(Debug)]
pub struct StructLiteralField {
    pub name: String,
    pub span: Range<usize>,
    pub value: Expr,
}

/// An expression.
#[derive(Debug)]
pub enum Expr {
    Value { value: Value, span: Range<usize> },
    Name(Name),
    Arg(Name),
    Dot { expr: Box<Expr>, field: String, span: Range<usize> },
    Property { object: Box<Expr>, property: String, span: Range<usize> },
    Repr { repr: String, span: Range<usize>, args: Vec<Expr> },
    FuncCall { name: String, span: Range<usize>, args: Vec<Expr>, kwargs: Vec<Kwarg> },
    UnOp { op: UnOp, span: Range<usize>, opr: Box<Expr> },
    BinOp { op: BinOp, span: Range<usize>, left: Box<Expr>, right: Box<Expr> },
    StructLiteral { name: String, span: Range<usize>, fields: Vec<StructLiteralField> },
}

impl Expr {
    /// The span of the expression.
    pub open spec fn spec_span(&self) -> (int, int) {
        match self {
            Expr::Value { span, .. } => (span.start as int, span.end as int),
            Expr::Name(name) => name.spec_span(),
            Expr::Arg(name) => name.spec_span(),
            Expr::Dot { span, .. } => (span.start as int, span.end as int),
            Expr::Property { span, .. } => (span.start as int, span.end as int),
            Expr::Repr { span, .. } => (span.start as int, span.end as int),
            Expr::FuncCall { span, .. } => (span.start as int, span.end as int),
            Expr::UnOp { span, .. } => (span.start as int, span.end as int),
            Expr::BinOp { span, .. } => (span.start as int, span.end as int),
            Expr::StructLiteral { span, .. } => (span.start as int, span.end as int),
        }
    }

    pub fn span(&self) -> (r: Range<usize>)
        ensures
            (r.start as int, r.end as int) == self.spec_span(),
    {
        match self {
            Expr::Value { span, .. } => span.start..span.end,
            Expr::Name(name) => name.span(),
            Expr::Arg(name) => name.span(),
            Expr::Dot { span, .. } => span.start..span.end,
            Expr::Property { span, .. } => span.start..span.end,
            Expr::Repr { span, .. } => span.start..span.end,
            Expr::FuncCall { span, .. } => span.start..span.end,
            Expr::UnOp { span, .. } => span.start..span.end,
            Expr::BinOp { span, .. } => span.start..span.end,
            Expr::StructLiteral { span, .. } => span.start..span.end,
        }
    }
}

/// A compile-time constant: a variable's or list's default.
#[derive(Debug)]
pub enum ConstExpr {
    Value { value: Value, span: Range<usize> },
    EnumVariant { enum_name: String, variant_name: String, span: Range<usize> },
    StructLiteral { name: String, span: Range<usize>, fields: Vec<ConstStructField> },
}

/// A field of a constant struct literal.
#[derive(Debug)]
pub struct ConstStructField {
    pub name: String,
    pub span: Range<usize>,
    pub value: ConstExpr,
}

impl ConstExpr {
    pub open spec fn spec_span(&self) -> (int, int) {
        match self {
            ConstExpr::Value { span, .. } => (span.start as int, span.end as int),
            ConstExpr::EnumVariant { span, .. } => (span.start as int, span.end as int),
            ConstExpr::StructLiteral { span, .. } => (span.start as int, span.end as int),
        }
    }

    pub fn span(&self) -> (r: Range<usize>)
        ensures
            (r.start as int, r.end as int) == self.spec_span(),
    {
        match self {
            ConstExpr::Value { span, .. } => span.start..span.end,
            ConstExpr::EnumVariant { span, .. } => span.start..span.end,
            ConstExpr::StructLiteral { span, .. } => span.start..span.end,
        }
    }
}

/// A statement.
#[derive(Debug)]
pub enum Stmt {
    Repeat { times: Expr, body: Vec<Stmt> },
    Forever { body: Vec<Stmt>, span: Range<usize> },
    Branch { cond: Expr, if_body: Vec<Stmt>, else_body: Vec<Stmt> },
    Until { cond: Expr, body: Vec<Stmt> },
    SetVar { name: Name, value: Expr, type_: Type, is_local: bool },
    ChangeVar { name: Name, value: Expr },
    Show(Name),
    Hide(Name),
    AddToList { name: Name, value: Expr },
    DeleteList(Name),
    DeleteListIndex { name: Name, index: Expr },
    InsertAtList { name: Name, index: Expr, value: Expr },
    SetListIndex { name: Name, index: Expr, value: Expr },
    Block { block: String, span: Range<usize>, args: Vec<Expr>, kwargs: Vec<Kwarg> },
    ProcCall { name: String, span: Range<usize>, args: Vec<Expr>, kwargs: Vec<Kwarg> },
    FuncCall { name: String, span: Range<usize>, args: Vec<Expr>, kwargs: Vec<Kwarg> },
    Return { value: Expr },
}

/// A variable declaration.
#[derive(Debug)]
pub struct Var {
    pub name: String,
    pub span: Range<usize>,
    pub type_: Type,
    pub default: Option<ConstExpr>,
}

/// The default contents of a list.
#[derive(Debug)]
pub enum ListDefault {
    Values(Vec<ConstExpr>),
    File { path: String, span: Range<usize> },
}

/// A list declaration.
#[derive(Debug)]
pub struct List {
    pub name: String,
    pub span: Range<usize>,
    pub type_: Type,
    pub default: Option<ListDefault>,
}

/// A parameter of a procedure or function.
#[derive(Debug)]
pub struct Arg {
    pub name: String,
    pub span: Range<usize>,
    pub type_: Type,
}

/// A procedure declaration.
#[derive(Debug)]
pub struct Proc {
    pub name: String,
    pub span: Range<usize>,
    pub warp: bool,
}

/// A function declaration.
#[derive(Debug)]
pub struct Func {
    pub name: String,
    pub span: Range<usize>,
    pub type_: Type,
    pub warp: bool,
}

/// An event handler.
#[derive(Debug)]
pub struct Event {
    pub name: String,
    pub span: Range<usize>,
    pub body: Vec<Stmt>,
}

/// A sprite (or the stage): its declarations and code.
#[derive(Debug)]
pub struct Sprite {
    pub vars: NameMap<Var>,
    pub lists: NameMap<List>,
    pub procs: NameMap<Proc>,
    pub proc_args: NameMap<Vec<Arg>>,
    pub proc_locals: NameMap<NameMap<Var>>,
    pub proc_definitions: NameMap<Vec<Stmt>>,
    pub funcs: NameMap<Func>,
    pub func_args: NameMap<Vec<Arg>>,
    pub func_locals: NameMap<NameMap<Var>>,
    pub func_definitions: NameMap<Vec<Stmt>>,
    pub events: Vec<Event>,
}

/// A project: the stage and the sprites, by name.
#[derive(Debug)]
pub struct Project {
    pub stage: Sprite,
    pub sprites: NameMap<Sprite>,
}

} // verus!
