use std::ops::Range;
use vstd::prelude::*;

use crate::ast::{
    Arg, BinOp, ConstExpr, Event, Expr, Func, Kwarg, List, ListDefault, Name, Project, Sprite, Stmt,
    StructLiteralField, Type, TypeView, UnOp, Value, Var,
};
use crate::diagnostic::{
    diagnostics_view, lemma_diagnostics_view_concat, Diagnostic, DiagnosticKind, DiagnosticKindView, DiagnosticView,
    SpriteDiagnostics,
};
use crate::names::{find_in, lemma_find_in, same_text, NameMap, NameSet};
use crate::visitor::{spelled_boolean, spelled_boolean_spec};

verus! {

/// A static type of UY-script.
#[derive(Debug)]
pub enum StaticType {
    Dynamic,
    Number,
    Int,
    String,
    Bool,
    Struct(String),
}

/// The mathematical value of a [`StaticType`].
pub enum StaticTypeView {
    Dynamic,
    Number,
    Int,
    String,
    Bool,
    Struct(Seq<char>),
}

impl View for StaticType {
    type V = StaticTypeView;

    open spec fn view(&self) -> StaticTypeView {
        match self {
            StaticType::Dynamic => StaticTypeView::Dynamic,
            StaticType::Number => StaticTypeView::Number,
            StaticType::Int => StaticTypeView::Int,
            StaticType::String => StaticTypeView::String,
            StaticType::Bool => StaticTypeView::Bool,
            StaticType::Struct(name) => StaticTypeView::Struct(name@),
        }
    }
}

/// The type a type name denotes.
pub open spec fn ty_of_name(name: Seq<char>) -> StaticTypeView {
    if name == "Number"@ {
        StaticTypeView::Number
    } else if name == "Int"@ {
        StaticTypeView::Int
    } else if name == "String"@ {
        StaticTypeView::String
    } else if name == "Bool"@ || name == "Boolean"@ {
        StaticTypeView::Bool
    } else if name == "Value"@ || name == "Any"@ {
        StaticTypeView::Dynamic
    } else {
        StaticTypeView::Struct(name)
    }
}

/// The type an annotation denotes.
pub open spec fn ty_of_type(t: TypeView) -> StaticTypeView {
    match t {
        TypeView::Value => StaticTypeView::Dynamic,
        TypeView::Struct { name, .. } => ty_of_name(name),
    }
}

/// A value of type `given` may stand where `expected` is required: either is
/// dynamic, they are the same, or an `Int` stands for a `Number`.
pub open spec fn ty_accepts(expected: StaticTypeView, given: StaticTypeView) -> bool {
    expected is Dynamic || given is Dynamic || expected == given || (expected is Number
        && given is Int)
}

/// Values of the type are moved when consumed: strings and structs.
pub open spec fn ty_owned(t: StaticTypeView) -> bool {
    t is String || t is Struct
}

/// How diagnostics name the type.
pub open spec fn ty_name(t: StaticTypeView) -> Seq<char> {
    match t {
        StaticTypeView::Dynamic => "value"@,
        StaticTypeView::Number => "Number"@,
        StaticTypeView::Int => "Int"@,
        StaticTypeView::String => "String"@,
        StaticTypeView::Bool => "Bool"@,
        StaticTypeView::Struct(name) => name,
    }
}

/// The annotation that spells the type at a span.
pub open spec fn ty_to_type(t: StaticTypeView, start: int, end: int) -> TypeView {
    match t {
        StaticTypeView::Dynamic => TypeView::Value,
        _ => TypeView::Struct { name: ty_name(t), start, end },
    }
}

impl Clone for StaticType {
    fn clone(&self) -> (r: Self)
        ensures
            r == *self,
    {
        match self {
            StaticType::Dynamic => StaticType::Dynamic,
            StaticType::Number => StaticType::Number,
            StaticType::Int => StaticType::Int,
            StaticType::String => StaticType::String,
            StaticType::Bool => StaticType::Bool,
            StaticType::Struct(name) => StaticType::Struct(name.clone()),
        }
    }
}

/// The type a type name denotes.
fn ty_from_name(name: &String) -> (r: StaticType)
    ensures
        r@ == ty_of_name(name@),
        r == ty_from_type_value(Type::Struct { name: *name, span: 0..0 }),
{
    if same_text(name.as_str(), "Number") {
        StaticType::Number
    } else if same_text(name.as_str(), "Int") {
        StaticType::Int
    } else if same_text(name.as_str(), "String") {
        StaticType::String
    } else if same_text(name.as_str(), "Bool") || same_text(name.as_str(), "Boolean") {
        StaticType::Bool
    } else if same_text(name.as_str(), "Value") || same_text(name.as_str(), "Any") {
        StaticType::Dynamic
    } else {
        StaticType::Struct(name.clone())
    }
}

impl StaticType {
    pub fn from_ast(ty: &Type) -> (r: StaticType)
        ensures
            r@ == ty_of_type(ty@),
            r == ty_from_type_value(*ty),
    {
        match ty {
            Type::Value => StaticType::Dynamic,
            Type::Struct { name, .. } => ty_from_name(name),
        }
    }

    pub fn to_ast(&self, span: Range<usize>) -> (r: Type)
        ensures
            r@ == ty_to_type(self@, span.start as int, span.end as int),
    {
        match self {
            StaticType::Dynamic => Type::Value,
            _ => Type::Struct { name: static_type_name(self), span },
        }
    }

    pub fn accepts(&self, other: &StaticType) -> (r: bool)
        ensures
            r == ty_accepts(self@, other@),
    {
        match (self, other) {
            (StaticType::Dynamic, _) => true,
            (_, StaticType::Dynamic) => true,
            (StaticType::Number, StaticType::Number) => true,
            (StaticType::Number, StaticType::Int) => true,
            (StaticType::Int, StaticType::Int) => true,
            (StaticType::String, StaticType::String) => true,
            (StaticType::Bool, StaticType::Bool) => true,
            (StaticType::Struct(a), StaticType::Struct(b)) => same_text(a.as_str(), b.as_str()),
            _ => false,
        }
    }

    pub fn is_owned(&self) -> (r: bool)
        ensures
            r == ty_owned(self@),
    {
        match self {
            StaticType::String => true,
            StaticType::Struct(_) => true,
            _ => false,
        }
    }
}

/// The static type an annotation denotes.
fn into_static(t: Type) -> (r: StaticType)
    ensures
        r@ == ty_of_type(t@),
{
    StaticType::from_ast(&t)
}

/// How annotations name the type.
fn static_type_name(ty: &StaticType) -> (r: String)
    ensures
        r@ == ty_name(ty@),
{
    match ty {
        StaticType::Dynamic => String::from_str("value"),
        StaticType::Number => String::from_str("Number"),
        StaticType::Int => String::from_str("Int"),
        StaticType::String => String::from_str("String"),
        StaticType::Bool => String::from_str("Bool"),
        StaticType::Struct(name) => name.clone(),
    }
}


/// What a checker of one procedure, function or event body reads.
pub struct Context<'a> {
    pub sprite: &'a Sprite,
    pub stage: Option<&'a Sprite>,
    pub args: Option<&'a Vec<Arg>>,
    pub locals: Option<&'a NameMap<Var>>,
    pub return_ty: Option<StaticType>,
    pub text: &'a Vec<u8>,
}

/// What checking has found so far: the moved names and the diagnostics.
pub struct CheckState {
    pub moved: Set<Seq<char>>,
    pub diags: Seq<DiagnosticView>,
}

/// The state with more diagnostics.
pub open spec fn add_diags(st: CheckState, ds: Seq<DiagnosticView>) -> CheckState {
    CheckState { moved: st.moved, diags: st.diags + ds }
}

/// The type of a variable: a local of the routine, else a variable of the sprite,
/// else one of the stage, else dynamic.
pub open spec fn var_ty_spec(cx: Context, name: Seq<char>) -> StaticTypeView {
    let local = match cx.locals {
        Some(locals) => locals.lookup(name),
        None => None,
    };
    match local {
        Some(var) => ty_of_type(var.type_@),
        None => match cx.sprite.vars.lookup(name) {
            Some(var) => ty_of_type(var.type_@),
            None => match cx.stage {
                Some(stage) => match stage.vars.lookup(name) {
                    Some(var) => ty_of_type(var.type_@),
                    None => StaticTypeView::Dynamic,
                },
                None => StaticTypeView::Dynamic,
            },
        },
    }
}

/// The element type of a list of the sprite, else of the stage, else dynamic.
pub open spec fn list_ty_spec(cx: Context, name: Seq<char>) -> StaticTypeView {
    match cx.sprite.lists.lookup(name) {
        Some(list) => ty_of_type(list.type_@),
        None => match cx.stage {
            Some(stage) => match stage.lists.lookup(name) {
                Some(list) => ty_of_type(list.type_@),
                None => StaticTypeView::Dynamic,
            },
            None => StaticTypeView::Dynamic,
        },
    }
}

/// The index of the first of the first `n` parameters named `name`.
pub open spec fn arg_index(args: Seq<Arg>, name: Seq<char>, n: int) -> Option<int>
    decreases n,
{
    if n <= 0 {
        None
    } else {
        match arg_index(args, name, n - 1) {
            Some(i) => Some(i),
            None => if args[n - 1].name@ == name {
                Some(n - 1)
            } else {
                None
            },
        }
    }
}

pub proof fn lemma_arg_index(args: Seq<Arg>, name: Seq<char>, n: int)
    requires
        0 <= n <= args.len(),
    ensures
        match arg_index(args, name, n) {
            Some(i) => 0 <= i < n && args[i].name@ == name,
            None => forall|j: int| 0 <= j < n ==> (#[trigger] args[j]).name@ != name,
        },
    decreases n,
{
    if n > 0 {
        lemma_arg_index(args, name, n - 1);
    }
}

/// The type of a parameter of the routine, else dynamic.
pub open spec fn arg_ty_spec(cx: Context, name: Seq<char>) -> StaticTypeView {
    match cx.args {
        Some(args) => match arg_index(args@, name, args@.len() as int) {
            Some(i) => ty_of_type(args@[i].type_@),
            None => StaticTypeView::Dynamic,
        },
        None => StaticTypeView::Dynamic,
    }
}

/// The type of a literal.
pub open spec fn literal_ty_spec(cx: Context, value: Value, start: int, end: int) -> StaticTypeView {
    if spelled_boolean_spec(cx.text@, start, end) {
        StaticTypeView::Bool
    } else {
        match value {
            Value::Boolean(_) => StaticTypeView::Bool,
            Value::Number { integral } => if integral {
                StaticTypeView::Int
            } else {
                StaticTypeView::Number
            },
            Value::String(_) => StaticTypeView::String,
        }
    }
}

/// The type-mismatch diagnostic, unless `expected` accepts `given`.
pub open spec fn mismatch_spec(expected: StaticTypeView, given: StaticTypeView, span: (int, int)) -> Seq<
    DiagnosticView,
> {
    if ty_accepts(expected, given) {
        seq![]
    } else {
        seq![
            DiagnosticView {
                kind: DiagnosticKindView::TypeMismatch {
                    expected: ty_to_type(expected, span.0, span.1),
                    given: ty_to_type(given, span.0, span.1),
                },
                start: span.0,
                end: span.1,
            },
        ]
    }
}

/// What a moved value reads as: `moved` and its struct type, `moved String`, or
/// `moved` and the variable's name when its type is not owned.
pub open spec fn moved_name_spec(ty: StaticTypeView, name: Seq<char>) -> Seq<char> {
    match ty {
        StaticTypeView::Struct(struct_name) => "moved "@ + struct_name,
        StaticTypeView::String => "moved String"@,
        _ => "moved "@ + name,
    }
}

/// The diagnostic for using the moved value `name` of type `ty`: it reads as a
/// mismatch between `ty` and the moved value.
pub open spec fn moved_use_spec(ty: StaticTypeView, name: Seq<char>, span: (int, int)) -> DiagnosticView {
    DiagnosticView {
        kind: DiagnosticKindView::TypeMismatch {
            expected: ty_to_type(ty, span.0, span.1),
            given: TypeView::Struct { name: moved_name_spec(ty, name), start: span.0, end: span.1 },
        },
        start: span.0,
        end: span.1,
    }
}

/// Reading a name reports it if its value was moved.
pub open spec fn check_name_spec(cx: Context, st: CheckState, name: Name, is_arg: bool) -> CheckState {
    let base = name.spec_basename();
    if st.moved.contains(base) {
        let ty = if is_arg {
            arg_ty_spec(cx, base)
        } else {
            var_ty_spec(cx, base)
        };
        add_diags(st, seq![moved_use_spec(ty, base, name.spec_basespan())])
    } else {
        st
    }
}

/// Consuming `expr` where `expected` is required moves the variable or
/// parameter it names, when the type is owned, unless it is assigned to itself.
pub open spec fn move_from_spec(
    st: CheckState,
    expr: Expr,
    expected: StaticTypeView,
    destination: Option<Name>,
) -> CheckState {
    if !ty_owned(expected) {
        st
    } else {
        let source = match expr {
            Expr::Name(name) => Some(name),
            Expr::Arg(name) => Some(name),
            _ => None,
        };
        match source {
            Some(name) => if name is DotName {
                st
            } else if destination matches Some(d) && d.spec_basename() == name.spec_basename() {
                st
            } else {
                CheckState { moved: st.moved.insert(name.spec_basename()), diags: st.diags }
            },
            None => st,
        }
    }
}

/// The parameter names and types of a signature.
pub open spec fn signature_spec(args: Seq<Arg>) -> Seq<(Seq<char>, StaticTypeView)> {
    args.map_values(|a: Arg| (a.name@, ty_of_type(a.type_@)))
}

/// The views of a signature.
pub open spec fn signature_view(sig: Seq<(String, StaticType)>) -> Seq<(Seq<char>, StaticTypeView)> {
    sig.map_values(|p: (String, StaticType)| (p.0@, p.1@))
}

/// The signature of a function of the sprite, empty if there is none.
pub open spec fn func_signature_spec(cx: Context, name: Seq<char>) -> Seq<(Seq<char>, StaticTypeView)> {
    match cx.sprite.func_args.lookup(name) {
        Some(args) => signature_spec(args@),
        None => seq![],
    }
}

/// The signature of a procedure of the sprite, empty if there is none.
pub open spec fn proc_signature_spec(cx: Context, name: Seq<char>) -> Seq<(Seq<char>, StaticTypeView)> {
    match cx.sprite.proc_args.lookup(name) {
        Some(args) => signature_spec(args@),
        None => seq![],
    }
}

/// The return type of a function of the sprite, dynamic if there is none.
pub open spec fn func_return_spec(cx: Context, name: Seq<char>) -> StaticTypeView {
    match cx.sprite.funcs.lookup(name) {
        Some(func) => ty_of_type(func.type_@),
        None => StaticTypeView::Dynamic,
    }
}

/// The type of a unary operation.
pub open spec fn unop_ty_spec(op: UnOp, operand: StaticTypeView) -> StaticTypeView {
    match op {
        UnOp::Not => StaticTypeView::Bool,
        UnOp::Length => StaticTypeView::Int,
        UnOp::Floor => StaticTypeView::Int,
        UnOp::Ceil => StaticTypeView::Int,
        UnOp::Minus => if operand is Int {
            StaticTypeView::Int
        } else {
            StaticTypeView::Number
        },
        _ => StaticTypeView::Number,
    }
}

/// The type of a binary operation.
pub open spec fn binop_ty_spec(cx: Context, op: BinOp, lhs: Expr, lt: StaticTypeView, rt: StaticTypeView) -> StaticTypeView {
    match op {
        BinOp::Add | BinOp::Sub | BinOp::Mul | BinOp::Mod | BinOp::FloorDiv => if lt is Int
            && rt is Int {
            StaticTypeView::Int
        } else {
            StaticTypeView::Number
        },
        BinOp::Div => StaticTypeView::Number,
        BinOp::Join => StaticTypeView::String,
        BinOp::Of => match lhs {
            Expr::Name(name) => {
                let list = list_ty_spec(cx, name.spec_basename());
                if list is Dynamic {
                    StaticTypeView::String
                } else {
                    list
                }
            },
            _ => StaticTypeView::String,
        },
        _ => StaticTypeView::Bool,
    }
}

/// The index of the first of the first `n` keyword arguments named `name`.
pub open spec fn kwarg_index(kwargs: Seq<Kwarg>, name: Seq<char>, n: int) -> Option<int>
    decreases n,
{
    if n <= 0 {
        None
    } else {
        match kwarg_index(kwargs, name, n - 1) {
            Some(i) => Some(i),
            None => if kwargs[n - 1].name@ == name {
                Some(n - 1)
            } else {
                None
            },
        }
    }
}

pub proof fn lemma_kwarg_index(kwargs: Seq<Kwarg>, name: Seq<char>, n: int)
    requires
        0 <= n <= kwargs.len(),
    ensures
        match kwarg_index(kwargs, name, n) {
            Some(i) => 0 <= i < n && kwargs[i].name@ == name,
            None => forall|j: int| 0 <= j < n ==> (#[trigger] kwargs[j]).name@ != name,
        },
    decreases n,
{
    if n > 0 {
        lemma_kwarg_index(kwargs, name, n - 1);
    }
}

/// Checking one argument against its parameter type: report a mismatch, and move
/// the argument when it is accepted.
pub open spec fn argument_step(
    st: CheckState,
    expected: StaticTypeView,
    given: StaticTypeView,
    expr: Expr,
) -> CheckState {
    let st1 = add_diags(st, mismatch_spec(expected, given, expr.spec_span()));
    if ty_accepts(expected, given) {
        move_from_spec(st1, expr, expected, None)
    } else {
        st1
    }
}

/// Infers the type of an expression, reporting uses of moved values and bad
/// arguments of the calls in it.
pub open spec fn expr_ty_spec(cx: Context, st: CheckState, expr: Expr) -> (StaticTypeView, CheckState)
    decreases expr, 0int,
{
    match expr {
        Expr::Value { value, span } => (
            literal_ty_spec(cx, value, span.start as int, span.end as int),
            st,
        ),
        Expr::Name(name) => (
            if name is DotName {
                StaticTypeView::Dynamic
            } else {
                var_ty_spec(cx, name.spec_basename())
            },
            check_name_spec(cx, st, name, false),
        ),
        Expr::Arg(name) => (
            arg_ty_spec(cx, name.spec_basename()),
            check_name_spec(cx, st, name, true),
        ),
        Expr::Dot { expr, .. } => (StaticTypeView::Dynamic, expr_ty_spec(cx, st, *expr).1),
        Expr::Property { object, .. } => (StaticTypeView::Dynamic, expr_ty_spec(cx, st, *object).1),
        Expr::Repr { args, .. } => (
            StaticTypeView::Dynamic,
            exprs_spec(cx, st, args@, args@.len() as int),
        ),
        Expr::FuncCall { name, args, kwargs, .. } => {
            let sig = func_signature_spec(cx, name@);
            let st1 = positional_spec(cx, st, sig, args@, min_len(sig.len(), args@.len()));
            (func_return_spec(cx, name@), keyword_spec(cx, st1, sig, kwargs@, sig.len() as int))
        },
        Expr::UnOp { op, opr, .. } => {
            let (t, st1) = expr_ty_spec(cx, st, *opr);
            (unop_ty_spec(op, t), st1)
        },
        Expr::BinOp { op, left: lhs, right: rhs, .. } => {
            let (lt, st1) = expr_ty_spec(cx, st, *lhs);
            let (rt, st2) = expr_ty_spec(cx, st1, *rhs);
            (binop_ty_spec(cx, op, *lhs, lt, rt), st2)
        },
        Expr::StructLiteral { name, fields, .. } => (
            StaticTypeView::Struct(name@),
            fields_spec(cx, st, fields@, fields@.len() as int),
        ),
    }
}

/// The smaller of two lengths.
pub open spec fn min_len(a: nat, b: nat) -> int {
    if a < b {
        a as int
    } else {
        b as int
    }
}

/// Infers the first `n` expressions in order, for their effects.
pub open spec fn exprs_spec(cx: Context, st: CheckState, es: Seq<Expr>, n: int) -> CheckState
    decreases es, n,
{
    if n <= 0 || n > es.len() {
        st
    } else {
        expr_ty_spec(cx, exprs_spec(cx, st, es, n - 1), es[n - 1]).1
    }
}

/// Infers the values of the first `n` fields of a struct literal, for their effects.
pub open spec fn fields_spec(
    cx: Context,
    st: CheckState,
    fs: Seq<StructLiteralField>,
    n: int,
) -> CheckState
    decreases fs, n,
{
    if n <= 0 || n > fs.len() {
        st
    } else {
        expr_ty_spec(cx, fields_spec(cx, st, fs, n - 1), fs[n - 1].value).1
    }
}

/// Checks the first `n` positional arguments against the signature.
pub open spec fn positional_spec(
    cx: Context,
    st: CheckState,
    sig: Seq<(Seq<char>, StaticTypeView)>,
    args: Seq<Expr>,
    n: int,
) -> CheckState
    decreases args, n,
{
    if n <= 0 || n > args.len() || n > sig.len() {
        st
    } else {
        let prev = positional_spec(cx, st, sig, args, n - 1);
        let (given, st1) = expr_ty_spec(cx, prev, args[n - 1]);
        argument_step(st1, sig[n - 1].1, given, args[n - 1])
    }
}

/// Checks the keyword arguments named by the first `n` parameters.
pub open spec fn keyword_spec(
    cx: Context,
    st: CheckState,
    sig: Seq<(Seq<char>, StaticTypeView)>,
    kwargs: Seq<Kwarg>,
    n: int,
) -> CheckState
    decreases kwargs, n,
{
    if n <= 0 || n > sig.len() {
        st
    } else {
        let prev = keyword_spec(cx, st, sig, kwargs, n - 1);
        match kwarg_index(kwargs, sig[n - 1].0, kwargs.len() as int) {
            Some(i) => {
                proof {
                    lemma_kwarg_index(kwargs, sig[n - 1].0, kwargs.len() as int);
                }
                let (given, st1) = expr_ty_spec(cx, prev, kwargs[i].value);
                argument_step(st1, sig[n - 1].1, given, kwargs[i].value)
            },
            None => prev,
        }
    }
}


/// Infers the values of the first `n` keyword arguments in order, for their effects.
pub open spec fn kwarg_values_spec(cx: Context, st: CheckState, ks: Seq<Kwarg>, n: int) -> CheckState
    decreases n,
{
    if n <= 0 || n > ks.len() {
        st
    } else {
        expr_ty_spec(cx, kwarg_values_spec(cx, st, ks, n - 1), ks[n - 1].value).1
    }
}

/// Checks a call's arguments against a signature: the positional ones in order,
/// then, parameter by parameter, the keyword arguments that name them.
pub open spec fn call_args_spec(
    cx: Context,
    st: CheckState,
    sig: Seq<(Seq<char>, StaticTypeView)>,
    args: Seq<Expr>,
    kwargs: Seq<Kwarg>,
) -> CheckState {
    let st1 = positional_spec(cx, st, sig, args, min_len(sig.len(), args.len()));
    keyword_spec(cx, st1, sig, kwargs, sig.len() as int)
}

/// A value assigned to `name`: checked against the declared type, moved, and the
/// variable itself usable again when the whole variable is assigned.
pub open spec fn set_var_spec(cx: Context, st: CheckState, name: Name, value: Expr, type_: Type) -> CheckState {
    let explicit = ty_of_type(type_@);
    let expected = if explicit is Dynamic {
        var_ty_spec(cx, name.spec_basename())
    } else {
        explicit
    };
    let (given, st1) = expr_ty_spec(cx, st, value);
    let st2 = add_diags(st1, mismatch_spec(expected, given, value.spec_span()));
    let st3 = if ty_accepts(expected, given) {
        move_from_spec(st2, value, expected, Some(name))
    } else {
        st2
    };
    if name is DotName {
        st3
    } else {
        CheckState { moved: st3.moved.remove(name.spec_basename()), diags: st3.diags }
    }
}

/// A value put into the list `name`: checked against the element type and moved.
pub open spec fn list_value_spec(cx: Context, st: CheckState, name: Name, value: Expr) -> CheckState {
    let expected = list_ty_spec(cx, name.spec_basename());
    let (given, st1) = expr_ty_spec(cx, st, value);
    argument_step(st1, expected, given, value)
}

/// Checks one statement.
pub open spec fn stmt_spec(cx: Context, st: CheckState, stmt: Stmt) -> CheckState
    decreases stmt, 0int,
{
    match stmt {
        Stmt::Repeat { times, body } => stmts_spec(
            cx,
            expr_ty_spec(cx, st, times).1,
            body@,
            body@.len() as int,
        ),
        Stmt::Forever { body, .. } => stmts_spec(cx, st, body@, body@.len() as int),
        Stmt::Branch { cond, if_body, else_body } => {
            let st1 = expr_ty_spec(cx, st, cond).1;
            let after_if = stmts_spec(cx, st1, if_body@, if_body@.len() as int);
            let after_else = stmts_spec(
                cx,
                CheckState { moved: st1.moved, diags: after_if.diags },
                else_body@,
                else_body@.len() as int,
            );
            CheckState { moved: after_else.moved.union(after_if.moved), diags: after_else.diags }
        },
        Stmt::Until { cond, body } => stmts_spec(
            cx,
            expr_ty_spec(cx, st, cond).1,
            body@,
            body@.len() as int,
        ),
        Stmt::SetVar { name, value, type_, .. } => set_var_spec(cx, st, name, value, type_),
        Stmt::ChangeVar { name, value } => expr_ty_spec(
            cx,
            check_name_spec(cx, st, name, false),
            value,
        ).1,
        Stmt::Show(name) => check_name_spec(cx, st, name, false),
        Stmt::Hide(name) => check_name_spec(cx, st, name, false),
        Stmt::AddToList { name, value } => list_value_spec(cx, st, name, value),
        Stmt::DeleteList(name) => check_name_spec(cx, st, name, false),
        Stmt::DeleteListIndex { index, .. } => expr_ty_spec(cx, st, index).1,
        Stmt::InsertAtList { name, index, value } => list_value_spec(
            cx,
            expr_ty_spec(cx, st, index).1,
            name,
            value,
        ),
        Stmt::SetListIndex { name, index, value } => list_value_spec(
            cx,
            expr_ty_spec(cx, st, index).1,
            name,
            value,
        ),
        Stmt::Block { args, kwargs, .. } => kwarg_values_spec(
            cx,
            exprs_spec(cx, st, args@, args@.len() as int),
            kwargs@,
            kwargs@.len() as int,
        ),
        Stmt::ProcCall { name, args, kwargs, .. } => call_args_spec(
            cx,
            st,
            proc_signature_spec(cx, name@),
            args@,
            kwargs@,
        ),
        Stmt::FuncCall { name, args, kwargs, .. } => call_args_spec(
            cx,
            st,
            func_signature_spec(cx, name@),
            args@,
            kwargs@,
        ),
        Stmt::Return { value } => {
            let (given, st1) = expr_ty_spec(cx, st, value);
            match cx.return_ty {
                Some(expected) => add_diags(st1, mismatch_spec(expected@, given, value.spec_span())),
                None => st1,
            }
        },
    }
}

/// Checks the first `n` statements in order.
pub open spec fn stmts_spec(cx: Context, st: CheckState, stmts: Seq<Stmt>, n: int) -> CheckState
    decreases stmts, n,
{
    if n <= 0 || n > stmts.len() {
        st
    } else {
        stmt_spec(cx, stmts_spec(cx, st, stmts, n - 1), stmts[n - 1])
    }
}


/// Checks the statements of one procedure, function or event.
pub struct Checker<'a> {
    pub cx: Context<'a>,
    pub moved: NameSet,
    pub diagnostics: Vec<Diagnostic>,
}

impl<'a> Checker<'a> {
    /// What the checker has found so far.
    pub open spec fn state(&self) -> CheckState {
        CheckState { moved: self.moved@, diags: diagnostics_view(self.diagnostics@) }
    }

    fn get_var_type(&self, name: &str) -> (r: StaticType)
        ensures
            r@ == var_ty_spec(self.cx, name@),
    {
        let sprite = self.cx.sprite;
        if let Some(locals) = self.cx.locals {
            if let Some(var) = locals.get(name) {
                return StaticType::from_ast(&var.type_);
            }
        }
        if let Some(var) = sprite.vars.get(name) {
            return StaticType::from_ast(&var.type_);
        }
        if let Some(stage) = self.cx.stage {
            if let Some(var) = stage.vars.get(name) {
                return StaticType::from_ast(&var.type_);
            }
        }
        StaticType::Dynamic
    }

    fn get_list_type(&self, name: &str) -> (r: StaticType)
        ensures
            r@ == list_ty_spec(self.cx, name@),
    {
        if let Some(list) = self.cx.sprite.lists.get(name) {
            return StaticType::from_ast(&list.type_);
        }
        if let Some(stage) = self.cx.stage {
            if let Some(list) = stage.lists.get(name) {
                return StaticType::from_ast(&list.type_);
            }
        }
        StaticType::Dynamic
    }

    fn get_arg_type(&self, name: &str) -> (r: StaticType)
        ensures
            r@ == arg_ty_spec(self.cx, name@),
    {
        match self.cx.args {
            Some(args) => {
                let mut i: usize = 0;
                while i < args.len()
                    invariant
                        i <= args@.len(),
                        self.cx.args == Some(args),
                        arg_index(args@, name@, i as int) is None,
                    decreases args@.len() - i,
                {
                    if same_text(args[i].name.as_str(), name) {
                        proof {
                            lemma_arg_index(args@, name@, i as int);
                            lemma_arg_index(args@, name@, args@.len() as int);
                            lemma_arg_index_first(args@, name@, i as int, args@.len() as int);
                        }
                        return StaticType::from_ast(&args[i].type_);
                    }
                    i = i + 1;
                }
                StaticType::Dynamic
            },
            None => StaticType::Dynamic,
        }
    }

    fn value_type(&self, value: &Value, span: &Range<usize>) -> (r: StaticType)
        ensures
            r@ == literal_ty_spec(self.cx, *value, span.start as int, span.end as int),
    {
        // goboscript currently lowers true/false to numeric constants in the
        // parser, so preserve their source spelling for UY's static checker.
        if spelled_boolean(self.cx.text.as_slice(), span) {
            return StaticType::Bool;
        }
        match value {
            Value::Boolean(_) => StaticType::Bool,
            Value::Number { integral } => if *integral {
                StaticType::Int
            } else {
                StaticType::Number
            },
            Value::String(_) => StaticType::String,
        }
    }

    fn report_mismatch(&mut self, expected: &StaticType, given: &StaticType, span: Range<usize>)
        ensures
            final(self).cx == old(self).cx,
            final(self).state() == add_diags(
                old(self).state(),
                mismatch_spec(expected@, given@, (span.start as int, span.end as int)),
            ),
    {
        if expected.accepts(given) {
            assert(self.state() =~= add_diags(old(self).state(), seq![]));
            return ;
        }
        let d = Diagnostic {
            kind: DiagnosticKind::TypeMismatch {
                expected: expected.to_ast(span.start..span.end),
                given: given.to_ast(span.start..span.end),
            },
            span,
        };
        self.diagnostics.push(d);
        assert(diagnostics_view(self.diagnostics@) =~= diagnostics_view(
            old(self).diagnostics@,
        ) + seq![d@]);
    }

    fn report_moved(&mut self, name: &String, ty: &StaticType, span: Range<usize>)
        ensures
            final(self).cx == old(self).cx,
            final(self).state() == add_diags(
                old(self).state(),
                seq![moved_use_spec(ty@, name@, (span.start as int, span.end as int))],
            ),
    {
        let given = match ty {
            StaticType::Struct(struct_name) => StaticType::Struct(
                String::from_str("moved ").concat(struct_name.as_str()),
            ),
            StaticType::String => into_static(
                Type::Struct { name: String::from_str("moved String"), span: span.start..span.end },
            ),
            _ => StaticType::Struct(String::from_str("moved ").concat(name.as_str())),
        };
        proof {
            reveal_strlit("moved String");
            reveal_strlit("Number");
            reveal_strlit("Int");
            reveal_strlit("String");
            reveal_strlit("Bool");
            reveal_strlit("Boolean");
            reveal_strlit("Value");
            reveal_strlit("Any");
            assert("moved String"@.len() != "Number"@.len());
            assert("moved String"@.len() != "Int"@.len());
            assert("moved String"@.len() != "String"@.len());
            assert("moved String"@.len() != "Bool"@.len());
            assert("moved String"@.len() != "Boolean"@.len());
            assert("moved String"@.len() != "Value"@.len());
            assert("moved String"@.len() != "Any"@.len());
        }
        assert(given@ == StaticTypeView::Struct(moved_name_spec(ty@, name@)));
        let d = Diagnostic {
            kind: DiagnosticKind::TypeMismatch {
                expected: ty.to_ast(span.start..span.end),
                given: given.to_ast(span.start..span.end),
            },
            span,
        };
        self.diagnostics.push(d);
        assert(diagnostics_view(self.diagnostics@) =~= diagnostics_view(
            old(self).diagnostics@,
        ) + seq![d@]);
    }

    fn check_name_available(&mut self, name: &Name)
        ensures
            final(self).cx == old(self).cx,
            final(self).state() == check_name_spec(old(self).cx, old(self).state(), *name, false),
    {
        self.check_moved(name, false);
    }

    fn check_moved(&mut self, name: &Name, is_arg: bool)
        ensures
            final(self).cx == old(self).cx,
            final(self).state() == check_name_spec(old(self).cx, old(self).state(), *name, is_arg),
    {
        let base = name.basename();
        if self.moved.contains(base.as_str()) {
            let ty = if is_arg {
                self.get_arg_type(base.as_str())
            } else {
                self.get_var_type(base.as_str())
            };
            self.report_moved(base, &ty, name.basespan());
        }
    }

    fn mark_move(&mut self, expr: &Expr, expected: &StaticType, destination: Option<&Name>)
        ensures
            final(self).cx == old(self).cx,
            final(self).state() == move_from_spec(
                old(self).state(),
                *expr,
                expected@,
                match destination {
                    Some(d) => Some(*d),
                    None => None,
                },
            ),
    {
        if !expected.is_owned() {
            return ;
        }
        let source = match expr {
            Expr::Name(name) => name,
            Expr::Arg(name) => name,
            _ => {
                return ;
            },
        };
        if source.fieldname().is_some() {
            return ;
        }
        if let Some(dest) = destination {
            if same_text(dest.basename().as_str(), source.basename().as_str()) {
                return ;
            }
        }
        self.moved.insert(source.basename().as_str());
    }

    fn infer_expr(&mut self, expr: &Expr) -> (r: StaticType)
        ensures
            final(self).cx == old(self).cx,
            (r@, final(self).state()) == expr_ty_spec(old(self).cx, old(self).state(), *expr),
        decreases expr, 0int,
    {
        match expr {
            Expr::Value { value, span } => self.value_type(value, span),
            Expr::Name(name) => {
                self.check_name_available(name);
                if name.fieldname().is_some() {
                    StaticType::Dynamic
                } else {
                    self.get_var_type(name.basename().as_str())
                }
            },
            Expr::Arg(name) => {
                self.check_moved(name, true);
                self.get_arg_type(name.basename().as_str())
            },
            Expr::Dot { expr: inner, .. } => {
                self.infer_expr(inner);
                StaticType::Dynamic
            },
            Expr::Property { object, .. } => {
                self.infer_expr(object);
                StaticType::Dynamic
            },
            Expr::Repr { args, .. } => {
                self.exprs(args);
                StaticType::Dynamic
            },
            Expr::FuncCall { name, args, kwargs, .. } => {
                let sprite = self.cx.sprite;
                let sig = match sprite.func_args.get(name.as_str()) {
                    Some(params) => signature(params),
                    None => Vec::new(),
                };
                assert(signature_view(sig@) =~= func_signature_spec(self.cx, name@));
                self.positional(&sig, args);
                self.keywords(&sig, kwargs);
                match sprite.funcs.get(name.as_str()) {
                    Some(func) => StaticType::from_ast(&func.type_),
                    None => StaticType::Dynamic,
                }
            },
            Expr::UnOp { op, opr, .. } => {
                let operand = self.infer_expr(opr);
                match op {
                    UnOp::Not => StaticType::Bool,
                    UnOp::Length => StaticType::Int,
                    UnOp::Floor => StaticType::Int,
                    UnOp::Ceil => StaticType::Int,
                    UnOp::Minus => match operand {
                        StaticType::Int => StaticType::Int,
                        _ => StaticType::Number,
                    },
                    _ => StaticType::Number,
                }
            },
            Expr::BinOp { op, left: lhs, right: rhs, .. } => {
                let lhs_ty = self.infer_expr(lhs);
                let rhs_ty = self.infer_expr(rhs);
                match op {
                    BinOp::Add | BinOp::Sub | BinOp::Mul | BinOp::Mod | BinOp::FloorDiv => {
                        match (lhs_ty, rhs_ty) {
                            (StaticType::Int, StaticType::Int) => StaticType::Int,
                            _ => StaticType::Number,
                        }
                    },
                    BinOp::Div => StaticType::Number,
                    BinOp::Join => StaticType::String,
                    BinOp::Of => {
                        if let Expr::Name(name) = &**lhs {
                            let ty = self.get_list_type(name.basename().as_str());
                            match ty {
                                StaticType::Dynamic => {},
                                _ => {
                                    return ty;
                                },
                            }
                        }
                        StaticType::String
                    },
                    _ => StaticType::Bool,
                }
            },
            Expr::StructLiteral { name, fields, .. } => {
                self.fields(fields);
                StaticType::Struct(name.clone())
            },
        }
    }

    fn exprs(&mut self, es: &Vec<Expr>)
        ensures
            final(self).cx == old(self).cx,
            final(self).state() == exprs_spec(old(self).cx, old(self).state(), es@, es@.len() as int),
        decreases es, 0int,
    {
        let mut i: usize = 0;
        while i < es.len()
            invariant
                i <= es@.len(),
                self.cx == old(self).cx,
                self.state() == exprs_spec(old(self).cx, old(self).state(), es@, i as int),
            decreases es@.len() - i,
        {
            self.infer_expr(&es[i]);
            i = i + 1;
        }
    }

    fn fields(&mut self, fs: &Vec<StructLiteralField>)
        ensures
            final(self).cx == old(self).cx,
            final(self).state() == fields_spec(old(self).cx, old(self).state(), fs@, fs@.len() as int),
        decreases fs, 0int,
    {
        let mut i: usize = 0;
        while i < fs.len()
            invariant
                i <= fs@.len(),
                self.cx == old(self).cx,
                self.state() == fields_spec(old(self).cx, old(self).state(), fs@, i as int),
            decreases fs@.len() - i,
        {
            self.infer_expr(&fs[i].value);
            i = i + 1;
        }
    }

    fn argument(&mut self, expected: &StaticType, expr: &Expr)
        ensures
            final(self).cx == old(self).cx,
            ({
                let (given, st1) = expr_ty_spec(old(self).cx, old(self).state(), *expr);
                final(self).state() == argument_step(st1, expected@, given, *expr)
            }),
        decreases expr, 1int,
    {
        let given = self.infer_expr(expr);
        self.report_mismatch(expected, &given, expr.span());
        if expected.accepts(&given) {
            self.mark_move(expr, expected, None);
        }
    }

    fn positional(&mut self, sig: &Vec<(String, StaticType)>, args: &Vec<Expr>)
        ensures
            final(self).cx == old(self).cx,
            final(self).state() == positional_spec(
                old(self).cx,
                old(self).state(),
                signature_view(sig@),
                args@,
                min_len(sig@.len(), args@.len()),
            ),
        decreases args, 0int,
    {
        let n = if sig.len() < args.len() { sig.len() } else { args.len() };
        let mut i: usize = 0;
        while i < n
            invariant
                i <= n,
                n == min_len(sig@.len(), args@.len()),
                self.cx == old(self).cx,
                self.state() == positional_spec(old(self).cx, old(self).state(), signature_view(sig@), args@, i as int),
            decreases n - i,
        {
            self.argument(&sig[i].1, &args[i]);
            i = i + 1;
        }
    }

    fn kwarg_values(&mut self, ks: &Vec<Kwarg>)
        ensures
            final(self).cx == old(self).cx,
            final(self).state() == kwarg_values_spec(old(self).cx, old(self).state(), ks@, ks@.len() as int),
    {
        let mut i: usize = 0;
        while i < ks.len()
            invariant
                i <= ks@.len(),
                self.cx == old(self).cx,
                self.state() == kwarg_values_spec(old(self).cx, old(self).state(), ks@, i as int),
            decreases ks@.len() - i,
        {
            self.infer_expr(&ks[i].value);
            i = i + 1;
        }
    }

    fn list_value(&mut self, name: &Name, value: &Expr)
        ensures
            final(self).cx == old(self).cx,
            final(self).state() == list_value_spec(old(self).cx, old(self).state(), *name, *value),
    {
        let expected = self.get_list_type(name.basename().as_str());
        self.argument(&expected, value);
    }

    fn check_call_args(&mut self, params: Option<&Vec<Arg>>, args: &Vec<Expr>, kwargs: &Vec<Kwarg>)
        ensures
            final(self).cx == old(self).cx,
            final(self).state() == call_args_spec(
                old(self).cx,
                old(self).state(),
                match params {
                    Some(p) => signature_spec(p@),
                    None => seq![],
                },
                args@,
                kwargs@,
            ),
    {
        let sig = match params {
            Some(p) => signature(p),
            None => Vec::new(),
        };
        assert(signature_view(sig@) =~= match params {
            Some(p) => signature_spec(p@),
            None => seq![],
        });
        self.positional(&sig, args);
        self.keywords(&sig, kwargs);
    }

    fn check_stmts(&mut self, stmts: &Vec<Stmt>)
        ensures
            final(self).cx == old(self).cx,
            final(self).state() == stmts_spec(old(self).cx, old(self).state(), stmts@, stmts@.len() as int),
        decreases stmts, 0int,
    {
        let mut i: usize = 0;
        while i < stmts.len()
            invariant
                i <= stmts@.len(),
                self.cx == old(self).cx,
                self.state() == stmts_spec(old(self).cx, old(self).state(), stmts@, i as int),
            decreases stmts@.len() - i,
        {
            self.check_stmt(&stmts[i]);
            i = i + 1;
        }
    }

    fn check_stmt(&mut self, stmt: &Stmt)
        ensures
            final(self).cx == old(self).cx,
            final(self).state() == stmt_spec(old(self).cx, old(self).state(), *stmt),
        decreases stmt, 0int,
    {
        match stmt {
            Stmt::Repeat { times, body } => {
                self.infer_expr(times);
                self.check_stmts(body);
            },
            Stmt::Forever { body, .. } => self.check_stmts(body),
            Stmt::Branch { cond, if_body, else_body } => {
                self.infer_expr(cond);
                let before = self.moved.copy();
                self.check_stmts(if_body);
                let moved_in_if = self.moved.copy();
                self.moved = before;
                self.check_stmts(else_body);
                self.moved.extend(&moved_in_if);
            },
            Stmt::Until { cond, body } => {
                self.infer_expr(cond);
                self.check_stmts(body);
            },
            Stmt::SetVar { name, value, type_, .. } => {
                let explicit = StaticType::from_ast(type_);
                let expected = match explicit {
                    StaticType::Dynamic => self.get_var_type(name.basename().as_str()),
                    _ => explicit,
                };
                let given = self.infer_expr(value);
                self.report_mismatch(&expected, &given, value.span());
                if expected.accepts(&given) {
                    self.mark_move(value, &expected, Some(name));
                }
                if name.fieldname().is_none() {
                    // Assignment creates a fresh value, so a previously moved
                    // destination becomes usable again.
                    self.moved.remove(name.basename().as_str());
                }
            },
            Stmt::ChangeVar { name, value } => {
                self.check_name_available(name);
                self.infer_expr(value);
            },
            Stmt::Show(name) => self.check_name_available(name),
            Stmt::Hide(name) => self.check_name_available(name),
            Stmt::AddToList { name, value } => self.list_value(name, value),
            Stmt::DeleteList(name) => self.check_name_available(name),
            Stmt::DeleteListIndex { index, .. } => {
                self.infer_expr(index);
            },
            Stmt::InsertAtList { name, index, value } => {
                self.infer_expr(index);
                self.list_value(name, value);
            },
            Stmt::SetListIndex { name, index, value } => {
                self.infer_expr(index);
                self.list_value(name, value);
            },
            Stmt::Block { args, kwargs, .. } => {
                self.exprs(args);
                self.kwarg_values(kwargs);
            },
            Stmt::ProcCall { name, args, kwargs, .. } => {
                let sprite = self.cx.sprite;
                self.check_call_args(sprite.proc_args.get(name.as_str()), args, kwargs);
            },
            Stmt::FuncCall { name, args, kwargs, .. } => {
                let sprite = self.cx.sprite;
                self.check_call_args(sprite.func_args.get(name.as_str()), args, kwargs);
            },
            Stmt::Return { value } => {
                let given = self.infer_expr(value);
                if let Some(expected) = &self.cx.return_ty {
                    let expected = expected.clone();
                    self.report_mismatch(&expected, &given, value.span());
                }
            },
        }
    }

    fn keywords(&mut self, sig: &Vec<(String, StaticType)>, kwargs: &Vec<Kwarg>)
        ensures
            final(self).cx == old(self).cx,
            final(self).state() == keyword_spec(
                old(self).cx,
                old(self).state(),
                signature_view(sig@),
                kwargs@,
                sig@.len() as int,
            ),
        decreases kwargs, 0int,
    {
        let mut i: usize = 0;
        while i < sig.len()
            invariant
                i <= sig@.len(),
                self.cx == old(self).cx,
                self.state() == keyword_spec(old(self).cx, old(self).state(), signature_view(sig@), kwargs@, i as int),
            decreases sig@.len() - i,
        {
            assert(signature_view(sig@)[i as int] == (sig@[i as int].0@, sig@[i as int].1@));
            if let Some(k) = find_kwarg(kwargs, sig[i].0.as_str()) {
                proof {
                    lemma_kwarg_index(kwargs@, sig@[i as int].0@, kwargs@.len() as int);
                }
                self.argument(&sig[i].1, &kwargs[k].value);
            }
            i = i + 1;
        }
    }
}

/// The names and types of the parameters.
fn signature(args: &Vec<Arg>) -> (r: Vec<(String, StaticType)>)
    ensures
        signature_view(r@) == signature_spec(args@),
{
    let mut r: Vec<(String, StaticType)> = Vec::new();
    let mut i: usize = 0;
    while i < args.len()
        invariant
            i <= args@.len(),
            r@.len() == i,
            signature_view(r@) == signature_spec(args@.take(i as int)),
        decreases args@.len() - i,
    {
        let ghost before = r@;
        r.push((args[i].name.clone(), StaticType::from_ast(&args[i].type_)));
        assert forall|j: int| 0 <= j < i + 1 implies #[trigger] signature_view(r@)[j]
            == signature_spec(args@.take(i + 1))[j] by {
            if j < i {
                assert(r@[j] == before[j]);
                assert(signature_view(before)[j] == signature_spec(args@.take(i as int))[j]);
            }
        }
        assert(signature_view(r@) =~= signature_spec(args@.take(i + 1)));
        i = i + 1;
    }
    assert(args@.take(i as int) =~= args@);
    r
}

/// The index of the first keyword argument named `name`.
fn find_kwarg(kwargs: &Vec<Kwarg>, name: &str) -> (r: Option<usize>)
    ensures
        r == (match kwarg_index(kwargs@, name@, kwargs@.len() as int) {
            Some(i) => Some(i as usize),
            None => None,
        }),
{
    let mut i: usize = 0;
    while i < kwargs.len()
        invariant
            i <= kwargs@.len(),
            kwarg_index(kwargs@, name@, i as int) is None,
        decreases kwargs@.len() - i,
    {
        if same_text(kwargs[i].name.as_str(), name) {
            proof {
                lemma_kwarg_index_first(kwargs@, name@, i as int, kwargs@.len() as int);
            }
            return Some(i);
        }
        i = i + 1;
    }
    None
}

pub proof fn lemma_kwarg_index_first(kwargs: Seq<Kwarg>, name: Seq<char>, i: int, n: int)
    requires
        0 <= i < n <= kwargs.len(),
        kwarg_index(kwargs, name, i) is None,
        kwargs[i].name@ == name,
    ensures
        kwarg_index(kwargs, name, n) == Some(i),
    decreases n,
{
    if n > i + 1 {
        lemma_kwarg_index_first(kwargs, name, i, n - 1);
    }
}

pub proof fn lemma_arg_index_first(args: Seq<Arg>, name: Seq<char>, i: int, n: int)
    requires
        0 <= i < n <= args.len(),
        arg_index(args, name, i) is None,
        args[i].name@ == name,
    ensures
        arg_index(args, name, n) == Some(i),
    decreases n,
{
    if n > i + 1 {
        lemma_arg_index_first(args, name, i, n - 1);
    }
}


/// The type of a default value.
pub open spec fn const_ty_spec(text: Seq<u8>, expr: ConstExpr) -> StaticTypeView {
    match expr {
        ConstExpr::Value { value, span } => if spelled_boolean_spec(
            text,
            span.start as int,
            span.end as int,
        ) {
            StaticTypeView::Bool
        } else {
            match value {
                Value::Boolean(_) => StaticTypeView::Bool,
                Value::Number { integral } => if integral {
                    StaticTypeView::Int
                } else {
                    StaticTypeView::Number
                },
                Value::String(_) => StaticTypeView::String,
            }
        },
        ConstExpr::EnumVariant { .. } => StaticTypeView::Dynamic,
        ConstExpr::StructLiteral { name, .. } => StaticTypeView::Struct(name@),
    }
}

/// The type of a default value.
fn const_expr_type(expr: &ConstExpr, text: &[u8]) -> (r: StaticType)
    ensures
        r@ == const_ty_spec(text@, *expr),
{
    match expr {
        ConstExpr::Value { value, span } => {
            if spelled_boolean(text, span) {
                return StaticType::Bool;
            }
            match value {
                Value::Boolean(_) => StaticType::Bool,
                Value::Number { integral } => if *integral {
                    StaticType::Int
                } else {
                    StaticType::Number
                },
                Value::String(_) => StaticType::String,
            }
        },
        ConstExpr::EnumVariant { .. } => StaticType::Dynamic,
        ConstExpr::StructLiteral { name, .. } => StaticType::Struct(name.clone()),
    }
}

/// The diagnostic a default reports when the declared type rejects it.
pub open spec fn default_spec(text: Seq<u8>, declared: Type, default: ConstExpr) -> Seq<DiagnosticView> {
    mismatch_spec(ty_of_type(declared@), const_ty_spec(text, default), default.spec_span())
}

/// The diagnostics of the first `n` variable defaults.
pub open spec fn var_defaults_spec(text: Seq<u8>, vars: Seq<(String, Var)>, n: int) -> Seq<DiagnosticView>
    decreases n,
{
    if n <= 0 || n > vars.len() {
        seq![]
    } else {
        var_defaults_spec(text, vars, n - 1) + match vars[n - 1].1.default {
            Some(d) => default_spec(text, vars[n - 1].1.type_, d),
            None => seq![],
        }
    }
}

/// The diagnostics of the first `n` values of a list default.
pub open spec fn list_values_spec(text: Seq<u8>, declared: Type, values: Seq<ConstExpr>, n: int) -> Seq<DiagnosticView>
    decreases n,
{
    if n <= 0 || n > values.len() {
        seq![]
    } else {
        list_values_spec(text, declared, values, n - 1) + default_spec(text, declared, values[n - 1])
    }
}

/// The diagnostics of the first `n` list defaults.
pub open spec fn list_defaults_spec(text: Seq<u8>, lists: Seq<(String, List)>, n: int) -> Seq<DiagnosticView>
    decreases n,
{
    if n <= 0 || n > lists.len() {
        seq![]
    } else {
        list_defaults_spec(text, lists, n - 1) + match lists[n - 1].1.default {
            Some(ListDefault::Values(values)) => list_values_spec(
                text,
                lists[n - 1].1.type_,
                values@,
                values@.len() as int,
            ),
            _ => seq![],
        }
    }
}

/// The diagnostics of the defaults of a sprite's variables and lists.
pub open spec fn defaults_spec(sprite: Sprite, text: Seq<u8>) -> Seq<DiagnosticView> {
    var_defaults_spec(text, sprite.vars.entries@, sprite.vars.entries@.len() as int)
        + list_defaults_spec(text, sprite.lists.entries@, sprite.lists.entries@.len() as int)
}

/// Reports a default that the declared type rejects.
fn check_default(declared: &Type, default: &ConstExpr, d: &mut SpriteDiagnostics)
    ensures
        final(d).text == old(d).text,
        diagnostics_view(final(d).diagnostics@) == diagnostics_view(old(d).diagnostics@)
            + default_spec(old(d).text@, *declared, *default),
{
    let expected = StaticType::from_ast(declared);
    let given = const_expr_type(default, d.text.as_slice());
    if !expected.accepts(&given) {
        let span = default.span();
        d.report(
            DiagnosticKind::TypeMismatch {
                expected: expected.to_ast(span.start..span.end),
                given: given.to_ast(span.start..span.end),
            },
            span,
        );
    } else {
        assert(diagnostics_view(d.diagnostics@) =~= diagnostics_view(old(d).diagnostics@) + seq![]);
    }
}

/// Reports the defaults of variables and lists that their declared types reject.
fn check_defaults(sprite: &Sprite, d: &mut SpriteDiagnostics)
    ensures
        final(d).text == old(d).text,
        diagnostics_view(final(d).diagnostics@) == diagnostics_view(old(d).diagnostics@)
            + defaults_spec(*sprite, old(d).text@),
{
    let ghost text = d.text@;
    let mut i: usize = 0;
    while i < sprite.vars.entries.len()
        invariant
            i <= sprite.vars.entries@.len(),
            d.text == old(d).text,
            text == old(d).text@,
            diagnostics_view(d.diagnostics@) == diagnostics_view(old(d).diagnostics@)
                + var_defaults_spec(text, sprite.vars.entries@, i as int),
        decreases sprite.vars.entries@.len() - i,
    {
        let var = &sprite.vars.entries[i].1;
        if let Some(default) = &var.default {
            check_default(&var.type_, default, d);
        }
        assert(diagnostics_view(d.diagnostics@) =~= diagnostics_view(old(d).diagnostics@)
            + var_defaults_spec(text, sprite.vars.entries@, i + 1));
        i = i + 1;
    }
    let ghost after_vars = diagnostics_view(d.diagnostics@);
    let mut j: usize = 0;
    while j < sprite.lists.entries.len()
        invariant
            j <= sprite.lists.entries@.len(),
            d.text == old(d).text,
            text == old(d).text@,
            diagnostics_view(d.diagnostics@) == after_vars + list_defaults_spec(
                text,
                sprite.lists.entries@,
                j as int,
            ),
        decreases sprite.lists.entries@.len() - j,
    {
        let list = &sprite.lists.entries[j].1;
        let ghost before = diagnostics_view(d.diagnostics@);
        if let Some(ListDefault::Values(values)) = &list.default {
            let mut k: usize = 0;
            while k < values.len()
                invariant
                    k <= values@.len(),
                    d.text == old(d).text,
                    text == old(d).text@,
                    diagnostics_view(d.diagnostics@) == before + list_values_spec(
                        text,
                        list.type_,
                        values@,
                        k as int,
                    ),
                decreases values@.len() - k,
            {
                check_default(&list.type_, &values[k], d);
                assert(diagnostics_view(d.diagnostics@) =~= before + list_values_spec(
                    text,
                    list.type_,
                    values@,
                    k + 1,
                ));
                k = k + 1;
            }
        }
        assert(diagnostics_view(d.diagnostics@) =~= after_vars + list_defaults_spec(
            text,
            sprite.lists.entries@,
            j + 1,
        ));
        j = j + 1;
    }
}


/// What checking a body finds, from a fresh state.
pub open spec fn body_spec(cx: Context, body: Option<Vec<Stmt>>) -> Seq<DiagnosticView> {
    match body {
        Some(stmts) => stmts_spec(
            cx,
            CheckState { moved: Set::empty(), diags: seq![] },
            stmts@,
            stmts@.len() as int,
        ).diags,
        None => seq![],
    }
}

/// The context for a procedure's body.
pub open spec fn proc_context<'a>(
    sprite: &'a Sprite,
    stage: Option<&'a Sprite>,
    text: &'a Vec<u8>,
    name: Seq<char>,
) -> Context<'a> {
    Context {
        sprite,
        stage,
        args: sprite.proc_args.lookup_ref(name),
        locals: sprite.proc_locals.lookup_ref(name),
        return_ty: None,
        text,
    }
}

/// The context for a function's body.
pub open spec fn func_context<'a>(
    sprite: &'a Sprite,
    stage: Option<&'a Sprite>,
    text: &'a Vec<u8>,
    name: Seq<char>,
    return_ty: StaticType,
) -> Context<'a> {
    Context {
        sprite,
        stage,
        args: sprite.func_args.lookup_ref(name),
        locals: sprite.func_locals.lookup_ref(name),
        return_ty: Some(return_ty),
        text,
    }
}

/// The context for an event's body.
pub open spec fn event_context<'a>(sprite: &'a Sprite, stage: Option<&'a Sprite>, text: &'a Vec<u8>) -> Context<'a> {
    Context { sprite, stage, args: None, locals: None, return_ty: None, text }
}

/// The diagnostics of the bodies of the first `n` procedures.
pub open spec fn procs_spec(sprite: &Sprite, stage: Option<&Sprite>, text: &Vec<u8>, n: int) -> Seq<DiagnosticView>
    decreases n,
{
    if n <= 0 || n > sprite.procs.entries@.len() {
        seq![]
    } else {
        let name = sprite.procs.entries@[n - 1].1.name@;
        procs_spec(sprite, stage, text, n - 1) + body_spec(
            proc_context(sprite, stage, text, name),
            sprite.proc_definitions.lookup(name),
        )
    }
}

/// The diagnostics of the bodies of the first `n` functions.
pub open spec fn funcs_spec(sprite: &Sprite, stage: Option<&Sprite>, text: &Vec<u8>, n: int) -> Seq<DiagnosticView>
    decreases n,
{
    if n <= 0 || n > sprite.funcs.entries@.len() {
        seq![]
    } else {
        let func = sprite.funcs.entries@[n - 1].1;
        funcs_spec(sprite, stage, text, n - 1) + body_spec(
            func_context(sprite, stage, text, func.name@, ty_from_type_value(func.type_)),
            sprite.func_definitions.lookup(func.name@),
        )
    }
}

/// The diagnostics of the bodies of the first `n` events.
pub open spec fn events_spec(sprite: &Sprite, stage: Option<&Sprite>, text: &Vec<u8>, n: int) -> Seq<DiagnosticView>
    decreases n,
{
    if n <= 0 || n > sprite.events@.len() {
        seq![]
    } else {
        events_spec(sprite, stage, text, n - 1) + body_spec(
            event_context(sprite, stage, text),
            Some(sprite.events@[n - 1].body),
        )
    }
}

/// Everything checking a sprite reports: its defaults, then its procedures,
/// functions and events.
pub open spec fn sprite_spec(sprite: &Sprite, stage: Option<&Sprite>, text: &Vec<u8>) -> Seq<DiagnosticView> {
    defaults_spec(*sprite, text@) + procs_spec(sprite, stage, text, sprite.procs.entries@.len() as int)
        + funcs_spec(sprite, stage, text, sprite.funcs.entries@.len() as int) + events_spec(
        sprite,
        stage,
        text,
        sprite.events@.len() as int,
    )
}

/// The [`StaticType`] value an annotation denotes.
pub open spec fn ty_from_type_value(t: Type) -> StaticType {
    match t {
        Type::Value => StaticType::Dynamic,
        Type::Struct { name, .. } => if name@ == "Number"@ {
            StaticType::Number
        } else if name@ == "Int"@ {
            StaticType::Int
        } else if name@ == "String"@ {
            StaticType::String
        } else if name@ == "Bool"@ || name@ == "Boolean"@ {
            StaticType::Bool
        } else if name@ == "Value"@ || name@ == "Any"@ {
            StaticType::Dynamic
        } else {
            StaticType::Struct(name)
        },
    }
}


/// Checks one body in a context from a fresh state; yields its diagnostics.
fn check_body(cx: Context, body: Option<&Vec<Stmt>>) -> (r: Vec<Diagnostic>)
    ensures
        diagnostics_view(r@) == body_spec(
            cx,
            match body {
                Some(b) => Some(*b),
                None => None,
            },
        ),
{
    let mut checker = Checker { cx, moved: NameSet::new(), diagnostics: Vec::new() };
    assert(diagnostics_view(checker.diagnostics@) =~= seq![]);
    assert(checker.state() == CheckState { moved: Set::empty(), diags: seq![] });
    if let Some(stmts) = body {
        checker.check_stmts(stmts);
    }
    checker.diagnostics
}

/// Checks a sprite: its defaults, then the bodies of its procedures, functions and
/// events, each from a fresh ownership state.
fn check_sprite(sprite: &Sprite, stage: Option<&Sprite>, d: &mut SpriteDiagnostics)
    ensures
        final(d).text == old(d).text,
        diagnostics_view(final(d).diagnostics@) == diagnostics_view(old(d).diagnostics@)
            + sprite_spec(sprite, stage, &old(d).text),
{
    check_defaults(sprite, d);
    let mut found: Vec<Diagnostic> = Vec::new();
    let text = &d.text;
    let mut i: usize = 0;
    while i < sprite.procs.entries.len()
        invariant
            i <= sprite.procs.entries@.len(),
            diagnostics_view(found@) == procs_spec(sprite, stage, text, i as int),
        decreases sprite.procs.entries@.len() - i,
    {
        let name = sprite.procs.entries[i].1.name.as_str();
        let cx = Context {
            sprite,
            stage,
            args: sprite.proc_args.get(name),
            locals: sprite.proc_locals.get(name),
            return_ty: None,
            text,
        };
        assert(cx == proc_context(sprite, stage, text, name@));
        let mut more = check_body(cx, sprite.proc_definitions.get(name));
        let ghost (f0, m0) = (found@, more@);
        found.append(&mut more);
        proof {
            lemma_diagnostics_view_concat(f0, m0);
        }
        assert(diagnostics_view(found@) =~= procs_spec(sprite, stage, text, i + 1));
        i = i + 1;
    }
    let ghost after_procs = diagnostics_view(found@);
    let mut j: usize = 0;
    while j < sprite.funcs.entries.len()
        invariant
            j <= sprite.funcs.entries@.len(),
            diagnostics_view(found@) == after_procs + funcs_spec(sprite, stage, text, j as int),
        decreases sprite.funcs.entries@.len() - j,
    {
        let func = &sprite.funcs.entries[j].1;
        let name = func.name.as_str();
        let cx = Context {
            sprite,
            stage,
            args: sprite.func_args.get(name),
            locals: sprite.func_locals.get(name),
            return_ty: Some(StaticType::from_ast(&func.type_)),
            text,
        };
        assert(cx == func_context(sprite, stage, text, name@, ty_from_type_value(func.type_)));
        let mut more = check_body(cx, sprite.func_definitions.get(name));
        let ghost (f0, m0) = (found@, more@);
        found.append(&mut more);
        proof {
            lemma_diagnostics_view_concat(f0, m0);
        }
        assert(diagnostics_view(found@) =~= after_procs + funcs_spec(sprite, stage, text, j + 1));
        j = j + 1;
    }
    let ghost after_funcs = diagnostics_view(found@);
    let mut k: usize = 0;
    while k < sprite.events.len()
        invariant
            k <= sprite.events@.len(),
            diagnostics_view(found@) == after_funcs + events_spec(sprite, stage, text, k as int),
        decreases sprite.events@.len() - k,
    {
        let cx = Context { sprite, stage, args: None, locals: None, return_ty: None, text };
        let mut more = check_body(cx, Some(&sprite.events[k].body));
        let ghost (f0, m0) = (found@, more@);
        found.append(&mut more);
        proof {
            lemma_diagnostics_view_concat(f0, m0);
        }
        assert(diagnostics_view(found@) =~= after_funcs + events_spec(sprite, stage, text, k + 1));
        k = k + 1;
    }
    d.report_all(found);
}


/// A primitive type name: these annotations are erased after checking.
pub open spec fn is_primitive_name(name: Seq<char>) -> bool {
    name == "Number"@ || name == "Int"@ || name == "String"@ || name == "Bool"@ || name
        == "Boolean"@ || name == "Value"@ || name == "Any"@
}

/// An annotation after erasure: primitive names become a plain value, struct
/// names stay.
pub open spec fn erased_type(t: Type) -> Type {
    match t {
        Type::Struct { name, .. } => if is_primitive_name(name@) {
            Type::Value
        } else {
            t
        },
        Type::Value => Type::Value,
    }
}

/// `new` is `old` with the annotations of its assignments erased.
pub open spec fn stmt_erased(old: Stmt, new: Stmt) -> bool
    decreases old, 0int,
{
    match old {
        Stmt::Repeat { times, body } => new matches Stmt::Repeat { times: t2, body: b2 } && t2
            == times && stmts_erased(body@, b2@, body@.len() as int),
        Stmt::Forever { body, span } => new matches Stmt::Forever { body: b2, span: s2 } && s2
            == span && stmts_erased(body@, b2@, body@.len() as int),
        Stmt::Until { cond, body } => new matches Stmt::Until { cond: c2, body: b2 } && c2 == cond
            && stmts_erased(body@, b2@, body@.len() as int),
        Stmt::Branch { cond, if_body, else_body } => new matches Stmt::Branch {
            cond: c2,
            if_body: i2,
            else_body: e2,
        } && c2 == cond && stmts_erased(if_body@, i2@, if_body@.len() as int) && stmts_erased(
            else_body@,
            e2@,
            else_body@.len() as int,
        ),
        Stmt::SetVar { name, value, type_, is_local } => new == Stmt::SetVar {
            name,
            value,
            type_: erased_type(type_),
            is_local,
        },
        _ => new == old,
    }
}

/// The first `n` statements of `new` are those of `old`, erased, and the lengths agree.
pub open spec fn stmts_erased(old: Seq<Stmt>, new: Seq<Stmt>, n: int) -> bool
    decreases old, n,
{
    if n <= 0 || n > old.len() {
        old.len() == new.len()
    } else {
        stmts_erased(old, new, n - 1) && stmt_erased(old[n - 1], new[n - 1])
    }
}

pub proof fn lemma_stmts_erased_frame(old: Seq<Stmt>, a: Seq<Stmt>, b: Seq<Stmt>, n: int)
    requires
        a.len() == b.len(),
        forall|j: int| 0 <= j < n ==> a[j] == b[j],
    ensures
        stmts_erased(old, a, n) == stmts_erased(old, b, n),
    decreases n,
{
    if n > 0 && n <= old.len() {
        lemma_stmts_erased_frame(old, a, b, n - 1);
    }
}

/// The annotation names a primitive type.
fn is_uy_primitive(ty: &Type) -> (r: bool)
    ensures
        r == (ty matches Type::Struct { name, .. } && is_primitive_name(name@)),
{
    match ty {
        Type::Struct { name, .. } => same_text(name.as_str(), "Number") || same_text(
            name.as_str(),
            "Int",
        ) || same_text(name.as_str(), "String") || same_text(name.as_str(), "Bool")
            || same_text(name.as_str(), "Boolean") || same_text(name.as_str(), "Value")
            || same_text(name.as_str(), "Any"),
        Type::Value => false,
    }
}

fn erase_type(ty: &mut Type)
    ensures
        *final(ty) == erased_type(*old(ty)),
{
    if is_uy_primitive(ty) {
        *ty = Type::Value;
    }
}

fn erase_one_stmt(stmt: &mut Stmt)
    ensures
        stmt_erased(*old(stmt), *final(stmt)),
    decreases *old(stmt), 0int,
{
    match stmt {
        Stmt::Repeat { body, .. } => erase_stmt_types(body),
        Stmt::Forever { body, .. } => erase_stmt_types(body),
        Stmt::Until { body, .. } => erase_stmt_types(body),
        Stmt::Branch { if_body, else_body, .. } => {
            erase_stmt_types(if_body);
            erase_stmt_types(else_body);
        },
        Stmt::SetVar { type_, .. } => erase_type(type_),
        _ => {},
    }
}

fn erase_stmt_types(stmts: &mut Vec<Stmt>)
    ensures
        stmts_erased(old(stmts)@, final(stmts)@, old(stmts)@.len() as int),
    decreases *old(stmts), 0int,
{
    let ghost original = stmts@;
    let mut i: usize = 0;
    while i < stmts.len()
        invariant
            i <= stmts@.len(),
            stmts@.len() == original.len(),
            original == old(stmts)@,
            stmts_erased(original, stmts@, i as int),
            forall|j: int| i <= j < stmts@.len() ==> stmts@[j] == original[j],
        decreases stmts@.len() - i,
    {
        let ghost before = stmts@;
        assert(stmts@[i as int] == original[i as int]);
        assert(decreases_to!(*old(stmts) => old(stmts)@[i as int]));
        erase_one_stmt(&mut stmts[i]);
        proof {
            lemma_stmts_erased_frame(original, before, stmts@, i as int);
        }
        i = i + 1;
    }
}


/// Each entry of `new` has the name of the entry of `old` at the same place and a
/// value that `f` relates to the old one.
pub open spec fn entries_related<V>(
    old: Seq<(String, V)>,
    new: Seq<(String, V)>,
    f: spec_fn(V, V) -> bool,
) -> bool {
    &&& old.len() == new.len()
    &&& forall|i: int|
        0 <= i < old.len() ==> (#[trigger] new[i]).0 == old[i].0 && f(old[i].1, new[i].1)
}

pub open spec fn var_erased(old: Var, new: Var) -> bool {
    new == Var { name: old.name, span: old.span, type_: erased_type(old.type_), default: old.default }
}

pub open spec fn list_erased(old: List, new: List) -> bool {
    new == List { name: old.name, span: old.span, type_: erased_type(old.type_), default: old.default }
}

pub open spec fn func_erased(old: Func, new: Func) -> bool {
    new == Func { name: old.name, span: old.span, type_: erased_type(old.type_), warp: old.warp }
}

pub open spec fn arg_erased(old: Arg, new: Arg) -> bool {
    new == Arg { name: old.name, span: old.span, type_: erased_type(old.type_) }
}

pub open spec fn args_erased(old: Seq<Arg>, new: Seq<Arg>) -> bool {
    &&& old.len() == new.len()
    &&& forall|i: int| 0 <= i < old.len() ==> arg_erased(old[i], #[trigger] new[i])
}

pub open spec fn vars_erased(old: NameMap<Var>, new: NameMap<Var>) -> bool {
    entries_related(old.entries@, new.entries@, |a: Var, b: Var| var_erased(a, b))
}

pub open spec fn events_erased(old: Seq<Event>, new: Seq<Event>) -> bool {
    &&& old.len() == new.len()
    &&& forall|i: int|
        0 <= i < old.len() ==> (#[trigger] new[i]).name == old[i].name && new[i].span
            == old[i].span && stmts_erased(old[i].body@, new[i].body@, old[i].body@.len() as int)
}

/// `new` is `old` with every primitive annotation erased: those of variables,
/// lists, locals, parameters, function results and assignments.
pub open spec fn sprite_erased(old: Sprite, new: Sprite) -> bool {
    &&& vars_erased(old.vars, new.vars)
    &&& entries_related(old.lists.entries@, new.lists.entries@, |a: List, b: List| list_erased(a, b))
    &&& new.procs == old.procs
    &&& entries_related(
        old.proc_args.entries@,
        new.proc_args.entries@,
        |a: Vec<Arg>, b: Vec<Arg>| args_erased(a@, b@),
    )
    &&& entries_related(
        old.proc_locals.entries@,
        new.proc_locals.entries@,
        |a: NameMap<Var>, b: NameMap<Var>| vars_erased(a, b),
    )
    &&& entries_related(
        old.proc_definitions.entries@,
        new.proc_definitions.entries@,
        |a: Vec<Stmt>, b: Vec<Stmt>| stmts_erased(a@, b@, a@.len() as int),
    )
    &&& entries_related(old.funcs.entries@, new.funcs.entries@, |a: Func, b: Func| func_erased(a, b))
    &&& entries_related(
        old.func_args.entries@,
        new.func_args.entries@,
        |a: Vec<Arg>, b: Vec<Arg>| args_erased(a@, b@),
    )
    &&& entries_related(
        old.func_locals.entries@,
        new.func_locals.entries@,
        |a: NameMap<Var>, b: NameMap<Var>| vars_erased(a, b),
    )
    &&& entries_related(
        old.func_definitions.entries@,
        new.func_definitions.entries@,
        |a: Vec<Stmt>, b: Vec<Stmt>| stmts_erased(a@, b@, a@.len() as int),
    )
    &&& events_erased(old.events@, new.events@)
}

fn erase_vars(m: &mut NameMap<Var>)
    ensures
        vars_erased(*old(m), *final(m)),
{
    let mut i: usize = 0;
    while i < m.entries.len()
        invariant
            i <= m.entries@.len(),
            m.entries@.len() == old(m).entries@.len(),
            forall|j: int|
                0 <= j < i ==> (#[trigger] m.entries@[j]).0 == old(m).entries@[j].0 && var_erased(
                    old(m).entries@[j].1,
                    m.entries@[j].1,
                ),
            forall|j: int| i <= j < m.entries@.len() ==> #[trigger] m.entries@[j] == old(m).entries@[j],
        decreases m.entries@.len() - i,
    {
        erase_type(&mut m.entries[i].1.type_);
        i = i + 1;
    }
}

fn erase_lists(m: &mut NameMap<List>)
    ensures
        entries_related(old(m).entries@, final(m).entries@, |a: List, b: List| list_erased(a, b)),
{
    let mut i: usize = 0;
    while i < m.entries.len()
        invariant
            i <= m.entries@.len(),
            m.entries@.len() == old(m).entries@.len(),
            forall|j: int|
                0 <= j < i ==> (#[trigger] m.entries@[j]).0 == old(m).entries@[j].0 && list_erased(
                    old(m).entries@[j].1,
                    m.entries@[j].1,
                ),
            forall|j: int| i <= j < m.entries@.len() ==> #[trigger] m.entries@[j] == old(m).entries@[j],
        decreases m.entries@.len() - i,
    {
        erase_type(&mut m.entries[i].1.type_);
        i = i + 1;
    }
}

fn erase_funcs(m: &mut NameMap<Func>)
    ensures
        entries_related(old(m).entries@, final(m).entries@, |a: Func, b: Func| func_erased(a, b)),
{
    let mut i: usize = 0;
    while i < m.entries.len()
        invariant
            i <= m.entries@.len(),
            m.entries@.len() == old(m).entries@.len(),
            forall|j: int|
                0 <= j < i ==> (#[trigger] m.entries@[j]).0 == old(m).entries@[j].0 && func_erased(
                    old(m).entries@[j].1,
                    m.entries@[j].1,
                ),
            forall|j: int| i <= j < m.entries@.len() ==> #[trigger] m.entries@[j] == old(m).entries@[j],
        decreases m.entries@.len() - i,
    {
        erase_type(&mut m.entries[i].1.type_);
        i = i + 1;
    }
}

fn erase_args(args: &mut Vec<Arg>)
    ensures
        args_erased(old(args)@, final(args)@),
{
    let mut i: usize = 0;
    while i < args.len()
        invariant
            i <= args@.len(),
            args@.len() == old(args)@.len(),
            forall|j: int|
                0 <= j < i ==> arg_erased(old(args)@[j], #[trigger] args@[j]),
            forall|j: int| i <= j < args@.len() ==> #[trigger] args@[j] == old(args)@[j],
        decreases args@.len() - i,
    {
        erase_type(&mut args[i].type_);
        i = i + 1;
    }
}

fn erase_args_map(m: &mut NameMap<Vec<Arg>>)
    ensures
        entries_related(
            old(m).entries@,
            final(m).entries@,
            |a: Vec<Arg>, b: Vec<Arg>| args_erased(a@, b@),
        ),
{
    let mut i: usize = 0;
    while i < m.entries.len()
        invariant
            i <= m.entries@.len(),
            m.entries@.len() == old(m).entries@.len(),
            forall|j: int|
                0 <= j < i ==> (#[trigger] m.entries@[j]).0 == old(m).entries@[j].0 && args_erased(
                    old(m).entries@[j].1@,
                    m.entries@[j].1@,
                ),
            forall|j: int| i <= j < m.entries@.len() ==> #[trigger] m.entries@[j] == old(m).entries@[j],
        decreases m.entries@.len() - i,
    {
        erase_args(&mut m.entries[i].1);
        i = i + 1;
    }
}

fn erase_locals(m: &mut NameMap<NameMap<Var>>)
    ensures
        entries_related(
            old(m).entries@,
            final(m).entries@,
            |a: NameMap<Var>, b: NameMap<Var>| vars_erased(a, b),
        ),
{
    let mut i: usize = 0;
    while i < m.entries.len()
        invariant
            i <= m.entries@.len(),
            m.entries@.len() == old(m).entries@.len(),
            forall|j: int|
                0 <= j < i ==> (#[trigger] m.entries@[j]).0 == old(m).entries@[j].0 && vars_erased(
                    old(m).entries@[j].1,
                    m.entries@[j].1,
                ),
            forall|j: int| i <= j < m.entries@.len() ==> #[trigger] m.entries@[j] == old(m).entries@[j],
        decreases m.entries@.len() - i,
    {
        erase_vars(&mut m.entries[i].1);
        i = i + 1;
    }
}

fn erase_bodies(m: &mut NameMap<Vec<Stmt>>)
    ensures
        entries_related(
            old(m).entries@,
            final(m).entries@,
            |a: Vec<Stmt>, b: Vec<Stmt>| stmts_erased(a@, b@, a@.len() as int),
        ),
{
    let mut i: usize = 0;
    while i < m.entries.len()
        invariant
            i <= m.entries@.len(),
            m.entries@.len() == old(m).entries@.len(),
            forall|j: int|
                0 <= j < i ==> (#[trigger] m.entries@[j]).0 == old(m).entries@[j].0 && stmts_erased(
                    old(m).entries@[j].1@,
                    m.entries@[j].1@,
                    old(m).entries@[j].1@.len() as int,
                ),
            forall|j: int| i <= j < m.entries@.len() ==> #[trigger] m.entries@[j] == old(m).entries@[j],
        decreases m.entries@.len() - i,
    {
        erase_stmt_types(&mut m.entries[i].1);
        i = i + 1;
    }
}

fn erase_events(events: &mut Vec<Event>)
    ensures
        events_erased(old(events)@, final(events)@),
{
    let mut i: usize = 0;
    while i < events.len()
        invariant
            i <= events@.len(),
            events@.len() == old(events)@.len(),
            forall|j: int|
                0 <= j < i ==> (#[trigger] events@[j]).name == old(events)@[j].name
                    && events@[j].span == old(events)@[j].span && stmts_erased(
                    old(events)@[j].body@,
                    events@[j].body@,
                    old(events)@[j].body@.len() as int,
                ),
            forall|j: int| i <= j < events@.len() ==> #[trigger] events@[j] == old(events)@[j],
        decreases events@.len() - i,
    {
        erase_stmt_types(&mut events[i].body);
        i = i + 1;
    }
}

/// Erases the primitive annotations of a sprite.
fn erase_sprite_types(sprite: &mut Sprite)
    ensures
        sprite_erased(*old(sprite), *final(sprite)),
{
    erase_vars(&mut sprite.vars);
    erase_lists(&mut sprite.lists);
    erase_locals(&mut sprite.proc_locals);
    erase_locals(&mut sprite.func_locals);
    erase_args_map(&mut sprite.proc_args);
    erase_args_map(&mut sprite.func_args);
    erase_funcs(&mut sprite.funcs);
    erase_bodies(&mut sprite.proc_definitions);
    erase_bodies(&mut sprite.func_definitions);
    erase_events(&mut sprite.events);
}


/// The diagnostics of each entry of `ds` after checking the first `n` sprites of
/// the project: a sprite's diagnostics go to the first entry with its name.
pub open spec fn sprites_diagnostics_spec(
    project: &Project,
    ds: Seq<(String, SpriteDiagnostics)>,
    n: int,
) -> Seq<Seq<DiagnosticView>>
    decreases n,
{
    if n <= 0 || n > project.sprites.entries@.len() {
        ds.map_values(|e: (String, SpriteDiagnostics)| diagnostics_view(e.1.diagnostics@))
    } else {
        let prev = sprites_diagnostics_spec(project, ds, n - 1);
        let entry = &project.sprites.entries@[n - 1];
        match find_in(ds, entry.0@, ds.len() as int) {
            Some(j) => prev.update(
                j,
                prev[j] + sprite_spec(&entry.1, Some(&project.stage), &ds[j].1.text),
            ),
            None => prev,
        }
    }
}

/// `new` holds the same entries as `old`, each with the same name and text.
pub open spec fn same_diagnostic_targets(
    old: Seq<(String, SpriteDiagnostics)>,
    new: Seq<(String, SpriteDiagnostics)>,
) -> bool {
    &&& old.len() == new.len()
    &&& forall|j: int|
        0 <= j < old.len() ==> (#[trigger] new[j]).0 == old[j].0 && new[j].1.text == old[j].1.text
}

/// Checks UY primitive types and ownership, then erases primitive annotations so
/// the existing goboscript -> Scratch lowering stays unchanged.
pub fn visit_project(
    project: &mut Project,
    stage_diagnostics: &mut SpriteDiagnostics,
    sprites_diagnostics: &mut NameMap<SpriteDiagnostics>,
)
    ensures
        final(stage_diagnostics).text == old(stage_diagnostics).text,
        diagnostics_view(final(stage_diagnostics).diagnostics@) == diagnostics_view(
            old(stage_diagnostics).diagnostics@,
        ) + sprite_spec(&old(project).stage, None, &old(stage_diagnostics).text),
        same_diagnostic_targets(old(sprites_diagnostics).entries@, final(sprites_diagnostics).entries@),
        forall|j: int|
            0 <= j < final(sprites_diagnostics).entries@.len() ==> diagnostics_view(
                (#[trigger] final(sprites_diagnostics).entries@[j]).1.diagnostics@,
            ) == sprites_diagnostics_spec(
                old(project),
                old(sprites_diagnostics).entries@,
                old(project).sprites.entries@.len() as int,
            )[j],
        sprite_erased(old(project).stage, final(project).stage),
        entries_related(
            old(project).sprites.entries@,
            final(project).sprites.entries@,
            |a: Sprite, b: Sprite| sprite_erased(a, b),
        ),
{
    check_sprite(&project.stage, None, stage_diagnostics);
    let ghost ds0 = sprites_diagnostics.entries@;
    let mut k: usize = 0;
    while k < project.sprites.entries.len()
        invariant
            k <= project.sprites.entries@.len(),
            *project == *old(project),
            ds0 == old(sprites_diagnostics).entries@,
            same_diagnostic_targets(ds0, sprites_diagnostics.entries@),
            forall|j: int|
                0 <= j < sprites_diagnostics.entries@.len() ==> diagnostics_view(
                    (#[trigger] sprites_diagnostics.entries@[j]).1.diagnostics@,
                ) == sprites_diagnostics_spec(project, ds0, k as int)[j],
        decreases project.sprites.entries@.len() - k,
    {
        let name = project.sprites.entries[k].0.as_str();
        proof {
            lemma_find_in(sprites_diagnostics.entries@, name@, sprites_diagnostics.entries@.len() as int);
            lemma_find_in(ds0, name@, ds0.len() as int);
            lemma_find_in_same_names(ds0, sprites_diagnostics.entries@, name@, ds0.len() as int);
            lemma_sprites_diagnostics_len(project, ds0, k as int);
            lemma_sprites_diagnostics_len(project, ds0, k + 1);
        }
        if let Some(j) = sprites_diagnostics.find_index(name) {
            let ghost before = sprites_diagnostics.entries@;
            assert(sprites_diagnostics.find(name@) == Some(j as int));
            assert(find_in(before, name@, before.len() as int) == Some(j as int));
            assert(find_in(ds0, name@, ds0.len() as int) == Some(j as int));
            check_sprite(
                &project.sprites.entries[k].1,
                Some(&project.stage),
                &mut sprites_diagnostics.entries[j].1,
            );
            assert forall|i: int|
                0 <= i < sprites_diagnostics.entries@.len() implies diagnostics_view(
                (#[trigger] sprites_diagnostics.entries@[i]).1.diagnostics@,
            ) == sprites_diagnostics_spec(project, ds0, k + 1)[i] by {
                if i != j {
                    assert(sprites_diagnostics.entries@[i] == before[i]);
                } else {
                    assert(find_in(ds0, name@, ds0.len() as int) == Some(j as int));
                    assert(before[i].1.text == ds0[i].1.text);
                    assert(diagnostics_view(before[i].1.diagnostics@) == sprites_diagnostics_spec(project, ds0, k as int)[i]);
                    assert(diagnostics_view(sprites_diagnostics.entries@[i].1.diagnostics@) == diagnostics_view(before[i].1.diagnostics@) + sprite_spec(&project.sprites.entries@[k as int].1, Some(&project.stage), &before[i].1.text));
                }
            }
        } else {
            assert forall|i: int|
                0 <= i < sprites_diagnostics.entries@.len() implies diagnostics_view(
                (#[trigger] sprites_diagnostics.entries@[i]).1.diagnostics@,
            ) == sprites_diagnostics_spec(project, ds0, k + 1)[i] by {}
        }
        k = k + 1;
    }
    erase_sprite_types(&mut project.stage);
    let ghost stage_after = project.stage;
    let mut m: usize = 0;
    while m < project.sprites.entries.len()
        invariant
            m <= project.sprites.entries@.len(),
            project.stage == stage_after,
            project.sprites.entries@.len() == old(project).sprites.entries@.len(),
            forall|j: int|
                0 <= j < m ==> (#[trigger] project.sprites.entries@[j]).0 == old(
                    project,
                ).sprites.entries@[j].0 && sprite_erased(
                    old(project).sprites.entries@[j].1,
                    project.sprites.entries@[j].1,
                ),
            forall|j: int|
                m <= j < project.sprites.entries@.len() ==> #[trigger] project.sprites.entries@[j]
                    == old(project).sprites.entries@[j],
        decreases project.sprites.entries@.len() - m,
    {
        erase_sprite_types(&mut project.sprites.entries[m].1);
        m = m + 1;
    }
}

pub proof fn lemma_sprites_diagnostics_len(
    project: &Project,
    ds: Seq<(String, SpriteDiagnostics)>,
    n: int,
)
    ensures
        sprites_diagnostics_spec(project, ds, n).len() == ds.len(),
    decreases n,
{
    if n > 0 && n <= project.sprites.entries@.len() {
        lemma_sprites_diagnostics_len(project, ds, n - 1);
        lemma_find_in(ds, project.sprites.entries@[n - 1].0@, ds.len() as int);
    }
}

/// Two tables with the same names at the same places find the same index.
pub proof fn lemma_find_in_same_names(
    a: Seq<(String, SpriteDiagnostics)>,
    b: Seq<(String, SpriteDiagnostics)>,
    name: Seq<char>,
    n: int,
)
    requires
        same_diagnostic_targets(a, b),
        0 <= n <= a.len(),
    ensures
        find_in(a, name, n) == find_in(b, name, n),
    decreases n,
{
    if n > 0 {
        lemma_find_in_same_names(a, b, name, n - 1);
    }
}


/// How the static types relate: every type accepts itself; the dynamic type
/// accepts and is accepted by every type; an `Int` stands where a `Number` is
/// expected but not the reverse; only strings and structs are owned.
pub proof fn lemma_static_type_rules(t: StaticTypeView)
    ensures
        ty_accepts(t, t),
        ty_accepts(StaticTypeView::Dynamic, t),
        ty_accepts(t, StaticTypeView::Dynamic),
        ty_accepts(StaticTypeView::Number, StaticTypeView::Int),
        !ty_accepts(StaticTypeView::Int, StaticTypeView::Number),
        ty_owned(t) <==> (t is String || t is Struct),
{
}

/// Reading a moved name is reported as a use of a moved value at the name.
pub proof fn lemma_moved_name_reported(cx: Context, st: CheckState, name: Name, is_arg: bool)
    requires
        st.moved.contains(name.spec_basename()),
    ensures
        check_name_spec(cx, st, name, is_arg).diags == st.diags.push(
            moved_use_spec(
                if is_arg {
                    arg_ty_spec(cx, name.spec_basename())
                } else {
                    var_ty_spec(cx, name.spec_basename())
                },
                name.spec_basename(),
                name.spec_basespan(),
            ),
        ),
{
}

/// Assigning to a whole variable makes it usable again, whether or not it was
/// moved before.
pub proof fn lemma_reassignment_revives(cx: Context, st: CheckState, name: Name, value: Expr, type_: Type, is_local: bool)
    requires
        name is Name,
    ensures
        !stmt_spec(cx, st, Stmt::SetVar { name, value, type_, is_local }).moved.contains(
            name.spec_basename(),
        ),
{
}

/// A value moved in either branch of an `if` counts as moved after it.
pub proof fn lemma_branch_moves_union(cx: Context, st: CheckState, cond: Expr, if_body: Vec<Stmt>, else_body: Vec<Stmt>)
    ensures
        ({
            let st1 = expr_ty_spec(cx, st, cond).1;
            let after_if = stmts_spec(cx, st1, if_body@, if_body@.len() as int);
            let after_else = stmts_spec(
                cx,
                CheckState { moved: st1.moved, diags: after_if.diags },
                else_body@,
                else_body@.len() as int,
            );
            stmt_spec(cx, st, Stmt::Branch { cond, if_body, else_body }).moved == after_if.moved.union(
                after_else.moved,
            )
        }),
{
    let st1 = expr_ty_spec(cx, st, cond).1;
    let after_if = stmts_spec(cx, st1, if_body@, if_body@.len() as int);
    let after_else = stmts_spec(
        cx,
        CheckState { moved: st1.moved, diags: after_if.diags },
        else_body@,
        else_body@.len() as int,
    );
    assert(after_else.moved.union(after_if.moved) =~= after_if.moved.union(after_else.moved));
}


/// Erasure leaves no primitive annotation, keeps struct names, and erasing twice
/// is erasing once.
pub proof fn lemma_erasure_rules(t: Type)
    ensures
        erased_type(erased_type(t)) == erased_type(t),
        erased_type(t) matches Type::Struct { name, .. } ==> !is_primitive_name(name@),
        t matches Type::Struct { name, .. } && !is_primitive_name(name@) ==> erased_type(t) == t,
{
}


/// After erasure no declaration of a sprite keeps a primitive type name: not its
/// variables, lists, function results or parameters, nor any local.
pub proof fn lemma_no_primitive_annotation_left(old: Sprite, new: Sprite)
    requires
        sprite_erased(old, new),
    ensures
        forall|i: int|
            0 <= i < new.vars.entries@.len() ==> !((#[trigger] new.vars.entries@[i]).1.type_ matches Type::Struct { name, .. } && is_primitive_name(name@)),
        forall|i: int|
            0 <= i < new.lists.entries@.len() ==> !((#[trigger] new.lists.entries@[i]).1.type_ matches Type::Struct { name, .. } && is_primitive_name(name@)),
        forall|i: int|
            0 <= i < new.funcs.entries@.len() ==> !((#[trigger] new.funcs.entries@[i]).1.type_ matches Type::Struct { name, .. } && is_primitive_name(name@)),
        forall|i: int, j: int|
            0 <= i < new.proc_args.entries@.len() && 0 <= j < new.proc_args.entries@[i].1@.len()
                ==> !((#[trigger] new.proc_args.entries@[i].1@[j]).type_ matches Type::Struct { name, .. } && is_primitive_name(name@)),
        forall|i: int, j: int|
            0 <= i < new.func_args.entries@.len() && 0 <= j < new.func_args.entries@[i].1@.len()
                ==> !((#[trigger] new.func_args.entries@[i].1@[j]).type_ matches Type::Struct { name, .. } && is_primitive_name(name@)),
{
    assert forall|i: int| 0 <= i < new.vars.entries@.len() implies !((#[trigger] new.vars.entries@[i]).1.type_ matches Type::Struct { name, .. } && is_primitive_name(name@)) by {
        lemma_erasure_rules(old.vars.entries@[i].1.type_);
    }
    assert forall|i: int| 0 <= i < new.lists.entries@.len() implies !((#[trigger] new.lists.entries@[i]).1.type_ matches Type::Struct { name, .. } && is_primitive_name(name@)) by {
        lemma_erasure_rules(old.lists.entries@[i].1.type_);
    }
    assert forall|i: int| 0 <= i < new.funcs.entries@.len() implies !((#[trigger] new.funcs.entries@[i]).1.type_ matches Type::Struct { name, .. } && is_primitive_name(name@)) by {
        lemma_erasure_rules(old.funcs.entries@[i].1.type_);
    }
    assert forall|i: int, j: int|
        0 <= i < new.proc_args.entries@.len() && 0 <= j < new.proc_args.entries@[i].1@.len()
        implies !((#[trigger] new.proc_args.entries@[i].1@[j]).type_ matches Type::Struct { name, .. } && is_primitive_name(name@)) by {
        assert(args_erased(old.proc_args.entries@[i].1@, new.proc_args.entries@[i].1@));
        lemma_erasure_rules(old.proc_args.entries@[i].1@[j].type_);
    }
    assert forall|i: int, j: int|
        0 <= i < new.func_args.entries@.len() && 0 <= j < new.func_args.entries@[i].1@.len()
        implies !((#[trigger] new.func_args.entries@[i].1@[j]).type_ matches Type::Struct { name, .. } && is_primitive_name(name@)) by {
        assert(args_erased(old.func_args.entries@[i].1@, new.func_args.entries@[i].1@));
        lemma_erasure_rules(old.func_args.entries@[i].1@[j].type_);
    }
}

/// Checking only adds diagnostics: what an entry held before stays at its front.
pub proof fn lemma_sprites_diagnostics_extend(project: &Project, ds: Seq<(String, SpriteDiagnostics)>, n: int)
    ensures
        forall|j: int|
            0 <= j < ds.len() ==> {
                let before = diagnostics_view((#[trigger] ds[j]).1.diagnostics@);
                let after = sprites_diagnostics_spec(project, ds, n)[j];
                before.len() <= after.len() && after.subrange(0, before.len() as int) == before
            },
    decreases n,
{
    lemma_sprites_diagnostics_len(project, ds, n);
    if n <= 0 || n > project.sprites.entries@.len() {
        assert forall|j: int| 0 <= j < ds.len() implies {
            let before = diagnostics_view((#[trigger] ds[j]).1.diagnostics@);
            let after = sprites_diagnostics_spec(project, ds, n)[j];
            before.len() <= after.len() && after.subrange(0, before.len() as int) == before
        } by {
            let before = diagnostics_view(ds[j].1.diagnostics@);
            assert(before.subrange(0, before.len() as int) =~= before);
        }
    } else {
        lemma_sprites_diagnostics_extend(project, ds, n - 1);
        lemma_sprites_diagnostics_len(project, ds, n - 1);
        assert forall|j: int| 0 <= j < ds.len() implies {
            let before = diagnostics_view((#[trigger] ds[j]).1.diagnostics@);
            let after = sprites_diagnostics_spec(project, ds, n)[j];
            before.len() <= after.len() && after.subrange(0, before.len() as int) == before
        } by {
            let before = diagnostics_view(ds[j].1.diagnostics@);
            let prev = sprites_diagnostics_spec(project, ds, n - 1);
            let after = sprites_diagnostics_spec(project, ds, n)[j];
            let entry = &project.sprites.entries@[n - 1];
            match find_in(ds, entry.0@, ds.len() as int) {
                Some(k) => {
                    lemma_find_in(ds, entry.0@, ds.len() as int);
                    if k == j {
                        assert(after.subrange(0, before.len() as int) =~= prev[j].subrange(
                            0,
                            before.len() as int,
                        ));
                    }
                },
                None => {},
            }
        }
    }
}

/// Each of the first `n` statements of `new` is the corresponding one of `old`,
/// erased.
proof fn lemma_stmts_erased_each(old: Seq<Stmt>, new: Seq<Stmt>, n: int)
    requires
        0 <= n <= old.len(),
        stmts_erased(old, new, n),
    ensures
        old.len() == new.len(),
        forall|i: int| 0 <= i < n ==> stmt_erased(#[trigger] old[i], new[i]),
    decreases n,
{
    if n > 0 {
        lemma_stmts_erased_each(old, new, n - 1);
    }
}

/// Erasure keeps the shape of a body: as many statements, each of the same kind,
/// with the same condition, count, span or target; only the annotation of an
/// assignment changes, and a statement of another kind is kept as it is.
pub proof fn lemma_erasure_keeps_shape(old: Seq<Stmt>, new: Seq<Stmt>)
    requires
        stmts_erased(old, new, old.len() as int),
    ensures
        new.len() == old.len(),
        forall|i: int|
            0 <= i < old.len() ==> match #[trigger] old[i] {
                Stmt::Repeat { times, body } => new[i] matches Stmt::Repeat { times: t2, body: b2 }
                    && t2 == times && b2@.len() == body@.len(),
                Stmt::Forever { body, span } => new[i] matches Stmt::Forever { body: b2, span: s2 }
                    && s2 == span && b2@.len() == body@.len(),
                Stmt::Until { cond, body } => new[i] matches Stmt::Until { cond: c2, body: b2 }
                    && c2 == cond && b2@.len() == body@.len(),
                Stmt::Branch { cond, if_body, else_body } => new[i] matches Stmt::Branch {
                    cond: c2,
                    if_body: i2,
                    else_body: e2,
                } && c2 == cond && i2@.len() == if_body@.len() && e2@.len() == else_body@.len(),
                Stmt::SetVar { name, value, type_, is_local } => new[i] matches Stmt::SetVar {
                    name: n2,
                    value: v2,
                    type_: t2,
                    is_local: l2,
                } && n2 == name && v2 == value && l2 == is_local && t2 == erased_type(type_),
                _ => new[i] == old[i],
            },
{
    lemma_stmts_erased_each(old, new, old.len() as int);
    assert forall|i: int| 0 <= i < old.len() implies match #[trigger] old[i] {
        Stmt::Repeat { times, body } => new[i] matches Stmt::Repeat { times: t2, body: b2 } && t2
            == times && b2@.len() == body@.len(),
        Stmt::Forever { body, span } => new[i] matches Stmt::Forever { body: b2, span: s2 } && s2
            == span && b2@.len() == body@.len(),
        Stmt::Until { cond, body } => new[i] matches Stmt::Until { cond: c2, body: b2 } && c2
            == cond && b2@.len() == body@.len(),
        Stmt::Branch { cond, if_body, else_body } => new[i] matches Stmt::Branch {
            cond: c2,
            if_body: i2,
            else_body: e2,
        } && c2 == cond && i2@.len() == if_body@.len() && e2@.len() == else_body@.len(),
        Stmt::SetVar { name, value, type_, is_local } => new[i] matches Stmt::SetVar {
            name: n2,
            value: v2,
            type_: t2,
            is_local: l2,
        } && n2 == name && v2 == value && l2 == is_local && t2 == erased_type(type_),
        _ => new[i] == old[i],
    } by {
        assert(stmt_erased(old[i], new[i]));
        match old[i] {
            Stmt::Repeat { times, body } => {
                if let Stmt::Repeat { times: t2, body: b2 } = new[i] {
                    lemma_stmts_erased_each(body@, b2@, body@.len() as int);
                }
            },
            Stmt::Forever { body, span } => {
                if let Stmt::Forever { body: b2, span: s2 } = new[i] {
                    lemma_stmts_erased_each(body@, b2@, body@.len() as int);
                }
            },
            Stmt::Until { cond, body } => {
                if let Stmt::Until { cond: c2, body: b2 } = new[i] {
                    lemma_stmts_erased_each(body@, b2@, body@.len() as int);
                }
            },
            Stmt::Branch { cond, if_body, else_body } => {
                if let Stmt::Branch { cond: c2, if_body: i2, else_body: e2 } = new[i] {
                    lemma_stmts_erased_each(if_body@, i2@, if_body@.len() as int);
                    lemma_stmts_erased_each(else_body@, e2@, else_body@.len() as int);
                }
            },
            _ => {},
        }
    }
}

/// The annotation names a primitive type.
pub open spec fn has_primitive_name(t: Type) -> bool {
    t matches Type::Struct { name, .. } && is_primitive_name(name@)
}

/// No assignment in the statement, at any depth, keeps a primitive annotation.
pub open spec fn stmt_annotations_erased(s: Stmt) -> bool
    decreases s, 0int,
{
    match s {
        Stmt::Repeat { body, .. } => stmts_annotations_erased(body@, body@.len() as int),
        Stmt::Forever { body, .. } => stmts_annotations_erased(body@, body@.len() as int),
        Stmt::Until { body, .. } => stmts_annotations_erased(body@, body@.len() as int),
        Stmt::Branch { if_body, else_body, .. } => stmts_annotations_erased(
            if_body@,
            if_body@.len() as int,
        ) && stmts_annotations_erased(else_body@, else_body@.len() as int),
        Stmt::SetVar { type_, .. } => !has_primitive_name(type_),
        _ => true,
    }
}

/// No assignment in the first `n` statements, at any depth, keeps a primitive
/// annotation.
pub open spec fn stmts_annotations_erased(ss: Seq<Stmt>, n: int) -> bool
    decreases ss, n,
{
    if n <= 0 || n > ss.len() {
        true
    } else {
        stmts_annotations_erased(ss, n - 1) && stmt_annotations_erased(ss[n - 1])
    }
}

proof fn lemma_stmt_erased_clean(old: Stmt, new: Stmt)
    requires
        stmt_erased(old, new),
    ensures
        stmt_annotations_erased(new),
    decreases old, 0int,
{
    match old {
        Stmt::Repeat { times, body } => {
            if let Stmt::Repeat { times: t2, body: b2 } = new {
                lemma_stmts_erased_each(body@, b2@, body@.len() as int);
                lemma_stmts_erased_clean(body@, b2@, body@.len() as int);
            }
        },
        Stmt::Forever { body, span } => {
            if let Stmt::Forever { body: b2, span: s2 } = new {
                lemma_stmts_erased_each(body@, b2@, body@.len() as int);
                lemma_stmts_erased_clean(body@, b2@, body@.len() as int);
            }
        },
        Stmt::Until { cond, body } => {
            if let Stmt::Until { cond: c2, body: b2 } = new {
                lemma_stmts_erased_each(body@, b2@, body@.len() as int);
                lemma_stmts_erased_clean(body@, b2@, body@.len() as int);
            }
        },
        Stmt::Branch { cond, if_body, else_body } => {
            if let Stmt::Branch { cond: c2, if_body: i2, else_body: e2 } = new {
                lemma_stmts_erased_each(if_body@, i2@, if_body@.len() as int);
                lemma_stmts_erased_clean(if_body@, i2@, if_body@.len() as int);
                lemma_stmts_erased_each(else_body@, e2@, else_body@.len() as int);
                lemma_stmts_erased_clean(else_body@, e2@, else_body@.len() as int);
            }
        },
        Stmt::SetVar { name, value, type_, is_local } => {
            lemma_erasure_rules(type_);
        },
        _ => {},
    }
}

proof fn lemma_stmts_erased_clean(old: Seq<Stmt>, new: Seq<Stmt>, n: int)
    requires
        0 <= n <= old.len(),
        stmts_erased(old, new, n),
    ensures
        stmts_annotations_erased(new, n),
    decreases old, n,
{
    if n > 0 {
        lemma_stmts_erased_clean(old, new, n - 1);
        lemma_stmt_erased_clean(old[n - 1], new[n - 1]);
        lemma_stmts_erased_each(old, new, n);
    }
}

/// After erasure no local of a sprite keeps a primitive type name, and no
/// assignment in its procedures, functions or events does, at any depth.
pub proof fn lemma_no_primitive_annotation_in_bodies(old: Sprite, new: Sprite)
    requires
        sprite_erased(old, new),
    ensures
        forall|i: int, j: int|
            0 <= i < new.proc_locals.entries@.len() && 0 <= j
                < new.proc_locals.entries@[i].1.entries@.len() ==> !has_primitive_name(
                (#[trigger] new.proc_locals.entries@[i].1.entries@[j]).1.type_,
            ),
        forall|i: int, j: int|
            0 <= i < new.func_locals.entries@.len() && 0 <= j
                < new.func_locals.entries@[i].1.entries@.len() ==> !has_primitive_name(
                (#[trigger] new.func_locals.entries@[i].1.entries@[j]).1.type_,
            ),
        forall|i: int|
            0 <= i < new.proc_definitions.entries@.len() ==> stmts_annotations_erased(
                (#[trigger] new.proc_definitions.entries@[i]).1@,
                new.proc_definitions.entries@[i].1@.len() as int,
            ),
        forall|i: int|
            0 <= i < new.func_definitions.entries@.len() ==> stmts_annotations_erased(
                (#[trigger] new.func_definitions.entries@[i]).1@,
                new.func_definitions.entries@[i].1@.len() as int,
            ),
        forall|i: int|
            0 <= i < new.events@.len() ==> stmts_annotations_erased(
                (#[trigger] new.events@[i]).body@,
                new.events@[i].body@.len() as int,
            ),
{
    assert forall|i: int, j: int|
        0 <= i < new.proc_locals.entries@.len() && 0 <= j
            < new.proc_locals.entries@[i].1.entries@.len() implies !has_primitive_name(
        (#[trigger] new.proc_locals.entries@[i].1.entries@[j]).1.type_,
    ) by {
        assert(vars_erased(old.proc_locals.entries@[i].1, new.proc_locals.entries@[i].1));
        lemma_erasure_rules(old.proc_locals.entries@[i].1.entries@[j].1.type_);
    }
    assert forall|i: int, j: int|
        0 <= i < new.func_locals.entries@.len() && 0 <= j
            < new.func_locals.entries@[i].1.entries@.len() implies !has_primitive_name(
        (#[trigger] new.func_locals.entries@[i].1.entries@[j]).1.type_,
    ) by {
        assert(vars_erased(old.func_locals.entries@[i].1, new.func_locals.entries@[i].1));
        lemma_erasure_rules(old.func_locals.entries@[i].1.entries@[j].1.type_);
    }
    assert forall|i: int| 0 <= i < new.proc_definitions.entries@.len() implies stmts_annotations_erased(
        (#[trigger] new.proc_definitions.entries@[i]).1@,
        new.proc_definitions.entries@[i].1@.len() as int,
    ) by {
        let (o, n2) = (old.proc_definitions.entries@[i].1@, new.proc_definitions.entries@[i].1@);
        lemma_stmts_erased_each(o, n2, o.len() as int);
        lemma_stmts_erased_clean(o, n2, o.len() as int);
    }
    assert forall|i: int| 0 <= i < new.func_definitions.entries@.len() implies stmts_annotations_erased(
        (#[trigger] new.func_definitions.entries@[i]).1@,
        new.func_definitions.entries@[i].1@.len() as int,
    ) by {
        let (o, n2) = (old.func_definitions.entries@[i].1@, new.func_definitions.entries@[i].1@);
        lemma_stmts_erased_each(o, n2, o.len() as int);
        lemma_stmts_erased_clean(o, n2, o.len() as int);
    }
    assert forall|i: int| 0 <= i < new.events@.len() implies stmts_annotations_erased(
        (#[trigger] new.events@[i]).body@,
        new.events@[i].body@.len() as int,
    ) by {
        let (o, n2) = (old.events@[i].body@, new.events@[i].body@);
        lemma_stmts_erased_each(o, n2, o.len() as int);
        lemma_stmts_erased_clean(o, n2, o.len() as int);
    }
}

/// Binary operators type as the language says: arithmetic (`+ - * % //`) on two
/// `Int`s is an `Int` and on anything else a `Number`; `/` is a `Number`; `&`
/// joins into a `String`; comparisons and logic (`< > = and or in <= >= !=`)
/// give a `Bool`, whatever their operands.
pub proof fn lemma_binop_types(cx: Context, op: BinOp, lhs: Expr, lt: StaticTypeView, rt: StaticTypeView)
    ensures
        (op is Add || op is Sub || op is Mul || op is Mod || op is FloorDiv) ==> binop_ty_spec(
            cx,
            op,
            lhs,
            lt,
            rt,
        ) == (if lt == StaticTypeView::Int && rt == StaticTypeView::Int {
            StaticTypeView::Int
        } else {
            StaticTypeView::Number
        }),
        op is Div ==> binop_ty_spec(cx, op, lhs, lt, rt) == StaticTypeView::Number,
        op is Join ==> binop_ty_spec(cx, op, lhs, lt, rt) == StaticTypeView::String,
        (op is Lt || op is Gt || op is Eq || op is And || op is Or || op is In || op is Le
            || op is Ge || op is Ne) ==> binop_ty_spec(cx, op, lhs, lt, rt) == StaticTypeView::Bool,
{
}

/// A binary expression checks its left operand, then its right one, and has the
/// type its operator gives: arithmetic on two `Int` operands is an `Int`, on
/// other operands a `Number`; a comparison or a logical operator is a `Bool`.
pub proof fn lemma_binop_expr_types(
    cx: Context,
    st: CheckState,
    op: BinOp,
    left: Expr,
    right: Expr,
    span: Range<usize>,
)
    ensures
        ({
            let e = Expr::BinOp { op, span, left: Box::new(left), right: Box::new(right) };
            let (lt, st1) = expr_ty_spec(cx, st, left);
            let (rt, st2) = expr_ty_spec(cx, st1, right);
            &&& expr_ty_spec(cx, st, e).1 == st2
            &&& (op is Add || op is Sub || op is Mul || op is Mod || op is FloorDiv) ==> expr_ty_spec(
                cx,
                st,
                e,
            ).0 == (if lt == StaticTypeView::Int && rt == StaticTypeView::Int {
                StaticTypeView::Int
            } else {
                StaticTypeView::Number
            })
            &&& (op is Lt || op is Gt || op is Eq || op is And || op is Or || op is In || op is Le
                || op is Ge || op is Ne) ==> expr_ty_spec(cx, st, e).0 == StaticTypeView::Bool
        }),
{
    let (lt, st1) = expr_ty_spec(cx, st, left);
    let (rt, st2) = expr_ty_spec(cx, st1, right);
    lemma_binop_types(cx, op, left, lt, rt);
}

} // verus!
