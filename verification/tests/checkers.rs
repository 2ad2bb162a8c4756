use std::ops::Range;

use goboscript::ast::{
    Arg, Event, Expr, Func, Kwarg, List, Name, Proc, Project, Sprite, Stmt, Type, Value, Var,
};
use goboscript::diagnostic::{Diagnostic, DiagnosticKind, SpriteDiagnostics};
use goboscript::names::NameMap;
use goboscript::visitor::type_check::StaticType;
use goboscript::visitor::uy_type_check::Ty;
use goboscript::visitor::{type_check, uy_borrow_check, uy_type_check};

fn ty(name: &str) -> Type {
    Type::Struct { name: name.to_string(), span: 0..0 }
}

fn plain(name: &str, span: Range<usize>) -> Name {
    Name::Name { name: name.to_string(), span }
}

fn var_expr(name: &str, span: Range<usize>) -> Expr {
    Expr::Name(plain(name, span))
}

fn int_literal(span: Range<usize>) -> Expr {
    Expr::Value { value: Value::Number { integral: true }, span }
}

fn declared(name: &str, ty_name: &str) -> (String, Var) {
    (
        name.to_string(),
        Var { name: name.to_string(), span: 0..0, type_: ty(ty_name), default: None },
    )
}

fn arg(name: &str, ty_name: &str) -> Arg {
    Arg { name: name.to_string(), span: 0..0, type_: ty(ty_name) }
}

fn call(name: &str, args: Vec<Expr>) -> Stmt {
    Stmt::ProcCall { name: name.to_string(), span: 0..0, args, kwargs: vec![] }
}

fn say(value: Expr) -> Stmt {
    Stmt::Block { block: "say".to_string(), span: 0..0, args: vec![value], kwargs: vec![] }
}

fn empty_sprite() -> Sprite {
    Sprite {
        vars: NameMap::new(),
        lists: NameMap::new(),
        procs: NameMap::new(),
        proc_args: NameMap::new(),
        proc_locals: NameMap::new(),
        proc_definitions: NameMap::new(),
        funcs: NameMap::new(),
        func_args: NameMap::new(),
        func_locals: NameMap::new(),
        func_definitions: NameMap::new(),
        events: vec![],
    }
}

fn add_proc(sprite: &mut Sprite, name: &str, args: Vec<Arg>) {
    sprite.procs.entries.push((
        name.to_string(),
        Proc { name: name.to_string(), span: 0..0, warp: false },
    ));
    sprite.proc_args.entries.push((name.to_string(), args));
    sprite.proc_definitions.entries.push((name.to_string(), vec![]));
}

fn project_with(sprite: Sprite) -> Project {
    let mut sprites = NameMap::new();
    sprites.entries.push(("main".to_string(), sprite));
    Project { stage: empty_sprite(), sprites }
}

fn targets() -> (SpriteDiagnostics, NameMap<SpriteDiagnostics>) {
    let mut sprites = NameMap::new();
    sprites.entries.push(("main".to_string(), SpriteDiagnostics::new(vec![b' '; 64])));
    (SpriteDiagnostics::new(vec![]), sprites)
}

/// The names and spans of a type mismatch.
fn mismatch(d: &Diagnostic) -> (String, String, Range<usize>) {
    match &d.kind {
        DiagnosticKind::TypeMismatch { expected, given } => {
            let name = |t: &Type| match t {
                Type::Value => "value".to_string(),
                Type::Struct { name, .. } => name.clone(),
            };
            (name(expected), name(given), d.span.clone())
        }
        _ => panic!("expected a type mismatch"),
    }
}

fn is_value(t: &Type) -> bool {
    matches!(t, Type::Value)
}

/// `var String message; proc consume String text {}`, with an event running
/// `body`.
fn ownership_sprite(body: Vec<Stmt>) -> Sprite {
    let mut sprite = empty_sprite();
    sprite.vars.entries.push(declared("message", "String"));
    sprite.vars.entries.push(declared("score", "Int"));
    add_proc(&mut sprite, "consume", vec![arg("text", "String")]);
    sprite.events.push(Event { name: "onflag".to_string(), span: 0..0, body });
    sprite
}

#[test]
fn uy_use_after_move_is_reported() {
    let body = vec![call("consume", vec![var_expr("message", 10..17)]), say(var_expr("message", 30..37))];
    let mut project = project_with(ownership_sprite(body));
    let (mut stage, mut sprites) = targets();
    uy_type_check::visit_project(&mut project, &mut stage, &mut sprites);
    assert!(stage.diagnostics.is_empty());
    let found = &sprites.entries[0].1.diagnostics;
    assert_eq!(found.len(), 1);
    assert_eq!(mismatch(&found[0]), ("String".to_string(), "moved String".to_string(), 30..37));
}

#[test]
fn uy_reassignment_makes_a_moved_value_usable() {
    let body = vec![
        call("consume", vec![var_expr("message", 10..17)]),
        Stmt::SetVar {
            name: plain("message", 20..27),
            value: Expr::Value { value: Value::String("again".to_string()), span: 30..37 },
            type_: Type::Value,
            is_local: false,
        },
        say(var_expr("message", 40..47)),
    ];
    let mut project = project_with(ownership_sprite(body));
    let (mut stage, mut sprites) = targets();
    uy_type_check::visit_project(&mut project, &mut stage, &mut sprites);
    assert!(sprites.entries[0].1.diagnostics.is_empty());
}

#[test]
fn uy_move_in_one_branch_counts_after_the_if() {
    let body = vec![
        Stmt::Branch {
            cond: Expr::Value { value: Value::Boolean(true), span: 0..4 },
            if_body: vec![call("consume", vec![var_expr("message", 10..17)])],
            else_body: vec![],
        },
        say(var_expr("message", 30..37)),
    ];
    let mut project = project_with(ownership_sprite(body));
    let (mut stage, mut sprites) = targets();
    uy_type_check::visit_project(&mut project, &mut stage, &mut sprites);
    let found = &sprites.entries[0].1.diagnostics;
    assert_eq!(found.len(), 1);
    assert_eq!(mismatch(&found[0]).2, 30..37);
}

#[test]
fn uy_argument_type_mismatch_is_reported() {
    let body = vec![call("consume", vec![int_literal(5..6)])];
    let mut project = project_with(ownership_sprite(body));
    let (mut stage, mut sprites) = targets();
    uy_type_check::visit_project(&mut project, &mut stage, &mut sprites);
    let found = &sprites.entries[0].1.diagnostics;
    assert_eq!(found.len(), 1);
    assert_eq!(mismatch(&found[0]), ("String".to_string(), "Int".to_string(), 5..6));
}

#[test]
fn uy_int_is_accepted_where_number_is_expected() {
    let mut sprite = ownership_sprite(vec![]);
    add_proc(&mut sprite, "speed", vec![arg("v", "Number")]);
    add_proc(&mut sprite, "count", vec![arg("n", "Int")]);
    sprite.events[0].body = vec![
        call("speed", vec![var_expr("score", 1..6)]),
        call("count", vec![Expr::Value { value: Value::Number { integral: false }, span: 10..13 }]),
    ];
    let mut project = project_with(sprite);
    let (mut stage, mut sprites) = targets();
    uy_type_check::visit_project(&mut project, &mut stage, &mut sprites);
    let found = &sprites.entries[0].1.diagnostics;
    assert_eq!(found.len(), 1);
    assert_eq!(mismatch(&found[0]), ("Int".to_string(), "Number".to_string(), 10..13));
}

#[test]
fn uy_erases_primitive_annotations_and_keeps_structs() {
    let mut sprite = ownership_sprite(vec![]);
    sprite.vars.entries.push(declared("point", "Point"));
    let mut project = project_with(sprite);
    let (mut stage, mut sprites) = targets();
    uy_type_check::visit_project(&mut project, &mut stage, &mut sprites);
    let vars = &project.sprites.entries[0].1.vars.entries;
    assert!(is_value(&vars[0].1.type_));
    assert!(is_value(&vars[1].1.type_));
    assert!(matches!(&vars[2].1.type_, Type::Struct { name, .. } if name == "Point"));
    let args = &project.sprites.entries[0].1.proc_args.entries[0].1;
    assert!(is_value(&args[0].type_));
}

#[test]
fn uy_function_return_type_is_checked() {
    let mut sprite = ownership_sprite(vec![]);
    sprite.funcs.entries.push((
        "f".to_string(),
        Func { name: "f".to_string(), span: 0..0, type_: ty("String"), warp: false },
    ));
    sprite.func_args.entries.push(("f".to_string(), vec![]));
    sprite
        .func_definitions
        .entries
        .push(("f".to_string(), vec![Stmt::Return { value: int_literal(40..42) }]));
    let mut project = project_with(sprite);
    let (mut stage, mut sprites) = targets();
    uy_type_check::visit_project(&mut project, &mut stage, &mut sprites);
    let found = &sprites.entries[0].1.diagnostics;
    assert_eq!(found.len(), 1);
    assert_eq!(mismatch(&found[0]), ("String".to_string(), "Int".to_string(), 40..42));
}

#[test]
fn uy_keyword_argument_is_matched_by_name() {
    let mut sprite = ownership_sprite(vec![]);
    add_proc(&mut sprite, "pair", vec![arg("a", "Int"), arg("b", "String")]);
    sprite.events[0].body = vec![Stmt::ProcCall {
        name: "pair".to_string(),
        span: 0..0,
        args: vec![int_literal(1..2)],
        kwargs: vec![Kwarg { name: "b".to_string(), span: 3..4, value: int_literal(5..6) }],
    }];
    let mut project = project_with(sprite);
    let (mut stage, mut sprites) = targets();
    uy_type_check::visit_project(&mut project, &mut stage, &mut sprites);
    let found = &sprites.entries[0].1.diagnostics;
    assert_eq!(found.len(), 1);
    assert_eq!(mismatch(&found[0]), ("String".to_string(), "Int".to_string(), 5..6));
}

#[test]
fn static_use_after_move_is_reported() {
    let body = vec![call("consume", vec![var_expr("message", 10..17)]), say(var_expr("message", 30..37))];
    let mut project = project_with(ownership_sprite(body));
    let (mut stage, mut sprites) = targets();
    type_check::visit_project(&mut project, &mut stage, &mut sprites);
    let found = &sprites.entries[0].1.diagnostics;
    assert_eq!(found.len(), 1);
    assert_eq!(mismatch(&found[0]), ("String".to_string(), "moved String".to_string(), 30..37));
}

#[test]
fn static_moved_struct_names_its_type() {
    let mut sprite = ownership_sprite(vec![]);
    sprite.vars.entries.push(declared("point", "Point"));
    add_proc(&mut sprite, "take", vec![arg("p", "Point")]);
    sprite.events[0].body = vec![call("take", vec![var_expr("point", 1..6)]), say(var_expr("point", 8..13))];
    let mut project = project_with(sprite);
    let (mut stage, mut sprites) = targets();
    type_check::visit_project(&mut project, &mut stage, &mut sprites);
    let found = &sprites.entries[0].1.diagnostics;
    assert_eq!(found.len(), 1);
    assert_eq!(mismatch(&found[0]), ("Point".to_string(), "moved Point".to_string(), 8..13));
}

/// Reference parameters as the lexer encodes them: `show &String text`,
/// `edit &mut String text`, `both &mut String a, &String b`, and
/// `swap &mut String a, &mut String b`.
fn borrow_sprite(body: Vec<Stmt>) -> Sprite {
    let mut sprite = ownership_sprite(body);
    add_proc(&mut sprite, "show", vec![arg("@uyref:0:String:text", "Any")]);
    add_proc(&mut sprite, "edit", vec![arg("@uyref:1:String:text", "Any")]);
    add_proc(
        &mut sprite,
        "both",
        vec![arg("@uyref:1:String:a", "Any"), arg("@uyref:0:String:b", "Any")],
    );
    add_proc(
        &mut sprite,
        "lend",
        vec![arg("@uyref:0:String:a", "Any"), arg("b", "String")],
    );
    add_proc(
        &mut sprite,
        "pair",
        vec![arg("@uyref:0:String:a", "Any"), arg("@uyref:0:String:b", "Any")],
    );
    add_proc(
        &mut sprite,
        "swap",
        vec![arg("@uyref:1:String:a", "Any"), arg("@uyref:1:String:b", "Any")],
    );
    sprite
}

fn borrow(mutable: bool, name: &str, span: Range<usize>) -> Expr {
    let flag = if mutable { "1" } else { "0" };
    var_expr(&format!("@uyborrow:{flag}:{name}"), span)
}

fn borrow_check(body: Vec<Stmt>) -> Vec<Diagnostic> {
    let project = project_with(borrow_sprite(body));
    let (mut stage, mut sprites) = targets();
    uy_borrow_check::check_project(&project, &mut stage, &mut sprites);
    assert!(stage.diagnostics.is_empty());
    sprites.entries.remove(0).1.diagnostics
}

#[test]
fn shared_borrows_are_accepted() {
    let found = borrow_check(vec![
        call("show", vec![borrow(false, "message", 5..13)]),
        call("edit", vec![borrow(true, "message", 20..32)]),
        say(var_expr("message", 40..47)),
    ]);
    assert!(found.is_empty());
}

#[test]
fn mutable_and_shared_borrow_in_one_call_conflict() {
    let found = borrow_check(vec![call(
        "both",
        vec![borrow(true, "message", 5..17), borrow(false, "message", 19..27)],
    )]);
    assert_eq!(found.len(), 1);
    assert_eq!(
        mismatch(&found[0]),
        ("&String".to_string(), "mutably borrowed String".to_string(), 19..27)
    );
}

#[test]
fn keyword_reference_argument_of_another_type_is_reported() {
    let mut sprite_body = vec![];
    sprite_body.push(Stmt::ProcCall {
        name: "both".to_string(),
        span: 0..0,
        args: vec![borrow(true, "message", 5..17)],
        kwargs: vec![Kwarg { name: "b".to_string(), span: 18..19, value: borrow(false, "score", 20..26) }],
    });
    let found = borrow_check(sprite_body);
    assert_eq!(found.len(), 1);
    assert_eq!(mismatch(&found[0]), ("&String".to_string(), "&Int".to_string(), 20..26));
}

#[test]
fn two_mutable_borrows_in_one_call_conflict() {
    let found = borrow_check(vec![call(
        "swap",
        vec![borrow(true, "message", 5..17), borrow(true, "message", 19..31)],
    )]);
    assert_eq!(found.len(), 1);
    assert_eq!(
        mismatch(&found[0]),
        ("&mut String".to_string(), "already borrowed String".to_string(), 19..31)
    );
}

#[test]
fn borrows_end_with_their_call() {
    let found = borrow_check(vec![
        call("edit", vec![borrow(true, "message", 5..17)]),
        call("edit", vec![borrow(true, "message", 25..37)]),
        call("consume", vec![var_expr("message", 40..47)]),
    ]);
    assert!(found.is_empty());
}

#[test]
fn borrowing_a_moved_value_is_reported() {
    let found = borrow_check(vec![
        call("consume", vec![var_expr("message", 5..12)]),
        call("show", vec![borrow(false, "message", 20..28)]),
    ]);
    assert_eq!(found.len(), 1);
    assert_eq!(mismatch(&found[0]), ("&String".to_string(), "moved String".to_string(), 20..28));
}

#[test]
fn borrow_outside_a_reference_argument_is_reported() {
    let found = borrow_check(vec![say(borrow(false, "message", 4..12))]);
    assert_eq!(found.len(), 1);
    assert_eq!(
        mismatch(&found[0]),
        ("String".to_string(), "&String outside reference argument".to_string(), 4..12)
    );
}

#[test]
fn plain_value_for_a_reference_parameter_is_reported() {
    let found = borrow_check(vec![call("show", vec![var_expr("message", 5..12)])]);
    assert_eq!(found.len(), 1);
    assert_eq!(mismatch(&found[0]), ("&String".to_string(), "String".to_string(), 5..12));
}

#[test]
fn borrow_for_a_value_parameter_is_reported() {
    let found = borrow_check(vec![call("consume", vec![borrow(true, "message", 5..17)])]);
    assert_eq!(found.len(), 1);
    assert_eq!(mismatch(&found[0]), ("String".to_string(), "&mut String".to_string(), 5..17));
}

#[test]
fn erasure_restores_parameter_and_borrowed_names() {
    let mut project = project_with(borrow_sprite(vec![call("show", vec![borrow(false, "message", 5..13)])]));
    uy_borrow_check::erase_project(&mut project);
    let sprite = &project.sprites.entries[0].1;
    let show = &sprite.proc_args.entries[1].1[0];
    assert_eq!(show.name, "text");
    assert!(is_value(&show.type_));
    let consume = &sprite.proc_args.entries[0].1[0];
    assert_eq!(consume.name, "text");
    assert!(matches!(&consume.type_, Type::Struct { name, .. } if name == "String"));
    match &sprite.events[0].body[0] {
        Stmt::ProcCall { args, .. } => match &args[0] {
            Expr::Name(Name::Name { name, span }) => {
                assert_eq!(name, "message");
                assert_eq!(*span, 5..13);
            }
            _ => panic!("expected a name"),
        },
        _ => panic!("expected a call"),
    }
}

#[test]
fn erasure_keeps_a_struct_reference_type() {
    let mut sprite = empty_sprite();
    add_proc(&mut sprite, "show", vec![arg("@uyref:0:Point:p", "Any")]);
    let mut project = project_with(sprite);
    uy_borrow_check::erase_project(&mut project);
    let p = &project.sprites.entries[0].1.proc_args.entries[0].1[0];
    assert_eq!(p.name, "p");
    assert!(matches!(&p.type_, Type::Struct { name, .. } if name == "Point"));
}

#[test]
fn two_shared_borrows_in_one_call_coexist() {
    let found = borrow_check(vec![call(
        "pair",
        vec![borrow(false, "message", 5..13), borrow(false, "message", 15..23)],
    )]);
    assert!(found.is_empty());
}

#[test]
fn reassignment_makes_a_moved_value_borrowable() {
    let found = borrow_check(vec![
        call("consume", vec![var_expr("message", 5..12)]),
        Stmt::SetVar {
            name: plain("message", 14..21),
            value: Expr::Value { value: Value::String("again".to_string()), span: 24..31 },
            type_: Type::Value,
            is_local: false,
        },
        call("show", vec![borrow(false, "message", 40..48)]),
    ]);
    assert!(found.is_empty());
}

#[test]
fn move_in_one_branch_blocks_a_later_borrow() {
    let found = borrow_check(vec![
        Stmt::Branch {
            cond: Expr::Value { value: Value::Boolean(true), span: 0..4 },
            if_body: vec![],
            else_body: vec![call("consume", vec![var_expr("message", 5..12)])],
        },
        call("show", vec![borrow(false, "message", 40..48)]),
    ]);
    assert_eq!(found.len(), 1);
    assert_eq!(mismatch(&found[0]), ("&String".to_string(), "moved String".to_string(), 40..48));
}

#[test]
fn reference_parameter_cannot_be_moved_out_of() {
    let mut sprite = borrow_sprite(vec![]);
    sprite.proc_definitions.entries[1].1 =
        vec![call("consume", vec![Expr::Arg(plain("text", 50..55))])];
    let project = project_with(sprite);
    let (mut stage, mut sprites) = targets();
    uy_borrow_check::check_project(&project, &mut stage, &mut sprites);
    let found = &sprites.entries[0].1.diagnostics;
    assert_eq!(found.len(), 1);
    assert_eq!(
        mismatch(&found[0]),
        ("String".to_string(), "borrowed parameter String".to_string(), 50..55)
    );
}

#[test]
fn static_reassignment_makes_a_moved_value_usable() {
    let body = vec![
        call("consume", vec![var_expr("message", 10..17)]),
        Stmt::SetVar {
            name: plain("message", 20..27),
            value: Expr::Value { value: Value::String("again".to_string()), span: 30..37 },
            type_: Type::Value,
            is_local: false,
        },
        say(var_expr("message", 40..47)),
    ];
    let mut project = project_with(ownership_sprite(body));
    let (mut stage, mut sprites) = targets();
    type_check::visit_project(&mut project, &mut stage, &mut sprites);
    assert!(sprites.entries[0].1.diagnostics.is_empty());
}

#[test]
fn static_move_in_one_branch_counts_after_the_if() {
    let body = vec![
        Stmt::Branch {
            cond: Expr::Value { value: Value::Boolean(true), span: 0..4 },
            if_body: vec![],
            else_body: vec![call("consume", vec![var_expr("message", 10..17)])],
        },
        say(var_expr("message", 30..37)),
    ];
    let mut project = project_with(ownership_sprite(body));
    let (mut stage, mut sprites) = targets();
    type_check::visit_project(&mut project, &mut stage, &mut sprites);
    let found = &sprites.entries[0].1.diagnostics;
    assert_eq!(found.len(), 1);
    assert_eq!(mismatch(&found[0]).2, 30..37);
}

#[test]
fn type_rules_of_both_checkers() {
    assert!(Ty::Number.accepts(&Ty::Int));
    assert!(!Ty::Int.accepts(&Ty::Number));
    assert!(Ty::Dynamic.accepts(&Ty::Bool));
    assert!(Ty::Bool.accepts(&Ty::Dynamic));
    assert!(!Ty::String.accepts(&Ty::Bool));
    assert!(Ty::String.owned());
    assert!(!Ty::Number.owned());
    assert!(matches!(Ty::from_ast(&ty("Boolean")), Ty::Bool));
    assert!(matches!(Ty::from_ast(&ty("Any")), Ty::Dynamic));
    assert!(StaticType::Number.accepts(&StaticType::Int));
    assert!(!StaticType::Int.accepts(&StaticType::Number));
    assert!(StaticType::Struct("P".into()).is_owned());
    assert!(!StaticType::Bool.is_owned());
}

#[test]
fn moving_a_borrowed_value_is_reported() {
    let found = borrow_check(vec![call(
        "lend",
        vec![borrow(false, "message", 5..13), var_expr("message", 15..22)],
    )]);
    assert_eq!(found.len(), 1);
    assert_eq!(mismatch(&found[0]), ("String".to_string(), "borrowed String".to_string(), 15..22));
}

#[test]
fn shared_borrow_cannot_stand_for_a_mutable_parameter() {
    let found = borrow_check(vec![call("edit", vec![borrow(false, "message", 5..13)])]);
    assert_eq!(found.len(), 1);
    assert_eq!(mismatch(&found[0]), ("&mut String".to_string(), "&String".to_string(), 5..13));
}

#[test]
fn shared_parameter_cannot_be_passed_on_mutably() {
    let mut sprite = borrow_sprite(vec![]);
    sprite.proc_definitions.entries[1].1 =
        vec![call("edit", vec![Expr::Arg(plain("@uyborrow:1:text", 50..60))])];
    let project = project_with(sprite);
    let (mut stage, mut sprites) = targets();
    uy_borrow_check::check_project(&project, &mut stage, &mut sprites);
    let found = &sprites.entries[0].1.diagnostics;
    assert_eq!(found.len(), 1);
    assert_eq!(
        mismatch(&found[0]),
        ("&mut String".to_string(), "immutably borrowed parameter String".to_string(), 50..60)
    );
}

#[test]
fn uy_assignment_moves_an_owned_value() {
    let mut sprite = ownership_sprite(vec![]);
    sprite.vars.entries.push(declared("second", "String"));
    sprite.events[0].body = vec![
        Stmt::SetVar {
            name: plain("second", 0..6),
            value: var_expr("message", 9..16),
            type_: Type::Value,
            is_local: false,
        },
        say(var_expr("message", 20..27)),
        say(var_expr("second", 30..36)),
    ];
    let mut project = project_with(sprite);
    let (mut stage, mut sprites) = targets();
    uy_type_check::visit_project(&mut project, &mut stage, &mut sprites);
    let found = &sprites.entries[0].1.diagnostics;
    assert_eq!(found.len(), 1);
    assert_eq!(mismatch(&found[0]), ("String".to_string(), "moved String".to_string(), 20..27));
}

#[test]
fn uy_adding_to_a_typed_list_moves_the_value() {
    let mut sprite = ownership_sprite(vec![]);
    sprite.lists.entries.push((
        "items".to_string(),
        List { name: "items".to_string(), span: 0..0, type_: ty("String"), default: None },
    ));
    sprite.events[0].body = vec![
        Stmt::AddToList { name: plain("items", 0..5), value: var_expr("message", 8..15) },
        say(var_expr("message", 20..27)),
    ];
    let mut project = project_with(sprite);
    let (mut stage, mut sprites) = targets();
    uy_type_check::visit_project(&mut project, &mut stage, &mut sprites);
    let found = &sprites.entries[0].1.diagnostics;
    assert_eq!(found.len(), 1);
    assert_eq!(mismatch(&found[0]).2, 20..27);
}

#[test]
fn returning_an_owned_value_moves_it() {
    let mut sprite = borrow_sprite(vec![]);
    sprite.funcs.entries.push((
        "f".to_string(),
        Func { name: "f".to_string(), span: 0..0, type_: ty("String"), warp: false },
    ));
    sprite.func_args.entries.push(("f".to_string(), vec![]));
    sprite.func_definitions.entries.push((
        "f".to_string(),
        vec![
            Stmt::Return { value: var_expr("message", 10..17) },
            call("show", vec![borrow(false, "message", 20..28)]),
        ],
    ));
    let project = project_with(sprite);
    let (mut stage, mut sprites) = targets();
    uy_borrow_check::check_project(&project, &mut stage, &mut sprites);
    let found = &sprites.entries[0].1.diagnostics;
    assert_eq!(found.len(), 1);
    assert_eq!(mismatch(&found[0]), ("&String".to_string(), "moved String".to_string(), 20..28));
}
