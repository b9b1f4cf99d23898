use adroit::lex::{lex, TokenKind};
use adroit::parse::{parse, Binop, Expr, ParseError, Stmt, Type};

#[test]
fn parses_a_function() {
    let toks = lex("func f(x: Int, v: [][]Float): Int { let y = x + 1; y }").unwrap();
    let tree = parse(&toks).unwrap();
    assert_eq!(tree.funcs.len(), 1);
    let f = tree.funcs[0];
    assert_eq!(tree.params(f.sig.params).len(), 2);
    assert_eq!(tree.stmts(f.body).len(), 1);
    assert!(f.ret.is_some());
    assert!(matches!(tree.stmts(f.body)[0], Stmt::Let { .. }));
    let second = tree.params(f.sig.params)[1];
    assert!(matches!(tree.types[second.ty], Type::Vector(_)));
}

#[test]
fn parses_imports_of_modules_and_functions() {
    let toks = lex("import math; import .util; import func g(a: Int): Float;").unwrap();
    let tree = parse(&toks).unwrap();
    assert_eq!(tree.uses.len(), 2);
    assert!(!tree.uses[0].relative);
    assert!(tree.uses[1].relative);
    assert_eq!(toks[tree.uses[0].name].kind, TokenKind::Ident);
    assert_eq!(tree.imports.len(), 1);
}

#[test]
fn call_arguments_are_their_own() {
    let toks = lex("func f(): Int { g(h(1), k = 2) }").unwrap();
    let tree = parse(&toks).unwrap();
    let ret = tree.funcs[0].ret.unwrap();
    match tree.exprs[ret] {
        Expr::Function { args, .. } => {
            let args = tree.args(args);
            assert_eq!(args.len(), 2);
            assert!(args[0].name.is_none());
            assert!(args[1].name.is_some());
        }
        other => panic!("unexpected {:?}", other),
    }
}

#[test]
fn missing_name_after_func() {
    let toks = lex("func").unwrap();
    let err = parse(&toks).unwrap_err();
    let ParseError::Expected { id, kinds } = &err;
    assert_eq!(*id, 1);
    assert_eq!(kinds, &vec![TokenKind::Ident]);
    assert_eq!(err.message(), "expected identifier");
}

#[test]
fn stray_item_lists_what_a_module_may_hold() {
    let toks = lex("x").unwrap();
    let err = parse(&toks).unwrap_err();
    assert_eq!(err.message(), "expected end of file or `import` or `func`");
}

#[test]
fn loop_body_may_not_end_in_a_value() {
    let toks = lex("func f(): Int { for i in 0..3 { i } 1 }").unwrap();
    let err = parse(&toks).unwrap_err();
    assert_eq!(err.message(), "expected `;`");
}

#[test]
fn loop_and_assignments() {
    let toks = lex("func f(): Int { var s = 0; for i in 0..3 { s += i; f(); } s }").unwrap();
    let tree = parse(&toks).unwrap();
    let body = tree.stmts(tree.funcs[0].body);
    assert_eq!(body.len(), 2);
    match body[1] {
        Stmt::For { body, .. } => assert_eq!(tree.stmts(body).len(), 2),
        other => panic!("unexpected {:?}", other),
    }
}

#[test]
fn empty_module_parses() {
    let toks = lex("").unwrap();
    let tree = parse(&toks).unwrap();
    assert_eq!(tree.funcs.len(), 0);
    assert_eq!(tree.uses.len(), 0);
}

fn body_expr(src: &str) -> (adroit::parse::Tree, usize) {
    let toks = lex(src).unwrap();
    let tree = parse(&toks).unwrap();
    let ret = tree.funcs[0].ret.unwrap();
    (tree, ret)
}

#[test]
fn function_returning_a_literal() {
    let toks = lex("func f(): Int { 1 }").unwrap();
    let tree = parse(&toks).unwrap();
    assert!(tree.imports.is_empty());
    assert_eq!(tree.funcs.len(), 1);
    let f = tree.funcs[0];
    assert_eq!(f.sig.name, 1);
    assert!(tree.params(f.sig.params).is_empty());
    assert!(matches!(tree.types[f.sig.ret], Type::Name(5)));
    assert!(tree.stmts(f.body).is_empty());
    assert!(matches!(tree.exprs[f.ret.unwrap()], Expr::Int(7)));
}

#[test]
fn stray_keyword_error_position() {
    let toks = lex("let").unwrap();
    let ParseError::Expected { id, kinds } = parse(&toks).unwrap_err();
    assert_eq!(id, 0);
    assert_eq!(kinds, vec![TokenKind::Eof, TokenKind::Import, TokenKind::Func]);
}

#[test]
fn subtraction_groups_to_the_left() {
    let (tree, ret) = body_expr("func f(): Int { 1 - 2 - 3 }");
    match tree.exprs[ret] {
        Expr::Binary { lhs, op: Binop::Subtract, rhs } => {
            assert!(matches!(tree.exprs[lhs], Expr::Binary { op: Binop::Subtract, .. }));
            assert!(matches!(tree.exprs[rhs], Expr::Int(_)));
        }
        other => panic!("unexpected {:?}", other),
    }
}

#[test]
fn product_binds_tighter_than_sum() {
    let (tree, ret) = body_expr("func f(): Int { 1 + 2 * 3 }");
    match tree.exprs[ret] {
        Expr::Binary { lhs, op: Binop::Add, rhs } => {
            assert!(matches!(tree.exprs[lhs], Expr::Int(_)));
            assert!(matches!(tree.exprs[rhs], Expr::Binary { op: Binop::Multiply, .. }));
        }
        other => panic!("unexpected {:?}", other),
    }
}

#[test]
fn negation_and_postfix_nesting() {
    let (tree, ret) = body_expr("func f(): Int { -a[i].g() }");
    match tree.exprs[ret] {
        Expr::Unary { arg, .. } => match tree.exprs[arg] {
            Expr::Method { obj, .. } => assert!(matches!(tree.exprs[obj], Expr::Vector { .. })),
            other => panic!("unexpected {:?}", other),
        },
        other => panic!("unexpected {:?}", other),
    }
}

#[test]
fn items_keep_source_order() {
    let toks = lex("func a(): Int { 1 } import func b(): Int; func c(): Int { 2 } import x; import .y;").unwrap();
    let tree = parse(&toks).unwrap();
    assert_eq!(tree.funcs.len(), 2);
    assert_eq!(tree.funcs[0].sig.name, 1);
    assert_eq!(tree.imports.len(), 1);
    assert_eq!(tree.uses.len(), 2);
    assert!(!tree.uses[0].relative && tree.uses[1].relative);
    assert!(tree.uses[0].name < tree.uses[1].name);
}

#[test]
fn bad_assignment_target() {
    let toks = lex("func f(): Int { 1 = 2; 3 }").unwrap();
    let ParseError::Expected { kinds, .. } = parse(&toks).unwrap_err();
    assert_eq!(kinds, vec![TokenKind::RBrace, TokenKind::Semicolon]);
}
