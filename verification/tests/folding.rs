use koce::ast::{Expression, Raw, Value};
use koce::consume::{Parser, ParserError};
use koce::fold::{find_layerdefine, fold, Folded};
use koce::symbol::HandlerKind;
use koce::path::Path;
use koce::symbol::{HandlerError, Implementation, Symbol};

fn num(n: i128) -> Expression {
    Expression::Argument(Value::Numeric(n))
}

fn i32_scope(par: &Parser) -> koce::gom::Explorer {
    let root = par.root();
    root.find_child(&par.root, |s: &Symbol| match s {
        Symbol::Named(n, _, _) => n == "i32",
        _ => false,
    })
    .unwrap()
}

#[test]
fn fold_numeric_literal() {
    let mut par = Parser::new();
    par.use_core();
    let ty = i32_scope(&par);
    let r = fold(&par.root, ty, num(42));
    assert_eq!(r.unwrap(), Folded::Value(Raw::I32(42)));
}

#[test]
fn fold_negative_literal() {
    let mut par = Parser::new();
    par.use_core();
    let ty = i32_scope(&par);
    let r = fold(&par.root, ty, Expression::Neg(Box::new(num(5))));
    assert_eq!(r.unwrap(), Folded::Value(Raw::I32(-5)));
}

#[test]
fn fold_positive_literal() {
    let mut par = Parser::new();
    par.use_core();
    let ty = i32_scope(&par);
    let r = fold(&par.root, ty, Expression::Pos(Box::new(num(5))));
    assert_eq!(r.unwrap(), Folded::Value(Raw::I32(5)));
}

#[test]
fn fold_overflowing_literal_fails_with_range_error() {
    let mut par = Parser::new();
    par.use_core();
    let ty = i32_scope(&par);
    let r = fold(&par.root, ty, num(99999999999));
    assert_eq!(
        r.unwrap_err(),
        ParserError::FailHandle(HandlerError::ExceedsRange)
    );
}

#[test]
fn fold_negating_min_fails_with_range_error() {
    let mut par = Parser::new();
    par.use_core();
    let ty = i32_scope(&par);
    let r = fold(
        &par.root,
        ty,
        Expression::Neg(Box::new(num(i32::MIN as i128))),
    );
    assert_eq!(
        r.unwrap_err(),
        ParserError::FailHandle(HandlerError::ExceedsRange)
    );
}

#[test]
fn fold_addition() {
    let mut par = Parser::new();
    par.use_core();
    let ty = i32_scope(&par);
    let e = Expression::Add(Box::new(num(40)), Box::new(num(2)));
    assert_eq!(fold(&par.root, ty, e).unwrap(), Folded::Value(Raw::I32(42)));
}

#[test]
fn fold_addition_overflow_fails() {
    let mut par = Parser::new();
    par.use_core();
    let ty = i32_scope(&par);
    let e = Expression::Add(
        Box::new(num(i32::MAX as i128)),
        Box::new(num(1)),
    );
    assert_eq!(
        fold(&par.root, ty, e).unwrap_err(),
        ParserError::FailHandle(HandlerError::ExceedsRange)
    );
}

#[test]
fn fold_byte_literal_big_endian() {
    let mut par = Parser::new();
    par.use_core();
    let ty = i32_scope(&par);
    let e = Expression::Argument(Value::Bytes(vec![0x12, 0x34]));
    assert_eq!(fold(&par.root, ty, e).unwrap(), Folded::Value(Raw::I32(0x1234)));
}

#[test]
fn fold_byte_literal_too_wide_fails() {
    let mut par = Parser::new();
    par.use_core();
    let ty = i32_scope(&par);
    let e = Expression::Argument(Value::Bytes(vec![1, 2, 3, 4, 5]));
    assert_eq!(
        fold(&par.root, ty, e).unwrap_err(),
        ParserError::FailHandle(HandlerError::ExceedsRange)
    );
}

#[test]
fn fold_name_literal_is_unsupported() {
    let mut par = Parser::new();
    par.use_core();
    let ty = i32_scope(&par);
    let e = Expression::Argument(Value::Name("x".to_string()));
    assert_eq!(
        fold(&par.root, ty, e).unwrap_err(),
        ParserError::FailHandle(HandlerError::UnsupportedLiteral)
    );
}

#[test]
fn fold_string_literal_is_unsupported() {
    let mut par = Parser::new();
    par.use_core();
    let ty = i32_scope(&par);
    let e = Expression::Argument(Value::Literal("hi".to_string()));
    assert_eq!(
        fold(&par.root, ty, e).unwrap_err(),
        ParserError::FailHandle(HandlerError::UnsupportedLiteral)
    );
}

#[test]
fn fold_without_handler_fails() {
    let par = Parser::new();
    // no primitive registered: the root scope has no Argument handler
    let root = par.root();
    assert_eq!(
        fold(&par.root, root, num(1)).unwrap_err(),
        ParserError::NoProperHandlerForExpression
    );
}

#[test]
fn fold_unregistered_operator_fails() {
    let mut par = Parser::new();
    par.use_core();
    let ty = i32_scope(&par);
    // i32 registers no Not handler
    let e = Expression::Not(Box::new(num(1)));
    assert_eq!(
        fold(&par.root, ty, e).unwrap_err(),
        ParserError::NoProperHandlerForExpression
    );
}

#[test]
fn fold_primitive_passes_through() {
    let par = Parser::new();
    let root = par.root();
    let e = Expression::Primitive(Raw::I32(7));
    assert_eq!(fold(&par.root, root, e).unwrap(), Folded::Value(Raw::I32(7)));
}

#[test]
fn fold_unsupported_shape_is_not_implemented() {
    let mut par = Parser::new();
    par.use_core();
    let ty = i32_scope(&par);
    let e = Expression::Mul(Box::new(num(2)), Box::new(num(3)));
    assert_eq!(
        fold(&par.root, ty, e).unwrap_err(),
        ParserError::NotImplemented
    );
}

#[test]
fn registered_handlers_are_found() {
    let mut par = Parser::new();
    let c = par.use_core();
    assert_eq!(
        find_layerdefine(&par.root, c, "Argument"),
        Some(HandlerKind::I32Argument)
    );
    assert_eq!(
        find_layerdefine(&par.root, c, "Negative"),
        Some(HandlerKind::I32Negative)
    );
    assert_eq!(find_layerdefine(&par.root, c, "Division"), None);
}

#[test]
fn handler_implementation_sits_under_layerdefine() {
    let mut par = Parser::new();
    let c = par.use_core();
    // the first LayerDefine child's only child carries the handler
    let ld = c.child(&par.root, 0).unwrap();
    let h = ld.child(&par.root, 0).unwrap();
    match h.inside(&par.root).data.get_implementation() {
        Implementation::Handler(_) => {}
        other => panic!("expected a handler, got {:?}", other),
    }
}

#[test]
fn core_op_path_shape() {
    let p = koce::fold::core_op_path("Negative");
    assert_eq!(p, Path::Root.next("core").next("op").next("Negative"));
}

#[test]
fn fold_reference_passes_through() {
    let par = Parser::new();
    let root = par.root();
    let e = Expression::Reference(Path::Current.next("x"));
    assert_eq!(
        fold(&par.root, root, e).unwrap(),
        Folded::Reference(Path::Current.next("x"))
    );
}

#[test]
fn fold_unary_on_reference_fails_explicitly() {
    let mut par = Parser::new();
    par.use_core();
    let ty = i32_scope(&par);
    let e = Expression::Neg(Box::new(Expression::Reference(Path::Current.next("x"))));
    assert_eq!(
        fold(&par.root, ty, e).unwrap_err(),
        ParserError::FailHandle(HandlerError::UnexpectedShape)
    );
}
