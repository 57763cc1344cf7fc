use koce::ast::{Expression, Value};
use koce::path::{Path, PathError};

fn name(n: &str) -> Expression {
    Expression::Argument(Value::Name(n.to_string()))
}

#[test]
fn trim_cancels_parent_steps() {
    // a/b/.. trims to a
    let p = Path::Current.next("a").next("b").parent_step();
    assert_eq!(p.trim(), Path::Current.next("a"));
}

#[test]
fn trim_idempotent_examples() {
    let cases = vec![
        Path::Current.next("a").next("b").parent_step(),
        Path::Root.next("x").parent_step().parent_step(),
        Path::Current.parent_step().parent_step().next("z"),
        Path::Current.next("a").specify("b").parent_step(),
        Path::Root,
        Path::Current,
    ];
    for p in cases {
        let once = p.trim();
        let again = once.duplicate().trim();
        assert_eq!(again, once);
    }
}

#[test]
fn trim_absolute_never_pops_past_root() {
    let p = Path::Root.parent_step().parent_step();
    assert_eq!(p.trim(), Path::Root);
}

#[test]
fn trim_relative_accumulates_markers() {
    // ../../ stays as explicit go-above-anchor markers
    let p = Path::Current.parent_step().parent_step();
    assert_eq!(
        p.trim(),
        Path::Parent(Box::new(Path::Parent(Box::new(Path::Current))))
    );
}

#[test]
fn append_relative_concatenates() {
    let a = Path::Current.next("a");
    let b = Path::Current.next("b");
    assert_eq!(a.append(b), Path::Current.next("a").next("b"));
}

#[test]
fn append_absolute_overrides_prefix() {
    let a = Path::Current.next("a");
    let b = Path::Root.next("b");
    assert_eq!(a.append(b), Path::Root.next("b"));
}

#[test]
fn absolute_and_relative() {
    assert!(Path::Root.next("a").is_absolute());
    assert!(Path::Current.next("a").is_relative());
    assert!(Path::Current.next("a").parent_step().is_relative());
}

#[test]
fn get_local_single_segment_only() {
    let single = Path::Current.next("x");
    assert_eq!(single.get_local().unwrap(), "x");
    let two = Path::Current.next("x").next("y");
    assert!(two.get_local().is_none());
    assert!(Path::Root.next("x").get_local().is_none());
    assert!(Path::Current.get_local().is_none());
}

#[test]
fn from_expression_name_chain() {
    let e = Expression::Member(Box::new(name("a")), Box::new(name("b")));
    let p = Path::from_expression(&e).unwrap();
    assert_eq!(p, Path::Current.next("a").next("b"));
}

#[test]
fn from_expression_cast_becomes_specify() {
    let e = Expression::Cast(Box::new(name("a")), Box::new(name("t")));
    let p = Path::from_expression(&e).unwrap();
    assert_eq!(p, Path::Current.next("a").specify("t"));
}

#[test]
fn from_expression_rejects_operators() {
    let e = Expression::Add(Box::new(name("a")), Box::new(name("b")));
    assert_eq!(
        Path::from_expression(&e).unwrap_err(),
        PathError::PathRuleViolation
    );
    let lit = Expression::Argument(Value::Numeric(3));
    assert!(Path::from_expression(&lit).is_err());
}

#[test]
fn hex_format_bytes() {
    assert_eq!(koce::ast::hex_format(&[0xABu8, 0x01], ", "), "0xAB, 0x01");
    assert_eq!(koce::ast::hex_format(&[0x00u8], ", "), "0x00");
    assert_eq!(koce::ast::hex_format(&[], ", "), "");
    assert_eq!(koce::ast::hex_format(&[0x0Fu8, 0xF0], "-"), "0x0F-0xF0");
}

#[test]
fn render_absolute_without_leading_separator() {
    assert_eq!(Path::Root.next("a").next("b").render(), "a/b");
    assert_eq!(Path::Root.render(), "");
}

#[test]
fn render_relative_with_leading_anchor() {
    assert_eq!(Path::Current.next("a").next("b").render(), "./a/b");
    assert_eq!(Path::Current.render(), ".");
}

#[test]
fn render_single_local_segment_bare() {
    assert_eq!(Path::Current.next("x").render(), "x");
}

#[test]
fn render_special_segments() {
    assert_eq!(Path::Current.next("a").specify("t").render(), "./a@t");
    assert_eq!(Path::Current.next("a").temporary(12).render(), "./a/$12");
    assert_eq!(Path::Current.parent_step().render(), "./..");
    assert_eq!(Path::Root.temporary(0).render(), "$0");
}
