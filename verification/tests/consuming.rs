use koce::ast::{Accessor, Expression, Raw, Sentence, Value};
use koce::consume::{consume_local_name, Parser, ParserError};
use koce::path::Path;
use koce::symbol::{Description, Implementation, Symbol};

fn name(n: &str) -> Expression {
    Expression::Argument(Value::Name(n.to_string()))
}

fn num(n: i128) -> Expression {
    Expression::Argument(Value::Numeric(n))
}

fn var(nm: Expression, ty: Option<Expression>, init: Option<Sentence>) -> Sentence {
    Sentence::Variable(Accessor::Private, nm, Box::new(ty), Box::new(init))
}

fn tree_size(par: &Parser) -> usize {
    let root = par.root();
    let mut it = root.iter(&par.root, koce::iterfn::IterRule::Walk);
    let mut n = 0;
    while it.next().is_some() {
        n += 1;
    }
    n
}

fn find_named(par: &Parser, from: koce::gom::Explorer, nm: &str) -> koce::gom::Explorer {
    from.find_child(&par.root, |s: &Symbol| match s {
        Symbol::Named(n, _, _) => n == nm,
        _ => false,
    })
    .unwrap()
}

#[test]
fn variable_with_folded_initializer() {
    let mut par = Parser::new();
    par.use_core();
    let stc = var(name("x"), Some(name("i32")), Some(Sentence::Mean(num(42))));
    par.parse_sentence(&Path::Current, stc).unwrap();
    let root = par.root();
    let x = find_named(&par, root, "x");
    match &x.inside(&par.root).data {
        Symbol::Named(n, Description::Memorable(p), Implementation::Direct(v)) => {
            assert_eq!(n, "x");
            assert_eq!(*p, Path::Current.next("i32"));
            assert_eq!(*v, Raw::I32(42));
        }
        other => panic!("unexpected symbol {:?}", other),
    }
}

#[test]
fn variable_without_initializer_is_empty() {
    let mut par = Parser::new();
    par.use_core();
    let stc = var(name("y"), Some(name("i32")), None);
    par.parse_sentence(&Path::Current, stc).unwrap();
    let root = par.root();
    let y = find_named(&par, root, "y");
    match &y.inside(&par.root).data {
        Symbol::Named(_, _, Implementation::Empty) => {}
        other => panic!("unexpected symbol {:?}", other),
    }
}

#[test]
fn variable_assign_initializer_rejected_tree_unmodified() {
    let mut par = Parser::new();
    par.use_core();
    let before = tree_size(&par);
    let stc = var(
        name("x"),
        Some(name("i32")),
        Some(Sentence::Assign(name("x"), num(1))),
    );
    let err = par.parse_sentence(&Path::Current, stc).unwrap_err();
    assert_eq!(err, ParserError::VariableMultipleAssignNotAllow);
    assert_eq!(tree_size(&par), before);
}

#[test]
fn variable_qualified_name_rejected() {
    let mut par = Parser::new();
    par.use_core();
    let before = tree_size(&par);
    let qualified = Expression::Member(Box::new(name("a")), Box::new(name("b")));
    let stc = var(qualified, Some(name("i32")), None);
    let err = par.parse_sentence(&Path::Current, stc).unwrap_err();
    assert_eq!(err, ParserError::MustLocalName);
    assert_eq!(tree_size(&par), before);
}

#[test]
fn variable_missing_annotation_rejected() {
    let mut par = Parser::new();
    par.use_core();
    let err = par
        .parse_sentence(&Path::Current, var(name("x"), None, None))
        .unwrap_err();
    assert_eq!(err, ParserError::InferenceUnavailable);
}

#[test]
fn variable_return_initializer_rejected() {
    let mut par = Parser::new();
    par.use_core();
    let stc = var(name("x"), Some(name("i32")), Some(Sentence::Return(num(1))));
    assert_eq!(
        par.parse_sentence(&Path::Current, stc).unwrap_err(),
        ParserError::VariableReturnNotAllow
    );
}

#[test]
fn variable_declaration_initializer_rejected() {
    let mut par = Parser::new();
    par.use_core();
    let inner = var(name("y"), Some(name("i32")), None);
    let stc = var(name("x"), Some(name("i32")), Some(inner));
    assert_eq!(
        par.parse_sentence(&Path::Current, stc).unwrap_err(),
        ParserError::VariableSubSymbolNotAllow
    );
}

#[test]
fn variable_unknown_type_rejected() {
    let mut par = Parser::new();
    par.use_core();
    let stc = var(name("x"), Some(name("mystery")), Some(Sentence::Mean(num(1))));
    match par.parse_sentence(&Path::Current, stc).unwrap_err() {
        ParserError::UnknownPath(p) => assert_eq!(p, Path::Current.next("mystery")),
        other => panic!("unexpected error {:?}", other),
    }
}

#[test]
fn variable_out_of_range_initializer_rejected() {
    let mut par = Parser::new();
    par.use_core();
    let before = tree_size(&par);
    let stc = var(
        name("x"),
        Some(name("i32")),
        Some(Sentence::Mean(num(99999999999))),
    );
    match par.parse_sentence(&Path::Current, stc).unwrap_err() {
        ParserError::FailHandle(koce::symbol::HandlerError::ExceedsRange) => {}
        other => panic!("unexpected error {:?}", other),
    }
    assert_eq!(tree_size(&par), before);
}

#[test]
fn statement_at_declaration_site_rejected() {
    let mut par = Parser::new();
    assert_eq!(
        par.parse_sentence(&Path::Current, Sentence::Mean(num(1)))
            .unwrap_err(),
        ParserError::RequireSymbol
    );
    assert_eq!(
        par.parse_sentence(&Path::Current, Sentence::Return(num(1)))
            .unwrap_err(),
        ParserError::RequireSymbol
    );
}

#[test]
fn comment_is_consumed_without_effect() {
    let mut par = Parser::new();
    let before = tree_size(&par);
    par.parse_sentence(&Path::Current, Sentence::Comment(" note".to_string()))
        .unwrap();
    assert_eq!(tree_size(&par), before);
}

#[test]
fn unknown_target_path_rejected() {
    let mut par = Parser::new();
    let to = Path::Current.next("nowhere");
    match par
        .parse_sentence(&to, Sentence::Comment(String::new()))
        .unwrap_err()
    {
        ParserError::UnknownPath(p) => assert_eq!(p, to),
        other => panic!("unexpected error {:?}", other),
    }
}

#[test]
fn layer_creates_namespace_and_scopes_declarations() {
    let mut par = Parser::new();
    par.use_core();
    let body = Sentence::Block(vec![var(
        name("inner"),
        Some(Expression::Member(
            Box::new(Expression::Cast(
                Box::new(name("dummy")),
                Box::new(name("t")),
            )),
            Box::new(name("u")),
        )),
        None,
    )]);
    // a layer whose body declaration has a convertible but odd annotation
    let stc = Sentence::Layer(
        Accessor::Public,
        name("ns"),
        Box::new(None),
        Box::new(Some(body)),
    );
    par.parse_sentence(&Path::Current, stc).unwrap();
    let root = par.root();
    let ns = find_named(&par, root, "ns");
    match &ns.inside(&par.root).data {
        Symbol::Named(n, Description::Layer, Implementation::Empty) => assert_eq!(n, "ns"),
        other => panic!("unexpected symbol {:?}", other),
    }
    let inner = find_named(&par, ns, "inner");
    assert_eq!(inner.parent(&par.root).unwrap().at, ns.at);
}

#[test]
fn function_creates_descriptor_children() {
    let mut par = Parser::new();
    par.use_core();
    let shape = Expression::FunctionShape(
        vec![
            (name("a"), Some(name("i32"))),
            (name("b"), Some(name("i32"))),
        ],
        Box::new(Some(name("i32"))),
    );
    let stc = Sentence::Function(
        Accessor::Public,
        name("f"),
        Box::new(Some(shape)),
        Box::new(None),
    );
    par.parse_sentence(&Path::Current, stc).unwrap();
    let root = par.root();
    let f = find_named(&par, root, "f");
    match &f.inside(&par.root).data {
        Symbol::Named(n, Description::Callable(args, ret), Implementation::Empty) => {
            assert_eq!(n, "f");
            assert_eq!(args.len(), 2);
            assert_eq!(*ret, Path::Current.next("i32"));
        }
        other => panic!("unexpected symbol {:?}", other),
    }
    // two parameter descriptors plus the return descriptor
    assert_eq!(f.inside(&par.root).children.len(), 3);
    let pa = f.child(&par.root, 0).unwrap();
    match &pa.inside(&par.root).data {
        Symbol::Named(n, Description::Memorable(p), _) => {
            assert_eq!(n, "a");
            assert_eq!(*p, Path::Current.next("i32"));
        }
        other => panic!("unexpected symbol {:?}", other),
    }
    let rd = f.child(&par.root, 2).unwrap();
    match &rd.inside(&par.root).data {
        Symbol::Unnamed(Description::Memorable(p), _) => {
            assert_eq!(*p, Path::Current.next("i32"));
        }
        other => panic!("unexpected symbol {:?}", other),
    }
}

#[test]
fn function_return_defaults_to_void() {
    let mut par = Parser::new();
    let shape = Expression::FunctionShape(vec![], Box::new(None));
    let stc = Sentence::Function(
        Accessor::Private,
        name("g"),
        Box::new(Some(shape)),
        Box::new(None),
    );
    par.parse_sentence(&Path::Current, stc).unwrap();
    let root = par.root();
    let f = find_named(&par, root, "g");
    match &f.inside(&par.root).data {
        Symbol::Named(_, Description::Callable(args, ret), _) => {
            assert!(args.is_empty());
            assert_eq!(*ret, Path::Current.next("void"));
        }
        other => panic!("unexpected symbol {:?}", other),
    }
}

#[test]
fn function_annotation_must_be_a_shape() {
    let mut par = Parser::new();
    let stc = Sentence::Function(
        Accessor::Private,
        name("f"),
        Box::new(Some(name("i32"))),
        Box::new(None),
    );
    assert_eq!(
        par.parse_sentence(&Path::Current, stc).unwrap_err(),
        ParserError::InvalidFunctionDescription
    );
}

#[test]
fn block_consumes_in_order_and_stops_at_first_error() {
    let mut par = Parser::new();
    par.use_core();
    let block = Sentence::Block(vec![
        var(name("a"), Some(name("i32")), Some(Sentence::Mean(num(1)))),
        var(name("bad"), None, None),
        var(name("c"), Some(name("i32")), None),
    ]);
    let err = par.parse_sentence(&Path::Current, block).unwrap_err();
    assert_eq!(err, ParserError::InferenceUnavailable);
    // the first declaration stays consumed, the third was never reached
    let root = par.root();
    assert!(root
        .find_child(&par.root, |s: &Symbol| matches!(
            s,
            Symbol::Named(n, _, _) if n == "a"
        ))
        .is_ok());
    assert!(root
        .find_child(&par.root, |s: &Symbol| matches!(
            s,
            Symbol::Named(n, _, _) if n == "c"
        ))
        .is_err());
}

#[test]
fn consume_runs_sentences_in_sequence() {
    let mut par = Parser::new();
    par.use_core();
    let sentences = vec![
        var(name("a"), Some(name("i32")), Some(Sentence::Mean(num(1)))),
        var(
            name("b"),
            Some(name("i32")),
            Some(Sentence::Mean(Expression::Add(
                Box::new(num(20)),
                Box::new(num(22)),
            ))),
        ),
    ];
    par.consume(&Path::Current, sentences).unwrap();
    let root = par.root();
    let b = find_named(&par, root, "b");
    match &b.inside(&par.root).data {
        Symbol::Named(_, _, Implementation::Direct(v)) => assert_eq!(*v, Raw::I32(42)),
        other => panic!("unexpected symbol {:?}", other),
    }
}

#[test]
fn local_name_extraction() {
    assert_eq!(consume_local_name(&name("x")).unwrap(), "x");
    let qualified = Expression::Member(Box::new(name("a")), Box::new(name("b")));
    assert_eq!(
        consume_local_name(&qualified).unwrap_err(),
        ParserError::MustLocalName
    );
    let junk = Expression::Argument(Value::Numeric(1));
    assert_eq!(
        consume_local_name(&junk).unwrap_err(),
        ParserError::FailPath(koce::path::PathError::PathRuleViolation)
    );
}

#[test]
fn consume_into_nested_target_scope() {
    let mut par = Parser::new();
    par.use_core();
    let ns = Sentence::Layer(
        Accessor::Public,
        name("util"),
        Box::new(None),
        Box::new(None),
    );
    par.parse_sentence(&Path::Current, ns).unwrap();
    // address the new scope by path and declare inside it
    let to = Path::Current.next("util");
    let stc = var(name("t"), Some(Expression::Member(Box::new(name("util")), Box::new(name("t0")))), None);
    // the annotation path does not resolve anywhere, but no initializer needs
    // it, so the declaration is consumed
    par.parse_sentence(&to, stc).unwrap();
    let root = par.root();
    let util = find_named(&par, root, "util");
    let t = find_named(&par, util, "t");
    assert_eq!(t.parent(&par.root).unwrap().at, util.at);
}

#[test]
fn initializer_type_resolves_from_enclosing_scope() {
    let mut par = Parser::new();
    par.use_core();
    let ns = Sentence::Layer(
        Accessor::Public,
        name("util"),
        Box::new(None),
        Box::new(None),
    );
    par.parse_sentence(&Path::Current, ns).unwrap();
    // i32 lives at the root; the declaration sits in /util and still folds
    let to = Path::Current.next("util");
    let stc = var(name("x"), Some(name("i32")), Some(Sentence::Mean(num(7))));
    par.parse_sentence(&to, stc).unwrap();
    let root = par.root();
    let util = find_named(&par, root, "util");
    let x = find_named(&par, util, "x");
    match &x.inside(&par.root).data {
        Symbol::Named(_, _, Implementation::Direct(v)) => assert_eq!(*v, Raw::I32(7)),
        other => panic!("unexpected symbol {:?}", other),
    }
}

#[test]
fn function_body_declarations_live_in_function_scope() {
    let mut par = Parser::new();
    par.use_core();
    let shape = Expression::FunctionShape(vec![], Box::new(None));
    let body = Sentence::Block(vec![var(
        name("localv"),
        Some(name("i32")),
        Some(Sentence::Mean(num(3))),
    )]);
    let stc = Sentence::Function(
        Accessor::Private,
        name("f"),
        Box::new(Some(shape)),
        Box::new(Some(body)),
    );
    par.parse_sentence(&Path::Current, stc).unwrap();
    let root = par.root();
    let f = find_named(&par, root, "f");
    let lv = find_named(&par, f, "localv");
    match &lv.inside(&par.root).data {
        Symbol::Named(_, _, Implementation::Direct(v)) => assert_eq!(*v, Raw::I32(3)),
        other => panic!("unexpected symbol {:?}", other),
    }
}

#[test]
fn temporary_segment_finds_unnamed_children() {
    let mut par = Parser::new();
    let c = par.use_core();
    // the operator registrations are the unnamed children of the i32 scope
    let base = Path::Current.next("i32");
    let first = Path::Current.next("i32").temporary(0);
    let root = par.root();
    let i32node = root.follow(&par.root, &base).unwrap();
    assert_eq!(i32node.at, c.at);
    let ld = root.follow(&par.root, &first).unwrap();
    assert_eq!(ld.at, i32node.child(&par.root, 0).unwrap().at);
    // past the last unnamed child, resolution fails
    let missing = Path::Current.next("i32").temporary(9);
    assert!(root.follow(&par.root, &missing).is_err());
}

#[test]
fn specify_segment_resolves_by_name() {
    let mut par = Parser::new();
    par.use_core();
    let p = Path::Current.specify("i32");
    let root = par.root();
    assert!(root.follow(&par.root, &p).is_ok());
}

#[test]
fn constant_declaration_rejected_tree_unmodified() {
    let mut par = Parser::new();
    par.use_core();
    let before = tree_size(&par);
    let stc = Sentence::Constant(
        Accessor::Private,
        name("k"),
        Box::new(Some(name("i32"))),
        Box::new(Some(Sentence::Mean(num(1)))),
    );
    let err = par.parse_sentence(&Path::Current, stc).unwrap_err();
    assert_eq!(err, ParserError::RequireSymbol);
    assert_eq!(tree_size(&par), before);
}

#[test]
fn variable_reference_initializer_not_realised() {
    let mut par = Parser::new();
    par.use_core();
    let before = tree_size(&par);
    let stc = var(
        name("x"),
        Some(name("i32")),
        Some(Sentence::Mean(Expression::Reference(Path::Current.next("y")))),
    );
    let err = par.parse_sentence(&Path::Current, stc).unwrap_err();
    assert_eq!(err, ParserError::NotImplemented);
    assert_eq!(tree_size(&par), before);
}

#[test]
fn consume_rejects_assign_initializer_and_leaves_tree() {
    let mut par = Parser::new();
    par.use_core();
    let before = tree_size(&par);
    let sentences = vec![var(
        name("x"),
        Some(name("i32")),
        Some(Sentence::Assign(name("x"), num(1))),
    )];
    let err = par.consume(&Path::Current, sentences).unwrap_err();
    assert_eq!(err, ParserError::VariableMultipleAssignNotAllow);
    assert_eq!(tree_size(&par), before);
}

#[test]
fn consume_rejects_qualified_name_and_leaves_tree() {
    let mut par = Parser::new();
    par.use_core();
    let before = tree_size(&par);
    let qualified = Expression::Member(Box::new(name("a")), Box::new(name("b")));
    let sentences = vec![var(qualified, Some(name("i32")), None)];
    let err = par.consume(&Path::Current, sentences).unwrap_err();
    assert_eq!(err, ParserError::MustLocalName);
    assert_eq!(tree_size(&par), before);
}

#[test]
fn consume_aborts_at_first_error_keeping_prefix() {
    let mut par = Parser::new();
    par.use_core();
    let sentences = vec![
        var(name("a"), Some(name("i32")), Some(Sentence::Mean(num(1)))),
        var(name("bad"), None, None),
        var(name("c"), Some(name("i32")), None),
    ];
    let err = par.consume(&Path::Current, sentences).unwrap_err();
    assert_eq!(err, ParserError::InferenceUnavailable);
    let root = par.root();
    assert!(root
        .find_child(&par.root, |s: &Symbol| matches!(
            s,
            Symbol::Named(n, _, _) if n == "a"
        ))
        .is_ok());
    assert!(root
        .find_child(&par.root, |s: &Symbol| matches!(
            s,
            Symbol::Named(n, _, _) if n == "c"
        ))
        .is_err());
}
