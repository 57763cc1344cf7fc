//! The declaration consumer: walks surface declaration sentences, creates
//! scope-tree symbols, and asks the folding evaluator ([`crate::fold`]) to
//! fold initializers.

use crate::ast::{Expression, Sentence, Value};
use crate::fold::{fold, spec_fold, Folded};
use crate::gom::{Explorer, GOM};
use crate::path::{Path, PathError};
use crate::symbol::{Description, HandlerError, Implementation, Symbol};
use vstd::prelude::*;

verus! {

broadcast use crate::gom::lemma_len_bound;

/// Everything that can go wrong while consuming declarations or folding
/// initializers. Each disallowed declaration or initializer shape has its own
/// variant; every error is fatal for the declaration being processed.
#[derive(Debug, PartialEq, Eq)]
pub enum ParserError {
    /// A registered handler refused its input.
    FailHandle(HandlerError),
    /// A name or type annotation was not a plain-name / member / cast chain.
    FailPath(PathError),
    /// A declared name must be a single unqualified local segment.
    MustLocalName,
    /// The declaration carries no type annotation and none can be inferred.
    InferenceUnavailable,
    /// A variable initializer used an assignment sentence.
    VariableMultipleAssignNotAllow,
    /// A variable initializer used a return or after sentence.
    VariableReturnNotAllow,
    /// A variable initializer used a declaration sentence.
    VariableSubSymbolNotAllow,
    /// A variable initializer used some other non-expression sentence.
    VariableUnhandlableSentence,
    /// A variable's declared type is not a plain type reference, so no
    /// handler scope exists to fold its initializer against.
    VariableDefinitionUnknown,
    /// No handler is registered for this operator on the declared type.
    NoProperHandlerForExpression,
    /// A path did not resolve to any scope-tree node.
    UnknownPath(Path),
    /// A surface expression shape the consumer does not accept.
    UnexpectedExpression,
    /// A function declaration whose annotation is not a function shape.
    InvalidFunctionDescription,
    /// A sentence shape the consumer does not accept at a declaration site.
    RequireSymbol,
    /// An expression shape the constant evaluator does not fold, or a folded
    /// form the consumer does not realise as a stored value.
    NotImplemented,
}

/// The first node of `cs`, in insertion order, whose symbol is named `n`.
pub open spec fn find_named_rec(g: GOM<Symbol>, cs: Seq<usize>, n: Seq<char>) -> Option<int>
    decreases cs.len(),
{
    if cs.len() == 0 {
        None
    } else if (cs[0] as int) < g.len() && g.data_of(cs[0] as int).spec_name() == Some(n) {
        Some(cs[0] as int)
    } else {
        find_named_rec(g, cs.drop_first(), n)
    }
}

/// The `k`-th unnamed node of `cs`, in insertion order.
pub open spec fn nth_unnamed_rec(g: GOM<Symbol>, cs: Seq<usize>, k: int) -> Option<int>
    decreases cs.len(),
{
    if cs.len() == 0 {
        None
    } else if (cs[0] as int) < g.len() && g.data_of(cs[0] as int).spec_name() is None {
        if k == 0 {
            Some(cs[0] as int)
        } else {
            nth_unnamed_rec(g, cs.drop_first(), k - 1)
        }
    } else {
        nth_unnamed_rec(g, cs.drop_first(), k)
    }
}

/// Where a path leads from node `from`, resolved segment by segment: the
/// root anchor restarts at node 0, a named or cast-qualified segment finds
/// the first child of that name, a positional segment finds the k-th unnamed
/// child, and a parent step climbs.
pub open spec fn spec_resolve(g: GOM<Symbol>, from: int, p: Path) -> Option<int>
    decreases p,
{
    match p {
        Path::Root => if g.len() > 0 {
            Some(0)
        } else {
            None
        },
        Path::Current => Some(from),
        Path::Next(q, n) => match spec_resolve(g, from, *q) {
            Some(i) => if 0 <= i < g.len() {
                find_named_rec(g, g.children_of(i), n@)
            } else {
                None
            },
            None => None,
        },
        Path::Specify(q, n) => match spec_resolve(g, from, *q) {
            Some(i) => if 0 <= i < g.len() {
                find_named_rec(g, g.children_of(i), n@)
            } else {
                None
            },
            None => None,
        },
        Path::Temporary(q, k) => match spec_resolve(g, from, *q) {
            Some(i) => if 0 <= i < g.len() {
                nth_unnamed_rec(g, g.children_of(i), k as int)
            } else {
                None
            },
            None => None,
        },
        Path::Parent(q) => match spec_resolve(g, from, *q) {
            Some(i) => if 0 <= i < g.len() {
                match g.parent_of(i) {
                    Some(par) => Some(par as int),
                    None => None,
                }
            } else {
                None
            },
            None => None,
        },
    }
}

/// Compare a symbol's name with a target.
fn symbol_named(s: &Symbol, n: &String) -> (r: bool)
    ensures
        r == (s.spec_name() == Some(n@)),
{
    match s.get_name() {
        Some(name) => *name == *n,
        None => false,
    }
}

/// The first child of node `at` named `n`, if any.
fn find_named_child(g: &GOM<Symbol>, at: usize, n: &String) -> (r: Option<usize>)
    requires
        g.wf(),
        g.valid(at as int),
    ensures
        match r {
            Some(d) => find_named_rec(*g, g.children_of(at as int), n@) == Some(d as int) && (
            d as int) < g.len(),
            None => find_named_rec(*g, g.children_of(at as int), n@) is None,
        },
{
    let e = Explorer::new(at);
    let node = e.inside(g);
    let m = node.children.len();
    let mut k: usize = 0;
    proof {
        assert(g.children_of(at as int).subrange(0, m as int) =~= g.children_of(at as int));
    }
    while k < m
        invariant
            g.wf(),
            g.valid(at as int),
            m == g.children_of(at as int).len(),
            node.children@ == g.children_of(at as int),
            0 <= k <= m,
            find_named_rec(*g, g.children_of(at as int), n@) == find_named_rec(
                *g,
                g.children_of(at as int).subrange(k as int, m as int),
                n@,
            ),
        decreases m - k,
    {
        let ghost tail = g.children_of(at as int).subrange(k as int, m as int);
        let c = node.children[k];
        let child = Explorer::new(c);
        proof {
            assert(tail[0] == c);
            assert(tail.drop_first() =~= g.children_of(at as int).subrange(
                k as int + 1,
                m as int,
            ));
        }
        if symbol_named(&child.inside(g).data, n) {
            return Some(c);
        }
        k = k + 1;
    }
    None
}

/// The `want`-th unnamed child of node `at`, if any.
fn find_unnamed_child(g: &GOM<Symbol>, at: usize, want: usize) -> (r: Option<usize>)
    requires
        g.wf(),
        g.valid(at as int),
    ensures
        match r {
            Some(d) => nth_unnamed_rec(*g, g.children_of(at as int), want as int) == Some(
                d as int,
            ) && (d as int) < g.len(),
            None => nth_unnamed_rec(*g, g.children_of(at as int), want as int) is None,
        },
{
    let e = Explorer::new(at);
    let node = e.inside(g);
    let m = node.children.len();
    let mut k: usize = 0;
    let mut left: usize = want;
    proof {
        assert(g.children_of(at as int).subrange(0, m as int) =~= g.children_of(at as int));
    }
    while k < m
        invariant
            g.wf(),
            g.valid(at as int),
            m == g.children_of(at as int).len(),
            node.children@ == g.children_of(at as int),
            0 <= k <= m,
            left <= want,
            nth_unnamed_rec(*g, g.children_of(at as int), want as int) == nth_unnamed_rec(
                *g,
                g.children_of(at as int).subrange(k as int, m as int),
                left as int,
            ),
        decreases m - k,
    {
        let ghost tail = g.children_of(at as int).subrange(k as int, m as int);
        let c = node.children[k];
        let child = Explorer::new(c);
        proof {
            assert(tail[0] == c);
            assert(tail.drop_first() =~= g.children_of(at as int).subrange(
                k as int + 1,
                m as int,
            ));
        }
        let unnamed = match child.inside(g).data.get_name() {
            Some(_) => false,
            None => true,
        };
        if unnamed {
            if left == 0 {
                return Some(c);
            }
            left = left - 1;
        }
        k = k + 1;
    }
    None
}

/// Resolve a path from node `from`, step by step.
fn resolve_at(g: &GOM<Symbol>, from: usize, p: &Path) -> (r: Option<usize>)
    requires
        g.wf(),
        g.valid(from as int),
    ensures
        match r {
            Some(d) => spec_resolve(*g, from as int, *p) == Some(d as int) && (d as int)
                < g.len(),
            None => spec_resolve(*g, from as int, *p) is None,
        },
    decreases p,
{
    match p {
        Path::Root => Some(0),
        Path::Current => Some(from),
        Path::Next(q, n) => match resolve_at(g, from, q) {
            Some(i) => find_named_child(g, i, n),
            None => None,
        },
        Path::Specify(q, n) => match resolve_at(g, from, q) {
            Some(i) => find_named_child(g, i, n),
            None => None,
        },
        Path::Temporary(q, k) => match resolve_at(g, from, q) {
            Some(i) => find_unnamed_child(g, i, *k),
            None => None,
        },
        Path::Parent(q) => match resolve_at(g, from, q) {
            Some(i) => match Explorer::new(i).parent(g) {
                Ok(par) => Some(par.at),
                Err(_) => None,
            },
            None => None,
        },
    }
}

impl Explorer {
    /// Resolve a path starting at this cursor: all-or-nothing, the original
    /// cursor comes back when any segment fails.
    pub fn follow(self, g: &GOM<Symbol>, p: &Path) -> (r: Result<Explorer, Explorer>)
        requires
            g.wf(),
            self.valid(*g),
        ensures
            match r {
                Ok(d) => spec_resolve(*g, self.at as int, *p) == Some(d.at as int) && d.valid(*g),
                Err(e) => e == self && spec_resolve(*g, self.at as int, *p) is None,
            },
    {
        match resolve_at(g, self.at, p) {
            Some(d) => Ok(Explorer::new(d)),
            None => Err(self),
        }
    }
}

/// Where a relative path resolves, searching the nearest enclosing scope
/// first and falling back outward; an absolute path resolves from the root
/// wherever the search stands.
pub open spec fn spec_lookup(g: GOM<Symbol>, from: int, p: Path) -> Option<int>
    decreases from,
{
    match spec_resolve(g, from, p) {
        Some(i) => Some(i),
        None => if 0 <= from < g.len() {
            match g.parent_of(from) {
                Some(par) => if (par as int) < from {
                    spec_lookup(g, par as int, p)
                } else {
                    None
                },
                None => None,
            }
        } else {
            None
        },
    }
}

/// Resolve a path against this scope or the nearest enclosing scope that can.
pub fn lookup(g: &GOM<Symbol>, from: Explorer, p: &Path) -> (r: Option<Explorer>)
    requires
        g.wf(),
        from.valid(*g),
    ensures
        match r {
            Some(d) => spec_lookup(*g, from.at as int, *p) == Some(d.at as int) && d.valid(*g),
            None => spec_lookup(*g, from.at as int, *p) is None,
        },
    decreases from.at,
{
    match resolve_at(g, from.at, p) {
        Some(d) => Some(Explorer::new(d)),
        None => match from.parent(g) {
            Ok(par) => lookup(g, par, p),
            Err(_) => None,
        },
    }
}

/// The tree only grows: every node of the old arena keeps its payload and
/// parent, and its child list is extended at most at the end. Consumption is
/// append-only.
pub open spec fn extends(g0: GOM<Symbol>, g1: GOM<Symbol>) -> bool {
    &&& g0.len() <= g1.len()
    &&& forall|i: int| 0 <= i < g0.len() ==> #[trigger] g1.parent_of(i) == g0.parent_of(i)
    &&& forall|i: int| 0 <= i < g0.len() ==> #[trigger] g1.data_of(i) == g0.data_of(i)
    &&& forall|i: int|
        0 <= i < g0.len() ==> g0.children_of(i).len() <= (#[trigger] g1.children_of(i)).len()
    &&& forall|i: int, k: int|
        #![trigger g1.children_of(i)[k]]
        0 <= i < g0.len() && 0 <= k < g0.children_of(i).len() ==> g1.children_of(i)[k]
            == g0.children_of(i)[k]
}

/// Growing is transitive.
pub proof fn lemma_extends_trans(a: GOM<Symbol>, b: GOM<Symbol>, c: GOM<Symbol>)
    requires
        extends(a, b),
        extends(b, c),
    ensures
        extends(a, c),
{
}

/// Errors while reading a callable's argument type annotations, first first:
/// a missing annotation cannot be inferred, a non-path annotation breaks the
/// path rules.
pub open spec fn first_arg_error(args: Seq<(Expression, Option<Expression>)>) -> Option<
    ParserError,
>
    decreases args.len(),
{
    if args.len() == 0 {
        None
    } else {
        match args[0].1 {
            None => Some(ParserError::InferenceUnavailable),
            Some(t) => match Path::path_of_expr(t) {
                None => Some(ParserError::FailPath(PathError::PathRuleViolation)),
                Some(_) => first_arg_error(args.drop_first()),
            },
        }
    }
}

/// The argument type paths of a callable shape; meaningful when
/// [`first_arg_error`] is `None`.
pub open spec fn arg_paths(args: Seq<(Expression, Option<Expression>)>) -> Seq<Path>
    decreases args.len(),
{
    if args.len() == 0 {
        Seq::empty()
    } else {
        match args[0].1 {
            None => Seq::empty(),
            Some(t) => match Path::path_of_expr(t) {
                None => Seq::empty(),
                Some(p) => seq![p] + arg_paths(args.drop_first()),
            },
        }
    }
}

/// Faultless argument annotations yield one path per argument.
pub proof fn lemma_arg_paths(args: Seq<(Expression, Option<Expression>)>)
    requires
        first_arg_error(args) is None,
    ensures
        arg_paths(args).len() == args.len(),
    decreases args.len(),
{
    if args.len() > 0 {
        lemma_arg_paths(args.drop_first());
    }
}

/// Convert the argument annotations from position `k` on.
fn convert_args(args: &Vec<(Expression, Option<Expression>)>, k: usize) -> (r: Result<
    Vec<Path>,
    ParserError,
>)
    requires
        k <= args@.len(),
    ensures
        match r {
            Ok(v) => first_arg_error(args@.subrange(k as int, args@.len() as int)) is None && v@
                == arg_paths(args@.subrange(k as int, args@.len() as int)),
            Err(e) => first_arg_error(args@.subrange(k as int, args@.len() as int)) == Some(e),
        },
    decreases args@.len() - k,
{
    let ghost tail = args@.subrange(k as int, args@.len() as int);
    if k == args.len() {
        proof {
            assert(tail =~= Seq::<(Expression, Option<Expression>)>::empty());
        }
        Ok(Vec::new())
    } else {
        proof {
            assert(tail[0] == args@[k as int]);
            assert(tail.drop_first() =~= args@.subrange(k as int + 1, args@.len() as int));
        }
        match &args[k].1 {
            None => Err(ParserError::InferenceUnavailable),
            Some(t) => match Path::from_expression(t) {
                Err(_) => Err(ParserError::FailPath(PathError::PathRuleViolation)),
                Ok(p) => match convert_args(args, k + 1) {
                    Err(e) => Err(e),
                    Ok(mut v) => {
                        v.insert(0, p);
                        proof {
                            assert(v@ =~= arg_paths(tail));
                        }
                        Ok(v)
                    },
                },
            },
        }
    }
}

/// What is wrong with a type annotation, if anything: for a function shape
/// the argument annotations first, then the return annotation; for anything
/// else, the shape must read as a path.
pub open spec fn desc_error(d: Expression) -> Option<ParserError> {
    match d {
        Expression::FunctionShape(args, ret) => match first_arg_error(args@) {
            Some(e) => Some(e),
            None => match *ret {
                Some(re) => if Path::path_of_expr(re) is None {
                    Some(ParserError::FailPath(PathError::PathRuleViolation))
                } else {
                    None
                },
                None => None,
            },
        },
        _ => if Path::path_of_expr(d) is None {
            Some(ParserError::UnexpectedExpression)
        } else {
            None
        },
    }
}

/// The classification a faultless type annotation denotes.
pub open spec fn desc_matches(d: Description, de: Expression) -> bool {
    match de {
        Expression::FunctionShape(args, ret) => match d {
            Description::Callable(aps, rp) => {
                &&& aps@ == arg_paths(args@)
                &&& match *ret {
                    Some(re) => Path::path_of_expr(re) == Some(rp),
                    None => match rp {
                        Path::Next(q, s) => *q == Path::Current && s@ == "void"@,
                        _ => false,
                    },
                }
            },
            _ => false,
        },
        _ => d == Description::Memorable(Path::path_of_expr(de).unwrap()),
    }
}

impl Description {
    /// Convert a surface type annotation into a classification: a function
    /// shape becomes `Callable` (a missing return annotation defaults to the
    /// local name `void`), a name/member/cast chain becomes `Memorable`, and
    /// any other shape is an unsupported form.
    pub fn from_expression(expr: &Expression) -> (r: Result<Description, ParserError>)
        ensures
            match r {
                Ok(d) => desc_error(*expr) is None && desc_matches(d, *expr),
                Err(e) => desc_error(*expr) == Some(e),
            },
    {
        match expr {
            Expression::FunctionShape(args, ret) => match convert_args(args, 0) {
                Err(e) => {
                    proof {
                        assert(args@.subrange(0, args@.len() as int) =~= args@);
                    }
                    Err(e)
                },
                Ok(aps) => {
                    proof {
                        assert(args@.subrange(0, args@.len() as int) =~= args@);
                    }
                    match &**ret {
                        Some(re) => match Path::from_expression(re) {
                            Ok(p) => Ok(Description::Callable(aps, p)),
                            Err(_) => Err(ParserError::FailPath(PathError::PathRuleViolation)),
                        },
                        None => Ok(Description::Callable(aps, Path::Current.next("void"))),
                    }
                },
            },
            _ => match Path::from_expression(expr) {
                Ok(p) => Ok(Description::Memorable(p)),
                Err(_) => Err(ParserError::UnexpectedExpression),
            },
        }
    }
}

/// What is wrong with a variable initializer, if anything. Only a bare
/// expression sentence is accepted; it must fold to a concrete value under
/// the declared type's scope, found from the declaration's scope outward. A
/// fold that yields a passed-through reference realises no value, which the
/// consumer does not implement.
pub open spec fn initializer_error(g: GOM<Symbol>, to: int, d: Expression, stc: Sentence) -> Option<
    ParserError,
> {
    match stc {
        Sentence::Mean(e) => match d {
            Expression::FunctionShape(_, _) => Some(ParserError::VariableDefinitionUnknown),
            _ => {
                let ty = Path::path_of_expr(d).unwrap();
                match spec_lookup(g, to, ty) {
                    None => Some(ParserError::UnknownPath(ty)),
                    Some(scope) => match spec_fold(g, scope, e) {
                        Err(pe) => Some(pe),
                        Ok(f) => match f {
                            Folded::Value(_) => None,
                            Folded::Reference(_) => Some(ParserError::NotImplemented),
                        },
                    },
                }
            },
        },
        Sentence::Assign(_, _) => Some(ParserError::VariableMultipleAssignNotAllow),
        Sentence::Return(_) => Some(ParserError::VariableReturnNotAllow),
        Sentence::After(_) => Some(ParserError::VariableReturnNotAllow),
        Sentence::Define(_, _, _, _) => Some(ParserError::VariableSubSymbolNotAllow),
        Sentence::Library(_, _, _, _) => Some(ParserError::VariableSubSymbolNotAllow),
        Sentence::Constant(_, _, _, _) => Some(ParserError::VariableSubSymbolNotAllow),
        Sentence::Variable(_, _, _, _) => Some(ParserError::VariableSubSymbolNotAllow),
        Sentence::Layer(_, _, _, _) => Some(ParserError::VariableSubSymbolNotAllow),
        Sentence::Struct(_, _, _, _) => Some(ParserError::VariableSubSymbolNotAllow),
        Sentence::Enum(_, _, _, _) => Some(ParserError::VariableSubSymbolNotAllow),
        Sentence::Function(_, _, _, _) => Some(ParserError::VariableSubSymbolNotAllow),
        Sentence::Macro(_, _, _) => Some(ParserError::VariableSubSymbolNotAllow),
        Sentence::Lambda(_, _) => Some(ParserError::VariableSubSymbolNotAllow),
        Sentence::Comment(_) => Some(ParserError::VariableUnhandlableSentence),
        Sentence::If(_, _, _) => Some(ParserError::VariableUnhandlableSentence),
        Sentence::Block(_) => Some(ParserError::VariableUnhandlableSentence),
    }
}

/// What is wrong with one variable declaration, if anything: the checks in
/// the order the consumer makes them. `None` means the declaration is
/// consumed and a symbol created.
pub open spec fn variable_error(
    g: GOM<Symbol>,
    to: int,
    name: Expression,
    desc: Option<Expression>,
    imple: Option<Sentence>,
) -> Option<ParserError> {
    match Path::path_of_expr(name) {
        None => Some(ParserError::FailPath(PathError::PathRuleViolation)),
        Some(p) => match p.spec_get_local() {
            None => Some(ParserError::MustLocalName),
            Some(_) => match desc {
                None => Some(ParserError::InferenceUnavailable),
                Some(d) => match desc_error(d) {
                    Some(e) => Some(e),
                    None => match imple {
                        None => None,
                        Some(stc) => initializer_error(g, to, d, stc),
                    },
                },
            },
        },
    }
}

/// The symbol a faultless variable declaration creates: named by the local
/// segment, classified by the annotation, realised by the folded initializer
/// (or left `Empty` without one).
pub open spec fn variable_symbol(
    g: GOM<Symbol>,
    to: int,
    name: Expression,
    desc: Expression,
    imple: Option<Sentence>,
    created: Symbol,
) -> bool {
    match created {
        Symbol::Named(nm, d, imp) => {
            &&& Path::path_of_expr(name).unwrap().spec_get_local() == Some(nm)
            &&& desc_matches(d, desc)
            &&& match imple {
                None => imp == Implementation::Empty,
                Some(stc) => match stc {
                    Sentence::Mean(e) => {
                        let ty = Path::path_of_expr(desc).unwrap();
                        match spec_lookup(g, to, ty) {
                            Some(scope) => match imp {
                                Implementation::Direct(v) => spec_fold(g, scope, e) == Ok::<
                                    Folded,
                                    ParserError,
                                >(Folded::Value(v)),
                                _ => false,
                            },
                            None => false,
                        }
                    },
                    _ => false,
                },
            }
        },
        _ => false,
    }
}

/// Appending one leaf grows the tree.
pub proof fn lemma_grow_one(g0: GOM<Symbol>, g1: GOM<Symbol>, p: int, c: int)
    requires
        0 <= p < g0.len(),
        c == g0.len(),
        g1.len() == g0.len() + 1,
        g1.children_of(p) == g0.children_of(p).push(c as usize),
        g1.parent_of(p) == g0.parent_of(p),
        g1.data_of(p) == g0.data_of(p),
        forall|i: int| 0 <= i < g0.len() && i != p ==> g1.node_seq()[i] == g0.node_seq()[i],
    ensures
        extends(g0, g1),
{
    assert forall|i: int| 0 <= i < g0.len() implies #[trigger] g1.parent_of(i) == g0.parent_of(
        i,
    ) && g1.data_of(i) == g0.data_of(i) by {
        if i != p {
            assert(g1.node_seq()[i] == g0.node_seq()[i]);
        }
    }
    assert forall|i: int, k: int|
        #![trigger g1.children_of(i)[k]]
        0 <= i < g0.len() && 0 <= k < g0.children_of(i).len() implies g1.children_of(i)[k]
        == g0.children_of(i)[k] by {
        if i != p {
            assert(g1.node_seq()[i] == g0.node_seq()[i]);
        }
    }
    assert forall|i: int|
        0 <= i < g0.len() implies g0.children_of(i).len() <= (
    #[trigger] g1.children_of(i)).len() by {
        if i != p {
            assert(g1.node_seq()[i] == g0.node_seq()[i]);
        }
    }
}

/// Consume one variable declaration under the scope at `to`: validate the
/// name, convert the annotation, fold the initializer if there is one, and
/// append exactly one named child. On any failure the scope tree is left
/// unmodified and the error names what was wrong.
pub fn consume_variable(
    g: &mut GOM<Symbol>,
    to: Explorer,
    name: Expression,
    desc: Option<Expression>,
    imple: Option<Sentence>,
) -> (r: Result<(), ParserError>)
    requires
        old(g).wf(),
        to.valid(*old(g)),
    ensures
        final(g).wf(),
        extends(*old(g), *final(g)),
        to.valid(*final(g)),
        variable_post(*old(g), *final(g), to.at as int, name, desc, imple, r),
{
    let npath = match Path::from_expression(&name) {
        Ok(p) => p,
        Err(_) => {
            return Err(ParserError::FailPath(PathError::PathRuleViolation));
        },
    };
    let local: String = match npath.get_local() {
        Some(s) => s.clone(),
        None => {
            return Err(ParserError::MustLocalName);
        },
    };
    let d_expr = match desc {
        Some(de) => de,
        None => {
            return Err(ParserError::InferenceUnavailable);
        },
    };
    let d = match Description::from_expression(&d_expr) {
        Ok(d) => d,
        Err(e) => {
            return Err(e);
        },
    };
    match imple {
        None => {
            let ghost g0 = *g;
            let _ = to.add_child(g, Symbol::Named(local, d, Implementation::Empty));
            proof {
                lemma_grow_one(g0, *g, to.at as int, g0.len() as int);
            }
            Ok(())
        },
        Some(stc) => match stc {
            Sentence::Mean(e) => match d {
                Description::Memorable(tp) => match lookup(g, to, &tp) {
                    None => Err(ParserError::UnknownPath(tp)),
                    Some(scope) => match fold(g, scope, e) {
                        Err(pe) => Err(pe),
                        Ok(Folded::Reference(_)) => Err(ParserError::NotImplemented),
                        Ok(Folded::Value(v)) => {
                            let ghost g0 = *g;
                            let _ = to.add_child(
                                g,
                                Symbol::Named(
                                    local,
                                    Description::Memorable(tp),
                                    Implementation::Direct(v),
                                ),
                            );
                            proof {
                                lemma_grow_one(g0, *g, to.at as int, g0.len() as int);
                            }
                            Ok(())
                        },
                    },
                },
                _ => Err(ParserError::VariableDefinitionUnknown),
            },
            Sentence::Assign(_, _) => Err(ParserError::VariableMultipleAssignNotAllow),
            Sentence::Return(_) => Err(ParserError::VariableReturnNotAllow),
            Sentence::After(_) => Err(ParserError::VariableReturnNotAllow),
            Sentence::Define(_, _, _, _) => Err(ParserError::VariableSubSymbolNotAllow),
            Sentence::Library(_, _, _, _) => Err(ParserError::VariableSubSymbolNotAllow),
            Sentence::Constant(_, _, _, _) => Err(ParserError::VariableSubSymbolNotAllow),
            Sentence::Variable(_, _, _, _) => Err(ParserError::VariableSubSymbolNotAllow),
            Sentence::Layer(_, _, _, _) => Err(ParserError::VariableSubSymbolNotAllow),
            Sentence::Struct(_, _, _, _) => Err(ParserError::VariableSubSymbolNotAllow),
            Sentence::Enum(_, _, _, _) => Err(ParserError::VariableSubSymbolNotAllow),
            Sentence::Function(_, _, _, _) => Err(ParserError::VariableSubSymbolNotAllow),
            Sentence::Macro(_, _, _) => Err(ParserError::VariableSubSymbolNotAllow),
            Sentence::Lambda(_, _) => Err(ParserError::VariableSubSymbolNotAllow),
            Sentence::Comment(_) => Err(ParserError::VariableUnhandlableSentence),
            Sentence::If(_, _, _) => Err(ParserError::VariableUnhandlableSentence),
            Sentence::Block(_) => Err(ParserError::VariableUnhandlableSentence),
        },
    }
}

/// The full effect of consuming one variable declaration: on success exactly
/// one named child under `to`; on failure the tree untouched and the error
/// named by [`variable_error`].
pub open spec fn variable_post(
    g0: GOM<Symbol>,
    g1: GOM<Symbol>,
    to: int,
    name: Expression,
    desc: Option<Expression>,
    imple: Option<Sentence>,
    r: Result<(), ParserError>,
) -> bool {
    match r {
        Ok(()) => {
            &&& variable_error(g0, to, name, desc, imple) is None
            &&& g1.len() == g0.len() + 1
            &&& g1.parent_of(g0.len() as int) == Some(to as usize)
            &&& g1.children_of(to) == g0.children_of(to).push(g0.len() as usize)
            &&& match desc {
                Some(de) => variable_symbol(g0, to, name, de, imple, g1.data_of(g0.len() as int)),
                None => false,
            }
        },
        Err(e) => g1 == g0 && variable_error(g0, to, name, desc, imple) == Some(e),
    }
}

/// The first parameter of a callable shape whose name is not a plain name.
pub open spec fn param_name_error(args: Seq<(Expression, Option<Expression>)>) -> Option<
    ParserError,
>
    decreases args.len(),
{
    if args.len() == 0 {
        None
    } else {
        match args[0].0 {
            Expression::Argument(v) => match v {
                Value::Name(_) => param_name_error(args.drop_first()),
                _ => Some(ParserError::MustLocalName),
            },
            _ => Some(ParserError::MustLocalName),
        }
    }
}

/// The plain name of a parameter, if it has one.
pub open spec fn spec_param_name(e: Expression) -> Option<String> {
    match e {
        Expression::Argument(v) => match v {
            Value::Name(n) => Some(n),
            _ => None,
        },
        _ => None,
    }
}

/// What is wrong with a function declaration's head, if anything: name and
/// annotation checks, made before any node is created.
pub open spec fn function_header_error(name: Expression, desc: Option<Expression>) -> Option<
    ParserError,
> {
    match Path::path_of_expr(name) {
        None => Some(ParserError::FailPath(PathError::PathRuleViolation)),
        Some(p) => match p.spec_get_local() {
            None => Some(ParserError::MustLocalName),
            Some(_) => match desc {
                None => Some(ParserError::InferenceUnavailable),
                Some(d) => match d {
                    Expression::FunctionShape(args, _) => match desc_error(d) {
                        Some(e) => Some(e),
                        None => param_name_error(args@),
                    },
                    _ => Some(ParserError::InvalidFunctionDescription),
                },
            },
        },
    }
}

/// The head state a faultless function declaration creates in `g1` on top of
/// `g0`, before its body is consumed: a callable child under `to`, one named
/// descriptor leaf per parameter, and an unnamed descriptor leaf for the
/// return type — exactly those nodes and no others.
pub open spec fn function_descriptors(
    g0: GOM<Symbol>,
    g1: GOM<Symbol>,
    to: int,
    name: Expression,
    desc: Expression,
) -> bool {
    match desc {
        Expression::FunctionShape(args, ret) => {
            let fnode = g0.len() as int;
            let nargs = args@.len() as int;
            &&& g1.len() == g0.len() + 2 + args@.len()
            &&& g1.parent_of(fnode) == Some(to as usize)
            &&& g1.children_of(to) == g0.children_of(to).push(fnode as usize)
            &&& match g1.data_of(fnode) {
                Symbol::Named(nm, d, imp) => {
                    &&& Path::path_of_expr(name).unwrap().spec_get_local() == Some(nm)
                    &&& desc_matches(d, desc)
                    &&& imp == Implementation::Empty
                },
                _ => false,
            }
            &&& g1.children_of(fnode).len() == nargs + 1
            &&& forall|k: int|
                0 <= k <= nargs ==> #[trigger] g1.children_of(fnode)[k] == (fnode + 1 + k) as usize
            &&& forall|k: int|
                0 <= k <= nargs ==> (#[trigger] g1.children_of(fnode + 1 + k)).len() == 0
            &&& forall|k: int|
                0 <= k < nargs ==> match #[trigger] g1.data_of(fnode + 1 + k) {
                    Symbol::Named(pn, pd, pi) => {
                        &&& spec_param_name(args@[k].0) == Some(pn)
                        &&& pd == Description::Memorable(arg_paths(args@)[k])
                        &&& pi == Implementation::Empty
                    },
                    _ => false,
                }
            &&& match g1.data_of(fnode + 1 + nargs) {
                Symbol::Unnamed(rd, ri) => {
                    &&& match *ret {
                        Some(re) => rd == Description::Memorable(Path::path_of_expr(re).unwrap()),
                        None => match rd {
                            Description::Memorable(rp) => match rp {
                                Path::Next(q, s) => *q == Path::Current && s@ == "void"@,
                                _ => false,
                            },
                            _ => false,
                        },
                    }
                    &&& ri == Implementation::Empty
                },
                _ => false,
            }
        },
        _ => false,
    }
}

/// The effect of consuming one function declaration: a failing head leaves
/// the tree untouched with the first header error; a faultless head creates
/// exactly the callable node and its descriptor children, after which the
/// body, if there is one, is consumed into the new callable scope — the
/// declaration's result is the body's.
pub open spec fn function_post(
    g0: GOM<Symbol>,
    g1: GOM<Symbol>,
    to: int,
    name: Expression,
    desc: Option<Expression>,
    imple: Option<Sentence>,
    r: Result<(), ParserError>,
) -> bool
    decreases imple, 0int,
{
    match function_header_error(name, desc) {
        Some(he) => r == Err::<(), ParserError>(he) && g1 == g0,
        None => match desc {
            Some(de) => exists|gm: GOM<Symbol>|
                {
                    &&& #[trigger] function_descriptors(g0, gm, to, name, de)
                    &&& gm.wf()
                    &&& extends(g0, gm)
                    &&& match imple {
                        None => r == Ok::<(), ParserError>(()) && g1 == gm,
                        Some(b) => consume_post(gm, g1, g0.len() as int, b, r),
                    }
                },
            None => false,
        },
    }
}

/// What is wrong with a layer declaration's head, if anything.
pub open spec fn layer_header_error(name: Expression) -> Option<ParserError> {
    match Path::path_of_expr(name) {
        None => Some(ParserError::FailPath(PathError::PathRuleViolation)),
        Some(p) => match p.spec_get_local() {
            None => Some(ParserError::MustLocalName),
            Some(_) => None,
        },
    }
}

/// The head state a faultless layer declaration creates in `g1` on top of
/// `g0`, before its body is consumed: exactly one new namespace leaf,
/// appended to the children of `to`.
pub open spec fn layer_head(g0: GOM<Symbol>, g1: GOM<Symbol>, to: int, name: Expression) -> bool {
    &&& g1.len() == g0.len() + 1
    &&& g1.parent_of(g0.len() as int) == Some(to as usize)
    &&& g1.children_of(g0.len() as int).len() == 0
    &&& g1.children_of(to) == g0.children_of(to).push(g0.len() as usize)
    &&& match g1.data_of(g0.len() as int) {
        Symbol::Named(nm, d, imp) => {
            &&& Path::path_of_expr(name).unwrap().spec_get_local() == Some(nm)
            &&& d == Description::Layer
            &&& imp == Implementation::Empty
        },
        _ => false,
    }
}

/// The effect of consuming one layer declaration: a failing head leaves the
/// tree untouched with the header error; otherwise exactly one namespace
/// child is created under `to`, after which the body, if there is one, is
/// consumed into it — the declaration's result is the body's.
pub open spec fn layer_post(
    g0: GOM<Symbol>,
    g1: GOM<Symbol>,
    to: int,
    name: Expression,
    imple: Option<Sentence>,
    r: Result<(), ParserError>,
) -> bool
    decreases imple, 0int,
{
    match layer_header_error(name) {
        Some(he) => r == Err::<(), ParserError>(he) && g1 == g0,
        None => exists|gm: GOM<Symbol>|
            {
                &&& #[trigger] layer_head(g0, gm, to, name)
                &&& gm.wf()
                &&& extends(g0, gm)
                &&& match imple {
                    None => r == Ok::<(), ParserError>(()) && g1 == gm,
                    Some(b) => consume_post(gm, g1, g0.len() as int, b, r),
                }
            },
    }
}

/// The per-shape effect of consuming one sentence at the scope `to`:
/// variable, function and layer declarations create symbols as their post
/// predicates say; the declaration shapes the core keeps no symbols for are
/// consumed without effect; every other shape is rejected unchanged; a block
/// consumes its sentences in order, first error first, appending only.
pub open spec fn consume_post(
    g0: GOM<Symbol>,
    g1: GOM<Symbol>,
    to: int,
    stc: Sentence,
    r: Result<(), ParserError>,
) -> bool
    decreases stc, 0int,
{
    match stc {
        Sentence::Variable(_, name, desc, imple) => variable_post(
            g0,
            g1,
            to,
            name,
            *desc,
            *imple,
            r,
        ),
        Sentence::Function(_, name, desc, imple) => function_post(
            g0,
            g1,
            to,
            name,
            *desc,
            *imple,
            r,
        ),
        Sentence::Layer(_, name, _, imple) => layer_post(g0, g1, to, name, *imple, r),
        Sentence::Define(_, _, _, _) => r == Ok::<(), ParserError>(()) && g1 == g0,
        Sentence::Library(_, _, _, _) => r == Ok::<(), ParserError>(()) && g1 == g0,
        Sentence::Constant(_, _, _, _) => r == Err::<(), ParserError>(ParserError::RequireSymbol)
            && g1 == g0,
        Sentence::Struct(_, _, _, _) => r == Ok::<(), ParserError>(()) && g1 == g0,
        Sentence::Enum(_, _, _, _) => r == Ok::<(), ParserError>(()) && g1 == g0,
        Sentence::Macro(_, _, _) => r == Ok::<(), ParserError>(()) && g1 == g0,
        Sentence::Comment(_) => r == Ok::<(), ParserError>(()) && g1 == g0,
        Sentence::Block(v) => consume_seq_post(g0, g1, to, v@, 0, r),
        Sentence::Assign(_, _) => r == Err::<(), ParserError>(ParserError::RequireSymbol) && g1
            == g0,
        Sentence::Mean(_) => r == Err::<(), ParserError>(ParserError::RequireSymbol) && g1 == g0,
        Sentence::Lambda(_, _) => r == Err::<(), ParserError>(ParserError::RequireSymbol) && g1
            == g0,
        Sentence::If(_, _, _) => r == Err::<(), ParserError>(ParserError::RequireSymbol) && g1
            == g0,
        Sentence::Return(_) => r == Err::<(), ParserError>(ParserError::RequireSymbol) && g1 == g0,
        Sentence::After(_) => r == Err::<(), ParserError>(ParserError::RequireSymbol) && g1 == g0,
    }
}

/// The effect of consuming the sentences of `stcs` from position `k` on, in
/// order at the scope `to`: each sentence is consumed into the tree the one
/// before it left, `r` is `Ok` exactly when every sentence consumed, and the
/// first failing sentence aborts the chain with its error — `g1` then holds
/// exactly what the sentences before it consumed, and nothing past it is
/// consumed.
/// Marks a pair as a candidate link of a consumption chain: the tree one
/// sentence left and that sentence's own result. Always true; it only names
/// the witnesses that the quantifier of [`consume_seq_post`] ranges over.
pub open spec fn chain_link(gm: GOM<Symbol>, r0: Result<(), ParserError>) -> bool {
    true
}

pub open spec fn consume_seq_post(
    g0: GOM<Symbol>,
    g1: GOM<Symbol>,
    to: int,
    stcs: Seq<Sentence>,
    k: int,
    r: Result<(), ParserError>,
) -> bool
    decreases stcs, stcs.len() - k,
{
    if 0 <= k < stcs.len() {
        exists|gm: GOM<Symbol>, r0: Result<(), ParserError>|
            {
                &&& #[trigger] chain_link(gm, r0)
                &&& consume_post(g0, gm, to, stcs[k], r0)
                &&& gm.wf()
                &&& extends(g0, gm)
                &&& match r0 {
                    Ok(()) => consume_seq_post(gm, g1, to, stcs, k + 1, r),
                    Err(e) => r == Err::<(), ParserError>(e) && g1 == gm,
                }
            }
    } else {
        r == Ok::<(), ParserError>(()) && g1 == g0
    }
}

/// One link of the consumption chain: a tree `gm` that sentence `k` reaches
/// from `g0` continues the chain, either on to position `k + 1` or aborting
/// the whole chain with sentence `k`'s error.
pub proof fn lemma_seq_post_step(
    g0: GOM<Symbol>,
    gm: GOM<Symbol>,
    g1: GOM<Symbol>,
    to: int,
    stcs: Seq<Sentence>,
    k: int,
    r0: Result<(), ParserError>,
    r: Result<(), ParserError>,
)
    requires
        0 <= k < stcs.len(),
        consume_post(g0, gm, to, stcs[k], r0),
        gm.wf(),
        extends(g0, gm),
        match r0 {
            Ok(()) => consume_seq_post(gm, g1, to, stcs, k + 1, r),
            Err(e) => r == Err::<(), ParserError>(e) && g1 == gm,
        },
    ensures
        consume_seq_post(g0, g1, to, stcs, k, r),
{
    assert(chain_link(gm, r0));
}

/// Consume one sentence at the scope `to`. Variable, function and layer
/// declarations create symbols; a block consumes each of its sentences in
/// order, aborting at the first error; the declaration shapes the core keeps
/// no symbols for (define, library, struct, enum, macro, comment) are
/// consumed without effect; any other shape at a declaration site is
/// rejected.
#[verifier::loop_isolation(false)]
pub fn consume_to(g: &mut GOM<Symbol>, to: Explorer, stc: Sentence) -> (r: Result<(), ParserError>)
    requires
        old(g).wf(),
        to.valid(*old(g)),
    ensures
        final(g).wf(),
        extends(*old(g), *final(g)),
        to.valid(*final(g)),
        consume_post(*old(g), *final(g), to.at as int, stc, r),
    decreases stc,
{
    match stc {
        Sentence::Variable(_, name, desc, imple) => consume_variable(g, to, name, *desc, *imple),
        Sentence::Function(_, name, desc, imple) => {
            let npath = match Path::from_expression(&name) {
                Ok(p) => p,
                Err(_) => {
                    return Err(ParserError::FailPath(PathError::PathRuleViolation));
                },
            };
            let local: String = match npath.get_local() {
                Some(s) => s.clone(),
                None => {
                    return Err(ParserError::MustLocalName);
                },
            };
            let d_expr = match *desc {
                Some(de) => de,
                None => {
                    return Err(ParserError::InferenceUnavailable);
                },
            };
            let is_shape = match &d_expr {
                Expression::FunctionShape(_, _) => true,
                _ => false,
            };
            if !is_shape {
                return Err(ParserError::InvalidFunctionDescription);
            }
            let d = match Description::from_expression(&d_expr) {
                Ok(d) => d,
                Err(e) => {
                    return Err(e);
                },
            };
            let ghost dexpr0 = d_expr;
            let args = match d_expr {
                Expression::FunctionShape(args, _) => args,
                _ => {
                    return Err(ParserError::InvalidFunctionDescription);
                },
            };
            let n = args.len();
            let mut names: Vec<String> = Vec::new();
            let mut k: usize = 0;
            proof {
                assert(args@.subrange(0, n as int) =~= args@);
            }
            while k < n
                invariant
                    g.wf(),
                    to.valid(*g),
                    *g == *old(g),
                    n == args@.len(),
                    0 <= k <= n,
                    names@.len() == k,
                    forall|m: int|
                        0 <= m < k ==> spec_param_name(args@[m].0) == Some(#[trigger] names@[m]),
                    param_name_error(args@) == param_name_error(
                        args@.subrange(k as int, n as int),
                    ),
                decreases n - k,
            {
                let ghost tail = args@.subrange(k as int, n as int);
                proof {
                    assert(tail[0] == args@[k as int]);
                    assert(tail.drop_first() =~= args@.subrange(k as int + 1, n as int));
                }
                match &args[k].0 {
                    Expression::Argument(v) => match v {
                        Value::Name(nm) => {
                            names.push(nm.clone());
                        },
                        _ => {
                            return Err(ParserError::MustLocalName);
                        },
                    },
                    _ => {
                        return Err(ParserError::MustLocalName);
                    },
                }
                k = k + 1;
            }
            proof {
                assert(args@.subrange(n as int, n as int) =~= Seq::<(
                    Expression,
                    Option<Expression>,
                )>::empty());
            }
            let (aps, rp) = match d {
                Description::Callable(aps, rp) => (aps, rp),
                _ => {
                    return Err(ParserError::InvalidFunctionDescription);
                },
            };
            let mut aps2: Vec<Path> = Vec::new();
            let mut k2: usize = 0;
            while k2 < aps.len()
                invariant
                    g.wf(),
                    to.valid(*g),
                    *g == *old(g),
                    0 <= k2 <= aps@.len(),
                    aps2@ == aps@.subrange(0, k2 as int),
                decreases aps@.len() - k2,
            {
                aps2.push(aps[k2].duplicate());
                k2 = k2 + 1;
                proof {
                    assert(aps2@ =~= aps@.subrange(0, k2 as int));
                }
            }
            proof {
                assert(aps2@ =~= aps@);
            }
            let rp2 = rp.duplicate();
            let ghost g0 = *g;
            let fnchild = to.add_child(
                g,
                Symbol::Named(local, Description::Callable(aps, rp), Implementation::Empty),
            );
            proof {
                lemma_grow_one(g0, *g, to.at as int, g0.len() as int);
            }
            let ghost g1 = *g;
            proof {
                lemma_arg_paths(args@);
            }
            let mut names_rest = names;
            let mut paths_rest = aps2;
            let mut j: usize = 0;
            while j < n
                invariant
                    g.wf(),
                    g0 == *old(g),
                    fnchild.at == g0.len(),
                    fnchild.valid(*g),
                    to.valid(*g),
                    n == args@.len(),
                    g.len() == g0.len() + 1 + j,
                    0 <= j <= n,
                    names_rest@.len() == n - j,
                    paths_rest@.len() == n - j,
                    forall|m: int|
                        0 <= m < n - j ==> spec_param_name(args@[m + j].0) == Some(
                            #[trigger] names_rest@[m],
                        ),
                    forall|m: int|
                        0 <= m < n - j ==> #[trigger] paths_rest@[m] == arg_paths(args@)[m + j],
                    arg_paths(args@).len() == n,
                    extends(g1, *g),
                    g.children_of(fnchild.at as int).len() == j,
                    forall|m: int|
                        0 <= m < j ==> #[trigger] g.children_of(fnchild.at as int)[m] == (g0.len()
                            + 1 + m) as usize,
                    forall|m: int|
                        0 <= m < j ==> match #[trigger] g.data_of(g0.len() as int + 1 + m) {
                            Symbol::Named(pn, pd, pi) => {
                                &&& spec_param_name(args@[m].0) == Some(pn)
                                &&& pd == Description::Memorable(arg_paths(args@)[m])
                                &&& pi == Implementation::Empty
                            },
                            _ => false,
                        },
                    g.data_of(fnchild.at as int) == g1.data_of(fnchild.at as int),
                    g.parent_of(fnchild.at as int) == g1.parent_of(fnchild.at as int),
                    g.children_of(to.at as int) == g1.children_of(to.at as int),
                    forall|m: int|
                        0 <= m < j ==> (#[trigger] g.children_of(g0.len() as int + 1 + m)).len()
                            == 0,
                decreases n - j,
            {
                let ghost gpre = *g;
                let pname = names_rest.remove(0);
                let ppath = paths_rest.remove(0);
                let c = fnchild.add_child(
                    g,
                    Symbol::Named(pname, Description::Memorable(ppath), Implementation::Empty),
                );
                proof {
                    lemma_grow_one(gpre, *g, fnchild.at as int, gpre.len() as int);
                    lemma_extends_trans(g1, gpre, *g);
                }
                j = j + 1;
            }
            let ghost g2 = *g;
            let _ = fnchild.add_child(
                g,
                Symbol::Unnamed(Description::Memorable(rp2), Implementation::Empty),
            );
            proof {
                lemma_grow_one(g2, *g, fnchild.at as int, g2.len() as int);
                lemma_extends_trans(g1, g2, *g);
                lemma_extends_trans(g0, g1, *g);
                assert(g.children_of(fnchild.at as int) =~= g2.children_of(
                    fnchild.at as int,
                ).push(g2.len() as usize));
                assert(function_descriptors(g0, *g, to.at as int, name, dexpr0));
            }
            let ghost gmid = *g;
            let ghost imple0 = *imple;
            match *imple {
                None => {
                    proof {
                        assert(function_post(
                            g0,
                            *g,
                            to.at as int,
                            name,
                            Some(dexpr0),
                            imple0,
                            Ok::<(), ParserError>(()),
                        ));
                    }
                    Ok(())
                },
                Some(b) => {
                    let res = consume_to(g, fnchild, b);
                    proof {
                        lemma_extends_trans(g0, gmid, *g);
                        assert(function_descriptors(g0, gmid, to.at as int, name, dexpr0));
                        assert(function_post(
                            g0,
                            *g,
                            to.at as int,
                            name,
                            Some(dexpr0),
                            imple0,
                            res,
                        ));
                    }
                    res
                },
            }
        },
        Sentence::Layer(_, name, _, imple) => {
            let npath = match Path::from_expression(&name) {
                Ok(p) => p,
                Err(_) => {
                    return Err(ParserError::FailPath(PathError::PathRuleViolation));
                },
            };
            let local: String = match npath.get_local() {
                Some(s) => s.clone(),
                None => {
                    return Err(ParserError::MustLocalName);
                },
            };
            let ghost g0 = *g;
            let child = to.add_child(
                g,
                Symbol::Named(local, Description::Layer, Implementation::Empty),
            );
            proof {
                lemma_grow_one(g0, *g, to.at as int, g0.len() as int);
                assert(layer_head(g0, *g, to.at as int, name));
            }
            let ghost gmid = *g;
            let ghost imple0 = *imple;
            match *imple {
                None => {
                    proof {
                        assert(layer_post(
                            g0,
                            *g,
                            to.at as int,
                            name,
                            imple0,
                            Ok::<(), ParserError>(()),
                        ));
                    }
                    Ok(())
                },
                Some(b) => {
                    let res = consume_to(g, child, b);
                    proof {
                        lemma_extends_trans(g0, gmid, *g);
                        assert(layer_head(g0, gmid, to.at as int, name));
                        assert(layer_post(g0, *g, to.at as int, name, imple0, res));
                    }
                    res
                },
            }
        },
        Sentence::Block(v) => {
            let ghost gin = *g;
            let ghost all = v@;
            let mut rest: Vec<Sentence> = v;
            proof {
                assert(all.subrange(0, all.len() as int) =~= all);
            }
            while rest.len() > 0
                invariant
                    g.wf(),
                    to.valid(*g),
                    gin == *old(g),
                    extends(gin, *g),
                    rest@.len() <= all.len(),
                    rest@ == all.subrange(all.len() - rest@.len(), all.len() as int),
                    forall|k: int|
                        0 <= k < rest@.len() ==> decreases_to!(stc => #[trigger] rest@[k]),
                    forall|gf: GOM<Symbol>, rf: Result<(), ParserError>|
                        #[trigger] consume_seq_post(
                            *g,
                            gf,
                            to.at as int,
                            all,
                            all.len() - rest@.len(),
                            rf,
                        ) ==> consume_seq_post(gin, gf, to.at as int, all, 0, rf),
                decreases rest@.len(),
            {
                let ghost gpre = *g;
                let ghost i: int = all.len() - rest@.len();
                let s = rest.remove(0);
                proof {
                    assert(s == all[i]);
                    assert(rest@ =~= all.subrange(i + 1, all.len() as int));
                }
                let step = consume_to(g, to, s);
                proof {
                    lemma_extends_trans(gin, gpre, *g);
                }
                match step {
                    Ok(()) => {
                        proof {
                            assert forall|gf: GOM<Symbol>, rf: Result<(), ParserError>|
                                #[trigger] consume_seq_post(
                                    *g,
                                    gf,
                                    to.at as int,
                                    all,
                                    i + 1,
                                    rf,
                                ) implies consume_seq_post(gin, gf, to.at as int, all, 0, rf) by {
                                lemma_seq_post_step(gpre, *g, gf, to.at as int, all, i, step, rf);
                            }
                        }
                    },
                    Err(e) => {
                        proof {
                            assert(step == Err::<(), ParserError>(e));
                            lemma_seq_post_step(gpre, *g, *g, to.at as int, all, i, step, step);
                            assert(consume_seq_post(gin, *g, to.at as int, all, 0, step));
                        }
                        return Err(e);
                    },
                }
            }
            proof {
                assert(consume_seq_post(
                    *g,
                    *g,
                    to.at as int,
                    all,
                    all.len() as int,
                    Ok::<(), ParserError>(()),
                ));
                assert(consume_seq_post(gin, *g, to.at as int, all, 0, Ok::<(), ParserError>(())));
            }
            Ok(())
        },
        Sentence::Define(_, _, _, _) => Ok(()),
        Sentence::Library(_, _, _, _) => Ok(()),
        Sentence::Constant(_, _, _, _) => Err(ParserError::RequireSymbol),
        Sentence::Struct(_, _, _, _) => Ok(()),
        Sentence::Enum(_, _, _, _) => Ok(()),
        Sentence::Macro(_, _, _) => Ok(()),
        Sentence::Comment(_) => Ok(()),
        Sentence::Assign(_, _) => Err(ParserError::RequireSymbol),
        Sentence::Mean(_) => Err(ParserError::RequireSymbol),
        Sentence::Lambda(_, _) => Err(ParserError::RequireSymbol),
        Sentence::If(_, _, _) => Err(ParserError::RequireSymbol),
        Sentence::Return(_) => Err(ParserError::RequireSymbol),
        Sentence::After(_) => Err(ParserError::RequireSymbol),
    }
}

/// The local name a declaration's name expression denotes: the expression
/// must read as a path of exactly one local segment.
pub fn consume_local_name(expr: &Expression) -> (r: Result<String, ParserError>)
    ensures
        match r {
            Ok(s) => Path::path_of_expr(*expr) is Some && Path::path_of_expr(
                *expr,
            ).unwrap().spec_get_local() == Some(s),
            Err(e) => match Path::path_of_expr(*expr) {
                None => e == ParserError::FailPath(PathError::PathRuleViolation),
                Some(p) => p.spec_get_local() is None && e == ParserError::MustLocalName,
            },
        },
{
    let p = match Path::from_expression(expr) {
        Ok(p) => p,
        Err(_) => {
            return Err(ParserError::FailPath(PathError::PathRuleViolation));
        },
    };
    match p.get_local() {
        Some(s) => Ok(s.clone()),
        None => Err(ParserError::MustLocalName),
    }
}

/// The declaration consumer: owns the scope tree and feeds already-parsed
/// sentences to it. An external parser supplies the sentences.
pub struct Parser {
    pub root: GOM<Symbol>,
}

impl Parser {
    /// The scope tree is a well-formed arena holding at least the root scope.
    pub open spec fn wf(self) -> bool {
        &&& self.root.wf()
        &&& self.root.len() > 0
    }

    /// A parser holding a single virtual root scope.
    pub fn new() -> (p: Self)
        ensures
            p.wf(),
            p.root.len() == 1,
            p.root.data_of(0) == Symbol::Unnamed(Description::Virtual, Implementation::Empty),
    {
        Parser {
            root: GOM::setup(Symbol::Unnamed(Description::Virtual, Implementation::Empty)),
        }
    }

    /// A cursor at the root scope.
    pub fn root(&self) -> (r: Explorer)
        requires
            self.wf(),
        ensures
            r.at == 0,
            r.valid(self.root),
    {
        Explorer::new(0)
    }

    /// Consume one sentence at the scope the target path resolves to, from
    /// the root; an unresolvable target is an error and changes nothing.
    pub fn parse_sentence(&mut self, to: &Path, stc: Sentence) -> (r: Result<(), ParserError>)
        requires
            old(self).wf(),
        ensures
            final(self).wf(),
            extends(old(self).root, final(self).root),
            match spec_resolve(old(self).root, 0, *to) {
                None => *final(self) == *old(self) && (r matches Err(e) && match e {
                    ParserError::UnknownPath(p) => p == *to,
                    _ => false,
                }),
                Some(tgt) => consume_post(old(self).root, final(self).root, tgt, stc, r),
            },
    {
        let start = Explorer::new(0);
        let tgt = match start.follow(&self.root, to) {
            Ok(d) => d,
            Err(_) => {
                return Err(ParserError::UnknownPath(to.duplicate()));
            },
        };
        consume_to(&mut self.root, tgt, stc)
    }

    /// Consume a sequence of sentences at the scope the target path resolves
    /// to, first to last: each sentence is consumed into the tree the one
    /// before it left, the result is `Ok` exactly when every sentence
    /// consumed, and the first error aborts with nothing past it consumed.
    /// An unresolvable target is an error and changes nothing. The tree only
    /// ever grows.
    pub fn consume(&mut self, to: &Path, sentences: Vec<Sentence>) -> (r: Result<(), ParserError>)
        requires
            old(self).wf(),
        ensures
            final(self).wf(),
            extends(old(self).root, final(self).root),
            match spec_resolve(old(self).root, 0, *to) {
                None => *final(self) == *old(self) && (r matches Err(e) && match e {
                    ParserError::UnknownPath(p) => p == *to,
                    _ => false,
                }),
                Some(tgt) => consume_seq_post(
                    old(self).root,
                    final(self).root,
                    tgt,
                    sentences@,
                    0,
                    r,
                ),
            },
    {
        let start = Explorer::new(0);
        let tgt = match start.follow(&self.root, to) {
            Ok(d) => d,
            Err(_) => {
                return Err(ParserError::UnknownPath(to.duplicate()));
            },
        };
        let ghost g_in = self.root;
        let ghost all = sentences@;
        let mut rest = sentences;
        proof {
            assert(all.subrange(0, all.len() as int) =~= all);
        }
        while rest.len() > 0
            invariant
                self.root.wf(),
                tgt.valid(self.root),
                extends(g_in, self.root),
                g_in == old(self).root,
                spec_resolve(g_in, 0, *to) == Some(tgt.at as int),
                self.wf(),
                all == sentences@,
                rest@.len() <= all.len(),
                rest@ == all.subrange(all.len() - rest@.len(), all.len() as int),
                forall|gf: GOM<Symbol>, rf: Result<(), ParserError>|
                    #[trigger] consume_seq_post(
                        self.root,
                        gf,
                        tgt.at as int,
                        all,
                        all.len() - rest@.len(),
                        rf,
                    ) ==> consume_seq_post(g_in, gf, tgt.at as int, all, 0, rf),
            decreases rest@.len(),
        {
            let ghost gpre = self.root;
            let ghost i: int = all.len() - rest@.len();
            let s = rest.remove(0);
            proof {
                assert(s == all[i]);
                assert(rest@ =~= all.subrange(i + 1, all.len() as int));
            }
            let step = consume_to(&mut self.root, tgt, s);
            proof {
                lemma_extends_trans(g_in, gpre, self.root);
            }
            match step {
                Ok(()) => {
                    proof {
                        assert forall|gf: GOM<Symbol>, rf: Result<(), ParserError>|
                            #[trigger] consume_seq_post(
                                self.root,
                                gf,
                                tgt.at as int,
                                all,
                                i + 1,
                                rf,
                            ) implies consume_seq_post(g_in, gf, tgt.at as int, all, 0, rf) by {
                            lemma_seq_post_step(
                                gpre,
                                self.root,
                                gf,
                                tgt.at as int,
                                all,
                                i,
                                step,
                                rf,
                            );
                        }
                    }
                },
                Err(e) => {
                    proof {
                        assert(step == Err::<(), ParserError>(e));
                        lemma_seq_post_step(
                            gpre,
                            self.root,
                            self.root,
                            tgt.at as int,
                            all,
                            i,
                            step,
                            step,
                        );
                        assert(consume_seq_post(g_in, self.root, tgt.at as int, all, 0, step));
                    }
                    return Err(e);
                },
            }
        }
        proof {
            assert(consume_seq_post(
                self.root,
                self.root,
                tgt.at as int,
                all,
                all.len() as int,
                Ok::<(), ParserError>(()),
            ));
            assert(consume_seq_post(
                g_in,
                self.root,
                tgt.at as int,
                all,
                0,
                Ok::<(), ParserError>(()),
            ));
        }
        Ok(())
    }
}

} // verus!
