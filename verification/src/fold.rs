//! Handler dispatch: folding constant expressions through per-type
//! registered handlers.
//!
//! A primitive type registers, under its own scope node, one `LayerDefine`
//! child per supported operator, each carrying a single child whose
//! implementation is a [`HandlerKind`]. The operators are addressed by the
//! fixed well-known paths `/core/op/<Name>`; that convention is the system's
//! operator-overload contract. [`fold`] recursively reduces an expression,
//! looking the handler for each operator up under the type's scope node and
//! invoking it on the already-folded operands.

use crate::ast::{Expression, Raw, Value};
use crate::consume::ParserError;
use crate::gom::{Explorer, GOM};
use crate::path::Path;
use crate::symbol::{Description, HandlerError, HandlerKind, Implementation, Symbol};
use vstd::prelude::*;

verus! {

broadcast use crate::gom::lemma_len_bound;

/// The operator name a path addresses under the registration convention
/// `/core/op/<Name>`; `None` if the path has any other shape.
pub open spec fn core_op_view(p: Path) -> Option<Seq<char>> {
    match p {
        Path::Next(q1, n1) => match *q1 {
            Path::Next(q2, n2) => match *q2 {
                Path::Next(q3, n3) => match *q3 {
                    Path::Root => if n3@ == "core"@ && n2@ == "op"@ {
                        Some(n1@)
                    } else {
                        None
                    },
                    _ => None,
                },
                _ => None,
            },
            _ => None,
        },
        _ => None,
    }
}

/// Build the well-known absolute path `/core/op/<name>` of an operator.
pub fn core_op_path(name: &str) -> (r: Path)
    ensures
        core_op_view(r) == Some(name@),
{
    Path::Root.next("core").next("op").next(name)
}

/// Compare a stored name with a borrowed one.
fn string_eq_str(a: &String, b: &str) -> (r: bool)
    ensures
        r == (a@ == b@),
{
    let bs: String = b.to_owned();
    *a == bs
}

/// Whether `p` is the well-known path of the operator called `name`.
fn is_core_op(p: &Path, name: &str) -> (r: bool)
    ensures
        r == (core_op_view(*p) == Some(name@)),
{
    match p {
        Path::Next(q1, n1) => match &**q1 {
            Path::Next(q2, n2) => match &**q2 {
                Path::Next(q3, n3) => match &**q3 {
                    Path::Root => string_eq_str(n3, "core") && string_eq_str(n2, "op")
                        && string_eq_str(n1, name),
                    _ => false,
                },
                _ => false,
            },
            _ => false,
        },
        _ => false,
    }
}

/// The symbol marks its subtree as the registration of operator `op`.
pub open spec fn is_ld_for(s: Symbol, op: Seq<char>) -> bool {
    match s.spec_description() {
        Description::LayerDefine(p) => core_op_view(p) == Some(op),
        _ => false,
    }
}

/// The first node of `cs`, in order, that is a `LayerDefine` of operator `op`.
pub open spec fn find_ld_rec(g: GOM<Symbol>, cs: Seq<usize>, op: Seq<char>) -> Option<int>
    decreases cs.len(),
{
    if cs.len() == 0 {
        None
    } else if (cs[0] as int) < g.len() && is_ld_for(g.data_of(cs[0] as int), op) {
        Some(cs[0] as int)
    } else {
        find_ld_rec(g, cs.drop_first(), op)
    }
}

/// The handler registered for operator `op` under the type scope `ty`: found
/// through the first matching `LayerDefine` child, whose first child carries
/// the handler; `None` where the convention is not satisfied.
pub open spec fn find_handler(g: GOM<Symbol>, ty: int, op: Seq<char>) -> Option<HandlerKind> {
    match find_ld_rec(g, g.children_of(ty), op) {
        None => None,
        Some(ld) => if g.children_of(ld).len() > 0 && (g.children_of(ld)[0] as int) < g.len() {
            match g.data_of(g.children_of(ld)[0] as int).spec_implementation() {
                Implementation::Handler(k) => Some(k),
                _ => None,
            }
        } else {
            None
        },
    }
}

/// Look the handler for operator `op` up under the type scope at `ty`.
pub fn find_layerdefine(g: &GOM<Symbol>, ty: Explorer, op: &str) -> (r: Option<HandlerKind>)
    requires
        g.wf(),
        ty.valid(*g),
    ensures
        r == find_handler(*g, ty.at as int, op@),
    {
    let node = ty.inside(g);
    let m = node.children.len();
    let mut k: usize = 0;
    proof {
        assert(g.children_of(ty.at as int).subrange(0, m as int) =~= g.children_of(ty.at as int));
    }
    while k < m
        invariant
            g.wf(),
            ty.valid(*g),
            m == g.children_of(ty.at as int).len(),
            node.children@ == g.children_of(ty.at as int),
            0 <= k <= m,
            find_ld_rec(*g, g.children_of(ty.at as int), op@) == find_ld_rec(
                *g,
                g.children_of(ty.at as int).subrange(k as int, m as int),
                op@,
            ),
        decreases m - k,
    {
        let ghost tail = g.children_of(ty.at as int).subrange(k as int, m as int);
        let c = node.children[k];
        let child = Explorer::new(c);
        let sym = child.inside(g);
        let hit = match sym.data.get_description() {
            Description::LayerDefine(p) => is_core_op(p, op),
            _ => false,
        };
        proof {
            assert(tail[0] == c);
            assert(tail.drop_first() =~= g.children_of(ty.at as int).subrange(
                k as int + 1,
                m as int,
            ));
        }
        if hit {
            proof {
                assert(find_ld_rec(*g, tail, op@) == Some(c as int));
            }
            let ldnode = child.inside(g);
            if ldnode.children.len() > 0 {
                let h = Explorer::new(ldnode.children[0]);
                let hsym = h.inside(g);
                match hsym.data.get_implementation() {
                    Implementation::Handler(kind) => {
                        return Some(*kind);
                    },
                    _ => {
                        return None;
                    },
                }
            } else {
                return None;
            }
        }
        k = k + 1;
    }
    None
}

/// What the constant evaluator yields for one expression: a concrete folded
/// value, or an already-resolved reference passed through unchanged, as a
/// pre-folded subterm hands it in.
#[derive(Debug, PartialEq, Eq)]
pub enum Folded {
    Value(Raw),
    Reference(Path),
}

/// The unary operators the evaluator folds.
#[derive(Debug, Clone, Copy, PartialEq, Eq, Structural)]
pub enum UnaryOp {
    Pos,
    Neg,
    Not,
}

/// The binary operators the evaluator folds.
#[derive(Debug, Clone, Copy, PartialEq, Eq, Structural)]
pub enum BinaryOp {
    Add,
}

/// Big-endian reading of a byte sequence.
pub open spec fn be_value(bs: Seq<u8>) -> int
    decreases bs.len(),
{
    if bs.len() == 0 {
        0
    } else {
        be_value(bs.drop_last()) * 256 + bs.last()
    }
}

/// A big-endian reading of `n` bytes is below `256^n`.
proof fn lemma_be_value_bound(bs: Seq<u8>)
    ensures
        0 <= be_value(bs),
        bs.len() <= 4 ==> be_value(bs) < 0x1_0000_0000,
        bs.len() <= 3 ==> be_value(bs) < 0x100_0000,
        bs.len() <= 2 ==> be_value(bs) < 0x1_0000,
        bs.len() <= 1 ==> be_value(bs) < 0x100,
    decreases bs.len(),
{
    if bs.len() > 0 {
        lemma_be_value_bound(bs.drop_last());
    }
}

/// What handler `kind` makes of a literal argument.
pub open spec fn spec_argument(kind: HandlerKind, v: Value) -> Result<Raw, HandlerError> {
    match kind {
        HandlerKind::I32Argument => match v {
            Value::Name(_) => Err(HandlerError::UnsupportedLiteral),
            Value::Literal(_) => Err(HandlerError::UnsupportedLiteral),
            Value::Bytes(b) => if b@.len() <= 4 {
                Ok(Raw::I32(be_value(b@) as u32 as i32))
            } else {
                Err(HandlerError::ExceedsRange)
            },
            Value::Numeric(n) => if i32::MIN <= n <= i32::MAX {
                Ok(Raw::I32(n as i32))
            } else {
                Err(HandlerError::ExceedsRange)
            },
        },
        _ => Err(HandlerError::UnexpectedShape),
    }
}

/// What handler `kind` makes of a folded operand under a unary operator. A
/// handler serves concrete values of its own width only; anything else —
/// another width, or a reference passed through unfolded — fails explicitly
/// rather than passing through.
pub open spec fn spec_unary(kind: HandlerKind, op: UnaryOp, inner: Folded) -> Result<
    Raw,
    HandlerError,
> {
    match kind {
        HandlerKind::I32Positive => if op == UnaryOp::Pos {
            match inner {
                Folded::Value(Raw::I32(v)) => Ok(Raw::I32(v)),
                _ => Err(HandlerError::UnexpectedShape),
            }
        } else {
            Err(HandlerError::UnexpectedShape)
        },
        HandlerKind::I32Negative => if op == UnaryOp::Neg {
            match inner {
                Folded::Value(Raw::I32(v)) => if v == i32::MIN {
                    Err(HandlerError::ExceedsRange)
                } else {
                    Ok(Raw::I32((-(v as int)) as i32))
                },
                _ => Err(HandlerError::UnexpectedShape),
            }
        } else {
            Err(HandlerError::UnexpectedShape)
        },
        _ => Err(HandlerError::UnexpectedShape),
    }
}

/// What handler `kind` makes of two folded operands under a binary operator.
pub open spec fn spec_binary(kind: HandlerKind, op: BinaryOp, a: Folded, b: Folded) -> Result<
    Raw,
    HandlerError,
> {
    match kind {
        HandlerKind::I32Addition => if op == BinaryOp::Add {
            match (a, b) {
                (Folded::Value(Raw::I32(x)), Folded::Value(Raw::I32(y))) => if i32::MIN <= x + y
                    <= i32::MAX {
                    Ok(Raw::I32((x + y) as i32))
                } else {
                    Err(HandlerError::ExceedsRange)
                },
                _ => Err(HandlerError::UnexpectedShape),
            }
        } else {
            Err(HandlerError::UnexpectedShape)
        },
        _ => Err(HandlerError::UnexpectedShape),
    }
}

/// Invoke a registered handler on a literal argument.
pub fn invoke_argument(kind: HandlerKind, v: &Value) -> (r: Result<Raw, HandlerError>)
    ensures
        r == spec_argument(kind, *v),
{
    match kind {
        HandlerKind::I32Argument => match v {
            Value::Name(_) => Err(HandlerError::UnsupportedLiteral),
            Value::Literal(_) => Err(HandlerError::UnsupportedLiteral),
            Value::Bytes(b) => {
                if b.len() <= 4 {
                    let n = b.len();
                    let mut acc: u32 = 0;
                    let mut k: usize = 0;
                    while k < n
                        invariant
                            n == b@.len() <= 4,
                            0 <= k <= n,
                            acc == be_value(b@.subrange(0, k as int)),
                        decreases n - k,
                    {
                        proof {
                            lemma_be_value_bound(b@.subrange(0, k as int));
                            assert(b@.subrange(0, k as int + 1).drop_last() =~= b@.subrange(
                                0,
                                k as int,
                            ));
                        }
                        acc = acc * 256 + (b[k] as u32);
                        k = k + 1;
                    }
                    proof {
                        assert(b@.subrange(0, n as int) =~= b@);
                    }
                    Ok(Raw::I32(#[verifier::truncate] (acc as i32)))
                } else {
                    Err(HandlerError::ExceedsRange)
                }
            },
            Value::Numeric(n) => {
                if *n >= i32::MIN as i128 && *n <= i32::MAX as i128 {
                    Ok(Raw::I32(*n as i32))
                } else {
                    Err(HandlerError::ExceedsRange)
                }
            },
        },
        _ => Err(HandlerError::UnexpectedShape),
    }
}

/// Invoke a registered handler on a folded unary operand.
pub fn invoke_unary(kind: HandlerKind, op: UnaryOp, inner: Folded) -> (r: Result<
    Raw,
    HandlerError,
>)
    ensures
        r == spec_unary(kind, op, inner),
{
    match kind {
        HandlerKind::I32Positive => {
            if op == UnaryOp::Pos {
                match inner {
                    Folded::Value(Raw::I32(v)) => Ok(Raw::I32(v)),
                    _ => Err(HandlerError::UnexpectedShape),
                }
            } else {
                Err(HandlerError::UnexpectedShape)
            }
        },
        HandlerKind::I32Negative => {
            if op == UnaryOp::Neg {
                match inner {
                    Folded::Value(Raw::I32(v)) => {
                        if v == i32::MIN {
                            Err(HandlerError::ExceedsRange)
                        } else {
                            Ok(Raw::I32(-v))
                        }
                    },
                    _ => Err(HandlerError::UnexpectedShape),
                }
            } else {
                Err(HandlerError::UnexpectedShape)
            }
        },
        _ => Err(HandlerError::UnexpectedShape),
    }
}

/// Invoke a registered handler on two folded binary operands.
pub fn invoke_binary(kind: HandlerKind, op: BinaryOp, a: Folded, b: Folded) -> (r: Result<
    Raw,
    HandlerError,
>)
    ensures
        r == spec_binary(kind, op, a, b),
{
    match kind {
        HandlerKind::I32Addition => {
            if op == BinaryOp::Add {
                match (a, b) {
                    (Folded::Value(Raw::I32(x)), Folded::Value(Raw::I32(y))) => {
                        match x.checked_add(y) {
                            Some(s) => Ok(Raw::I32(s)),
                            None => Err(HandlerError::ExceedsRange),
                        }
                    },
                    _ => Err(HandlerError::UnexpectedShape),
                }
            } else {
                Err(HandlerError::UnexpectedShape)
            }
        },
        _ => Err(HandlerError::UnexpectedShape),
    }
}

/// A handler's outcome, as the consumer reports it: a concrete value, or the
/// handler's failure.
pub open spec fn lift_handler(r: Result<Raw, HandlerError>) -> Result<Folded, ParserError> {
    match r {
        Ok(v) => Ok(Folded::Value(v)),
        Err(e) => Err(ParserError::FailHandle(e)),
    }
}

/// The value the constant evaluator gives an expression under the type scope
/// `ty`. Already-folded subterms — a concrete primitive or a resolved
/// reference — pass through as they are; literal arguments, unary and
/// binary operators go to the handler registered for them under `ty`; every
/// other shape is not folded.
pub open spec fn spec_fold(g: GOM<Symbol>, ty: int, e: Expression) -> Result<Folded, ParserError>
    decreases e,
{
    match e {
        Expression::Primitive(r) => Ok(Folded::Value(r)),
        Expression::Reference(p) => Ok(Folded::Reference(p)),
        Expression::Argument(v) => match find_handler(g, ty, "Argument"@) {
            None => Err(ParserError::NoProperHandlerForExpression),
            Some(kind) => lift_handler(spec_argument(kind, v)),
        },
        Expression::Pos(inner) => spec_fold_unary(g, ty, spec_fold(g, ty, *inner), UnaryOp::Pos),
        Expression::Neg(inner) => spec_fold_unary(g, ty, spec_fold(g, ty, *inner), UnaryOp::Neg),
        Expression::Not(inner) => spec_fold_unary(g, ty, spec_fold(g, ty, *inner), UnaryOp::Not),
        Expression::Add(a, b) => match spec_fold(g, ty, *a) {
            Err(e1) => Err(e1),
            Ok(ra) => match spec_fold(g, ty, *b) {
                Err(e2) => Err(e2),
                Ok(rb) => match find_handler(g, ty, "Addition"@) {
                    None => Err(ParserError::NoProperHandlerForExpression),
                    Some(kind) => lift_handler(spec_binary(kind, BinaryOp::Add, ra, rb)),
                },
            },
        },
        _ => Err(ParserError::NotImplemented),
    }
}

/// The unary step of [`spec_fold`]: dispatch the folded operand to the
/// handler registered for the operator.
pub open spec fn spec_fold_unary(
    g: GOM<Symbol>,
    ty: int,
    inner: Result<Folded, ParserError>,
    op: UnaryOp,
) -> Result<Folded, ParserError> {
    match inner {
        Err(e) => Err(e),
        Ok(rv) => match find_handler(g, ty, unary_op_name(op)) {
            None => Err(ParserError::NoProperHandlerForExpression),
            Some(kind) => lift_handler(spec_unary(kind, op, rv)),
        },
    }
}

/// The well-known registration name of a unary operator.
pub open spec fn unary_op_name(op: UnaryOp) -> Seq<char> {
    match op {
        UnaryOp::Pos => "Positive"@,
        UnaryOp::Neg => "Negative"@,
        UnaryOp::Not => "Not"@,
    }
}

/// Fold a constant expression under the type scope at `ty`: the
/// handler-dispatch constant evaluator.
pub fn fold(g: &GOM<Symbol>, ty: Explorer, expr: Expression) -> (r: Result<Folded, ParserError>)
    requires
        g.wf(),
        ty.valid(*g),
    ensures
        r == spec_fold(*g, ty.at as int, expr),
    decreases expr,
{
    match expr {
        Expression::Primitive(r) => Ok(Folded::Value(r)),
        Expression::Reference(p) => Ok(Folded::Reference(p)),
        Expression::Argument(v) => match find_layerdefine(g, ty, "Argument") {
            None => Err(ParserError::NoProperHandlerForExpression),
            Some(kind) => match invoke_argument(kind, &v) {
                Ok(raw) => Ok(Folded::Value(raw)),
                Err(e) => Err(ParserError::FailHandle(e)),
            },
        },
        Expression::Pos(inner) => fold_unary(g, ty, fold(g, ty, *inner), UnaryOp::Pos),
        Expression::Neg(inner) => fold_unary(g, ty, fold(g, ty, *inner), UnaryOp::Neg),
        Expression::Not(inner) => fold_unary(g, ty, fold(g, ty, *inner), UnaryOp::Not),
        Expression::Add(a, b) => match fold(g, ty, *a) {
            Err(e1) => Err(e1),
            Ok(ra) => match fold(g, ty, *b) {
                Err(e2) => Err(e2),
                Ok(rb) => match find_layerdefine(g, ty, "Addition") {
                    None => Err(ParserError::NoProperHandlerForExpression),
                    Some(kind) => match invoke_binary(kind, BinaryOp::Add, ra, rb) {
                        Ok(raw) => Ok(Folded::Value(raw)),
                        Err(e) => Err(ParserError::FailHandle(e)),
                    },
                },
            },
        },
        _ => Err(ParserError::NotImplemented),
    }
}

/// The expression an already-folded result reads back as: the shape the
/// evaluator's base case passes through unchanged.
pub open spec fn folded_expr(f: Folded) -> Expression {
    match f {
        Folded::Value(r) => Expression::Primitive(r),
        Folded::Reference(p) => Expression::Reference(p),
    }
}

/// Law (base case and idempotence): a concrete primitive and a resolved
/// reference pass through the evaluator as they are, so folding what a
/// successful fold produced yields the same result again.
pub proof fn lemma_fold_idempotent(g: GOM<Symbol>, ty: int, e: Expression)
    requires
        spec_fold(g, ty, e) is Ok,
    ensures
        spec_fold(g, ty, folded_expr(spec_fold(g, ty, e).unwrap())) == spec_fold(g, ty, e),
{
}

/// The unary step of [`fold`].
fn fold_unary(
    g: &GOM<Symbol>,
    ty: Explorer,
    inner: Result<Folded, ParserError>,
    op: UnaryOp,
) -> (r: Result<Folded, ParserError>)
    requires
        g.wf(),
        ty.valid(*g),
    ensures
        r == spec_fold_unary(*g, ty.at as int, inner, op),
{
    match inner {
        Err(e) => Err(e),
        Ok(rv) => {
            let name: &str = match op {
                UnaryOp::Pos => "Positive",
                UnaryOp::Neg => "Negative",
                UnaryOp::Not => "Not",
            };
            proof {
                assert(name@ == unary_op_name(op));
            }
            match find_layerdefine(g, ty, name) {
                None => Err(ParserError::NoProperHandlerForExpression),
                Some(kind) => match invoke_unary(kind, op, rv) {
                    Ok(raw) => Ok(Folded::Value(raw)),
                    Err(e) => Err(ParserError::FailHandle(e)),
                },
            }
        },
    }
}

} // verus!
