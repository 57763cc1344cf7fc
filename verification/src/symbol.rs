//! The per-node payload of the scope tree: a name, a classification
//! ([`Description`]) and a realised content ([`Implementation`]).

use crate::ast::{Raw, Type};
use crate::path::Path;
use vstd::prelude::*;

verus! {

/// Why a registered handler refused its input.
#[derive(Debug, Clone, Copy, PartialEq, Eq, Structural)]
pub enum HandlerError {
    /// The literal was a name or a string, which no primitive handler folds.
    UnsupportedLiteral,
    /// The value does not fit the target type's width.
    ExceedsRange,
    /// The expression did not have the shape this handler serves.
    UnexpectedShape,
}

/// The closed set of registered constant-folding handlers. Each entry is the
/// behaviour one primitive type registers for one operator; the folding
/// evaluator interprets the entry it finds under the operator's well-known
/// path.
#[derive(Debug, Clone, Copy, PartialEq, Eq, Structural)]
pub enum HandlerKind {
    I32Argument,
    I32Positive,
    I32Negative,
    I32Addition,
}

/// Classification of a symbol: what kind of thing the declaration names.
#[derive(Debug, PartialEq, Eq)]
pub enum Description {
    /// A placeholder, such as the root scope.
    Virtual,
    /// A callable with argument type paths and a return type path.
    Callable(Vec<Path>, Path),
    /// A value of the referenced type.
    Memorable(Path),
    /// A concrete composite layout.
    Structure(Vec<Type>),
    /// A namespace.
    Layer,
    /// Marks this node's subtree as the handler registration for the
    /// operator named by the path.
    LayerDefine(Path),
}

/// The realised content of a symbol. It starts `Empty` and moves at most once
/// to a terminal value.
#[derive(Debug, PartialEq, Eq)]
pub enum Implementation {
    /// Not yet computed.
    Empty,
    /// A fully folded concrete value.
    Direct(Raw),
    /// An alias of another symbol.
    Indirect(Path),
    /// A constant-folding handler; only meaningful as the sole child of a
    /// node whose description is `LayerDefine`.
    Handler(HandlerKind),
}

/// A scope-tree payload: named symbols are found by name lookup, unnamed ones
/// serve as operator-registration and descriptor nodes.
#[derive(Debug, PartialEq, Eq)]
pub enum Symbol {
    Unnamed(Description, Implementation),
    Named(String, Description, Implementation),
}

impl Symbol {
    /// The symbol's lookup name, if it has one.
    pub open spec fn spec_name(self) -> Option<Seq<char>> {
        match self {
            Symbol::Unnamed(_, _) => None,
            Symbol::Named(n, _, _) => Some(n@),
        }
    }

    pub fn get_name(&self) -> (r: Option<&String>)
        ensures
            match r {
                Some(s) => self.spec_name() == Some(s@),
                None => self.spec_name() is None,
            },
    {
        match self {
            Symbol::Unnamed(_, _) => None,
            Symbol::Named(n, _, _) => Some(n),
        }
    }

    /// The symbol's classification.
    pub open spec fn spec_description(self) -> Description {
        match self {
            Symbol::Unnamed(d, _) => d,
            Symbol::Named(_, d, _) => d,
        }
    }

    pub fn get_description(&self) -> (r: &Description)
        ensures
            *r == self.spec_description(),
    {
        match self {
            Symbol::Unnamed(d, _) => d,
            Symbol::Named(_, d, _) => d,
        }
    }

    /// The symbol's realised content.
    pub open spec fn spec_implementation(self) -> Implementation {
        match self {
            Symbol::Unnamed(_, i) => i,
            Symbol::Named(_, _, i) => i,
        }
    }

    pub fn get_implementation(&self) -> (r: &Implementation)
        ensures
            *r == self.spec_implementation(),
    {
        match self {
            Symbol::Unnamed(_, i) => i,
            Symbol::Named(_, _, i) => i,
        }
    }
}

} // verus!
