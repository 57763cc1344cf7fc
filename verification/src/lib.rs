//! Symbol-table / IR core of an experimental compiler front-end.
//!
//! The crate organises declarations into a hierarchical scope tree ([`gom`]),
//! addresses nodes of that tree with a small path algebra ([`path`]), stores a
//! classification and a realised value per node ([`symbol`]), folds constant
//! initializer expressions through per-type registered handlers ([`fold`]),
//! and binds surface declaration sentences to all of the above ([`consume`]).

pub mod ast;
pub mod consume;
pub mod fold;
pub mod gom;
pub mod iterfn;
pub mod path;
pub mod primitive;
pub mod symbol;

pub use ast::{hex_format, is_not_space, Accessor, Expression, Raw, Sentence, Type, Value};
pub use consume::{consume_local_name, consume_to, consume_variable, lookup, Parser, ParserError};
pub use fold::{find_layerdefine, fold, BinaryOp, Folded, UnaryOp};
pub use primitive::load_i32;
pub use gom::{Explorer, GOM, Node};
pub use iterfn::{Iter, IterRule};
pub use path::{Path, PathError};
pub use symbol::{Description, HandlerError, HandlerKind, Implementation, Symbol};
