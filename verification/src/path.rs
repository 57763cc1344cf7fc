//! The path algebra: structured names addressing scope-tree nodes.
//!
//! A path is anchored at the root (`Root`, absolute) or at the current node
//! (`Current`, relative) and extends inward with named segments (`Next`),
//! cast-qualified segments (`Specify`), positional segments (`Temporary`) and
//! parent steps (`Parent`). [`Path::trim`] normalises a path by cancelling
//! parent steps against the segments before them.

use crate::ast::{dec_digits, dec_format, Expression, Value};
use vstd::prelude::*;

verus! {

/// Failure of converting a surface expression into a path.
#[derive(Debug, Clone, Copy, PartialEq, Eq, Structural)]
pub enum PathError {
    /// The expression holds something other than a plain-name, member or
    /// cast chain.
    PathRuleViolation,
}

/// A structured name. The innermost constructor is the anchor: `Root` for
/// absolute paths, `Current` for relative ones.
#[derive(Debug, PartialEq, Eq)]
pub enum Path {
    Root,
    Current,
    /// A named child segment, written `prefix/name`.
    Next(Box<Path>, String),
    /// A cast-qualified segment, written `prefix@name`.
    Specify(Box<Path>, String),
    /// A positional segment, written `prefix/$index`.
    Temporary(Box<Path>, usize),
    /// A step to the enclosing scope, written `prefix/..`.
    Parent(Box<Path>),
}

impl Path {
    /// A structurally equal copy of the path.
    pub fn duplicate(&self) -> (r: Self)
        ensures
            r == *self,
        decreases self,
    {
        match self {
            Path::Root => Path::Root,
            Path::Current => Path::Current,
            Path::Next(q, n) => Path::Next(Box::new(q.duplicate()), n.clone()),
            Path::Specify(q, n) => Path::Specify(Box::new(q.duplicate()), n.clone()),
            Path::Temporary(q, i) => Path::Temporary(Box::new(q.duplicate()), *i),
            Path::Parent(q) => Path::Parent(Box::new(q.duplicate())),
        }
    }

    /// The path is anchored at the root.
    pub open spec fn spec_is_absolute(self) -> bool
        decreases self,
    {
        match self {
            Path::Root => true,
            Path::Current => false,
            Path::Next(q, _) => q.spec_is_absolute(),
            Path::Specify(q, _) => q.spec_is_absolute(),
            Path::Temporary(q, _) => q.spec_is_absolute(),
            Path::Parent(q) => q.spec_is_absolute(),
        }
    }

    pub fn is_absolute(&self) -> (r: bool)
        ensures
            r == self.spec_is_absolute(),
        decreases self,
    {
        match self {
            Path::Root => true,
            Path::Current => false,
            Path::Next(q, _) => q.is_absolute(),
            Path::Specify(q, _) => q.is_absolute(),
            Path::Temporary(q, _) => q.is_absolute(),
            Path::Parent(q) => q.is_absolute(),
        }
    }

    pub fn is_relative(&self) -> (r: bool)
        ensures
            r == !self.spec_is_absolute(),
    {
        !self.is_absolute()
    }

    /// Structural concatenation: `src` with its anchor replaced by `dst`.
    /// An absolute `src` keeps its own `Root` anchor, discarding `dst`.
    pub open spec fn spec_append(dst: Path, src: Path) -> Path
        decreases src,
    {
        match src {
            Path::Root => Path::Root,
            Path::Current => dst,
            Path::Next(p, v) => Path::Next(Box::new(Self::spec_append(dst, *p)), v),
            Path::Specify(p, v) => Path::Specify(Box::new(Self::spec_append(dst, *p)), v),
            Path::Temporary(p, v) => Path::Temporary(Box::new(Self::spec_append(dst, *p)), v),
            Path::Parent(p) => Path::Parent(Box::new(Self::spec_append(dst, *p))),
        }
    }

    pub fn append(self, d: Self) -> (r: Self)
        ensures
            r == Self::spec_append(self, d),
        decreases d,
    {
        match d {
            Path::Root => Path::Root,
            Path::Current => self,
            Path::Next(p, v) => Path::Next(Box::new(self.append(*p)), v),
            Path::Specify(p, v) => Path::Specify(Box::new(self.append(*p)), v),
            Path::Temporary(p, v) => Path::Temporary(Box::new(self.append(*p)), v),
            Path::Parent(p) => Path::Parent(Box::new(self.append(*p))),
        }
    }

    /// Law: appending an absolute path discards the prefix entirely.
    pub proof fn lemma_append_absolute(dst: Path, src: Path)
        requires
            src.spec_is_absolute(),
        ensures
            Self::spec_append(dst, src) == src,
        decreases src,
    {
        match src {
            Path::Next(p, _) => Self::lemma_append_absolute(dst, *p),
            Path::Specify(p, _) => Self::lemma_append_absolute(dst, *p),
            Path::Temporary(p, _) => Self::lemma_append_absolute(dst, *p),
            Path::Parent(p) => Self::lemma_append_absolute(dst, *p),
            _ => {},
        }
    }

    /// Law: appending a relative path keeps the prefix's anchor.
    pub proof fn lemma_append_relative(dst: Path, src: Path)
        requires
            !src.spec_is_absolute(),
        ensures
            Self::spec_append(dst, src).spec_is_absolute() == dst.spec_is_absolute(),
        decreases src,
    {
        match src {
            Path::Next(p, _) => Self::lemma_append_relative(dst, *p),
            Path::Specify(p, _) => Self::lemma_append_relative(dst, *p),
            Path::Temporary(p, _) => Self::lemma_append_relative(dst, *p),
            Path::Parent(p) => Self::lemma_append_relative(dst, *p),
            _ => {},
        }
    }

    /// Extend with a named segment.
    pub fn next(self, name: &str) -> (r: Self)
        ensures
            r matches Path::Next(p, s) && *p == self && s@ == name@,
    {
        Path::Next(Box::new(self), name.to_owned())
    }

    /// Extend with a cast-qualified segment.
    pub fn specify(self, name: &str) -> (r: Self)
        ensures
            r matches Path::Specify(p, s) && *p == self && s@ == name@,
    {
        Path::Specify(Box::new(self), name.to_owned())
    }

    /// Extend with a positional segment.
    pub fn temporary(self, num: usize) -> (r: Self)
        ensures
            r == Path::Temporary(Box::new(self), num),
    {
        Path::Temporary(Box::new(self), num)
    }

    /// Extend with a parent step.
    pub fn parent_step(self) -> (r: Self)
        ensures
            r == Path::Parent(Box::new(self)),
    {
        Path::Parent(Box::new(self))
    }

    /// Normal form of a path: segments are scanned left to right with a
    /// result stack; `Current` is the empty stack, a named, cast or
    /// positional segment pushes, and a parent step pops the most recently
    /// pushed segment. On an absolute path a parent step never pops past the
    /// root; on a relative path whose stack is empty it accumulates as an
    /// explicit go-above-anchor marker.
    pub open spec fn spec_trim(self) -> Path
        decreases self,
    {
        match self {
            Path::Root => Path::Root,
            Path::Current => Path::Current,
            Path::Next(p, v) => Path::Next(Box::new(p.spec_trim()), v),
            Path::Specify(p, v) => Path::Specify(Box::new(p.spec_trim()), v),
            Path::Temporary(p, v) => Path::Temporary(Box::new(p.spec_trim()), v),
            Path::Parent(p) => match p.spec_trim() {
                Path::Next(q, _) => *q,
                Path::Specify(q, _) => *q,
                Path::Temporary(q, _) => *q,
                Path::Root => Path::Root,
                Path::Current => Path::Parent(Box::new(Path::Current)),
                Path::Parent(q) => Path::Parent(Box::new(Path::Parent(q))),
            },
        }
    }

    pub fn trim(self) -> (r: Self)
        ensures
            r == self.spec_trim(),
        decreases self,
    {
        match self {
            Path::Root => Path::Root,
            Path::Current => Path::Current,
            Path::Next(p, v) => Path::Next(Box::new(p.trim()), v),
            Path::Specify(p, v) => Path::Specify(Box::new(p.trim()), v),
            Path::Temporary(p, v) => Path::Temporary(Box::new(p.trim()), v),
            Path::Parent(p) => match p.trim() {
                Path::Next(q, _) => *q,
                Path::Specify(q, _) => *q,
                Path::Temporary(q, _) => *q,
                Path::Root => Path::Root,
                Path::Current => Path::Parent(Box::new(Path::Current)),
                Path::Parent(q) => Path::Parent(Box::new(Path::Parent(q))),
            },
        }
    }

    /// A path is in normal form when no parent step follows a pushed segment:
    /// parent steps sit directly on a relative anchor.
    pub open spec fn is_trimmed(self) -> bool
        decreases self,
    {
        match self {
            Path::Root => true,
            Path::Current => true,
            Path::Next(p, _) => p.is_trimmed(),
            Path::Specify(p, _) => p.is_trimmed(),
            Path::Temporary(p, _) => p.is_trimmed(),
            Path::Parent(p) => match *p {
                Path::Current => true,
                Path::Parent(_) => p.is_trimmed(),
                _ => false,
            },
        }
    }

    /// Trimming yields a normal form.
    pub proof fn lemma_trim_normal(self)
        ensures
            self.spec_trim().is_trimmed(),
        decreases self,
    {
        match self {
            Path::Next(p, _) => p.lemma_trim_normal(),
            Path::Specify(p, _) => p.lemma_trim_normal(),
            Path::Temporary(p, _) => p.lemma_trim_normal(),
            Path::Parent(p) => {
                p.lemma_trim_normal();
            },
            _ => {},
        }
    }

    /// A path in normal form is its own trim.
    pub proof fn lemma_trimmed_fixed(self)
        requires
            self.is_trimmed(),
        ensures
            self.spec_trim() == self,
        decreases self,
    {
        match self {
            Path::Next(p, _) => p.lemma_trimmed_fixed(),
            Path::Specify(p, _) => p.lemma_trimmed_fixed(),
            Path::Temporary(p, _) => p.lemma_trimmed_fixed(),
            Path::Parent(p) => {
                p.lemma_trimmed_fixed();
            },
            _ => {},
        }
    }

    /// Law (trim idempotence): trimming twice is trimming once.
    pub proof fn lemma_trim_idempotent(self)
        ensures
            self.spec_trim().spec_trim() == self.spec_trim(),
    {
        self.lemma_trim_normal();
        self.spec_trim().lemma_trimmed_fixed();
    }

    /// Mathematical reading of a plain-name / member / cast chain as a path;
    /// `None` for any other expression shape.
    pub open spec fn path_of_expr(e: Expression) -> Option<Path>
        decreases e,
    {
        match e {
            Expression::Argument(v) => match v {
                Value::Name(n) => Some(Path::Next(Box::new(Path::Current), n)),
                _ => None,
            },
            Expression::Member(l, r) => match Self::path_of_expr(*l) {
                Some(pl) => match Self::path_of_expr(*r) {
                    Some(pr) => Some(Path::spec_append(pl, pr)),
                    None => None,
                },
                None => None,
            },
            Expression::Cast(l, r) => match *r {
                Expression::Argument(v) => match v {
                    Value::Name(n) => match Self::path_of_expr(*l) {
                        Some(pl) => Some(Path::Specify(Box::new(pl), n)),
                        None => None,
                    },
                    _ => None,
                },
                _ => None,
            },
            _ => None,
        }
    }

    /// Convert a chain of plain-name, member and cast surface expressions
    /// into a path; any other shape is a `PathRuleViolation`.
    pub fn from_expression(expr: &Expression) -> (r: Result<Path, PathError>)
        ensures
            match r {
                Ok(p) => Self::path_of_expr(*expr) == Some(p),
                Err(e) => Self::path_of_expr(*expr) is None && e == PathError::PathRuleViolation,
            },
        decreases expr,
    {
        match expr {
            Expression::Argument(v) => match v {
                Value::Name(n) => Ok(Path::Next(Box::new(Path::Current), n.clone())),
                _ => Err(PathError::PathRuleViolation),
            },
            Expression::Member(l, r) => match Self::from_expression(l) {
                Ok(pl) => match Self::from_expression(r) {
                    Ok(pr) => Ok(pl.append(pr)),
                    Err(e) => Err(e),
                },
                Err(e) => Err(e),
            },
            Expression::Cast(l, r) => match &**r {
                Expression::Argument(v) => match v {
                    Value::Name(n) => match Self::from_expression(l) {
                        Ok(pl) => Ok(Path::Specify(Box::new(pl), n.clone())),
                        Err(e) => Err(e),
                    },
                    _ => Err(PathError::PathRuleViolation),
                },
                _ => Err(PathError::PathRuleViolation),
            },
            _ => Err(PathError::PathRuleViolation),
        }
    }

    /// The bare name, when the path is exactly one named segment off the
    /// current anchor; `None` for every other shape.
    pub open spec fn spec_get_local(self) -> Option<String> {
        match self {
            Path::Next(q, n) => match *q {
                Path::Current => Some(n),
                _ => None,
            },
            _ => None,
        }
    }

    pub fn get_local(&self) -> (r: Option<&String>)
        ensures
            match r {
                Some(s) => self.spec_get_local() == Some(*s),
                None => self.spec_get_local() is None,
            },
    {
        match self {
            Path::Next(q, n) => match &**q {
                Path::Current => Some(n),
                _ => None,
            },
            _ => None,
        }
    }
}

impl Path {
    /// Textual form of a path: segments are `/`-joined with no leading
    /// separator for absolute paths and a leading `.` anchor for relative
    /// ones; cast segments attach with `@`, positional segments render as
    /// `$index`, parent steps as `..`. A single local segment renders bare.
    pub open spec fn spec_render(self) -> Seq<char> {
        match self {
            Path::Next(q, n) => match *q {
                Path::Current => n@,
                _ => self.spec_render_full(),
            },
            _ => self.spec_render_full(),
        }
    }

    /// The anchored form of [`Path::spec_render`], without the bare-segment
    /// exception.
    pub open spec fn spec_render_full(self) -> Seq<char>
        decreases self,
    {
        match self {
            Path::Root => Seq::empty(),
            Path::Current => seq!['.'],
            Path::Next(q, n) => if *q == Path::Root {
                n@
            } else {
                q.spec_render_full() + seq!['/'] + n@
            },
            Path::Specify(q, n) => q.spec_render_full() + seq!['@'] + n@,
            Path::Temporary(q, k) => if *q == Path::Root {
                seq!['$'] + dec_digits(k as int)
            } else {
                q.spec_render_full() + seq!['/', '$'] + dec_digits(k as int)
            },
            Path::Parent(q) => if *q == Path::Root {
                seq!['.', '.']
            } else {
                q.spec_render_full() + seq!['/', '.', '.']
            },
        }
    }

    pub fn render(&self) -> (r: String)
        ensures
            r@ == self.spec_render(),
    {
        match self {
            Path::Next(q, n) => match &**q {
                Path::Current => n.clone(),
                _ => self.render_full(),
            },
            _ => self.render_full(),
        }
    }

    fn render_full(&self) -> (r: String)
        ensures
            r@ == self.spec_render_full(),
        decreases self,
    {
        proof {
            reveal_strlit(".");
            reveal_strlit("/");
            reveal_strlit("@");
            reveal_strlit("$");
            reveal_strlit("..");
            reveal_strlit("/$");
            reveal_strlit("/..");
        }
        match self {
            Path::Root => String::new(),
            Path::Current => {
                let s: String = ".".to_owned();
                proof {
                    assert(s@ =~= seq!['.']);
                }
                s
            },
            Path::Next(q, n) => {
                let mut s = q.render_full();
                let at_root = match &**q {
                    Path::Root => true,
                    _ => false,
                };
                if !at_root {
                    s.append("/");
                }
                s.append(n.as_str());
                proof {
                    if at_root {
                        assert(s@ =~= n@);
                    } else {
                        assert(s@ =~= q.spec_render_full() + seq!['/'] + n@);
                    }
                }
                s
            },
            Path::Specify(q, n) => {
                let mut s = q.render_full();
                s.append("@");
                s.append(n.as_str());
                proof {
                    assert(s@ =~= q.spec_render_full() + seq!['@'] + n@);
                }
                s
            },
            Path::Temporary(q, k) => {
                let mut s = q.render_full();
                let at_root = match &**q {
                    Path::Root => true,
                    _ => false,
                };
                if at_root {
                    s.append("$");
                } else {
                    s.append("/$");
                }
                let ds = dec_format(*k);
                s.append(ds.as_str());
                proof {
                    if at_root {
                        assert(s@ =~= seq!['$'] + dec_digits(*k as int));
                    } else {
                        assert(s@ =~= q.spec_render_full() + seq!['/', '$'] + dec_digits(
                            *k as int,
                        ));
                    }
                }
                s
            },
            Path::Parent(q) => {
                let mut s = q.render_full();
                let at_root = match &**q {
                    Path::Root => true,
                    _ => false,
                };
                if at_root {
                    s.append("..");
                } else {
                    s.append("/..");
                }
                proof {
                    if at_root {
                        assert(s@ =~= seq!['.', '.']);
                    } else {
                        assert(s@ =~= q.spec_render_full() + seq!['/', '.', '.']);
                    }
                }
                s
            },
        }
    }
}

} // verus!
