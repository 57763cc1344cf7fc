//! The scope tree: an append-only arena of nodes addressed by stable indices.
//!
//! Every node owns its payload and an ordered list of child indices, plus a
//! back-reference to its parent. Cursors ([`Explorer`]) are plain indices that
//! navigation validates against the arena; a navigation step either succeeds
//! with a cursor at the destination or fails returning the original cursor, so
//! a caller can always retry a different step from where it was.

use vstd::prelude::*;

verus! {

/// One node of the scope tree. `parent` is `None` exactly at the root;
/// `children` lists the node's children in insertion order.
pub struct Node<T> {
    pub parent: Option<usize>,
    pub children: Vec<usize>,
    pub data: T,
}

/// The owning tree: an arena of nodes. Node 0, when present, is the root.
/// Nodes are only ever appended, so a child's index is always greater than
/// its parent's; that single fact rules out cycles and bounds every walk.
pub struct GOM<T> {
    nodes: Vec<Node<T>>,
}

/// A cursor to a tree node: an index into the arena of the tree it navigates.
#[derive(Clone, Copy, Debug, PartialEq, Eq, Structural)]
pub struct Explorer {
    pub at: usize,
}

impl<T> GOM<T> {
    /// The arena contents, as the mathematical model of the tree.
    pub closed spec fn node_seq(self) -> Seq<Node<T>> {
        self.nodes@
    }

    pub open spec fn len(self) -> nat {
        self.node_seq().len()
    }

    pub open spec fn valid(self, i: int) -> bool {
        0 <= i < self.len()
    }

    pub open spec fn parent_of(self, i: int) -> Option<usize> {
        self.node_seq()[i].parent
    }

    pub open spec fn children_of(self, i: int) -> Seq<usize> {
        self.node_seq()[i].children@
    }

    pub open spec fn data_of(self, i: int) -> T {
        self.node_seq()[i].data
    }

    /// Well-formedness of the arena as a tree:
    /// - node 0 is the only root (no parent); every later node has one;
    /// - a parent's index is smaller than its child's (append-only order);
    /// - child lists point at valid nodes whose parent link points back;
    /// - child lists are strictly increasing, so a node occurs in its
    ///   parent's list exactly once;
    /// - every non-root node occurs in its parent's child list.
    pub open spec fn wf(self) -> bool {
        &&& (self.len() > 0 ==> self.parent_of(0) is None)
        &&& (forall|i: int|
            0 < i < self.len() ==> (#[trigger] self.parent_of(i)) is Some
                && self.parent_of(i).unwrap() < i)
        &&& (forall|i: int, k: int|
            self.valid(i) && 0 <= k < self.children_of(i).len() ==> {
                let c = #[trigger] self.children_of(i)[k];
                &&& i < c < self.len()
                &&& self.parent_of(c as int) == Some(i as usize)
            })
        &&& (forall|i: int, k1: int, k2: int|
            #![trigger self.children_of(i)[k1], self.children_of(i)[k2]]
            self.valid(i) && 0 <= k1 < k2 < self.children_of(i).len()
                ==> self.children_of(i)[k1] < self.children_of(i)[k2])
        &&& (forall|j: int|
            0 < j < self.len() ==> self.children_of(
                (#[trigger] self.parent_of(j)).unwrap() as int,
            ).contains(j as usize))
    }

    /// A tree with the given root payload, or an empty tree.
    pub fn new(root: Option<T>) -> (g: Self)
        ensures
            g.wf(),
            match root {
                Some(t) => g.len() == 1 && g.data_of(0) == t && g.children_of(0).len() == 0,
                None => g.len() == 0,
            },
    {
        match root {
            None => GOM { nodes: Vec::new() },
            Some(t) => Self::setup(t),
        }
    }

    /// A tree with a single root node carrying `t`.
    pub fn setup(t: T) -> (g: Self)
        ensures
            g.wf(),
            g.len() == 1,
            g.parent_of(0) is None,
            g.children_of(0).len() == 0,
            g.data_of(0) == t,
    {
        let mut nodes: Vec<Node<T>> = Vec::new();
        nodes.push(Node { parent: None, children: Vec::new(), data: t });
        GOM { nodes }
    }

    /// A cursor at the root, or `None` for an empty tree.
    pub fn explore(&self) -> (r: Option<Explorer>)
        ensures
            match r {
                Some(e) => self.len() > 0 && e.at == 0,
                None => self.len() == 0,
            },
    {
        if self.nodes.len() > 0 {
            Some(Explorer { at: 0 })
        } else {
            None
        }
    }
}

impl Explorer {
    /// A cursor at the given arena index.
    pub fn new(at: usize) -> (e: Explorer)
        ensures
            e.at == at,
    {
        Explorer { at }
    }

    /// The cursor points at a node of `g`.
    pub open spec fn valid<T>(self, g: GOM<T>) -> bool {
        g.valid(self.at as int)
    }

    /// Whether this node has no parent.
    pub fn is_root<T>(&self, g: &GOM<T>) -> (r: bool)
        requires
            self.valid(*g),
        ensures
            r == (g.parent_of(self.at as int) is None),
    {
        g.nodes[self.at].parent.is_none()
    }

    /// Move to the parent; at the root, fail with the original cursor.
    pub fn parent<T>(self, g: &GOM<T>) -> (r: Result<Explorer, Explorer>)
        requires
            g.wf(),
            self.valid(*g),
        ensures
            match r {
                Ok(p) => g.parent_of(self.at as int) == Some(p.at) && p.valid(*g) && p.at
                    < self.at,
                Err(e) => e == self && g.parent_of(self.at as int) is None,
            },
    {
        match g.nodes[self.at].parent {
            Some(p) => Ok(Explorer { at: p }),
            None => Err(self),
        }
    }

    /// Like [`Self::parent`], but absorb the failure: stay put at the root.
    pub fn parent_or_else<T>(self, g: &GOM<T>) -> (r: Explorer)
        requires
            g.wf(),
            self.valid(*g),
        ensures
            match g.parent_of(self.at as int) {
                Some(p) => r.at == p,
                None => r == self,
            },
            r.valid(*g),
    {
        match self.parent(g) {
            Ok(p) => p,
            Err(e) => e,
        }
    }

    /// Move to the `i`-th child; fail with the original cursor if there is none.
    pub fn child<T>(self, g: &GOM<T>, i: usize) -> (r: Result<Explorer, Explorer>)
        requires
            g.wf(),
            self.valid(*g),
        ensures
            match r {
                Ok(c) => i < g.children_of(self.at as int).len() && c.at == g.children_of(
                    self.at as int,
                )[i as int] && c.valid(*g),
                Err(e) => e == self && i >= g.children_of(self.at as int).len(),
            },
    {
        if i < g.nodes[self.at].children.len() {
            Ok(Explorer { at: g.nodes[self.at].children[i] })
        } else {
            Err(self)
        }
    }

    /// Like [`Self::child`], but absorb the failure: stay put.
    pub fn child_or_else<T>(self, g: &GOM<T>, i: usize) -> (r: Explorer)
        requires
            g.wf(),
            self.valid(*g),
        ensures
            if i < g.children_of(self.at as int).len() {
                r.at == g.children_of(self.at as int)[i as int]
            } else {
                r == self
            },
            r.valid(*g),
    {
        match self.child(g, i) {
            Ok(c) => c,
            Err(e) => e,
        }
    }

    /// Borrow the node under the cursor.
    pub fn inside<'a, T>(&self, g: &'a GOM<T>) -> (n: &'a Node<T>)
        requires
            self.valid(*g),
        ensures
            *n == g.node_seq()[self.at as int],
    {
        &g.nodes[self.at]
    }

    /// Mutably borrow the payload under the cursor. Only the payload is handed
    /// out, so the tree structure (and its well-formedness) cannot change.
    pub fn inside_mut<'a, T>(&self, g: &'a mut GOM<T>) -> (d: &'a mut T)
        requires
            self.valid(*old(g)),
        ensures
            *d == old(g).data_of(self.at as int),
            final(g).len() == old(g).len(),
            final(g).data_of(self.at as int) == *final(d),
            forall|i: int|
                0 <= i < old(g).len() && i != self.at ==> final(g).node_seq()[i] == old(
                    g,
                ).node_seq()[i],
            forall|i: int|
                0 <= i < old(g).len() ==> final(g).parent_of(i) == old(g).parent_of(i)
                    && final(g).children_of(i) == old(g).children_of(i),
            old(g).wf() ==> final(g).wf(),
    {
        let d: &mut T = &mut g.nodes[self.at].data;
        proof {
            assert(after_borrow(g).node_seq() =~= old(g).node_seq().update(
                self.at as int,
                Node {
                    parent: old(g).node_seq()[self.at as int].parent,
                    children: old(g).node_seq()[self.at as int].children,
                    data: *final(d),
                },
            ));
            if old(g).wf() {
                lemma_same_structure_wf(*old(g), *after_borrow(g));
            }
        }
        d
    }

    /// Move to the first child, in insertion order, whose payload satisfies
    /// `f`; fail with the original cursor if none does.
    pub fn find_child<T, F: Fn(&T) -> bool>(self, g: &GOM<T>, f: F) -> (r: Result<
        Explorer,
        Explorer,
    >)
        requires
            g.wf(),
            self.valid(*g),
            forall|t: &T| #[trigger] f.requires((t,)),
        ensures
            match r {
                Ok(c) => {
                    &&& c.valid(*g)
                    &&& exists|k: int|
                        #![auto]
                        {
                            &&& 0 <= k < g.children_of(self.at as int).len()
                            &&& c.at == g.children_of(self.at as int)[k]
                            &&& f.ensures((&g.data_of(c.at as int),), true)
                            &&& forall|m: int|
                                0 <= m < k ==> f.ensures(
                                    (&g.data_of(g.children_of(self.at as int)[m] as int),),
                                    false,
                                )
                        }
                },
                Err(e) => {
                    &&& e == self
                    &&& forall|m: int|
                        0 <= m < g.children_of(self.at as int).len() ==> f.ensures(
                            (&g.data_of(g.children_of(self.at as int)[m] as int),),
                            false,
                        )
                },
            },
    {
        let n = g.nodes[self.at].children.len();
        let mut k: usize = 0;
        while k < n
            invariant
                g.wf(),
                self.valid(*g),
                n == g.children_of(self.at as int).len(),
                0 <= k <= n,
                forall|t: &T| #[trigger] f.requires((t,)),
                forall|m: int|
                    0 <= m < k ==> f.ensures(
                        (&g.data_of(g.children_of(self.at as int)[m] as int),),
                        false,
                    ),
            decreases n - k,
        {
            let c = g.nodes[self.at].children[k];
            if f(&g.nodes[c].data) {
                return Ok(Explorer { at: c });
            }
            k = k + 1;
        }
        Err(self)
    }

    /// [`Self::find_child`] under its historical name for absorbing callers.
    pub fn find_child_or_else<T, F: Fn(&T) -> bool>(self, g: &GOM<T>, f: F) -> (r: Result<
        Explorer,
        Explorer,
    >)
        requires
            g.wf(),
            self.valid(*g),
            forall|t: &T| #[trigger] f.requires((t,)),
        ensures
            match r {
                Ok(c) => c.valid(*g),
                Err(e) => e == self,
            },
    {
        self.find_child(g, f)
    }

    /// Walk parent links until none remain: the tree root, which in an
    /// append-only arena is always node 0.
    pub fn root<T>(self, g: &GOM<T>) -> (r: Explorer)
        requires
            g.wf(),
            self.valid(*g),
        ensures
            r.at == 0,
            r.valid(*g),
            g.parent_of(r.at as int) is None,
    {
        let mut cur = self;
        loop
            invariant
                g.wf(),
                cur.valid(*g),
            decreases cur.at,
        {
            match g.nodes[cur.at].parent {
                None => {
                    proof {
                        if cur.at != 0 {
                            assert(g.parent_of(cur.at as int) is Some);
                        }
                    }
                    return cur;
                },
                Some(p) => {
                    cur = Explorer { at: p };
                },
            }
        }
    }

    /// Number of parent steps from this node to the root.
    pub fn depth<T>(&self, g: &GOM<T>) -> (d: usize)
        requires
            g.wf(),
            self.valid(*g),
        ensures
            d == depth_of(*g, self.at as int),
    {
        Self::util_depth(g, self.at)
    }

    /// [`Self::depth`] on a bare index.
    pub fn util_depth<T>(g: &GOM<T>, at: usize) -> (d: usize)
        requires
            g.wf(),
            g.valid(at as int),
        ensures
            d == depth_of(*g, at as int),
    {
        let mut cur: usize = at;
        let mut steps: usize = 0;
        proof {
            lemma_depth_le_index(*g, at as int);
        }
        loop
            invariant
                g.wf(),
                g.valid(cur as int),
                steps + depth_of(*g, cur as int) == depth_of(*g, at as int),
                steps <= at,
            decreases cur,
        {
            match g.nodes[cur].parent {
                None => {
                    return steps;
                },
                Some(p) => {
                    proof {
                        if cur != 0 {
                            assert(g.parent_of(cur as int) is Some);
                        }
                        lemma_depth_le_index(*g, at as int);
                    }
                    cur = p;
                    steps = steps + 1;
                },
            }
        }
    }

    /// Move to the sibling immediately following this node in its parent's
    /// child list; fail with the original cursor at the root or at the last
    /// child.
    pub fn next_sibling<T>(self, g: &GOM<T>) -> (r: Result<Explorer, Explorer>)
        requires
            g.wf(),
            self.valid(*g),
        ensures
            match r {
                Ok(s) => {
                    let p = g.parent_of(self.at as int).unwrap() as int;
                    let k = index_in_parent(*g, self.at as int);
                    &&& g.parent_of(self.at as int) is Some
                    &&& k + 1 < g.children_of(p).len()
                    &&& s.at == g.children_of(p)[k + 1]
                    &&& s.valid(*g)
                },
                Err(e) => {
                    let p = g.parent_of(self.at as int).unwrap() as int;
                    &&& e == self
                    &&& (g.parent_of(self.at as int) is None || index_in_parent(*g, self.at as int)
                        + 1 >= g.children_of(p).len())
                },
            },
    {
        let p: usize = match g.nodes[self.at].parent {
            None => {
                return Err(self);
            },
            Some(p) => p,
        };
        proof {
            lemma_parent_contains_child_once(*g, self);
        }
        let ghost kk = index_in_parent(*g, self.at as int);
        let n = g.nodes[p].children.len();
        let mut k: usize = 0;
        loop
            invariant
                g.wf(),
                self.valid(*g),
                g.parent_of(self.at as int) == Some(p),
                n == g.children_of(p as int).len(),
                0 <= k <= n,
                kk == index_in_parent(*g, self.at as int),
                0 <= kk < n,
                g.children_of(p as int)[kk] == self.at,
                forall|m: int|
                    0 <= m < g.children_of(p as int).len() && g.children_of(p as int)[m] == self.at
                        ==> m == kk,
                forall|m: int| 0 <= m < k ==> g.children_of(p as int)[m] != self.at,
            decreases n - k,
        {
            if k >= n {
                proof {
                    assert(g.children_of(p as int)[kk] != self.at);
                }
                return Err(self);
            }
            if g.nodes[p].children[k] == self.at {
                if k + 1 < n {
                    return Ok(Explorer { at: g.nodes[p].children[k + 1] });
                } else {
                    return Err(self);
                }
            }
            k = k + 1;
        }
    }

    /// Append a new leaf carrying `t` to this node's children and return a
    /// cursor to it. Insertion order of children is preserved.
    pub fn add_child<T>(self, g: &mut GOM<T>, t: T) -> (c: Explorer)
        requires
            old(g).wf(),
            self.valid(*old(g)),
        ensures
            final(g).wf(),
            final(g).len() == old(g).len() + 1,
            c.at == old(g).len(),
            c.valid(*final(g)),
            final(g).parent_of(c.at as int) == Some(self.at),
            final(g).children_of(c.at as int).len() == 0,
            final(g).data_of(c.at as int) == t,
            final(g).children_of(self.at as int) == old(g).children_of(self.at as int).push(c.at),
            final(g).parent_of(self.at as int) == old(g).parent_of(self.at as int),
            final(g).data_of(self.at as int) == old(g).data_of(self.at as int),
            forall|i: int|
                0 <= i < old(g).len() && i != self.at ==> final(g).node_seq()[i] == old(
                    g,
                ).node_seq()[i],
    {
        let idx = g.nodes.len();
        g.nodes.push(Node { parent: Some(self.at), children: Vec::new(), data: t });
        let n: &mut Node<T> = &mut g.nodes[self.at];
        n.children.push(idx);
        proof {
            lemma_add_child_wf(*old(g), *g, self.at as int, idx as int);
        }
        Explorer { at: idx }
    }
}

/// The arena is a `Vec`, so every node index fits a `usize`.
pub broadcast proof fn lemma_len_bound<T>(g: &GOM<T>)
    ensures
        #[trigger] g.len() <= usize::MAX,
{
    broadcast use vstd::std_specs::vec::axiom_spec_len;

    assert(vstd::std_specs::vec::spec_vec_len(&g.nodes) == g.nodes@.len());
}

/// Number of parent steps from node `i` up to the root.
pub open spec fn depth_of<T>(g: GOM<T>, i: int) -> nat
    decreases i,
{
    if 0 <= i < g.len() {
        match g.parent_of(i) {
            None => 0,
            Some(p) => if p < i {
                depth_of(g, p as int) + 1
            } else {
                0
            },
        }
    } else {
        0
    }
}

/// In an append-only arena a node's depth never exceeds its index.
proof fn lemma_depth_le_index<T>(g: GOM<T>, i: int)
    requires
        g.wf(),
        0 <= i < g.len(),
    ensures
        depth_of(g, i) <= i,
    decreases i,
{
    if g.parent_of(i) is Some {
        lemma_depth_le_index(g, g.parent_of(i).unwrap() as int);
    }
}

/// The position of node `j` in its parent's child list.
pub open spec fn index_in_parent<T>(g: GOM<T>, j: int) -> int {
    let p = g.parent_of(j).unwrap() as int;
    choose|k: int| 0 <= k < g.children_of(p).len() && g.children_of(p)[k] as int == j
}

/// Law (tree invariant): a node whose `parent` step succeeds occurs in that
/// parent's child list exactly once, namely at `index_in_parent`.
pub proof fn lemma_parent_contains_child_once<T>(g: GOM<T>, c: Explorer)
    requires
        g.wf(),
        c.valid(g),
        g.parent_of(c.at as int) is Some,
    ensures
        ({
            let p = g.parent_of(c.at as int).unwrap() as int;
            let k = index_in_parent(g, c.at as int);
            &&& 0 <= k < g.children_of(p).len()
            &&& g.children_of(p)[k] == c.at
            &&& forall|m: int|
                0 <= m < g.children_of(p).len() && g.children_of(p)[m] == c.at ==> m == k
        }),
{
    let p = g.parent_of(c.at as int).unwrap() as int;
    if c.at as int == 0 {
        assert(g.parent_of(0) is None);
    }
    assert(g.children_of(p).contains(c.at));
    let k0 = choose|k: int| 0 <= k < g.children_of(p).len() && g.children_of(p)[k] == c.at;
    assert(g.children_of(p)[k0] as int == c.at as int);
    let k = index_in_parent(g, c.at as int);
    assert(g.children_of(p)[k] as int == c.at as int);
    assert forall|m: int|
        0 <= m < g.children_of(p).len() && g.children_of(p)[m] == c.at implies m == k by {
        if m < k {
            assert(g.children_of(p)[m] < g.children_of(p)[k]);
        } else if m > k {
            assert(g.children_of(p)[k] < g.children_of(p)[m]);
        }
    }
}

/// Law (navigation symmetry): for a non-root cursor `c`, moving to the parent
/// and back down to the child at `c`'s own position yields `c` again. Together
/// with the contracts of [`Explorer::parent`] and [`Explorer::child`] this
/// pins down `c.parent().child(index_in_parent(c)) == c`.
pub proof fn lemma_navigation_symmetry<T>(g: GOM<T>, c: Explorer)
    requires
        g.wf(),
        c.valid(g),
        g.parent_of(c.at as int) is Some,
    ensures
        ({
            let p = g.parent_of(c.at as int).unwrap() as int;
            let k = index_in_parent(g, c.at as int);
            &&& 0 <= k < g.children_of(p).len()
            &&& g.children_of(p)[k] == c.at
        }),
{
    lemma_parent_contains_child_once(g, c);
}

/// Replacing payloads while keeping every parent link and child list intact
/// preserves well-formedness of the arena.
proof fn lemma_same_structure_wf<T>(g0: GOM<T>, g1: GOM<T>)
    requires
        g0.wf(),
        g1.len() == g0.len(),
        forall|i: int| 0 <= i < g0.len() ==> #[trigger] g1.parent_of(i) == g0.parent_of(i),
        forall|i: int| 0 <= i < g0.len() ==> #[trigger] g1.children_of(i) == g0.children_of(i),
    ensures
        g1.wf(),
{
    assert forall|i: int, k: int|
        g1.valid(i) && 0 <= k < g1.children_of(i).len() implies {
        let c = #[trigger] g1.children_of(i)[k];
        &&& i < c < g1.len()
        &&& g1.parent_of(c as int) == Some(i as usize)
    } by {
        assert(g0.children_of(i)[k] == g1.children_of(i)[k]);
        let c = g0.children_of(i)[k];
        assert(i < c < g0.len());
        assert(g1.parent_of(c as int) == g0.parent_of(c as int));
    }
    assert forall|i: int, k1: int, k2: int|
        g1.valid(i) && 0 <= k1 < k2 < g1.children_of(i).len() implies g1.children_of(i)[k1]
        < g1.children_of(i)[k2] by {
        assert(g0.children_of(i)[k1] < g0.children_of(i)[k2]);
    }
    assert forall|j: int|
        0 < j < g1.len() implies g1.children_of(
        (#[trigger] g1.parent_of(j)).unwrap() as int,
    ).contains(j as usize) by {
        let q = g0.parent_of(j).unwrap() as int;
        assert(g0.children_of(q).contains(j as usize));
        assert(g1.children_of(q) == g0.children_of(q));
    }
}

/// Appending a fresh leaf and registering it in its parent's child list
/// preserves well-formedness of the arena.
proof fn lemma_add_child_wf<T>(g0: GOM<T>, g1: GOM<T>, p: int, c: int)
    requires
        g0.wf(),
        0 <= p < g0.len(),
        c == g0.len(),
        c <= usize::MAX,
        g1.len() == g0.len() + 1,
        g1.parent_of(c) == Some(p as usize),
        g1.children_of(c).len() == 0,
        g1.children_of(p) == g0.children_of(p).push(c as usize),
        g1.parent_of(p) == g0.parent_of(p),
        forall|i: int| 0 <= i < g0.len() && i != p ==> g1.node_seq()[i] == g0.node_seq()[i],
    ensures
        g1.wf(),
{
    assert forall|i: int| 0 < i < g1.len() implies (#[trigger] g1.parent_of(i)) is Some
        && g1.parent_of(i).unwrap() < i by {
        if i == c {
        } else if i == p {
            assert(g0.parent_of(i) is Some && g0.parent_of(i).unwrap() < i);
        } else {
            assert(g1.node_seq()[i] == g0.node_seq()[i]);
        }
    }
    assert forall|i: int, k: int|
        g1.valid(i) && 0 <= k < g1.children_of(i).len() implies {
        let ch = #[trigger] g1.children_of(i)[k];
        &&& i < ch < g1.len()
        &&& g1.parent_of(ch as int) == Some(i as usize)
    } by {
        if i == c {
        } else if i == p {
            if k < g0.children_of(p).len() {
                let ch = g0.children_of(p)[k];
                assert(g1.children_of(i)[k] == ch);
                assert(p < ch < g0.len());
                if ch as int != p {
                    assert(g1.node_seq()[ch as int] == g0.node_seq()[ch as int]);
                    assert(g1.parent_of(ch as int) == g0.parent_of(ch as int));
                }
            } else {
                assert(g1.children_of(i)[k] == c as usize);
            }
        } else {
            assert(g1.node_seq()[i] == g0.node_seq()[i]);
            assert(g1.children_of(i) == g0.children_of(i));
            let ch = g0.children_of(i)[k];
            assert(g1.children_of(i)[k] == ch);
            assert(i < ch < g0.len());
            if ch as int != p {
                assert(g1.node_seq()[ch as int] == g0.node_seq()[ch as int]);
                assert(g1.parent_of(ch as int) == g0.parent_of(ch as int));
            }
        }
    }
    assert forall|i: int, k1: int, k2: int|
        g1.valid(i) && 0 <= k1 < k2 < g1.children_of(i).len() implies g1.children_of(i)[k1]
        < g1.children_of(i)[k2] by {
        if i == c {
        } else if i == p {
            if k2 < g0.children_of(p).len() {
                assert(g0.children_of(p)[k1] < g0.children_of(p)[k2]);
            } else {
                assert(g1.children_of(i)[k2] == c as usize);
                assert(g0.children_of(p)[k1] < g0.len());
            }
        } else {
            assert(g1.node_seq()[i] == g0.node_seq()[i]);
            assert(g0.children_of(i)[k1] < g0.children_of(i)[k2]);
        }
    }
    assert forall|j: int|
        0 < j < g1.len() implies g1.children_of(
        (#[trigger] g1.parent_of(j)).unwrap() as int,
    ).contains(j as usize) by {
        if j == c {
            assert(g1.children_of(p)[g0.children_of(p).len() as int] == c as usize);
        } else {
            if j != p {
                assert(g1.node_seq()[j] == g0.node_seq()[j]);
            }
            assert(g1.parent_of(j) == g0.parent_of(j));
            let q = g0.parent_of(j).unwrap() as int;
            assert(g0.children_of(q).contains(j as usize));
            let k = choose|k: int|
                0 <= k < g0.children_of(q).len() && g0.children_of(q)[k] == j as usize;
            if q == p {
                assert(g1.children_of(p)[k] == j as usize);
            } else {
                assert(g1.node_seq()[q] == g0.node_seq()[q]);
                assert(g1.children_of(q)[k] == j as usize);
            }
            assert(g1.children_of(q).contains(j as usize));
        }
    }
}

} // verus!
