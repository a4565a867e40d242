// Rotations: lifting a vertex into the place of its parent.
use vstd::prelude::*;
use crate::rbtree_mod::access::opt_is;
use crate::rbtree_mod::{Info, Node, RedBlackTree, Shape};

verus! {

/// The child link of `n` on the given side.
pub open spec fn kid(n: Node, right: bool) -> Option<usize> {
    if right {
        n.right
    } else {
        n.left
    }
}

/// `n` with the child link on the given side replaced by `c`.
pub(crate) open spec fn with_kid(n: Node, right: bool, c: Option<usize>) -> Node {
    if right {
        Node { right: c, ..n }
    } else {
        Node { left: c, ..n }
    }
}

/// The set `part` together with the vertex behind `o`, if any.
pub(crate) open spec fn and_opt(part: Set<usize>, o: Option<usize>) -> Set<usize> {
    match o {
        None => part,
        Some(i) => part.insert(i),
    }
}

/// The link `c`, led to `x` where it led to `p`.
pub(crate) open spec fn relink(c: Option<usize>, p: usize, x: usize) -> Option<usize> {
    if c == Some(p) {
        Some(x)
    } else {
        c
    }
}

impl RedBlackTree {
    /// The vertex in slot `i` once `x` has been lifted into the place of its
    /// parent.
    ///
    /// With `p` the parent and `s` the side on which `x` hangs: the subtree of
    /// `x` on the other side becomes the subtree of `p` on side `s`, `p`
    /// becomes the child of `x` on the other side, and the former parent of
    /// `p` points at `x`.
    pub(crate) open spec fn lifted_node(&self, x: usize, i: usize) -> Node {
        let p = self.nd(x).parent.unwrap();
        let s = self.nd(p).right == Some(x);
        let inner = kid(self.nd(x), !s);
        let g = self.nd(p).parent;
        if i == x {
            with_kid(Node { parent: g, ..self.nd(x) }, !s, Some(p))
        } else if i == p {
            with_kid(Node { parent: Some(x), ..self.nd(p) }, s, inner)
        } else if inner == Some(i) {
            Node { parent: Some(p), ..self.nd(i) }
        } else if g == Some(i) {
            with_kid(self.nd(i), self.nd(i).left != Some(p), Some(x))
        } else {
            self.nd(i)
        }
    }

    /// The ghost record of slot `i` once `x` has been lifted: `x` covers the
    /// range its parent covered, the parent what is left of it on its side.
    pub(crate) open spec fn lifted_info(&self, x: usize, i: usize) -> Info {
        let p = self.nd(x).parent.unwrap();
        let s = self.nd(p).right == Some(x);
        if i == x {
            Info { first: self.info(p).first, last: self.info(p).last, ..self.info(x) }
        } else if i == p {
            if s {
                Info { last: self.info(x).pos, ..self.info(p) }
            } else {
                Info { first: self.info(x).pos + 1, ..self.info(p) }
            }
        } else {
            self.info(i)
        }
    }

    /// `new` is this tree with `x` lifted into the place of its parent.
    pub(crate) open spec fn lifted(&self, new: &RedBlackTree, x: usize) -> bool {
        let p = self.nd(x).parent.unwrap();
        &&& new.nodes@.len() == self.nodes@.len()
        &&& new.shape@.info.len() == self.shape@.info.len()
        &&& forall|i: usize| i < self.nodes@.len() ==> #[trigger] new.nd(i) == self.lifted_node(x, i)
        &&& forall|i: usize|
            i < self.shape@.info.len() ==> #[trigger] new.info(i) == self.lifted_info(x, i)
        &&& new.shape@.order == self.shape@.order
        &&& new.free == self.free
        &&& new.len == self.len
        &&& new.root == if self.root == Some(p) {
            Some(x)
        } else {
            self.root
        }
    }

    /// What `lifted` says of slot `i`.
    pub(crate) proof fn lemma_lifted_at(&self, new: &RedBlackTree, x: usize, i: usize)
        requires
            self.lifted(new, x),
            i < self.nodes@.len(),
            self.shape@.info.len() == self.nodes@.len(),
        ensures
            new.nd(i) == self.lifted_node(x, i),
            new.info(i) == self.lifted_info(x, i),
    {
    }

    /// The vertex in slot `i` once `x`, which hangs on the inner side of its
    /// parent `p`, has been lifted over `p` and then over the grandparent `g`:
    /// `x` stands where `g` stood, with `p` and `g` as its children, and the
    /// two subtrees of `x` have gone to `p` and `g`.
    pub(crate) open spec fn bent_node(&self, x: usize, i: usize) -> Node {
        let p = self.nd(x).parent.unwrap();
        let g = self.nd(p).parent.unwrap();
        let gg = self.nd(g).parent;
        let sp = self.nd(g).right == Some(p);
        if i == x {
            with_kid(with_kid(Node { parent: gg, ..self.nd(x) }, sp, Some(p)), !sp, Some(g))
        } else if i == p {
            with_kid(Node { parent: Some(x), ..self.nd(p) }, !sp, kid(self.nd(x), sp))
        } else if i == g {
            with_kid(Node { parent: Some(x), ..self.nd(g) }, sp, kid(self.nd(x), !sp))
        } else if kid(self.nd(x), sp) == Some(i) {
            Node { parent: Some(p), ..self.nd(i) }
        } else if kid(self.nd(x), !sp) == Some(i) {
            Node { parent: Some(g), ..self.nd(i) }
        } else if gg == Some(i) {
            with_kid(self.nd(i), self.nd(i).left != Some(g), Some(x))
        } else {
            self.nd(i)
        }
    }

    /// The ghost record of slot `i` after the same two steps.
    pub(crate) open spec fn bent_info(&self, x: usize, i: usize) -> Info {
        let p = self.nd(x).parent.unwrap();
        let g = self.nd(p).parent.unwrap();
        let sp = self.nd(g).right == Some(p);
        if i == x {
            Info { first: self.info(g).first, last: self.info(g).last, ..self.info(x) }
        } else if i == p {
            if sp {
                Info { first: self.info(x).pos + 1, ..self.info(p) }
            } else {
                Info { last: self.info(x).pos, ..self.info(p) }
            }
        } else if i == g {
            if sp {
                Info { last: self.info(x).pos, ..self.info(g) }
            } else {
                Info { first: self.info(x).pos + 1, ..self.info(g) }
            }
        } else {
            self.info(i)
        }
    }

    /// `new` is this tree with `x` lifted over its parent and grandparent.
    pub(crate) open spec fn bent(&self, new: &RedBlackTree, x: usize) -> bool {
        let p = self.nd(x).parent.unwrap();
        let g = self.nd(p).parent.unwrap();
        &&& new.nodes@.len() == self.nodes@.len()
        &&& new.shape@.info.len() == self.shape@.info.len()
        &&& forall|i: usize| i < self.nodes@.len() ==> #[trigger] new.nd(i) == self.bent_node(x, i)
        &&& forall|i: usize|
            i < self.shape@.info.len() ==> #[trigger] new.info(i) == self.bent_info(x, i)
        &&& new.shape@.order == self.shape@.order
        &&& new.free == self.free
        &&& new.len == self.len
        &&& new.root == if self.root == Some(g) {
            Some(x)
        } else {
            self.root
        }
    }

    /// Two lifts of a vertex on the inner side of its parent add up to `bent`.
    pub(crate) proof fn lemma_bent(&self, mid: &RedBlackTree, new: &RedBlackTree, x: usize)
        requires
            self.linked(),
            self.alive(x),
            self.nd(x).parent.is_some(),
            self.nd(self.nd(x).parent.unwrap()).parent.is_some(),
            self.is_right(x) != self.is_right(self.nd(x).parent.unwrap()),
            self.lifted(mid, x),
            mid.lifted(new, x),
        ensures
            self.bent(new, x),
    {
        let p = self.nd(x).parent.unwrap();
        let g = self.nd(p).parent.unwrap();
        let gg = self.nd(g).parent;
        assert(self.node_linked(x));
        assert(self.node_linked(p));
        assert(self.node_linked(g));
        if gg.is_some() {
            assert(self.node_linked(gg.unwrap()));
        }
        if self.nd(x).left.is_some() {
            assert(self.node_linked(self.nd(x).left.unwrap()));
        }
        if self.nd(x).right.is_some() {
            assert(self.node_linked(self.nd(x).right.unwrap()));
        }
        self.lemma_lifted_at(mid, x, x);
        self.lemma_lifted_at(mid, x, p);
        self.lemma_lifted_at(mid, x, g);
        assert forall|i: usize| i < self.nodes@.len() implies #[trigger] new.nd(i)
            == self.bent_node(x, i) && new.info(i) == self.bent_info(x, i) by {
            self.lemma_lifted_at(mid, x, i);
            mid.lemma_lifted_at(new, x, i);
        }
        assert forall|i: usize| i < self.shape@.info.len() implies #[trigger] new.info(i)
            == self.bent_info(x, i) by {
            assert(new.nd(i) == self.bent_node(x, i));
        }
    }

    /// Lifting `x` over its parent keeps the arena a tree with the same
    /// in-order walk.
    pub(crate) proof fn lemma_lifted_linked(&self, new: &RedBlackTree, x: usize)
        requires
            self.linked(),
            self.alive(x),
            self.nd(x).parent.is_some(),
            self.lifted(new, x),
        ensures
            new.linked(),
            new.keys() == self.keys(),
    {
        let p = self.nd(x).parent.unwrap();
        let s = self.nd(p).right == Some(x);
        let inner = kid(self.nd(x), !s);
        let g = self.nd(p).parent;
        assert(self.node_linked(x));
        assert(self.node_linked(p));
        if inner.is_some() {
            assert(self.node_linked(inner.unwrap()));
        }
        if g.is_some() {
            assert(self.node_linked(g.unwrap()));
        }
        assert forall|i: usize| new.alive(i) implies #[trigger] new.node_linked(i) by {
            assert(new.info(i) == self.lifted_info(x, i));
            assert(new.nd(i) == self.lifted_node(x, i));
            assert(self.alive(i));
            assert(self.node_linked(i));
            let m = new.nd(i);
            if m.left.is_some() {
                let c = m.left.unwrap();
                assert(new.nd(c) == self.lifted_node(x, c));
                assert(new.info(c) == self.lifted_info(x, c));
            }
            if m.right.is_some() {
                let c = m.right.unwrap();
                assert(new.nd(c) == self.lifted_node(x, c));
                assert(new.info(c) == self.lifted_info(x, c));
            }
            if m.parent.is_some() {
                let q = m.parent.unwrap();
                assert(new.nd(q) == self.lifted_node(x, q));
                assert(new.info(q) == self.lifted_info(x, q));
            }
        }
        assert forall|t: int| 0 <= t < new.shape@.order.len() implies new.alive(
            #[trigger] new.shape@.order[t],
        ) && new.shape@.info[new.shape@.order[t] as int].pos == t by {
            let i = self.shape@.order[t];
            assert(self.alive(i));
            assert(new.info(i) == self.lifted_info(x, i));
        }
        assert forall|k: int| 0 <= k < new.free@.len() implies (#[trigger] new.free@[k])
            < new.nodes@.len() && !new.shape@.info[new.free@[k] as int].live by {
            let i = self.free@[k];
            assert(new.info(i) == self.lifted_info(x, i));
        }
        assert(new.keys() =~= self.keys()) by {
            assert forall|t: int| 0 <= t < self.shape@.order.len() implies new.nodes@[self.shape@.order[t] as int].value
                == self.nodes@[self.shape@.order[t] as int].value by {
                let i = self.shape@.order[t];
                assert(self.alive(i));
                assert(new.nd(i) == self.lifted_node(x, i));
            }
        }
        match new.root {
            None => {},
            Some(r) => {
                assert(new.nd(r) == self.lifted_node(x, r));
                assert(new.info(r) == self.lifted_info(x, r));
            },
        }
    }

    /// Lifts `x` into the place of its parent where `x` is a right child;
    /// does nothing otherwise.
    pub(crate) fn left_rotate(&mut self, x: usize)
        requires
            old(self).linked(),
            old(self).alive(x),
        ensures
            old(self).is_right(x) ==> old(self).lifted(final(self), x),
            !old(self).is_right(x) ==> *final(self) == *old(self),
            final(self).linked(),
            final(self).keys() == old(self).keys(),
    {
        proof {
            assert(self.node_linked(x));
        }
        if let Some(p) = self.get_parent(x) {
            let x_node: Node = self.nodes[x];
            let p_node: Node = self.nodes[p];
            if opt_is(p_node.right, x) {
                proof {
                    assert(self.node_linked(p));
                    if x_node.left.is_some() {
                        assert(self.node_linked(x_node.left.unwrap()));
                    }
                    if p_node.parent.is_some() {
                        assert(self.node_linked(p_node.parent.unwrap()));
                    }
                }
                if let Some(g) = self.get_parent(p) {
                    if opt_is(self.nodes[g].left, p) {
                        self.nodes[g].left = Some(x);
                    } else {
                        self.nodes[g].right = Some(x);
                    }
                }
                if let Some(x_left) = x_node.left {
                    self.nodes[x_left].parent = Some(p);
                }
                self.nodes[p].right = x_node.left;
                self.nodes[p].parent = Some(x);
                self.nodes[x].left = Some(p);
                self.nodes[x].parent = p_node.parent;
                if opt_is(self.root, p) {
                    self.root = Some(x);
                }
                proof {
                    let ghost was = *old(self);
                    self.shape = Ghost(
                        Shape {
                            order: was.shape@.order,
                            info: Seq::new(
                                was.shape@.info.len(),
                                |i: int| was.lifted_info(x, i as usize),
                            ),
                        },
                    );
                    assert(was.lifted(self, x));
                    was.lemma_lifted_linked(self, x);
                }
            }
        }
    }

    /// Lifts `x` into the place of its parent where `x` is a left child;
    /// does nothing otherwise.
    pub(crate) fn right_rotate(&mut self, x: usize)
        requires
            old(self).linked(),
            old(self).alive(x),
        ensures
            old(self).is_left(x) ==> old(self).lifted(final(self), x),
            !old(self).is_left(x) ==> *final(self) == *old(self),
            final(self).linked(),
            final(self).keys() == old(self).keys(),
    {
        proof {
            assert(self.node_linked(x));
        }
        if let Some(p) = self.get_parent(x) {
            let x_node: Node = self.nodes[x];
            let p_node: Node = self.nodes[p];
            if opt_is(p_node.left, x) {
                proof {
                    assert(self.node_linked(p));
                    if x_node.right.is_some() {
                        assert(self.node_linked(x_node.right.unwrap()));
                    }
                    if p_node.parent.is_some() {
                        assert(self.node_linked(p_node.parent.unwrap()));
                    }
                }
                if let Some(g) = self.get_parent(p) {
                    if opt_is(self.nodes[g].left, p) {
                        self.nodes[g].left = Some(x);
                    } else {
                        self.nodes[g].right = Some(x);
                    }
                }
                if let Some(x_right) = x_node.right {
                    self.nodes[x_right].parent = Some(p);
                }
                self.nodes[p].left = x_node.right;
                self.nodes[p].parent = Some(x);
                self.nodes[x].right = Some(p);
                self.nodes[x].parent = p_node.parent;
                if opt_is(self.root, p) {
                    self.root = Some(x);
                }
                proof {
                    let ghost was = *old(self);
                    self.shape = Ghost(
                        Shape {
                            order: was.shape@.order,
                            info: Seq::new(
                                was.shape@.info.len(),
                                |i: int| was.lifted_info(x, i as usize),
                            ),
                        },
                    );
                    assert(was.lifted(self, x));
                    was.lemma_lifted_linked(self, x);
                }
            }
        }
    }

    /// Lifts `x` into the place of its parent, on whichever side it hangs.
    pub(crate) fn lift(&mut self, x: usize)
        requires
            old(self).linked(),
            old(self).alive(x),
            old(self).nd(x).parent.is_some(),
        ensures
            old(self).lifted(final(self), x),
            old(self).lift_view(final(self), x),
            old(self).reshaped(final(self), old(self).lift_part(x)),
            final(self).linked(),
            final(self).keys() == old(self).keys(),
    {
        proof {
            assert(self.node_linked(x));
        }
        if self.is_left_node(x) {
            self.right_rotate(x);
        } else {
            self.left_rotate(x);
        }
        proof {
            old(self).lemma_lift_view(self, x);
            old(self).lemma_lifted_reshaped(self, x, old(self).lift_part(x));
        }
    }

    /// Lifts `x`, which hangs on the inner side of its parent, over its
    /// parent and then over its grandparent.
    pub(crate) fn bend(&mut self, x: usize)
        requires
            old(self).linked(),
            old(self).alive(x),
            old(self).nd(x).parent.is_some(),
            old(self).nd(old(self).nd(x).parent.unwrap()).parent.is_some(),
            old(self).is_right(x) != old(self).is_right(old(self).nd(x).parent.unwrap()),
        ensures
            old(self).bent(final(self), x),
            old(self).bent_view(final(self), x),
            old(self).reshaped(final(self), old(self).bent_part(x)),
            final(self).linked(),
            final(self).keys() == old(self).keys(),
    {
        self.lift(x);
        let ghost mid = *self;
        proof {
            old(self).lemma_lifted_at(self, x, x);
            assert(old(self).node_linked(x));
            assert(old(self).node_linked(old(self).nd(x).parent.unwrap()));
        }
        self.lift(x);
        proof {
            old(self).lemma_bent(&mid, self, x);
            old(self).lemma_bent_view(self, x);
            old(self).lemma_bent_reshaped(self, x, old(self).bent_part(x));
        }
    }

    /// The vertices whose child links a lift of `x` changes: `x`, its
    /// parent and its grandparent.
    pub(crate) open spec fn lift_part(&self, x: usize) -> Set<usize> {
        let p = self.nd(x).parent.unwrap();
        and_opt(set![x, p], self.nd(p).parent)
    }

    /// The vertices whose child links two lifts of `x` change: `x` and the
    /// three vertices above it.
    pub(crate) open spec fn bent_part(&self, x: usize) -> Set<usize> {
        let p = self.nd(x).parent.unwrap();
        let g = self.nd(p).parent.unwrap();
        and_opt(set![x, p, g], self.nd(g).parent)
    }

    /// The child links around `x` once it has been lifted over its parent.
    pub(crate) open spec fn lift_view(&self, new: &RedBlackTree, x: usize) -> bool {
        let p = self.nd(x).parent.unwrap();
        let s = self.nd(p).right == Some(x);
        let g = self.nd(p).parent;
        &&& kid(new.nd(x), s) == kid(self.nd(x), s)
        &&& kid(new.nd(x), !s) == Some(p)
        &&& kid(new.nd(p), s) == kid(self.nd(x), !s)
        &&& kid(new.nd(p), !s) == kid(self.nd(p), !s)
        &&& g.is_some() ==> new.nd(g.unwrap()).left == relink(self.nd(g.unwrap()).left, p, x)
            && new.nd(g.unwrap()).right == relink(self.nd(g.unwrap()).right, p, x)
        &&& new.root == relink(self.root, p, x)
    }

    /// The child links around `x` once it has been lifted over its parent
    /// and its grandparent.
    pub(crate) open spec fn bent_view(&self, new: &RedBlackTree, x: usize) -> bool {
        let p = self.nd(x).parent.unwrap();
        let g = self.nd(p).parent.unwrap();
        let sp = self.nd(g).right == Some(p);
        let gg = self.nd(g).parent;
        &&& kid(new.nd(x), sp) == Some(p)
        &&& kid(new.nd(x), !sp) == Some(g)
        &&& kid(new.nd(p), sp) == kid(self.nd(p), sp)
        &&& kid(new.nd(p), !sp) == kid(self.nd(x), sp)
        &&& kid(new.nd(g), sp) == kid(self.nd(x), !sp)
        &&& kid(new.nd(g), !sp) == kid(self.nd(g), !sp)
        &&& gg.is_some() ==> new.nd(gg.unwrap()).left == relink(self.nd(gg.unwrap()).left, g, x)
            && new.nd(gg.unwrap()).right == relink(self.nd(gg.unwrap()).right, g, x)
        &&& new.root == relink(self.root, g, x)
    }

    /// The child links around `r` once the grandparent `b` of `r` has been
    /// lifted over its parent `p`, and `r` then over its own parent and
    /// over `p`.
    pub(crate) open spec fn swung_view(&self, new: &RedBlackTree, r: usize) -> bool {
        let c = self.nd(r).parent.unwrap();
        let b = self.nd(c).parent.unwrap();
        let p = self.nd(b).parent.unwrap();
        let sb = self.nd(p).right == Some(b);
        let gg = self.nd(p).parent;
        &&& kid(new.nd(b), sb) == kid(self.nd(b), sb)
        &&& kid(new.nd(b), !sb) == Some(r)
        &&& kid(new.nd(r), sb) == Some(c)
        &&& kid(new.nd(r), !sb) == Some(p)
        &&& kid(new.nd(c), sb) == kid(self.nd(c), sb)
        &&& kid(new.nd(c), !sb) == kid(self.nd(r), sb)
        &&& kid(new.nd(p), sb) == kid(self.nd(r), !sb)
        &&& kid(new.nd(p), !sb) == kid(self.nd(p), !sb)
        &&& gg.is_some() ==> new.nd(gg.unwrap()).left == relink(self.nd(gg.unwrap()).left, p, b)
            && new.nd(gg.unwrap()).right == relink(self.nd(gg.unwrap()).right, p, b)
        &&& new.root == relink(self.root, p, b)
    }

    /// The vertices whose child links those three lifts change.
    pub(crate) open spec fn swung_part(&self, r: usize) -> Set<usize> {
        let c = self.nd(r).parent.unwrap();
        let b = self.nd(c).parent.unwrap();
        let p = self.nd(b).parent.unwrap();
        and_opt(set![r, c, b, p], self.nd(p).parent)
    }

    /// Lifts `b` over its parent, and then the inner grandchild `r` of `b`,
    /// which stands in a line with its parent and `b`, over its own parent
    /// and over the former parent of `b`.
    pub(crate) fn swing(&mut self, b: usize, r: usize)
        requires
            old(self).linked(),
            old(self).alive(b),
            old(self).alive(r),
            old(self).nd(b).parent.is_some(),
            old(self).nd(r).parent.is_some(),
            old(self).nd(old(self).nd(r).parent.unwrap()).parent == Some(b),
            old(self).is_right(r) != old(self).is_right(b),
            old(self).is_right(old(self).nd(r).parent.unwrap()) != old(self).is_right(b),
        ensures
            old(self).swung_view(final(self), r),
            old(self).reshaped(final(self), old(self).swung_part(r)),
            final(self).linked(),
            final(self).keys() == old(self).keys(),
    {
        let ghost c = self.nd(r).parent.unwrap();
        let ghost p = self.nd(b).parent.unwrap();
        proof {
            assert(self.node_linked(r));
            assert(self.node_linked(c));
            assert(self.node_linked(b));
            assert(self.node_linked(p));
            if self.nd(p).parent.is_some() {
                assert(self.node_linked(self.nd(p).parent.unwrap()));
            }
        }
        self.lift(b);
        let ghost mid = *self;
        proof {
            old(self).lemma_lifted_at(self, b, r);
            old(self).lemma_lifted_at(self, b, c);
            old(self).lemma_lifted_at(self, b, b);
            old(self).lemma_lifted_at(self, b, p);
        }
        self.bend(r);
        proof {
            old(self).lemma_reshaped_twice(
                &mid,
                self,
                old(self).lift_part(b),
                mid.bent_part(r),
                old(self).swung_part(r),
            );
        }
    }

    /// Lifts `b` over its parent and then its inner child `c` over `b` and
    /// over that parent, which leaves `c` where the parent stood, between
    /// `b` and the parent.
    pub(crate) fn lift_bend(&mut self, b: usize, c: usize)
        requires
            old(self).linked(),
            old(self).alive(b),
            old(self).alive(c),
            old(self).nd(b).parent.is_some(),
            old(self).nd(c).parent == Some(b),
            old(self).is_right(c) != old(self).is_right(b),
        ensures
            old(self).bent_view(final(self), c),
            old(self).reshaped(final(self), old(self).bent_part(c)),
            final(self).linked(),
            final(self).keys() == old(self).keys(),
    {
        let ghost p = self.nd(b).parent.unwrap();
        proof {
            assert(self.node_linked(c));
            assert(self.node_linked(b));
            assert(self.node_linked(p));
        }
        self.lift(b);
        let ghost mid = *self;
        proof {
            old(self).lemma_lifted_at(self, b, c);
            old(self).lemma_lifted_at(self, b, b);
            old(self).lemma_lifted_at(self, b, p);
        }
        self.bend(c);
        proof {
            old(self).lemma_lift_bent(&mid, self, b, c);
            old(self).lemma_bent_view(self, c);
            old(self).lemma_bent_reshaped(self, c, old(self).bent_part(c));
        }
    }

    /// `lifted` gives `lift_view`.
    pub(crate) proof fn lemma_lift_view(&self, new: &RedBlackTree, x: usize)
        requires
            self.linked(),
            self.alive(x),
            self.nd(x).parent.is_some(),
            self.lifted(new, x),
        ensures
            self.lift_view(new, x),
    {
        let p = self.nd(x).parent.unwrap();
        let g = self.nd(p).parent;
        assert(self.node_linked(x));
        assert(self.node_linked(p));
        self.lemma_lifted_at(new, x, x);
        self.lemma_lifted_at(new, x, p);
        if g.is_some() {
            assert(self.node_linked(g.unwrap()));
            self.lemma_lifted_at(new, x, g.unwrap());
        }
        let inner = kid(self.nd(x), self.nd(p).right != Some(x));
        if inner.is_some() {
            assert(self.node_linked(inner.unwrap()));
        }
    }

    /// `bent` gives `bent_view`.
    pub(crate) proof fn lemma_bent_view(&self, new: &RedBlackTree, x: usize)
        requires
            self.linked(),
            self.alive(x),
            self.nd(x).parent.is_some(),
            self.nd(self.nd(x).parent.unwrap()).parent.is_some(),
            self.bent(new, x),
        ensures
            self.bent_view(new, x),
    {
        let p = self.nd(x).parent.unwrap();
        let g = self.nd(p).parent.unwrap();
        let gg = self.nd(g).parent;
        assert(self.node_linked(x));
        assert(self.node_linked(p));
        assert(self.node_linked(g));
        assert(new.nd(x) == self.bent_node(x, x));
        assert(new.nd(p) == self.bent_node(x, p));
        assert(new.nd(g) == self.bent_node(x, g));
        if gg.is_some() {
            assert(self.node_linked(gg.unwrap()));
            assert(new.nd(gg.unwrap()) == self.bent_node(x, gg.unwrap()));
        }
        if self.nd(x).left.is_some() {
            assert(self.node_linked(self.nd(x).left.unwrap()));
        }
        if self.nd(x).right.is_some() {
            assert(self.node_linked(self.nd(x).right.unwrap()));
        }
    }

    /// A lift changes child links at the lifted vertex, its parent and its
    /// grandparent only.
    pub(crate) proof fn lemma_lifted_reshaped(&self, new: &RedBlackTree, x: usize, part: Set<usize>)
        requires
            self.linked(),
            self.alive(x),
            self.nd(x).parent.is_some(),
            self.lifted(new, x),
            part.contains(x),
            part.contains(self.nd(x).parent.unwrap()),
            self.nd(self.nd(x).parent.unwrap()).parent.is_some() ==> part.contains(
                self.nd(self.nd(x).parent.unwrap()).parent.unwrap(),
            ),
        ensures
            self.reshaped(new, part),
    {
        reveal(RedBlackTree::reshaped);
        self.lemma_lifted_linked(new, x);
        assert(self.node_linked(x));
        assert forall|i: usize| i < self.nodes@.len() implies (#[trigger] new.info(i)).bh
            == self.info(i).bh && new.info(i).live == self.info(i).live by {
            self.lemma_lifted_at(new, x, i);
        }
    }

    /// Two lifts of an inner vertex change child links at that vertex, its
    /// parent, its grandparent and the vertex above them only.
    pub(crate) proof fn lemma_bent_reshaped(&self, new: &RedBlackTree, x: usize, part: Set<usize>)
        requires
            self.linked(),
            self.alive(x),
            self.nd(x).parent.is_some(),
            self.nd(self.nd(x).parent.unwrap()).parent.is_some(),
            self.bent(new, x),
            new.linked(),
            new.keys() == self.keys(),
            part.contains(x),
            part.contains(self.nd(x).parent.unwrap()),
            part.contains(self.nd(self.nd(x).parent.unwrap()).parent.unwrap()),
            self.nd(self.nd(self.nd(x).parent.unwrap()).parent.unwrap()).parent.is_some()
                ==> part.contains(
                self.nd(self.nd(self.nd(x).parent.unwrap()).parent.unwrap()).parent.unwrap(),
            ),
        ensures
            self.reshaped(new, part),
    {
        reveal(RedBlackTree::reshaped);
        assert(self.node_linked(x));
        assert forall|i: usize| i < self.nodes@.len() implies (#[trigger] new.info(i)).bh
            == self.info(i).bh && new.info(i).live == self.info(i).live by {
            assert(new.info(i) == self.bent_info(x, i));
        }
    }

    /// Lifting `b` and then lifting its inner child `c` twice comes to the
    /// same as lifting `c` twice.
    pub(crate) proof fn lemma_lift_bent(
        &self,
        mid: &RedBlackTree,
        new: &RedBlackTree,
        b: usize,
        c: usize,
    )
        requires
            self.linked(),
            self.alive(b),
            self.alive(c),
            self.nd(b).parent.is_some(),
            self.nd(c).parent == Some(b),
            self.is_right(c) != self.is_right(b),
            self.lifted(mid, b),
            mid.bent(new, c),
        ensures
            self.bent(new, c),
    {
        let p = self.nd(b).parent.unwrap();
        let gg = self.nd(p).parent;
        assert(self.node_linked(b));
        assert(self.node_linked(c));
        assert(self.node_linked(p));
        if gg.is_some() {
            assert(self.node_linked(gg.unwrap()));
        }
        if self.nd(c).left.is_some() {
            assert(self.node_linked(self.nd(c).left.unwrap()));
        }
        if self.nd(c).right.is_some() {
            assert(self.node_linked(self.nd(c).right.unwrap()));
        }
        self.lemma_lifted_at(mid, b, b);
        self.lemma_lifted_at(mid, b, c);
        self.lemma_lifted_at(mid, b, p);
        assert forall|i: usize| i < self.nodes@.len() implies #[trigger] new.nd(i)
            == self.bent_node(c, i) && new.info(i) == self.bent_info(c, i) by {
            self.lemma_lifted_at(mid, b, i);
            assert(new.nd(i) == mid.bent_node(c, i));
            assert(new.info(i) == mid.bent_info(c, i));
        }
        assert forall|i: usize| i < self.shape@.info.len() implies #[trigger] new.info(i)
            == self.bent_info(c, i) by {
            assert(new.nd(i) == self.bent_node(c, i));
        }
    }
}

} // verus!
