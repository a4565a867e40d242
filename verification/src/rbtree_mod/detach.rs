// Taking a leaf off the tree, and moving the key that is to be removed to a
// neighbour in search order.
use vstd::prelude::*;
use crate::rbtree_mod::access::opt_is;
use crate::rbtree_mod::rotate::kid;
use crate::rbtree_mod::{Color, Info, Node, RedBlackTree, Shape};

verus! {

/// The link `c`, cut where it led to `x`.
pub(crate) open spec fn unlink(c: Option<usize>, x: usize) -> Option<usize> {
    if c == Some(x) {
        None
    } else {
        c
    }
}

/// The record of a slot after the vertex of rank `t` has left the tree.
pub(crate) open spec fn unshifted(f: Info, t: int) -> Info {
    Info {
        pos: if f.pos > t {
            f.pos - 1
        } else {
            f.pos
        },
        first: if f.first > t {
            f.first - 1
        } else {
            f.first
        },
        last: if f.last > t {
            f.last - 1
        } else {
            f.last
        },
        ..f
    }
}

impl RedBlackTree {
    /// Vertex `x` has no child.
    pub(crate) open spec fn is_leaf(&self, x: usize) -> bool {
        self.nd(x).left.is_none() && self.nd(x).right.is_none()
    }

    /// The vertex in slot `i` after the leaf `x` has been taken off.
    pub(crate) open spec fn trimmed_node(&self, x: usize, i: usize) -> Node {
        if self.nd(x).parent == Some(i) {
            Node {
                left: unlink(self.nd(i).left, x),
                right: unlink(self.nd(i).right, x),
                ..self.nd(i)
            }
        } else {
            self.nd(i)
        }
    }

    /// The ghost record of slot `i` after the leaf `x` has been taken off.
    pub(crate) open spec fn trimmed_info(&self, x: usize, i: usize) -> Info {
        if i == x {
            Info { live: false, ..self.info(i) }
        } else {
            unshifted(self.info(i), self.info(x).pos)
        }
    }

    /// `new` is this tree without its leaf `x`, whose slot has gone to the
    /// free list.
    pub(crate) open spec fn trimmed(&self, new: &RedBlackTree, x: usize) -> bool {
        &&& new.nodes@.len() == self.nodes@.len()
        &&& new.shape@.info.len() == self.shape@.info.len()
        &&& forall|i: usize| i < self.nodes@.len() ==> #[trigger] new.nd(i) == self.trimmed_node(x, i)
        &&& forall|i: usize|
            i < self.shape@.info.len() ==> #[trigger] new.info(i) == self.trimmed_info(x, i)
        &&& new.shape@.order == self.shape@.order.remove(self.info(x).pos)
        &&& new.free@ == self.free@.push(x)
        &&& new.len == self.len - 1
        &&& new.root == unlink(self.root, x)
    }

    /// Taking a leaf off keeps the arena a tree, and takes the key of the
    /// leaf out of the in-order walk.
    pub(crate) proof fn lemma_trimmed(&self, new: &RedBlackTree, x: usize)
        requires
            self.linked(),
            self.alive(x),
            self.is_leaf(x),
            self.trimmed(new, x),
        ensures
            new.linked(),
            !new.alive(x),
            new.count() == self.count() - 1,
            new.keys() == self.keys().remove(self.info(x).pos),
    {
        let t = self.info(x).pos;
        assert(self.node_linked(x));
        assert(new.info(x) == self.trimmed_info(x, x));
        assert forall|s: int| 0 <= s < new.shape@.order.len() implies new.alive(
            #[trigger] new.shape@.order[s],
        ) && new.shape@.info[new.shape@.order[s] as int].pos == s by {
            let i = new.shape@.order[s];
            if s < t {
                assert(i == self.shape@.order[s]);
            } else {
                assert(i == self.shape@.order[s + 1]);
            }
            assert(self.alive(i));
            assert(new.info(i) == self.trimmed_info(x, i));
        }
        assert forall|k: int| 0 <= k < new.free@.len() implies (#[trigger] new.free@[k])
            < new.nodes@.len() && !new.shape@.info[new.free@[k] as int].live by {
            let i = new.free@[k];
            assert(new.info(i) == self.trimmed_info(x, i));
            if k < self.free@.len() {
                assert(i == self.free@[k]);
            }
        }
        assert forall|a: int, b: int| 0 <= a < b < new.free@.len() implies #[trigger] new.free@[a]
            != #[trigger] new.free@[b] by {
            assert(new.free@[a] == self.free@[a]);
            if b < self.free@.len() {
                assert(new.free@[b] == self.free@[b]);
            }
        }
        assert(new.slots_ok());
        assert forall|i: usize| new.alive(i) implies #[trigger] new.node_linked(i) by {
            assert(new.info(i) == self.trimmed_info(x, i));
            assert(new.nd(i) == self.trimmed_node(x, i));
            assert(self.alive(i));
            assert(self.node_linked(i));
            assert(self.info(i).pos != t);
            let m = new.nd(i);
            let f = new.info(i);
            if m.left.is_some() {
                let l = m.left.unwrap();
                assert(new.info(l) == self.trimmed_info(x, l));
                assert(new.nd(l) == self.trimmed_node(x, l));
            }
            if m.right.is_some() {
                let r = m.right.unwrap();
                assert(new.info(r) == self.trimmed_info(x, r));
                assert(new.nd(r) == self.trimmed_node(x, r));
            }
            if m.parent.is_some() {
                let q = m.parent.unwrap();
                assert(new.info(q) == self.trimmed_info(x, q));
                assert(new.nd(q) == self.trimmed_node(x, q));
            }
            assert(new.shape@.order[f.pos] == i);
            assert(new.kid_linked(i, m.left, f.first, f.pos));
            assert(new.kid_linked(i, m.right, f.pos + 1, f.last));
        }
        match new.root {
            None => {
                if self.root.is_some() && self.root != Some(x) {
                    assert(false);
                }
            },
            Some(r) => {
                assert(new.info(r) == self.trimmed_info(x, r));
                assert(new.nd(r) == self.trimmed_node(x, r));
            },
        }
        assert(new.keys() =~= self.keys().remove(t)) by {
            assert forall|s: int| 0 <= s < new.keys().len() implies new.keys()[s]
                == self.keys().remove(t)[s] by {
                let i = new.shape@.order[s];
                if s < t {
                    assert(i == self.shape@.order[s]);
                } else {
                    assert(i == self.shape@.order[s + 1]);
                }
                assert(self.alive(i));
                assert(new.nd(i) == self.trimmed_node(x, i));
            }
        }
    }

    /// Takes the leaf `x` out of the tree and frees its slot.
    pub(crate) fn drop_node(&mut self, x: usize)
        requires
            old(self).linked(),
            old(self).alive(x),
            old(self).is_leaf(x),
        ensures
            old(self).trimmed(final(self), x),
            final(self).linked(),
            !final(self).alive(x),
            final(self).count() == old(self).count() - 1,
            final(self).keys() == old(self).keys().remove(old(self).info(x).pos),
    {
        proof {
            assert(self.node_linked(x));
        }
        if let Some(p) = self.get_parent(x) {
            proof {
                assert(self.node_linked(p));
            }
            if opt_is(self.nodes[p].left, x) {
                self.nodes[p].left = None;
            } else {
                self.nodes[p].right = None;
            }
        }
        if opt_is(self.root, x) {
            self.root = None;
        }
        self.free.push(x);
        self.len -= 1;
        proof {
            let ghost was = *old(self);
            self.shape = Ghost(
                Shape {
                    order: was.shape@.order.remove(was.info(x).pos),
                    info: Seq::new(
                        was.shape@.info.len(),
                        |i: int| was.trimmed_info(x, i as usize),
                    ),
                },
            );
            assert forall|i: usize| i < was.nodes@.len() implies #[trigger] self.nd(i)
                == was.trimmed_node(x, i) by {
                if was.alive(i) {
                    assert(was.node_linked(i));
                }
            }
            was.lemma_trimmed(self, x);
        }
    }

    /// `new` is this tree with other keys in its vertices: the same slots
    /// with the same links and colours, and the same ghost records.
    pub(crate) open spec fn same_build(&self, new: &RedBlackTree) -> bool {
        &&& new.nodes@.len() == self.nodes@.len()
        &&& new.shape@ == self.shape@
        &&& new.free == self.free
        &&& new.len == self.len
        &&& new.root == self.root
        &&& forall|i: usize|
            i < self.nodes@.len() ==> #[trigger] new.nd(i) == (Node {
                value: new.nd(i).value,
                ..self.nd(i)
            })
    }

    /// Keys play no part in the links or the colours.
    pub(crate) proof fn lemma_same_build(&self, new: &RedBlackTree)
        requires
            self.linked(),
            self.same_build(new),
        ensures
            new.linked(),
            self.balanced() ==> new.balanced(),
            forall|x: usize| self.alive(x) ==> #[trigger] new.del_rank(x) == self.del_rank(x),
    {
        assert forall|i: usize| new.alive(i) implies #[trigger] new.node_linked(i) by {
            assert(new.nd(i) == (Node { value: new.nd(i).value, ..self.nd(i) }));
            assert(self.node_linked(i));
            let m = self.nd(i);
            if m.left.is_some() {
                let c = m.left.unwrap();
                assert(new.nd(c) == (Node { value: new.nd(c).value, ..self.nd(c) }));
            }
            if m.right.is_some() {
                let c = m.right.unwrap();
                assert(new.nd(c) == (Node { value: new.nd(c).value, ..self.nd(c) }));
            }
            if m.parent.is_some() {
                let c = m.parent.unwrap();
                assert(new.nd(c) == (Node { value: new.nd(c).value, ..self.nd(c) }));
            }
        }
        match new.root {
            None => {},
            Some(r) => {
                assert(new.nd(r) == (Node { value: new.nd(r).value, ..self.nd(r) }));
            },
        }
        if self.balanced() {
            assert forall|i: usize| new.alive(i) implies #[trigger] new.node_heights(i) by {
                assert(new.nd(i) == (Node { value: new.nd(i).value, ..self.nd(i) }));
                assert(self.node_heights(i));
            }
            assert forall|i: usize| new.alive(i) implies #[trigger] new.node_reds(i) by {
                assert(new.nd(i) == (Node { value: new.nd(i).value, ..self.nd(i) }));
                assert(self.node_reds(i));
                assert(self.node_linked(i));
                let m = self.nd(i);
                if m.left.is_some() {
                    let c = m.left.unwrap();
                    assert(new.nd(c) == (Node { value: new.nd(c).value, ..self.nd(c) }));
                }
                if m.right.is_some() {
                    let c = m.right.unwrap();
                    assert(new.nd(c) == (Node { value: new.nd(c).value, ..self.nd(c) }));
                }
            }
        }
        assert forall|x: usize| self.alive(x) implies #[trigger] new.del_rank(x) == self.del_rank(
            x,
        ) by {
            assert(new.nd(x) == (Node { value: new.nd(x).value, ..self.nd(x) }));
            assert(self.node_linked(x));
            if self.nd(x).parent.is_some() {
                let q = self.nd(x).parent.unwrap();
                assert(new.nd(q) == (Node { value: new.nd(q).value, ..self.nd(q) }));
                assert(self.node_linked(q));
                if self.brother(x).is_some() {
                    let b = self.brother(x).unwrap();
                    assert(new.nd(b) == (Node { value: new.nd(b).value, ..self.nd(b) }));
                }
            }
        }
    }

    /// How many more moves the key to be removed can make from `x` before
    /// its vertex is taken off: none from a red vertex or a lone root, two
    /// from a black leaf under a black parent with a red sibling, else one.
    pub(crate) open spec fn del_rank(&self, x: usize) -> nat {
        if self.nd(x).color == Color::Red {
            0
        } else if !self.is_leaf(x) {
            1
        } else {
            match self.nd(x).parent {
                None => 0,
                Some(p) => if self.nd(p).color == Color::Black && self.brother(x).is_some()
                    && self.nd(self.brother(x).unwrap()).color == Color::Red {
                    2
                } else {
                    1
                },
            }
        }
    }

    /// The tree is a red-black tree, only that its keys are those of `rest`
    /// together with one more, which is to be removed and stands in `x`,
    /// perhaps out of order; `x` has at most one child.
    pub(crate) open spec fn doomed(&self, x: usize, rest: Seq<i32>) -> bool {
        &&& self.linked()
        &&& self.balanced()
        &&& self.alive(x)
        &&& self.nd(x).left.is_none() || self.nd(x).right.is_none()
        &&& self.keys().remove(self.info(x).pos) == rest
    }

    /// Moves the key in `a`, which is to be removed, to the vertex `b` next
    /// to it in search order, and the key of `b` to `a`.
    pub(crate) fn slide(&mut self, a: usize, b: usize)
        requires
            old(self).linked(),
            old(self).alive(a),
            old(self).alive(b),
            old(self).info(b).pos == old(self).info(a).pos + 1 || old(self).info(b).pos == old(
                self,
            ).info(a).pos - 1,
        ensures
            old(self).same_build(final(self)),
            final(self).linked(),
            old(self).balanced() ==> final(self).balanced(),
            forall|x: usize|
                old(self).alive(x) ==> #[trigger] final(self).del_rank(x) == old(self).del_rank(x),
            final(self).keys().remove(old(self).info(b).pos) == old(self).keys().remove(
                old(self).info(a).pos,
            ),
    {
        self.swap_value(a, b);
        proof {
            let ghost was = *old(self);
            assert(was.node_linked(a));
            assert(was.node_linked(b));
            assert(was.same_build(self));
            was.lemma_same_build(self);
            let pa = was.info(a).pos;
            let pb = was.info(b).pos;
            assert(self.keys().remove(pb) =~= was.keys().remove(pa)) by {
                assert forall|t: int| 0 <= t < was.keys().len() implies #[trigger] self.keys()[t]
                    == if t == pa {
                    was.keys()[pb]
                } else if t == pb {
                    was.keys()[pa]
                } else {
                    was.keys()[t]
                } by {
                    let i = was.shape@.order[t];
                    assert(was.alive(i));
                    assert(was.node_linked(i));
                }
            }
        }
    }

    /// The rank next to that of `x` on the side of its sibling.
    pub(crate) open spec fn toward(&self, x: usize, steps: int) -> int {
        if self.is_right(x) {
            self.info(x).pos - steps
        } else {
            self.info(x).pos + steps
        }
    }

    /// A vertex whose subtree holds no black vertex is a red leaf.
    pub(crate) proof fn lemma_low(&self, t: usize)
        requires
            self.linked(),
            self.balanced(),
            self.alive(t),
            self.info(t).bh == 0,
        ensures
            self.nd(t).color == Color::Red,
            self.is_leaf(t),
            self.info(t).first == self.info(t).pos,
            self.info(t).last == self.info(t).pos + 1,
    {
        assert(self.node_linked(t));
        assert(self.node_heights(t));
        assert(self.node_reds(t));
        if self.nd(t).left.is_some() {
            assert(self.node_heights(self.nd(t).left.unwrap()));
        }
        if self.nd(t).right.is_some() {
            assert(self.node_heights(self.nd(t).right.unwrap()));
        }
    }

    /// A black vertex whose subtree holds no other black vertex has only
    /// red leaves as children.
    pub(crate) proof fn lemma_small(&self, t: usize, right: bool)
        requires
            self.linked(),
            self.balanced(),
            self.alive(t),
            self.info(t).bh == 1,
            self.nd(t).color == Color::Black,
        ensures
            kid(self.nd(t), right).is_some() ==> ({
                let c = kid(self.nd(t), right).unwrap();
                &&& self.alive(c)
                &&& self.nd(c).color == Color::Red
                &&& self.is_leaf(c)
                &&& self.nd(c).parent == Some(t)
                &&& self.info(c).pos == if right {
                    self.info(t).pos + 1
                } else {
                    self.info(t).pos - 1
                }
                &&& c != t
                &&& self.info(c).bh == 0
                &&& self.info(c).first == self.info(c).pos
                &&& self.info(c).last == self.info(c).pos + 1
                &&& if right {
                    self.info(c).last == self.info(t).last
                } else {
                    self.info(c).first == self.info(t).first
                }
            }),
            kid(self.nd(t), right).is_none() ==> if right {
                self.info(t).last == self.info(t).pos + 1
            } else {
                self.info(t).first == self.info(t).pos
            },
    {
        assert(self.node_linked(t));
        assert(self.node_heights(t));
        if kid(self.nd(t), right).is_some() {
            self.lemma_low(kid(self.nd(t), right).unwrap());
            assert(self.node_linked(kid(self.nd(t), right).unwrap()));
        }
    }

    /// The vertices around a black leaf `x` that is not the root: its
    /// parent, and a sibling whose subtree holds one black vertex on every
    /// path.
    pub(crate) proof fn lemma_leaf_near(&self, x: usize)
        requires
            self.linked(),
            self.balanced(),
            self.alive(x),
            self.nd(x).color == Color::Black,
            self.is_leaf(x),
            self.nd(x).parent.is_some(),
        ensures
            self.brother(x).is_some(),
            ({
                let p = self.nd(x).parent.unwrap();
                let b = self.brother(x).unwrap();
                &&& self.alive(p) && self.alive(b)
                &&& x != p && x != b && p != b
                &&& self.nd(b).parent == Some(p)
                &&& self.is_right(b) == !self.is_right(x)
                &&& kid(self.nd(p), self.is_right(x)) == Some(x)
                &&& kid(self.nd(p), !self.is_right(x)) == Some(b)
                &&& self.info(x).bh == 1
                &&& self.info(b).bh == 1
                &&& self.info(p).bh == 1 + self.blk(p)
                &&& self.info(p).pos == self.toward(x, 1)
                &&& self.info(x).first == self.info(x).pos
                &&& self.info(x).last == self.info(x).pos + 1
                &&& if self.is_right(x) {
                    self.info(b).last == self.info(p).pos
                } else {
                    self.info(b).first == self.info(p).pos + 1
                }
                &&& self.nd(p).color == Color::Red ==> self.nd(b).color == Color::Black
                &&& self.root != Some(x) && self.root != Some(b)
                &&& self.nd(p).parent.is_none() ==> self.root == Some(p)
            }),
    {
        let p = self.nd(x).parent.unwrap();
        assert(self.node_linked(x));
        assert(self.node_heights(x));
        assert(self.node_linked(p));
        assert(self.node_heights(p));
        assert(self.node_reds(p));
        let b = self.brother(x).unwrap();
        assert(self.node_linked(b));
        assert(self.node_heights(b));
    }

    /// A red vertex whose subtree holds one black vertex on every path has
    /// two black children, each with a subtree of that kind.
    pub(crate) proof fn lemma_under_red(&self, t: usize, right: bool)
        requires
            self.linked(),
            self.balanced(),
            self.alive(t),
            self.info(t).bh == 1,
            self.nd(t).color == Color::Red,
        ensures
            kid(self.nd(t), right).is_some(),
            ({
                let c = kid(self.nd(t), right).unwrap();
                &&& self.alive(c)
                &&& self.nd(c).color == Color::Black
                &&& self.nd(c).parent == Some(t)
                &&& self.is_right(c) == right
                &&& c != t
                &&& self.info(c).bh == 1
                &&& if right {
                    self.info(c).last == self.info(t).last
                } else {
                    self.info(c).first == self.info(t).first
                }
            }),
    {
        assert(self.node_linked(t));
        assert(self.node_heights(t));
        assert(self.node_reds(t));
        if kid(self.nd(t), right).is_some() {
            let c = kid(self.nd(t), right).unwrap();
            assert(self.node_linked(c));
            assert(self.node_heights(c));
        }
    }

    /// A sorted sequence without one of its keys is sorted, and holds the
    /// other keys.
    pub(crate) proof fn lemma_rest(keys: Seq<i32>, at: int)
        requires
            0 <= at < keys.len(),
            forall|s: int, t: int| 0 <= s < t < keys.len() ==> keys[s] < keys[t],
        ensures
            forall|s: int, t: int|
                0 <= s < t < keys.remove(at).len() ==> #[trigger] keys.remove(at)[s]
                    < #[trigger] keys.remove(at)[t],
            keys.remove(at).to_set() == keys.to_set().remove(keys[at]),
    {
        let rest = keys.remove(at);
        assert forall|s: int, t: int| 0 <= s < t < rest.len() implies #[trigger] rest[s]
            < #[trigger] rest[t] by {
            let a = if s < at {
                s
            } else {
                s + 1
            };
            let b = if t < at {
                t
            } else {
                t + 1
            };
            assert(keys[a] < keys[b]);
        }
        assert(rest.to_set() =~= keys.to_set().remove(keys[at])) by {
            assert forall|k: i32| rest.to_set().contains(k) <==> keys.to_set().remove(
                keys[at],
            ).contains(k) by {
                if rest.contains(k) {
                    let s = choose|s: int| 0 <= s < rest.len() && rest[s] == k;
                    let a = if s < at {
                        s
                    } else {
                        s + 1
                    };
                    assert(keys[a] == k);
                    if a < at {
                        assert(keys[a] < keys[at]);
                    } else {
                        assert(keys[at] < keys[a]);
                    }
                }
                if keys.contains(k) && k != keys[at] {
                    let a = choose|a: int| 0 <= a < keys.len() && keys[a] == k;
                    let s = if a < at {
                        a
                    } else {
                        a - 1
                    };
                    assert(rest[s] == k);
                }
            }
        }
    }
}

} // verus!
