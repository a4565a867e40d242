// Removal of a key: the key moves to a leaf that can be taken off, and the
// colour rules are restored.
use vstd::prelude::*;
use crate::rbtree_mod::detach::unlink;
use crate::rbtree_mod::{Color, Node, RedBlackTree};

verus! {

impl RedBlackTree {
    /// `new` is this tree after one of two black sibling leaves has been
    /// taken off: the leaf `gone` has left, the leaf `kept` is red, their
    /// parent `p` is black, and nothing else has changed in colours, child
    /// links or recorded heights.
    pub(crate) open spec fn cut(&self, new: &RedBlackTree, p: usize, gone: usize, kept: usize) -> bool {
        &&& self.linked()
        &&& self.balanced()
        &&& self.alive(gone)
        &&& self.nd(gone).parent == Some(p)
        &&& self.brother(gone) == Some(kept)
        &&& self.nd(gone).color == Color::Black
        &&& self.nd(kept).color == Color::Black
        &&& self.is_leaf(gone)
        &&& self.is_leaf(kept)
        &&& new.nodes@.len() == self.nodes@.len()
        &&& forall|i: usize| #[trigger] new.alive(i) ==> self.alive(i)
        &&& forall|i: usize|
            self.alive(i) && i != p && i != gone && i != kept ==> #[trigger] self.same_hue(new, i)
        &&& !new.alive(gone)
        &&& new.alive(kept)
        &&& new.alive(p)
        &&& new.nd(kept).color == Color::Red
        &&& new.is_leaf(kept)
        &&& new.info(kept).bh == 0
        &&& new.nd(p).color == Color::Black
        &&& new.nd(p).left == unlink(self.nd(p).left, gone)
        &&& new.nd(p).right == unlink(self.nd(p).right, gone)
        &&& new.nd(p).parent == self.nd(p).parent
        &&& new.info(p).bh == 1
        &&& new.root == self.root
    }

    /// After such a cut under a red parent, or under the root, the tree is a
    /// red-black tree; under a black parent that is not the root the
    /// subtree at the parent lacks a black vertex.
    pub(crate) proof fn lemma_cut(&self, new: &RedBlackTree, p: usize, gone: usize, kept: usize)
        requires
            self.cut(new, p, gone, kept),
            new.linked(),
        ensures
            self.nd(p).color == Color::Red || self.nd(p).parent.is_none() ==> new.balanced(),
            self.nd(p).color == Color::Black && self.nd(p).parent.is_some() ==> new.lacking(p),
    {
        let part = set![p, gone, kept];
        let up = if self.nd(p).color == Color::Black {
            self.nd(p).parent
        } else {
            None
        };
        self.lemma_leaf_near(gone);
        assert(self.node_linked(p));
        assert(self.node_linked(gone));
        assert(self.node_linked(kept));
        assert(new.node_heights(p) && new.node_reds(p));
        assert(new.node_heights(kept) && new.node_reds(kept));
        assert(self.fine_outside(part));
        assert(self.patched(new, part, up, None));
        self.lemma_patched(new, part, up, None);
        match self.root {
            None => {},
            Some(r) => {
                if r != p {
                    assert(self.node_linked(r));
                    assert(self.same_hue(new, r));
                }
            },
        }
        if self.nd(p).parent.is_some() {
            let g = self.nd(p).parent.unwrap();
            assert(self.node_linked(g));
            assert(self.node_heights(g));
            assert(self.same_hue(new, g));
            let o = self.brother(p);
            if o.is_some() {
                assert(self.alive(o.unwrap()));
                assert(self.node_linked(o.unwrap()));
                assert(self.same_hue(new, o.unwrap()));
            }
            if self.nd(p).color == Color::Black {
                assert(new.short(g, p));
            }
        }
    }

    /// The steps that make a cut: from this tree `s1` follows by painting
    /// the parent `p` black and the two leaves red, `s2` by moving keys only,
    /// and `new` by taking the leaf `gone` off.
    pub(crate) proof fn lemma_cut_made(
        &self,
        s1: &RedBlackTree,
        s2: &RedBlackTree,
        new: &RedBlackTree,
        p: usize,
        gone: usize,
        kept: usize,
    )
        requires
            self.linked(),
            self.balanced(),
            self.alive(gone),
            self.nd(gone).parent == Some(p),
            self.brother(gone) == Some(kept),
            self.nd(gone).color == Color::Black,
            self.nd(kept).color == Color::Black,
            self.is_leaf(gone),
            self.is_leaf(kept),
            self.dyed(s1, set![p, gone, kept]),
            s1.nd(p).color == Color::Black,
            s1.nd(kept).color == Color::Red,
            s1.info(p).bh == 1,
            s1.info(kept).bh == 0,
            s1.same_build(s2),
            s2.trimmed(new, gone),
        ensures
            self.cut(new, p, gone, kept),
    {
        let dye = set![p, gone, kept];
        self.lemma_leaf_near(gone);
        assert(self.node_linked(p));
        assert(s1.nodes@.len() == self.nodes@.len() && s1.shape@.info.len()
            == self.shape@.info.len() && s1.root == self.root) by {
            reveal(RedBlackTree::dyed);
        }
        assert forall|i: usize| #[trigger] new.alive(i) implies self.alive(i) by {
            assert(new.info(i) == s2.trimmed_info(gone, i));
            self.lemma_dyed_at(s1, dye, i);
        }
        assert forall|i: usize|
            self.alive(i) && i != p && i != gone && i != kept implies #[trigger] self.same_hue(
            new,
            i,
        ) by {
            assert(new.info(i) == s2.trimmed_info(gone, i));
            assert(new.nd(i) == s2.trimmed_node(gone, i));
            assert(s2.nd(i) == (Node { value: s2.nd(i).value, ..s1.nd(i) }));
            assert(s2.nd(gone) == (Node { value: s2.nd(gone).value, ..s1.nd(gone) }));
            self.lemma_dyed_at(s1, dye, i);
            self.lemma_dyed_at(s1, dye, gone);
        }
        self.lemma_dyed_at(s1, dye, p);
        self.lemma_dyed_at(s1, dye, kept);
        self.lemma_dyed_at(s1, dye, gone);
        assert(s2.nd(p) == (Node { value: s2.nd(p).value, ..s1.nd(p) }));
        assert(s2.nd(kept) == (Node { value: s2.nd(kept).value, ..s1.nd(kept) }));
        assert(s2.nd(gone) == (Node { value: s2.nd(gone).value, ..s1.nd(gone) }));
        assert(new.info(p) == s2.trimmed_info(gone, p));
        assert(new.nd(p) == s2.trimmed_node(gone, p));
        assert(new.info(kept) == s2.trimmed_info(gone, kept));
        assert(new.nd(kept) == s2.trimmed_node(gone, kept));
        assert(new.info(gone) == s2.trimmed_info(gone, gone));
    }

    /// Taking off a red leaf, or a root without children, leaves a
    /// red-black tree.
    pub(crate) proof fn lemma_taken(&self, new: &RedBlackTree, x: usize)
        requires
            self.linked(),
            self.balanced(),
            self.alive(x),
            self.is_leaf(x),
            self.nd(x).color == Color::Red || self.nd(x).parent.is_none(),
            self.trimmed(new, x),
            new.linked(),
        ensures
            new.balanced(),
    {
        assert(self.node_linked(x));
        assert(self.node_heights(x));
        assert forall|i: usize| new.alive(i) implies #[trigger] new.node_heights(i) by {
            assert(new.info(i) == self.trimmed_info(x, i));
            assert(new.nd(i) == self.trimmed_node(x, i));
            assert(self.node_heights(i));
            assert(self.node_linked(i));
            let m = new.nd(i);
            if m.left.is_some() {
                assert(new.info(m.left.unwrap()) == self.trimmed_info(x, m.left.unwrap()));
            }
            if m.right.is_some() {
                assert(new.info(m.right.unwrap()) == self.trimmed_info(x, m.right.unwrap()));
            }
        }
        assert forall|i: usize| new.alive(i) implies #[trigger] new.node_reds(i) by {
            assert(new.info(i) == self.trimmed_info(x, i));
            assert(new.nd(i) == self.trimmed_node(x, i));
            assert(self.node_reds(i));
            assert(self.node_linked(i));
            let m = new.nd(i);
            if m.left.is_some() {
                assert(new.nd(m.left.unwrap()) == self.trimmed_node(x, m.left.unwrap()));
            }
            if m.right.is_some() {
                assert(new.nd(m.right.unwrap()) == self.trimmed_node(x, m.right.unwrap()));
            }
        }
        match new.root {
            None => {},
            Some(r) => {
                assert(new.nd(r) == self.trimmed_node(x, r));
            },
        }
    }

    /// One step of the removal where the key to be removed stands in the
    /// black leaf `x` under the red parent `p`, beside the black sibling `b`.
    ///
    /// Where `b` has a child, the key moves on to the red leaf that is next
    /// in search order, and that leaf is the result. Where it has none, `p`
    /// and `b` exchange colours and `x` is taken off.
    pub(crate) fn del_red_parent(
        &mut self,
        x: usize,
        p: usize,
        b: usize,
        Ghost(rest): Ghost<Seq<i32>>,
    ) -> (next: Option<usize>)
        requires
            old(self).doomed(x, rest),
            old(self).nd(x).color == Color::Black,
            old(self).is_leaf(x),
            old(self).nd(x).parent == Some(p),
            old(self).brother(x) == Some(b),
            old(self).nd(p).color == Color::Red,
        ensures
            match next {
                Some(n) => final(self).doomed(n, rest) && final(self).del_rank(n) < old(
                    self,
                ).del_rank(x),
                None => final(self).linked() && final(self).balanced() && final(self).keys()
                    == rest,
            },
    {
        let ghost s0 = *self;
        proof {
            s0.lemma_leaf_near(x);
            s0.lemma_small(b, true);
            s0.lemma_small(b, false);
        }
        let c_a: Option<usize>;
        let c_b: Option<usize>;
        if self.is_left_node(x) {
            c_a = self.nodes[b].left;
            c_b = self.nodes[b].right;
        } else {
            c_a = self.nodes[b].right;
            c_b = self.nodes[b].left;
        }
        if let Some(c) = c_a {
            self.slide(x, p);
            self.slide(p, c);
            Some(c)
        } else if let Some(c) = c_b {
            self.slide(x, p);
            self.slide(p, b);
            self.slide(b, c);
            Some(c)
        } else {
            self.paint(p, Color::Black, Ghost(1));
            self.paint(b, Color::Red, Ghost(0));
            let ghost s1 = *self;
            proof {
                s0.lemma_painted(self, set![p, b]);
                s0.lemma_recolored(self);
            }
            self.drop_node(x);
            proof {
                s0.lemma_painted(&s1, set![p, x, b]);
                s0.lemma_cut_made(&s1, &s1, self, p, x, b);
                s0.lemma_cut(self, p, x, b);
            }
            None
        }
    }

    /// One step of the removal where the key to be removed stands in the
    /// black leaf `x` under the black parent `p`, beside the red sibling
    /// `b`.
    ///
    /// The key moves on, by way of `p`, into the subtree of the near nephew:
    /// to the red leaf next in search order where there is one, else to the
    /// nephew itself, a black leaf under the red `b`. The result is the
    /// vertex that now holds it.
    pub(crate) fn del_red_brother(
        &mut self,
        x: usize,
        p: usize,
        b: usize,
        Ghost(rest): Ghost<Seq<i32>>,
    ) -> (next: usize)
        requires
            old(self).doomed(x, rest),
            old(self).nd(x).color == Color::Black,
            old(self).is_leaf(x),
            old(self).nd(x).parent == Some(p),
            old(self).brother(x) == Some(b),
            old(self).nd(p).color == Color::Black,
            old(self).nd(b).color == Color::Red,
        ensures
            final(self).doomed(next, rest),
            final(self).del_rank(next) < old(self).del_rank(x),
    {
        let ghost s0 = *self;
        let left = self.is_left_node(x);
        proof {
            s0.lemma_leaf_near(x);
            s0.lemma_under_red(b, !left);
        }
        let c: usize;
        if left {
            c = self.nodes[b].left.unwrap();
        } else {
            c = self.nodes[b].right.unwrap();
        }
        proof {
            s0.lemma_small(c, true);
            s0.lemma_small(c, false);
            assert(s0.node_linked(c));
        }
        let c_a: Option<usize>;
        let c_b: Option<usize>;
        if left {
            c_a = self.nodes[c].left;
            c_b = self.nodes[c].right;
        } else {
            c_a = self.nodes[c].right;
            c_b = self.nodes[c].left;
        }
        if let Some(c_a) = c_a {
            self.slide(x, p);
            self.slide(p, c_a);
            c_a
        } else if let Some(c_b) = c_b {
            self.slide(x, p);
            self.slide(p, c);
            self.slide(c, c_b);
            c_b
        } else {
            self.slide(x, p);
            self.slide(p, c);
            c
        }
    }

    /// One step of the removal where the key to be removed stands in the
    /// black leaf `x` under the black parent `p`, beside the black sibling
    /// `b`.
    ///
    /// Where `b` has a child, the key moves on to the red leaf that is next
    /// in search order, and that leaf is the result. Where it has none, `b`
    /// becomes red and one of the two leaves is taken off, which leaves the
    /// subtree at `p` one black vertex short: unless `p` is the root, the
    /// colour rules are then restored from `p` upwards.
    pub(crate) fn del_black_brother(
        &mut self,
        x: usize,
        p: usize,
        b: usize,
        Ghost(rest): Ghost<Seq<i32>>,
    ) -> (next: Option<usize>)
        requires
            old(self).doomed(x, rest),
            old(self).nd(x).color == Color::Black,
            old(self).is_leaf(x),
            old(self).nd(x).parent == Some(p),
            old(self).brother(x) == Some(b),
            old(self).nd(p).color == Color::Black,
            old(self).nd(b).color == Color::Black,
        ensures
            match next {
                Some(n) => final(self).doomed(n, rest) && final(self).del_rank(n) < old(
                    self,
                ).del_rank(x),
                None => final(self).linked() && final(self).balanced() && final(self).keys()
                    == rest,
            },
    {
        let ghost s0 = *self;
        proof {
            s0.lemma_leaf_near(x);
            s0.lemma_small(b, true);
            s0.lemma_small(b, false);
        }
        let c_a: Option<usize>;
        let c_b: Option<usize>;
        if self.is_left_node(x) {
            c_a = self.nodes[b].left;
            c_b = self.nodes[b].right;
        } else {
            c_a = self.nodes[b].right;
            c_b = self.nodes[b].left;
        }
        if let Some(c) = c_a {
            self.slide(x, p);
            self.slide(p, c);
            Some(c)
        } else if let Some(c) = c_b {
            self.slide(x, p);
            self.slide(p, b);
            self.slide(b, c);
            Some(c)
        } else {
            self.paint(p, Color::Black, Ghost(1));
            self.paint(b, Color::Red, Ghost(0));
            self.paint(x, Color::Red, Ghost(0));
            let ghost s1 = *self;
            proof {
                s0.lemma_painted(self, set![p, b, x]);
                s0.lemma_recolored(self);
                assert(s0.node_linked(p));
            }
            let mut gone: usize = x;
            let mut kept: usize = b;
            if self.nodes[p].parent.is_some() {
                if self.is_left_node(x) {
                    if self.is_right_node(p) {
                        self.slide(x, p);
                        self.slide(p, b);
                        gone = b;
                        kept = x;
                    }
                } else {
                    if self.is_left_node(p) {
                        self.slide(x, p);
                        self.slide(p, b);
                        gone = b;
                        kept = x;
                    }
                }
            }
            let ghost s2 = *self;
            self.drop_node(gone);
            proof {
                s0.lemma_painted(&s1, set![p, gone, kept]);
                s0.lemma_cut_made(&s1, &s2, self, p, gone, kept);
                s0.lemma_cut(self, p, gone, kept);
            }
            if self.nodes[p].parent.is_some() {
                self.delete_fix(p);
            }
            None
        }
    }

    /// Takes the key `value` out of the tree.
    ///
    /// The key first changes places with the key next to it in search order
    /// that stands below it, and so comes to a vertex with at most one
    /// child. From there it moves on, from vertex to vertex next in search
    /// order, until it stands in a leaf that can be taken off: a red leaf, or
    /// a black one whose loss is made good by recolouring and, where that is
    /// not enough, by the repair that works its way up from the parent.
    pub fn del(&mut self, value: i32)
        requires
            old(self).wf(),
        ensures
            final(self).wf(),
            final(self)@ == old(self)@.remove(value),
            !old(self)@.contains(value) ==> final(self).same_tree(old(self)),
    {
        match self.insert_search(value, true) {
            None => {
                proof {
                    assert(self@ =~= self@.remove(value));
                }
                return ;
            },
            Some(x) => {
                let ghost s0 = *self;
                let ghost rest = s0.keys().remove(s0.info(x).pos);
                proof {
                    s0.lemma_key_at(x);
                    Self::lemma_rest(s0.keys(), s0.info(x).pos);
                    assert(s0.node_linked(x));
                }
                let mut x: usize = x;
                if let Some(pv) = self.delete_search(x) {
                    self.slide(x, pv);
                    x = pv;
                }
                loop
                    invariant_except_break
                        self.doomed(x, rest),
                    ensures
                        self.linked(),
                        self.balanced(),
                        self.keys() == rest,
                    decreases self.del_rank(x),
                {
                    proof {
                        assert(self.node_linked(x));
                        assert(self.node_heights(x));
                        assert(self.node_reds(x));
                        if self.nd(x).left.is_some() {
                            self.lemma_low(self.nd(x).left.unwrap());
                        }
                        if self.nd(x).right.is_some() {
                            self.lemma_low(self.nd(x).right.unwrap());
                        }
                        if self.nd(x).parent.is_some() && self.is_leaf(x) && self.nd(x).color
                            == Color::Black {
                            self.lemma_leaf_near(x);
                        }
                    }
                    let x_node = self.nodes[x];
                    match x_node.color {
                        Color::Red => {
                            let ghost was = *self;
                            self.drop_node(x);
                            proof {
                                was.lemma_taken(self, x);
                            }
                        },
                        Color::Black => {
                            if x_node.parent.is_none() && x_node.left.is_none()
                                && x_node.right.is_none() {
                                let ghost was = *self;
                                self.drop_node(x);
                                proof {
                                    was.lemma_taken(self, x);
                                }
                            } else if let Some(c) = x_node.left {
                                self.slide(x, c);
                                x = c;
                                continue ;
                            } else if let Some(c) = x_node.right {
                                self.slide(x, c);
                                x = c;
                                continue ;
                            } else {
                                let p = self.get_parent(x).unwrap();
                                let b = self.get_brother(x).unwrap();
                                match self.nodes[p].color {
                                    Color::Red => {
                                        if let Some(n) = self.del_red_parent(x, p, b, Ghost(rest)) {
                                            x = n;
                                            continue ;
                                        }
                                    },
                                    Color::Black => {
                                        match self.nodes[b].color {
                                            Color::Red => {
                                                x = self.del_red_brother(x, p, b, Ghost(rest));
                                                continue ;
                                            },
                                            Color::Black => {
                                                if let Some(n) = self.del_black_brother(
                                                    x,
                                                    p,
                                                    b,
                                                    Ghost(rest),
                                                ) {
                                                    x = n;
                                                    continue ;
                                                }
                                            },
                                        }
                                    },
                                }
                            }
                        },
                    }
                    break ;
                }
                self.root_fix();
                proof {
                    assert(self.keys().len() == self.count());
                    assert(self.sorted());
                }
            },
        }
    }

    /// Empties the tree, by removing the key of the root until there is no
    /// root.
    pub fn clear(&mut self)
        requires
            old(self).wf(),
        ensures
            final(self).wf(),
            final(self)@ == Set::<i32>::empty(),
    {
        loop
            invariant
                self.wf(),
            ensures
                self.root.is_none(),
            decreases self@.len(),
        {
            match self.root {
                None => {
                    break ;
                },
                Some(x) => {
                    let v: i32 = self.nodes[x].value;
                    proof {
                        self.lemma_key_at(x);
                        vstd::seq_lib::seq_to_set_is_finite(self.keys());
                    }
                    self.del(v);
                },
            }
        }
        proof {
            assert(self.keys() =~= Seq::<i32>::empty());
        }
    }
}

} // verus!
