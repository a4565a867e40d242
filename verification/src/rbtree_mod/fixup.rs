// Restoring the colour rules after a black leaf has been taken off.
use vstd::prelude::*;
use crate::rbtree_mod::rotate::kid;
use crate::rbtree_mod::{Color, RedBlackTree};

verus! {

impl RedBlackTree {
    /// The repair for a vertex `x` that lacks a black one where its parent
    /// `p` and its sibling `b` are black.
    ///
    /// With two black nephews `b` becomes red, and it is then the subtree at
    /// `p` that lacks a black vertex: the result is `true`. With a red far
    /// nephew `b` is lifted and that nephew made black. With a red near
    /// nephew only, that nephew is lifted over `b` and `p` and made black.
    pub(crate) fn fix_black_brother(&mut self, x: usize, p: usize, b: usize) -> (up: bool)
        requires
            old(self).lacking_at(x, p, b),
            old(self).nd(p).color == Color::Black,
            old(self).nd(b).color == Color::Black,
        ensures
            final(self).linked(),
            final(self).keys() == old(self).keys(),
            final(self).count() == old(self).count(),
            up ==> final(self).lacking(p) && final(self).info(p).first == old(self).info(p).first
                && final(self).info(p).last == old(self).info(p).last,
            !up ==> final(self).balanced(),
    {
        let ghost s0 = *self;
        let ghost h = self.info(x).bh;
        let right = self.is_right_node(x);
        proof {
            s0.lemma_lacking_near(x, p, b);
            s0.lemma_lacking_nephew(x, p, b, true);
            s0.lemma_lacking_nephew(x, p, b, false);
        }
        let cl: usize;
        let cr: usize;
        if right {
            cl = self.nodes[b].left.unwrap();
            cr = self.nodes[b].right.unwrap();
        } else {
            cl = self.nodes[b].right.unwrap();
            cr = self.nodes[b].left.unwrap();
        }
        match (self.nodes[cl].color, self.nodes[cr].color) {
            (Color::Black, Color::Black) => {
                self.paint(b, Color::Red, Ghost(h));
                proof {
                    self.shape = Ghost(self.shape@.with_bh(p, h + 1));
                    s0.lemma_painted(self, set![b, p]);
                    s0.lemma_fix_stay(self, x, p, b);
                }
                true
            },
            (Color::Red, _) => {
                self.lift(b);
                let ghost s2 = *self;
                self.paint(cl, Color::Black, Ghost(h + 1));
                proof {
                    self.shape = Ghost(self.shape@.with_bh(p, h + 1).with_bh(b, h + 2));
                    s0.lemma_reshaped_at(&s2, s0.lift_part(b), b);
                    s0.lemma_reshaped_at(&s2, s0.lift_part(b), p);
                    s0.lemma_reshaped_at(&s2, s0.lift_part(b), x);
                    s0.lemma_reshaped_at(&s2, s0.lift_part(b), cl);
                    s0.lemma_reshaped_at(&s2, s0.lift_part(b), cr);
                    s2.lemma_painted(self, set![b, p, cl, cr]);
                    s0.lemma_fix_lift(&s2, self, x, p, b, cl, cr);
                }
                false
            },
            (Color::Black, Color::Red) => {
                self.bend(cr);
                let ghost s2 = *self;
                self.paint(cr, Color::Black, Ghost(h + 2));
                proof {
                    self.shape = Ghost(self.shape@.with_bh(p, h + 1));
                    s0.lemma_bend_ready(&s2, self, x, p, b, cl, cr);
                    s0.lemma_fix_bend(&s2, self, x, p, b, cl, cr);
                }
                false
            },
        }
    }

    /// The repair for a vertex `x` that lacks a black one where its parent
    /// `p` is red, and its sibling `b` therefore black.
    ///
    /// With two black nephews `p` and `b` exchange colours. With two red
    /// nephews `b` is lifted, and becomes red over a black `p` and a black
    /// far nephew. With a red far nephew only, `b` is lifted. With a red near
    /// nephew only, that nephew is lifted over `b` and `p` and becomes black
    /// over a red `b`.
    pub(crate) fn fix_red_parent(&mut self, x: usize, p: usize, b: usize)
        requires
            old(self).lacking_at(x, p, b),
            old(self).nd(p).color == Color::Red,
        ensures
            final(self).linked(),
            final(self).keys() == old(self).keys(),
            final(self).count() == old(self).count(),
            final(self).balanced(),
    {
        let ghost s0 = *self;
        let ghost h = self.info(x).bh;
        let right = self.is_right_node(x);
        proof {
            s0.lemma_lacking_near(x, p, b);
            s0.lemma_lacking_nephew(x, p, b, true);
            s0.lemma_lacking_nephew(x, p, b, false);
        }
        let cl: usize;
        let cr: usize;
        if right {
            cl = self.nodes[b].left.unwrap();
            cr = self.nodes[b].right.unwrap();
        } else {
            cl = self.nodes[b].right.unwrap();
            cr = self.nodes[b].left.unwrap();
        }
        match (self.nodes[cl].color, self.nodes[cr].color) {
            (Color::Black, Color::Black) => {
                self.paint(p, Color::Black, Ghost(h + 1));
                self.paint(b, Color::Red, Ghost(h));
                proof {
                    s0.lemma_painted(self, set![b, p]);
                    s0.lemma_fix_stay(self, x, p, b);
                }
            },
            (Color::Red, Color::Red) => {
                self.lift(b);
                let ghost s2 = *self;
                self.paint(cl, Color::Black, Ghost(h + 1));
                self.paint(p, Color::Black, Ghost(h + 1));
                self.paint(b, Color::Red, Ghost(h + 1));
                proof {
                    s0.lemma_reshaped_at(&s2, s0.lift_part(b), b);
                    s0.lemma_reshaped_at(&s2, s0.lift_part(b), p);
                    s0.lemma_reshaped_at(&s2, s0.lift_part(b), x);
                    s0.lemma_reshaped_at(&s2, s0.lift_part(b), cl);
                    s0.lemma_reshaped_at(&s2, s0.lift_part(b), cr);
                    s2.lemma_painted(self, set![b, p, cl, cr]);
                    s0.lemma_fix_lift(&s2, self, x, p, b, cl, cr);
                }
            },
            (Color::Red, Color::Black) => {
                self.lift(b);
                let ghost s2 = *self;
                proof {
                    self.shape = Ghost(self.shape@.with_bh(p, h));
                    s0.lemma_reshaped_at(&s2, s0.lift_part(b), b);
                    s0.lemma_reshaped_at(&s2, s0.lift_part(b), p);
                    s0.lemma_reshaped_at(&s2, s0.lift_part(b), x);
                    s0.lemma_reshaped_at(&s2, s0.lift_part(b), cl);
                    s0.lemma_reshaped_at(&s2, s0.lift_part(b), cr);
                    s2.lemma_painted(self, set![b, p, cl, cr]);
                    s0.lemma_fix_lift(&s2, self, x, p, b, cl, cr);
                }
            },
            (Color::Black, Color::Red) => {
                self.bend(cr);
                let ghost s2 = *self;
                self.paint(b, Color::Red, Ghost(h));
                self.paint(cr, Color::Black, Ghost(h + 1));
                proof {
                    self.shape = Ghost(self.shape@.with_bh(p, h));
                    s0.lemma_bend_ready(&s2, self, x, p, b, cl, cr);
                    s0.lemma_fix_bend(&s2, self, x, p, b, cl, cr);
                }
            },
        }
    }

    /// The repair for a vertex `x` that lacks a black one where its parent
    /// `p` is black and its sibling `b` red. The near nephew `c` is then
    /// black and has two children.
    ///
    /// Where both children of `c` are black, `b` is lifted and becomes black
    /// over a red `c`. Where the child of `c` on the far side is red, `c`
    /// comes to stand between `b` and `p` and that child becomes black.
    /// Where only the child on the near side is red, `b` is lifted and made
    /// black, and that child comes to stand between `c` and `p`.
    pub(crate) fn fix_red_brother(&mut self, x: usize, p: usize, b: usize)
        requires
            old(self).lacking_at(x, p, b),
            old(self).nd(p).color == Color::Black,
            old(self).nd(b).color == Color::Red,
        ensures
            final(self).linked(),
            final(self).keys() == old(self).keys(),
            final(self).count() == old(self).count(),
            final(self).balanced(),
    {
        let ghost s0 = *self;
        let ghost h = self.info(x).bh;
        let right = self.is_right_node(x);
        proof {
            s0.lemma_lacking_near(x, p, b);
            s0.lemma_lacking_nephew(x, p, b, true);
            s0.lemma_lacking_nephew(x, p, b, false);
        }
        let c: usize;
        let l: usize;
        let r: usize;
        if right {
            c = self.nodes[b].right.unwrap();
            proof {
                s0.lemma_lacking_grand(x, p, b, c);
            }
            l = self.nodes[c].left.unwrap();
            r = self.nodes[c].right.unwrap();
        } else {
            c = self.nodes[b].left.unwrap();
            proof {
                s0.lemma_lacking_grand(x, p, b, c);
            }
            l = self.nodes[c].right.unwrap();
            r = self.nodes[c].left.unwrap();
        }
        let ghost far = kid(s0.nd(b), !right).unwrap();
        match (self.nodes[l].color, self.nodes[r].color) {
            (Color::Black, Color::Black) => {
                self.lift(b);
                let ghost s2 = *self;
                self.paint(b, Color::Black, Ghost(h + 2));
                self.paint(c, Color::Red, Ghost(h));
                proof {
                    self.shape = Ghost(self.shape@.with_bh(p, h + 1));
                    s0.lemma_reshaped_at(&s2, s0.lift_part(b), b);
                    s0.lemma_reshaped_at(&s2, s0.lift_part(b), p);
                    s0.lemma_reshaped_at(&s2, s0.lift_part(b), x);
                    s0.lemma_reshaped_at(&s2, s0.lift_part(b), far);
                    s0.lemma_reshaped_at(&s2, s0.lift_part(b), c);
                    s2.lemma_painted(self, set![b, p, far, c]);
                    s0.lemma_fix_lift(&s2, self, x, p, b, far, c);
                }
            },
            (Color::Red, _) => {
                self.lift_bend(b, c);
                let ghost s2 = *self;
                proof {
                    s0.lemma_reshaped_at(&s2, s0.bent_part(c), l);
                }
                self.paint(l, Color::Black, Ghost(h + 1));
                proof {
                    self.shape = Ghost(self.shape@.with_bh(p, h + 1).with_bh(c, h + 2));
                    s0.lemma_bend_set(&s2, self, x, p, b, far, c);
                    s0.lemma_fix_bend(&s2, self, x, p, b, far, c);
                }
            },
            (Color::Black, Color::Red) => {
                self.swing(b, r);
                let ghost s2 = *self;
                proof {
                    s0.lemma_reshaped_at(&s2, s0.swung_part(r), b);
                }
                self.paint(b, Color::Black, Ghost(h + 2));
                proof {
                    self.shape = Ghost(self.shape@.with_bh(p, h + 1).with_bh(r, h + 1));
                    s0.lemma_reshaped_at(&s2, s0.swung_part(r), b);
                    s0.lemma_reshaped_at(&s2, s0.swung_part(r), p);
                    s0.lemma_reshaped_at(&s2, s0.swung_part(r), r);
                    s2.lemma_painted(self, set![b, p, r]);
                    s0.lemma_fix_swing(&s2, self, x, p, b, c, r);
                }
            },
        }
    }

    /// Restores the colour rules in a tree in which the subtree at the black
    /// vertex `x` is one black vertex lower than that of its sibling.
    ///
    /// By the colours of the parent, the sibling and the nephews of `x` the
    /// fault is either mended at once, by lifting the sibling or a nephew
    /// and recolouring, or handed up to the parent; an `x` without a parent
    /// is the root, and the tree is then in order as it is.
    pub(crate) fn delete_fix(&mut self, x: usize)
        requires
            old(self).lacking(x),
        ensures
            final(self).linked(),
            final(self).balanced(),
            final(self).keys() == old(self).keys(),
            final(self).count() == old(self).count(),
    {
        let mut x: usize = x;
        loop
            invariant_except_break
                self.lacking(x),
            invariant
                self.keys() == old(self).keys(),
                self.count() == old(self).count(),
            ensures
                self.linked(),
                self.balanced(),
            decreases self.count() - (self.info(x).last - self.info(x).first),
        {
            proof {
                assert(self.node_linked(x));
                if self.nd(x).parent.is_some() {
                    let q = self.nd(x).parent.unwrap();
                    assert(self.node_linked(q));
                    assert(self.node_heights(x));
                    if self.brother(x).is_some() {
                        self.lemma_lacking_near(x, q, self.brother(x).unwrap());
                    }
                }
            }
            if self.nodes[x].color == Color::Black {
                if let (Some(p), Some(b)) = (self.get_parent(x), self.get_brother(x)) {
                    match self.nodes[p].color {
                        Color::Red => {
                            self.fix_red_parent(x, p, b);
                        },
                        Color::Black => {
                            match self.nodes[b].color {
                                Color::Red => {
                                    self.fix_red_brother(x, p, b);
                                },
                                Color::Black => {
                                    if self.fix_black_brother(x, p, b) {
                                        x = p;
                                        continue ;
                                    }
                                },
                            }
                        },
                    }
                }
            }
            break ;
        }
    }
}

} // verus!
