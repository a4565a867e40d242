// Why the repairs after a removal restore the colour rules.
use vstd::prelude::*;
use crate::rbtree_mod::rotate::{and_opt, kid, relink};
use crate::rbtree_mod::{Color, RedBlackTree};

verus! {

impl RedBlackTree {
    /// The subtree of `p` that holds `x` is one black vertex lower than the
    /// other, and `p` records the height of the other.
    pub(crate) open spec fn short(&self, p: usize, x: usize) -> bool {
        let s = self.nd(p).right == Some(x);
        &&& self.bhc(kid(self.nd(p), s)) + 1 == self.bhc(kid(self.nd(p), !s))
        &&& self.info(p).bh == self.bhc(kid(self.nd(p), !s)) + self.blk(p)
    }

    /// The tree is a red-black tree but for one thing: the subtree at the
    /// black vertex `x` is one black vertex lower than that of its sibling.
    pub(crate) open spec fn lacking(&self, x: usize) -> bool {
        &&& self.linked()
        &&& self.alive(x)
        &&& self.nd(x).color == Color::Black
        &&& self.root_black()
        &&& forall|i: usize| self.alive(i) ==> #[trigger] self.node_reds(i)
        &&& forall|i: usize|
            self.alive(i) && Some(i) != self.nd(x).parent ==> #[trigger] self.node_heights(i)
        &&& self.nd(x).parent.is_some() ==> self.short(self.nd(x).parent.unwrap(), x)
    }

    /// `x` lacks a black vertex, `p` is its parent and `b` its sibling.
    pub(crate) open spec fn lacking_at(&self, x: usize, p: usize, b: usize) -> bool {
        &&& self.lacking(x)
        &&& self.nd(x).parent == Some(p)
        &&& self.brother(x) == Some(b)
    }

    /// The vertices around a vertex that lacks a black one, and what the
    /// rules say of them.
    pub(crate) proof fn lemma_lacking_near(&self, x: usize, p: usize, b: usize)
        requires
            self.lacking_at(x, p, b),
        ensures
            self.alive(p),
            self.alive(b),
            self.node_linked(x),
            self.node_linked(p),
            self.node_linked(b),
            self.node_heights(x),
            self.node_heights(b),
            self.node_reds(p),
            self.node_reds(b),
            self.short(p, x),
            x != p,
            x != b,
            p != b,
            self.nd(b).parent == Some(p),
            kid(self.nd(p), self.is_right(x)) == Some(x),
            kid(self.nd(p), !self.is_right(x)) == Some(b),
            self.is_right(b) == !self.is_right(x),
            self.info(x).bh >= 1,
            self.info(b).bh == self.info(x).bh + 1,
            self.info(p).bh == self.info(b).bh + self.blk(p),
            self.root != Some(x),
            self.root != Some(b),
            self.nd(p).parent.is_some() ==> self.alive(self.nd(p).parent.unwrap())
                && self.node_linked(self.nd(p).parent.unwrap()) && self.node_heights(
                self.nd(p).parent.unwrap(),
            ) && self.node_reds(self.nd(p).parent.unwrap()) && self.nd(p).parent != Some(x)
                && self.nd(p).parent != Some(b) && self.nd(p).parent != Some(p),
            self.nd(p).parent.is_none() ==> self.root == Some(p),
    {
        assert(self.node_linked(x));
        assert(self.node_linked(p));
        assert(self.node_heights(x));
        assert(self.node_reds(p));
        assert(self.alive(b));
        assert(self.node_linked(b));
        assert(self.node_heights(b));
        assert(self.node_reds(b));
        if self.nd(p).parent.is_some() {
            let g = self.nd(p).parent.unwrap();
            assert(self.node_linked(g));
            assert(self.node_heights(g));
            assert(self.node_reds(g));
        }
    }

    /// A child of the sibling of a vertex that lacks a black one, and what
    /// the rules say of it.
    pub(crate) proof fn lemma_lacking_nephew(&self, x: usize, p: usize, b: usize, right: bool)
        requires
            self.lacking_at(x, p, b),
        ensures
            self.info(b).bh - self.blk(b) >= 1 ==> kid(self.nd(b), right).is_some(),
            kid(self.nd(b), right).is_some() ==> ({
                let c = kid(self.nd(b), right).unwrap();
                &&& self.alive(c)
                &&& self.node_linked(c)
                &&& self.node_heights(c)
                &&& self.node_reds(c)
                &&& self.nd(c).parent == Some(b)
                &&& self.info(c).bh + self.blk(b) == self.info(b).bh
                &&& c != x && c != p && c != b && Some(c) != self.nd(p).parent
                &&& Some(c) != kid(self.nd(b), !right)
                &&& self.root != Some(c)
            }),
            kid(self.nd(b), right).is_none() ==> self.info(b).bh == self.blk(b),
    {
        self.lemma_lacking_near(x, p, b);
        if kid(self.nd(b), right).is_some() {
            let c = kid(self.nd(b), right).unwrap();
            assert(self.alive(c));
            assert(self.node_linked(c));
            assert(self.node_heights(c));
            assert(self.node_reds(c));
        }
    }

    /// Vertex `t`, whose children are the same in both trees, fits them in
    /// `new` as it does in this tree: its recorded black height has changed
    /// with its colour, and it has not become red.
    pub(crate) open spec fn kept_over(&self, new: &RedBlackTree, t: usize) -> bool {
        &&& new.info(t).bh + self.blk(t) == self.info(t).bh + new.blk(t)
        &&& new.nd(t).color == Color::Red ==> self.nd(t).color == Color::Red || (self.kid_black(
            self.nd(t).left,
        ) && self.kid_black(self.nd(t).right))
    }

    /// `kept_over` for the vertex behind a link.
    pub(crate) open spec fn kept_under(&self, new: &RedBlackTree, c: Option<usize>) -> bool {
        match c {
            None => true,
            Some(t) => self.kept_over(new, t),
        }
    }

    /// `top` stands in `new` where `p` stood in this tree, and looks from
    /// above as `p` did.
    pub(crate) open spec fn stands_for(&self, new: &RedBlackTree, top: usize, p: usize) -> bool {
        &&& new.info(top).bh == self.info(p).bh
        &&& new.nd(top).color == self.nd(p).color || new.nd(top).color == Color::Black
        &&& self.nd(p).parent.is_none() ==> new.nd(top).color == Color::Black
    }

    /// `t` has in `new` the recorded black height that its colour and the
    /// heights behind the links `l` and `r` ask for, and is not red over a
    /// red one of them.
    pub(crate) open spec fn fits_over(
        new: &RedBlackTree,
        t: usize,
        l: Option<usize>,
        r: Option<usize>,
    ) -> bool {
        &&& new.bhc(l) == new.bhc(r)
        &&& new.info(t).bh == new.bhc(l) + new.blk(t)
        &&& new.nd(t).color == Color::Red ==> new.kid_black(l) && new.kid_black(r)
    }

    /// A vertex below the ones that a repair works on keeps to the rules
    /// where it fits its own children as before.
    pub(crate) proof fn lemma_kept(
        &self,
        mid: &RedBlackTree,
        new: &RedBlackTree,
        core: Set<usize>,
        dye: Set<usize>,
        t: usize,
    )
        requires
            self.linked(),
            self.alive(t),
            self.node_heights(t),
            self.node_reds(t),
            self.reshaped(mid, core),
            mid.dyed(new, dye),
            !core.contains(t),
            self.kept_over(new, t),
            self.nd(t).left.is_some() ==> !dye.contains(self.nd(t).left.unwrap()),
            self.nd(t).right.is_some() ==> !dye.contains(self.nd(t).right.unwrap()),
        ensures
            new.node_heights(t),
            new.node_reds(t),
    {
        assert(self.node_linked(t));
        self.lemma_mend_at(mid, new, core, dye, t);
        self.lemma_mend_under(mid, new, core, dye, self.nd(t).left);
        self.lemma_mend_under(mid, new, core, dye, self.nd(t).right);
    }

    /// The vertex above the parent of a vertex that lacks a black one keeps
    /// to the rules where what now hangs under it in place of that parent
    /// looks from above as the parent did.
    pub(crate) proof fn lemma_above(
        &self,
        mid: &RedBlackTree,
        new: &RedBlackTree,
        core: Set<usize>,
        dye: Set<usize>,
        x: usize,
        p: usize,
        b: usize,
        top: usize,
    )
        requires
            self.lacking_at(x, p, b),
            self.reshaped(mid, core),
            mid.dyed(new, dye),
            self.nd(p).parent.is_some(),
            !dye.contains(self.nd(p).parent.unwrap()),
            self.brother(p).is_some() ==> !dye.contains(self.brother(p).unwrap()),
            new.nd(self.nd(p).parent.unwrap()).left == relink(
                self.nd(self.nd(p).parent.unwrap()).left,
                p,
                top,
            ),
            new.nd(self.nd(p).parent.unwrap()).right == relink(
                self.nd(self.nd(p).parent.unwrap()).right,
                p,
                top,
            ),
            self.stands_for(new, top, p),
        ensures
            new.node_heights(self.nd(p).parent.unwrap()),
            new.node_reds(self.nd(p).parent.unwrap()),
            self.same_face(new, self.nd(p).parent.unwrap()),
            self.same_tint(new, self.nd(p).parent.unwrap()),
    {
        let g = self.nd(p).parent.unwrap();
        self.lemma_lacking_near(x, p, b);
        self.lemma_mend_at(mid, new, core, dye, g);
        let o = self.brother(p);
        if o.is_some() {
            assert(self.alive(o.unwrap()));
            assert(self.node_linked(o.unwrap()));
            self.lemma_mend_at(mid, new, core, dye, o.unwrap());
        }
    }

    /// The root is black after a repair in which `top` has come to stand
    /// where `p` stood.
    pub(crate) proof fn lemma_root_kept(
        &self,
        mid: &RedBlackTree,
        new: &RedBlackTree,
        core: Set<usize>,
        dye: Set<usize>,
        x: usize,
        p: usize,
        b: usize,
        top: usize,
    )
        requires
            self.lacking_at(x, p, b),
            self.reshaped(mid, core),
            mid.dyed(new, dye),
            mid.root == relink(self.root, p, top),
            self.stands_for(new, top, p),
            forall|t: usize|
                #[trigger] dye.contains(t) && t != p ==> self.alive(t) && self.nd(
                    t,
                ).parent.is_some(),
        ensures
            new.root_black(),
    {
        self.lemma_lacking_near(x, p, b);
        match self.root {
            None => {
                assert(new.root == mid.root) by {
                    reveal(RedBlackTree::dyed);
                }
            },
            Some(r) => {
                self.lemma_dyed_root(mid, new, dye);
                self.lemma_mend_at(mid, new, core, dye, r);
                if r != p {
                    assert(self.node_linked(r));
                    assert(!dye.contains(r));
                } else {
                    assert(self.node_linked(p));
                }
            },
        }
    }

    /// A change of colours leaves the root where it is.
    pub(crate) proof fn lemma_dyed_root(&self, mid: &RedBlackTree, new: &RedBlackTree, dye: Set<usize>)
        requires
            mid.dyed(new, dye),
        ensures
            new.root == mid.root,
    {
        reveal(RedBlackTree::dyed);
    }

    /// The sibling `b` of `x` has been lifted over the parent `p`, and the
    /// two and the children of `b` recoloured so that the rules hold among
    /// them: the tree is a red-black tree again.
    pub(crate) proof fn lemma_fix_lift(
        &self,
        s2: &RedBlackTree,
        s3: &RedBlackTree,
        x: usize,
        p: usize,
        b: usize,
        far: usize,
        near: usize,
    )
        requires
            self.lacking_at(x, p, b),
            kid(self.nd(b), !self.is_right(x)) == Some(far),
            kid(self.nd(b), self.is_right(x)) == Some(near),
            self.lift_view(s2, b),
            self.reshaped(s2, self.lift_part(b)),
            s2.dyed(s3, set![b, p, far, near]),
            self.kept_over(s3, far),
            self.kept_over(s3, near),
            Self::fits_over(s3, p, Some(near), Some(x)),
            Self::fits_over(s3, b, Some(far), Some(p)),
            self.stands_for(s3, b, p),
        ensures
            s3.linked(),
            s3.keys() == self.keys(),
            s3.count() == self.count(),
            s3.balanced(),
    {
        let sx = self.is_right(x);
        let gg = self.nd(p).parent;
        let dye = set![b, p, far, near];
        let core = self.lift_part(b);
        let part = and_opt(dye, gg);
        self.lemma_lacking_near(x, p, b);
        self.lemma_lacking_nephew(x, p, b, !sx);
        self.lemma_lacking_nephew(x, p, b, sx);
        self.lemma_mend_at(s2, s3, core, dye, b);
        self.lemma_mend_at(s2, s3, core, dye, p);
        self.lemma_mend_at(s2, s3, core, dye, x);
        self.lemma_kept(s2, s3, core, dye, far);
        self.lemma_kept(s2, s3, core, dye, near);
        assert(s3.node_heights(b) && s3.node_reds(b));
        assert(s3.node_heights(p) && s3.node_reds(p));
        if gg.is_some() {
            self.lemma_mend_at(s2, s3, core, dye, gg.unwrap());
            self.lemma_above(s2, s3, core, dye, x, p, b, b);
        }
        assert(self.fine_outside(part));
        self.lemma_mended(s2, s3, core, dye, part, None, None);
        self.lemma_root_kept(s2, s3, core, dye, x, p, b, b);
    }

    /// The colours that a repair around the near nephew `n` may change: `n`
    /// and its children, the sibling `b`, the parent `p`, and the far nephew.
    pub(crate) open spec fn bend_dye(&self, x: usize, p: usize, b: usize, far: usize, n: usize) -> Set<
        usize,
    > {
        and_opt(and_opt(set![n, b, p, far], self.nd(n).left), self.nd(n).right)
    }

    /// What `lemma_fix_bend` asks for: the near nephew `n` of `x` has been
    /// lifted over the sibling `b` and the parent `p`, and the three and the
    /// vertices below them recoloured so that the rules hold among them.
    pub(crate) open spec fn bend_fixed(
        &self,
        s2: &RedBlackTree,
        s3: &RedBlackTree,
        x: usize,
        p: usize,
        b: usize,
        far: usize,
        n: usize,
    ) -> bool {
        &&& self.lacking_at(x, p, b)
        &&& kid(self.nd(b), !self.is_right(x)) == Some(far)
        &&& kid(self.nd(b), self.is_right(x)) == Some(n)
        &&& self.bent_view(s2, n)
        &&& self.reshaped(s2, self.bent_part(n))
        &&& s2.dyed(s3, self.bend_dye(x, p, b, far, n))
        &&& self.kept_over(s3, far)
        &&& self.kept_under(s3, self.nd(n).left)
        &&& self.kept_under(s3, self.nd(n).right)
        &&& Self::fits_over(s3, b, Some(far), kid(self.nd(n), !self.is_right(x)))
        &&& Self::fits_over(s3, p, kid(self.nd(n), self.is_right(x)), Some(x))
        &&& Self::fits_over(s3, n, Some(b), Some(p))
        &&& self.stands_for(s3, n, p)
    }

    /// After such a repair the rules hold at the far nephew and at the
    /// former children of `n`.
    pub(crate) proof fn lemma_bend_below(
        &self,
        s2: &RedBlackTree,
        s3: &RedBlackTree,
        x: usize,
        p: usize,
        b: usize,
        far: usize,
        n: usize,
    )
        requires
            self.bend_fixed(s2, s3, x, p, b, far, n),
        ensures
            s3.node_heights(far) && s3.node_reds(far),
            self.nd(n).left.is_some() ==> s3.node_heights(self.nd(n).left.unwrap())
                && s3.node_reds(self.nd(n).left.unwrap()),
            self.nd(n).right.is_some() ==> s3.node_heights(self.nd(n).right.unwrap())
                && s3.node_reds(self.nd(n).right.unwrap()),
    {
        let sx = self.is_right(x);
        let dye = self.bend_dye(x, p, b, far, n);
        let core = self.bent_part(n);
        self.lemma_lacking_near(x, p, b);
        self.lemma_lacking_nephew(x, p, b, !sx);
        self.lemma_lacking_nephew(x, p, b, sx);
        self.lemma_kept(s2, s3, core, dye, far);
        if self.nd(n).left.is_some() {
            let k = self.nd(n).left.unwrap();
            assert(self.node_linked(k));
            assert(self.node_heights(k) && self.node_reds(k));
            self.lemma_kept(s2, s3, core, dye, k);
        }
        if self.nd(n).right.is_some() {
            let k = self.nd(n).right.unwrap();
            assert(self.node_linked(k));
            assert(self.node_heights(k) && self.node_reds(k));
            self.lemma_kept(s2, s3, core, dye, k);
        }
    }

    /// After such a repair the rules hold at `n`, `b` and `p`.
    pub(crate) proof fn lemma_bend_within(
        &self,
        s2: &RedBlackTree,
        s3: &RedBlackTree,
        x: usize,
        p: usize,
        b: usize,
        far: usize,
        n: usize,
    )
        requires
            self.bend_fixed(s2, s3, x, p, b, far, n),
        ensures
            s3.node_heights(b) && s3.node_reds(b),
            s3.node_heights(p) && s3.node_reds(p),
            s3.node_heights(n) && s3.node_reds(n),
    {
        let sx = self.is_right(x);
        let dye = self.bend_dye(x, p, b, far, n);
        let core = self.bent_part(n);
        self.lemma_lacking_near(x, p, b);
        self.lemma_lacking_nephew(x, p, b, sx);
        self.lemma_mend_at(s2, s3, core, dye, b);
        self.lemma_mend_at(s2, s3, core, dye, p);
        self.lemma_mend_at(s2, s3, core, dye, n);
    }

    /// The near nephew `n` of `x` has been lifted over the sibling `b` and
    /// the parent `p`, and the three and the vertices below them recoloured
    /// so that the rules hold among them: the tree is a red-black tree again.
    pub(crate) proof fn lemma_fix_bend(
        &self,
        s2: &RedBlackTree,
        s3: &RedBlackTree,
        x: usize,
        p: usize,
        b: usize,
        far: usize,
        n: usize,
    )
        requires
            self.bend_fixed(s2, s3, x, p, b, far, n),
        ensures
            s3.linked(),
            s3.keys() == self.keys(),
            s3.count() == self.count(),
            s3.balanced(),
    {
        let sx = self.is_right(x);
        let gg = self.nd(p).parent;
        let dye = self.bend_dye(x, p, b, far, n);
        let core = self.bent_part(n);
        let part = and_opt(dye, gg);
        self.lemma_lacking_near(x, p, b);
        self.lemma_lacking_nephew(x, p, b, !sx);
        self.lemma_lacking_nephew(x, p, b, sx);
        self.lemma_bend_below(s2, s3, x, p, b, far, n);
        self.lemma_bend_within(s2, s3, x, p, b, far, n);
        if gg.is_some() {
            self.lemma_mend_at(s2, s3, core, dye, gg.unwrap());
            self.lemma_above(s2, s3, core, dye, x, p, b, n);
        }
        if self.nd(n).left.is_some() {
            assert(self.node_linked(self.nd(n).left.unwrap()));
        }
        if self.nd(n).right.is_some() {
            assert(self.node_linked(self.nd(n).right.unwrap()));
        }
        assert(self.fine_outside(part));
        self.lemma_mended(s2, s3, core, dye, part, None, None);
        self.lemma_root_kept(s2, s3, core, dye, x, p, b, n);
    }

    /// The red sibling `b` of `x` has been lifted over the black parent
    /// `p`, and the red inner child `r` of the near nephew `c` over `c` and
    /// over `p`; `b` has been made black. The tree is a red-black tree
    /// again.
    pub(crate) proof fn lemma_fix_swing(
        &self,
        s2: &RedBlackTree,
        s3: &RedBlackTree,
        x: usize,
        p: usize,
        b: usize,
        c: usize,
        r: usize,
    )
        requires
            self.lacking_at(x, p, b),
            kid(self.nd(b), self.is_right(x)) == Some(c),
            kid(self.nd(c), self.is_right(x)) == Some(r),
            self.nd(p).color == Color::Black,
            self.nd(b).color == Color::Red,
            self.nd(r).color == Color::Red,
            self.kid_black(kid(self.nd(c), !self.is_right(x))),
            self.swung_view(s2, r),
            self.reshaped(s2, self.swung_part(r)),
            s2.dyed(s3, set![b, p, r]),
            s3.nd(b).color == Color::Black,
            s3.nd(p).color == Color::Black,
            s3.nd(r).color == Color::Red,
            s3.info(b).bh == self.info(x).bh + 2,
            s3.info(p).bh == self.info(x).bh + 1,
            s3.info(r).bh == self.info(x).bh + 1,
        ensures
            s3.linked(),
            s3.keys() == self.keys(),
            s3.count() == self.count(),
            s3.balanced(),
    {
        let sx = self.is_right(x);
        let gg = self.nd(p).parent;
        let dye = set![b, p, r];
        let core = self.swung_part(r);
        let part = core;
        self.lemma_lacking_near(x, p, b);
        self.lemma_lacking_nephew(x, p, b, !sx);
        self.lemma_lacking_nephew(x, p, b, sx);
        assert(self.node_linked(r));
        assert(self.node_heights(r) && self.node_reds(r));
        self.lemma_mend_at(s2, s3, core, dye, b);
        self.lemma_mend_at(s2, s3, core, dye, p);
        self.lemma_mend_at(s2, s3, core, dye, c);
        self.lemma_mend_at(s2, s3, core, dye, r);
        self.lemma_mend_at(s2, s3, core, dye, x);
        self.lemma_mend_under(s2, s3, core, dye, kid(self.nd(b), !sx));
        self.lemma_mend_under(s2, s3, core, dye, self.nd(c).left);
        self.lemma_mend_under(s2, s3, core, dye, self.nd(c).right);
        if self.nd(r).left.is_some() {
            assert(self.node_linked(self.nd(r).left.unwrap()));
        }
        if self.nd(r).right.is_some() {
            assert(self.node_linked(self.nd(r).right.unwrap()));
        }
        if kid(self.nd(c), !sx).is_some() {
            assert(self.node_linked(kid(self.nd(c), !sx).unwrap()));
        }
        self.lemma_mend_under(s2, s3, core, dye, self.nd(r).left);
        self.lemma_mend_under(s2, s3, core, dye, self.nd(r).right);
        assert(s3.node_heights(c) && s3.node_reds(c));
        assert(s3.node_heights(p) && s3.node_reds(p));
        assert(s3.node_heights(r) && s3.node_reds(r));
        assert(s3.node_heights(b) && s3.node_reds(b));
        if gg.is_some() {
            self.lemma_mend_at(s2, s3, core, dye, gg.unwrap());
            self.lemma_above(s2, s3, core, dye, x, p, b, b);
        }
        assert(self.fine_outside(part));
        self.lemma_mended(s2, s3, core, dye, part, None, None);
        self.lemma_root_kept(s2, s3, core, dye, x, p, b, b);
    }

    /// The black sibling `b` of `x`, whose children are black, has been made
    /// red, and the parent `p` black. Where `p` was red the tree is a
    /// red-black tree again; where it was black the subtree at `p` is now
    /// the one that lacks a black vertex.
    pub(crate) proof fn lemma_fix_stay(&self, s3: &RedBlackTree, x: usize, p: usize, b: usize)
        requires
            self.lacking_at(x, p, b),
            self.nd(b).color == Color::Black,
            self.kid_black(self.nd(b).left),
            self.kid_black(self.nd(b).right),
            self.dyed(s3, set![b, p]),
            s3.nd(b).color == Color::Red,
            s3.nd(p).color == Color::Black,
            s3.info(b).bh == self.info(x).bh,
            s3.info(p).bh == self.info(x).bh + 1,
        ensures
            s3.linked(),
            s3.keys() == self.keys(),
            s3.count() == self.count(),
            s3.alive(p),
            s3.info(p).first == self.info(p).first,
            s3.info(p).last == self.info(p).last,
            self.nd(p).color == Color::Red ==> s3.balanced(),
            self.nd(p).color == Color::Black ==> s3.lacking(p),
    {
        let sx = self.is_right(x);
        let gg = self.nd(p).parent;
        let dye = set![b, p];
        let core = Set::<usize>::empty();
        let up = if self.nd(p).color == Color::Black {
            gg
        } else {
            None
        };
        self.lemma_lacking_near(x, p, b);
        self.lemma_lacking_nephew(x, p, b, !sx);
        self.lemma_lacking_nephew(x, p, b, sx);
        self.lemma_reshaped_same(core);
        self.lemma_mend_at(self, s3, core, dye, b);
        self.lemma_mend_at(self, s3, core, dye, p);
        self.lemma_mend_at(self, s3, core, dye, x);
        self.lemma_mend_under(self, s3, core, dye, self.nd(b).left);
        self.lemma_mend_under(self, s3, core, dye, self.nd(b).right);
        assert(s3.node_heights(b) && s3.node_reds(b));
        assert(s3.node_heights(p) && s3.node_reds(p));
        assert(self.fine_outside(dye));
        self.lemma_mended(self, s3, core, dye, dye, up, None);
        self.lemma_dyed_at(s3, dye, p);
        self.lemma_dyed_at(s3, dye, x);
        match self.root {
            None => {},
            Some(r) => {
                self.lemma_dyed_at(s3, dye, r);
            },
        }
        if gg.is_some() {
            let g = gg.unwrap();
            self.lemma_mend_at(self, s3, core, dye, g);
            let o = self.brother(p);
            if o.is_some() {
                assert(self.alive(o.unwrap()));
                assert(self.node_linked(o.unwrap()));
                self.lemma_mend_at(self, s3, core, dye, o.unwrap());
            }
            if self.nd(p).color == Color::Black {
                assert(s3.short(g, p));
            }
        }
    }

    /// After the near nephew `n` has been lifted twice and colours have been
    /// changed among `n`, `b`, `p` and the far nephew only, the children of
    /// `n` are as they were, and all vertices have the colours and recorded
    /// heights of before but where they have been painted since.
    pub(crate) proof fn lemma_bend_ready(
        &self,
        s2: &RedBlackTree,
        s3: &RedBlackTree,
        x: usize,
        p: usize,
        b: usize,
        far: usize,
        n: usize,
    )
        requires
            self.lacking_at(x, p, b),
            kid(self.nd(b), !self.is_right(x)) == Some(far),
            kid(self.nd(b), self.is_right(x)) == Some(n),
            self.reshaped(s2, self.bent_part(n)),
            s2.recolored(s3),
            s2.slots_ok(),
            forall|i: usize|
                i < s2.nodes@.len() && i != n && i != b && i != p && i != far ==> s3.nodes@[i as int]
                    == s2.nodes@[i as int] && s3.shape@.info[i as int] == s2.shape@.info[i as int],
        ensures
            s2.dyed(s3, self.bend_dye(x, p, b, far, n)),
            self.kept_under(s3, self.nd(n).left),
            self.kept_under(s3, self.nd(n).right),
            s3.bhc(self.nd(n).left) == self.info(n).bh - self.blk(n),
            s3.bhc(self.nd(n).right) == self.info(n).bh - self.blk(n),
            self.nd(n).color == Color::Red ==> s3.kid_black(self.nd(n).left) && s3.kid_black(
                self.nd(n).right,
            ),
            s2.nd(n).color == self.nd(n).color && s2.info(n).bh == self.info(n).bh,
            s2.nd(b).color == self.nd(b).color && s2.info(b).bh == self.info(b).bh,
            s2.nd(p).color == self.nd(p).color && s2.info(p).bh == self.info(p).bh,
            s2.nd(far).color == self.nd(far).color && s2.info(far).bh == self.info(far).bh,
            s2.nd(x).color == self.nd(x).color && s2.info(x).bh == self.info(x).bh,
            s3.nd(x).color == self.nd(x).color && s3.info(x).bh == self.info(x).bh,
    {
        let sx = self.is_right(x);
        let core = self.bent_part(n);
        self.lemma_lacking_near(x, p, b);
        self.lemma_lacking_nephew(x, p, b, !sx);
        self.lemma_lacking_nephew(x, p, b, sx);
        self.lemma_reshaped_at(s2, core, n);
        self.lemma_reshaped_at(s2, core, b);
        self.lemma_reshaped_at(s2, core, p);
        self.lemma_reshaped_at(s2, core, far);
        self.lemma_reshaped_at(s2, core, x);
        s2.lemma_painted(s3, set![n, b, p, far]);
        s2.lemma_dyed_wider(s3, set![n, b, p, far], self.bend_dye(x, p, b, far, n));
        if self.nd(n).left.is_some() {
            let k = self.nd(n).left.unwrap();
            assert(self.node_linked(k));
            self.lemma_reshaped_at(s2, core, k);
        }
        if self.nd(n).right.is_some() {
            let k = self.nd(n).right.unwrap();
            assert(self.node_linked(k));
            self.lemma_reshaped_at(s2, core, k);
        }
    }

    /// Under a red sibling `b` the near nephew `c` is black and has two
    /// children.
    pub(crate) proof fn lemma_lacking_grand(&self, x: usize, p: usize, b: usize, c: usize)
        requires
            self.lacking_at(x, p, b),
            self.nd(b).color == Color::Red,
            kid(self.nd(b), self.is_right(x)) == Some(c),
        ensures
            self.alive(c),
            self.nd(c).color == Color::Black,
            self.info(c).bh == self.info(x).bh + 1,
            self.nd(c).left.is_some(),
            self.nd(c).right.is_some(),
            self.alive(self.nd(c).left.unwrap()),
            self.alive(self.nd(c).right.unwrap()),
            self.info(self.nd(c).left.unwrap()).bh == self.info(x).bh,
            self.info(self.nd(c).right.unwrap()).bh == self.info(x).bh,
            self.nd(self.nd(c).left.unwrap()).parent == Some(c),
            self.nd(self.nd(c).right.unwrap()).parent == Some(c),
            self.is_right(c) == self.is_right(x),
            self.is_right(self.nd(c).left.unwrap()) == false,
            self.is_right(self.nd(c).right.unwrap()) == true,
            self.nd(c).left != self.nd(c).right,
            self.nd(c).left != Some(c) && self.nd(c).left != Some(b) && self.nd(c).left != Some(p)
                && self.nd(c).left != Some(x),
            self.nd(c).right != Some(c) && self.nd(c).right != Some(b) && self.nd(c).right != Some(
                p,
            ) && self.nd(c).right != Some(x),
            self.nd(self.nd(c).left.unwrap()).color == Color::Red ==> self.info(
                self.nd(c).left.unwrap(),
            ).bh == self.info(x).bh,
    {
        let sx = self.is_right(x);
        self.lemma_lacking_near(x, p, b);
        self.lemma_lacking_nephew(x, p, b, sx);
        assert(self.node_linked(c));
        assert(self.node_heights(c));
        if self.nd(c).left.is_some() {
            assert(self.node_linked(self.nd(c).left.unwrap()));
        }
        if self.nd(c).right.is_some() {
            assert(self.node_linked(self.nd(c).right.unwrap()));
        }
    }

    /// `lemma_bend_ready` where colours have been changed among `n`, `p` and
    /// the child of `n` on the far side only.
    pub(crate) proof fn lemma_bend_set(
        &self,
        s2: &RedBlackTree,
        s3: &RedBlackTree,
        x: usize,
        p: usize,
        b: usize,
        far: usize,
        n: usize,
    )
        requires
            self.lacking_at(x, p, b),
            kid(self.nd(b), !self.is_right(x)) == Some(far),
            kid(self.nd(b), self.is_right(x)) == Some(n),
            kid(self.nd(n), !self.is_right(x)).is_some(),
            self.reshaped(s2, self.bent_part(n)),
            s2.recolored(s3),
            s2.slots_ok(),
            forall|i: usize|
                i < s2.nodes@.len() && i != n && i != p && Some(i) != kid(
                    self.nd(n),
                    !self.is_right(x),
                ) ==> s3.nodes@[i as int] == s2.nodes@[i as int] && s3.shape@.info[i as int]
                    == s2.shape@.info[i as int],
        ensures
            s2.dyed(s3, self.bend_dye(x, p, b, far, n)),
            self.kept_under(s3, kid(self.nd(n), self.is_right(x))),
            s3.bhc(kid(self.nd(n), self.is_right(x))) == self.info(n).bh - self.blk(n),
            self.kept_over(s3, far),
            s3.nd(far) == s2.nd(far),
            s3.info(far) == s2.info(far),
            s3.nd(b) == s2.nd(b),
            s3.info(b) == s2.info(b),
            s2.nd(n).color == self.nd(n).color && s2.info(n).bh == self.info(n).bh,
            s2.nd(b).color == self.nd(b).color && s2.info(b).bh == self.info(b).bh,
            s2.nd(p).color == self.nd(p).color && s2.info(p).bh == self.info(p).bh,
            s2.nd(far).color == self.nd(far).color && s2.info(far).bh == self.info(far).bh,
            s3.nd(x).color == self.nd(x).color && s3.info(x).bh == self.info(x).bh,
            ({
                let l = kid(self.nd(n), !self.is_right(x)).unwrap();
                s2.nd(l).color == self.nd(l).color && s2.info(l).bh == self.info(l).bh
            }),
    {
        let sx = self.is_right(x);
        let core = self.bent_part(n);
        let l = kid(self.nd(n), !sx).unwrap();
        self.lemma_lacking_near(x, p, b);
        self.lemma_lacking_nephew(x, p, b, !sx);
        self.lemma_lacking_nephew(x, p, b, sx);
        assert(self.node_linked(l));
        self.lemma_reshaped_at(s2, core, n);
        self.lemma_reshaped_at(s2, core, b);
        self.lemma_reshaped_at(s2, core, p);
        self.lemma_reshaped_at(s2, core, far);
        self.lemma_reshaped_at(s2, core, x);
        self.lemma_reshaped_at(s2, core, l);
        s2.lemma_painted(s3, set![n, p, l]);
        s2.lemma_dyed_wider(s3, set![n, p, l], self.bend_dye(x, p, b, far, n));
        if kid(self.nd(n), sx).is_some() {
            let k = kid(self.nd(n), sx).unwrap();
            assert(self.node_linked(k));
            self.lemma_reshaped_at(s2, core, k);
        }
    }
}

} // verus!
