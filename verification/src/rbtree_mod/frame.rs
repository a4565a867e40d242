// Changes within a part of the tree: what they leave as it was, and when
// the colour rules hold again everywhere.
use vstd::prelude::*;
use crate::rbtree_mod::{Color, Info, Node, RedBlackTree, Shape};

verus! {

impl RedBlackTree {
    /// `new` differs from this tree in colours and recorded black heights
    /// only.
    pub(crate) open spec fn recolored(&self, new: &RedBlackTree) -> bool {
        &&& new.nodes@.len() == self.nodes@.len()
        &&& new.shape@.info.len() == self.shape@.info.len()
        &&& new.shape@.order == self.shape@.order
        &&& new.free == self.free
        &&& new.len == self.len
        &&& new.root == self.root
        &&& forall|i: usize|
            i < self.nodes@.len() ==> #[trigger] new.nd(i) == (Node {
                color: new.nd(i).color,
                ..self.nd(i)
            })
        &&& forall|i: usize|
            i < self.shape@.info.len() ==> #[trigger] new.info(i) == (Info {
                bh: new.info(i).bh,
                ..self.info(i)
            })
    }

    /// Colours play no part in the links or the keys.
    pub(crate) proof fn lemma_recolored(&self, new: &RedBlackTree)
        requires
            self.linked(),
            self.recolored(new),
        ensures
            new.linked(),
            new.keys() == self.keys(),
    {
        assert forall|i: usize| new.alive(i) implies #[trigger] new.node_linked(i) by {
            assert(new.info(i) == (Info { bh: new.info(i).bh, ..self.info(i) }));
            assert(new.nd(i) == (Node { color: new.nd(i).color, ..self.nd(i) }));
            assert(self.node_linked(i));
            let m = self.nd(i);
            if m.left.is_some() {
                let c = m.left.unwrap();
                assert(new.info(c) == (Info { bh: new.info(c).bh, ..self.info(c) }));
                assert(new.nd(c) == (Node { color: new.nd(c).color, ..self.nd(c) }));
            }
            if m.right.is_some() {
                let c = m.right.unwrap();
                assert(new.info(c) == (Info { bh: new.info(c).bh, ..self.info(c) }));
                assert(new.nd(c) == (Node { color: new.nd(c).color, ..self.nd(c) }));
            }
            if m.parent.is_some() {
                let c = m.parent.unwrap();
                assert(new.info(c) == (Info { bh: new.info(c).bh, ..self.info(c) }));
                assert(new.nd(c) == (Node { color: new.nd(c).color, ..self.nd(c) }));
            }
        }
        assert forall|t: int| 0 <= t < new.shape@.order.len() implies new.alive(
            #[trigger] new.shape@.order[t],
        ) && new.shape@.info[new.shape@.order[t] as int].pos == t by {
            let i = self.shape@.order[t];
            assert(self.alive(i));
            assert(new.info(i) == (Info { bh: new.info(i).bh, ..self.info(i) }));
        }
        assert forall|k: int| 0 <= k < new.free@.len() implies (#[trigger] new.free@[k])
            < new.nodes@.len() && !new.shape@.info[new.free@[k] as int].live by {
            let i = self.free@[k];
            assert(new.info(i) == (Info { bh: new.info(i).bh, ..self.info(i) }));
        }
        match new.root {
            None => {},
            Some(r) => {
                assert(new.info(r) == (Info { bh: new.info(r).bh, ..self.info(r) }));
                assert(new.nd(r) == (Node { color: new.nd(r).color, ..self.nd(r) }));
            },
        }
        assert(new.keys() =~= self.keys()) by {
            assert forall|t: int| 0 <= t < self.shape@.order.len() implies new.nodes@[self.shape@.order[t] as int].value
                == self.nodes@[self.shape@.order[t] as int].value by {
                let i = self.shape@.order[t];
                assert(self.alive(i));
                assert(new.nd(i) == (Node { color: new.nd(i).color, ..self.nd(i) }));
            }
        }
    }

    /// The colour rules hold, but for the colour of the root.
    pub(crate) open spec fn settled(&self) -> bool {
        &&& forall|i: usize| self.alive(i) ==> #[trigger] self.node_heights(i)
        &&& forall|i: usize| self.alive(i) ==> #[trigger] self.node_reds(i)
    }

    /// Slot `i` has in `new` the colour, the children and the recorded black
    /// height that it has in this tree.
    pub(crate) open spec fn same_hue(&self, new: &RedBlackTree, i: usize) -> bool {
        &&& new.nd(i).color == self.nd(i).color
        &&& new.nd(i).left == self.nd(i).left
        &&& new.nd(i).right == self.nd(i).right
        &&& new.info(i).bh == self.info(i).bh
    }

    /// Slot `t` looks in `new` to its parent as it does in this tree: the
    /// same black height, and black if it was black.
    pub(crate) open spec fn same_face(&self, new: &RedBlackTree, t: usize) -> bool {
        &&& new.info(t).bh == self.info(t).bh
        &&& self.nd(t).color == Color::Black ==> new.nd(t).color == Color::Black
    }

    /// Slot `t` is in `new` black if it is black in this tree.
    pub(crate) open spec fn same_tint(&self, new: &RedBlackTree, t: usize) -> bool {
        self.nd(t).color == Color::Black ==> new.nd(t).color == Color::Black
    }

    /// The colour rules hold at every vertex outside `part`.
    pub(crate) open spec fn fine_outside(&self, part: Set<usize>) -> bool {
        &&& forall|i: usize| self.alive(i) && !part.contains(i) ==> #[trigger] self.node_heights(i)
        &&& forall|i: usize| self.alive(i) && !part.contains(i) ==> #[trigger] self.node_reds(i)
    }

    /// `new` is this tree changed within `part` only, the colour rules hold
    /// in `new` at the vertices of `part`, and a vertex of `part` whose
    /// parent is outside looks to that parent as before. Where `up` is
    /// given, nothing is said of the height of the vertex below `up`; where
    /// `loose` is given, nothing is said of red children of `loose`.
    pub(crate) open spec fn patched(
        &self,
        new: &RedBlackTree,
        part: Set<usize>,
        up: Option<usize>,
        loose: Option<usize>,
    ) -> bool {
        &&& new.nodes@.len() == self.nodes@.len()
        &&& forall|i: usize| #[trigger] new.alive(i) ==> self.alive(i)
        &&& forall|i: usize|
            self.alive(i) && !part.contains(i) ==> #[trigger] self.same_hue(new, i)
        &&& forall|t: usize|
            new.alive(t) && part.contains(t) && Some(t) != up ==> #[trigger] new.node_heights(t)
        &&& forall|t: usize|
            new.alive(t) && part.contains(t) && Some(t) != loose ==> #[trigger] new.node_reds(t)
        &&& forall|t: usize|
            self.alive(t) && part.contains(t) && self.nd(t).parent.is_some() && !part.contains(
                self.nd(t).parent.unwrap(),
            ) ==> (#[trigger] new.nd(t)).color == self.nd(t).color || new.nd(t).color
                == Color::Black
        &&& forall|t: usize|
            self.alive(t) && part.contains(t) && self.nd(t).parent.is_some() && !part.contains(
                self.nd(t).parent.unwrap(),
            ) && self.nd(t).parent != up ==> (#[trigger] new.info(t)).bh == self.info(t).bh
    }

    /// A change within a part of the tree that keeps the colour rules inside
    /// the part, and the look of the part from outside, keeps them
    /// everywhere.
    pub(crate) proof fn lemma_patched(
        &self,
        new: &RedBlackTree,
        part: Set<usize>,
        up: Option<usize>,
        loose: Option<usize>,
    )
        requires
            self.linked(),
            self.fine_outside(part),
            self.patched(new, part, up, loose),
        ensures
            forall|i: usize| new.alive(i) && Some(i) != up ==> #[trigger] new.node_heights(i),
            forall|i: usize| new.alive(i) && Some(i) != loose ==> #[trigger] new.node_reds(i),
    {
        assert forall|i: usize| new.alive(i) && Some(i) != up implies #[trigger] new.node_heights(
            i,
        ) by {
            assert(self.alive(i));
            if !part.contains(i) {
                self.lemma_patched_at(new, part, up, loose, i);
            }
        }
        assert forall|i: usize| new.alive(i) && Some(i) != loose implies #[trigger] new.node_reds(
            i,
        ) by {
            assert(self.alive(i));
            if !part.contains(i) {
                self.lemma_patched_at(new, part, up, loose, i);
            }
        }
    }

    /// `lemma_patched` at one vertex outside the part.
    pub(crate) proof fn lemma_patched_at(
        &self,
        new: &RedBlackTree,
        part: Set<usize>,
        up: Option<usize>,
        loose: Option<usize>,
        i: usize,
    )
        requires
            self.linked(),
            self.fine_outside(part),
            self.patched(new, part, up, loose),
            self.alive(i),
            !part.contains(i),
        ensures
            new.node_reds(i),
            Some(i) != up ==> new.node_heights(i),
    {
        assert(self.node_linked(i));
        assert(self.node_heights(i));
        assert(self.node_reds(i));
        assert(self.same_hue(new, i));
        let n = self.nd(i);
        if n.left.is_some() {
            let c = n.left.unwrap();
            assert(self.alive(c));
            if part.contains(c) {
                assert(new.nd(c).color == self.nd(c).color || new.nd(c).color == Color::Black);
                if Some(i) != up {
                    assert(new.info(c).bh == self.info(c).bh);
                }
            } else {
                assert(self.same_hue(new, c));
            }
        }
        if n.right.is_some() {
            let c = n.right.unwrap();
            assert(self.alive(c));
            if part.contains(c) {
                assert(new.nd(c).color == self.nd(c).color || new.nd(c).color == Color::Black);
                if Some(i) != up {
                    assert(new.info(c).bh == self.info(c).bh);
                }
            } else {
                assert(self.same_hue(new, c));
            }
        }
    }

    /// `new` is this tree with child links changed within `part` only: the
    /// same vertices with the same keys, colours and recorded black heights,
    /// linked into a tree with the same in-order walk.
    #[verifier::opaque]
    pub(crate) open spec fn reshaped(&self, new: &RedBlackTree, part: Set<usize>) -> bool {
        &&& new.nodes@.len() == self.nodes@.len()
        &&& new.shape@.info.len() == self.shape@.info.len()
        &&& self.shape@.info.len() == self.nodes@.len()
        &&& new.linked()
        &&& new.keys() == self.keys()
        &&& new.count() == self.count()
        &&& forall|i: usize|
            i < self.nodes@.len() ==> (#[trigger] new.nd(i)).color == self.nd(i).color
        &&& forall|i: usize|
            i < self.nodes@.len() ==> (#[trigger] new.info(i)).bh == self.info(i).bh && new.info(
                i,
            ).live == self.info(i).live
        &&& forall|i: usize|
            i < self.nodes@.len() && !part.contains(i) ==> (#[trigger] new.nd(i)).left == self.nd(
                i,
            ).left && new.nd(i).right == self.nd(i).right
    }

    /// `new` is this tree with colours and recorded black heights changed
    /// within `part` only.
    #[verifier::opaque]
    pub(crate) open spec fn dyed(&self, new: &RedBlackTree, part: Set<usize>) -> bool {
        &&& self.recolored(new)
        &&& forall|i: usize|
            i < self.nodes@.len() && !part.contains(i) ==> (#[trigger] new.nd(i)).color == self.nd(
                i,
            ).color
        &&& forall|i: usize|
            i < self.nodes@.len() && !part.contains(i) ==> (#[trigger] new.info(i)).bh
                == self.info(i).bh
    }

    /// What a change of links within `core` followed by a change of colours
    /// within `dye` says of slot `i`.
    pub(crate) proof fn lemma_mend_at(
        &self,
        mid: &RedBlackTree,
        new: &RedBlackTree,
        core: Set<usize>,
        dye: Set<usize>,
        i: usize,
    )
        requires
            self.reshaped(mid, core),
            mid.dyed(new, dye),
            i < self.nodes@.len(),
        ensures
            new.alive(i) == self.alive(i),
            new.nd(i).left == mid.nd(i).left,
            new.nd(i).right == mid.nd(i).right,
            !core.contains(i) ==> new.nd(i).left == self.nd(i).left && new.nd(i).right == self.nd(
                i,
            ).right,
            !dye.contains(i) ==> new.nd(i).color == self.nd(i).color && new.info(i).bh == self.info(
                i,
            ).bh,
            !core.contains(i) && !dye.contains(i) ==> self.same_hue(new, i),
    {
        reveal(RedBlackTree::reshaped);
        reveal(RedBlackTree::dyed);
        assert(new.nd(i) == (Node { color: new.nd(i).color, ..mid.nd(i) }));
        assert(new.info(i) == (Info { bh: new.info(i).bh, ..mid.info(i) }));
        assert(mid.nd(i).color == self.nd(i).color);
        assert(mid.info(i).bh == self.info(i).bh);
    }

    /// `lemma_mend_at` for the vertex behind a link.
    pub(crate) proof fn lemma_mend_under(
        &self,
        mid: &RedBlackTree,
        new: &RedBlackTree,
        core: Set<usize>,
        dye: Set<usize>,
        c: Option<usize>,
    )
        requires
            self.reshaped(mid, core),
            mid.dyed(new, dye),
            c.is_some() ==> c.unwrap() < self.nodes@.len(),
        ensures
            c.is_some() ==> ({
                let i = c.unwrap();
                &&& new.alive(i) == self.alive(i)
                &&& !core.contains(i) ==> new.nd(i).left == self.nd(i).left && new.nd(i).right
                    == self.nd(i).right
                &&& !dye.contains(i) ==> new.nd(i).color == self.nd(i).color && new.info(i).bh
                    == self.info(i).bh
            }),
    {
        if c.is_some() {
            self.lemma_mend_at(mid, new, core, dye, c.unwrap());
        }
    }

    /// A change of links and colours within a part of the tree, after which
    /// the colour rules hold inside the part and the part looks from outside
    /// as before, gives a tree in which they hold everywhere.
    pub(crate) proof fn lemma_mended(
        &self,
        mid: &RedBlackTree,
        new: &RedBlackTree,
        core: Set<usize>,
        dye: Set<usize>,
        part: Set<usize>,
        up: Option<usize>,
        loose: Option<usize>,
    )
        requires
            self.linked(),
            self.fine_outside(part),
            self.reshaped(mid, core),
            mid.dyed(new, dye),
            core.subset_of(part),
            dye.subset_of(part),
            forall|t: usize| self.alive(t) && part.contains(t) ==> #[trigger] new.node_heights(t),
            forall|t: usize|
                self.alive(t) && part.contains(t) && Some(t) != loose ==> #[trigger] new.node_reds(
                    t,
                ),
            forall|t: usize|
                self.alive(t) && part.contains(t) && self.nd(t).parent.is_some() && !part.contains(
                    self.nd(t).parent.unwrap(),
                ) ==> #[trigger] self.same_tint(new, t) && (self.nd(t).parent != up
                    ==> self.same_face(new, t)),
        ensures
            new.linked(),
            new.keys() == self.keys(),
            new.count() == self.count(),
            forall|i: usize| new.alive(i) && Some(i) != up ==> #[trigger] new.node_heights(i),
            forall|i: usize| new.alive(i) && Some(i) != loose ==> #[trigger] new.node_reds(i),
    {
        assert(new.linked() && new.keys() == self.keys() && new.count() == self.count()
            && new.nodes@.len() == self.nodes@.len()) by {
            reveal(RedBlackTree::reshaped);
            reveal(RedBlackTree::dyed);
            mid.lemma_recolored(new);
        }
        assert forall|i: usize| #[trigger] new.alive(i) implies self.alive(i) by {
            self.lemma_mend_at(mid, new, core, dye, i);
        }
        assert forall|t: usize|
            new.alive(t) && part.contains(t) && Some(t) != up implies #[trigger] new.node_heights(
            t,
        ) by {
            self.lemma_mend_at(mid, new, core, dye, t);
        }
        assert forall|t: usize|
            new.alive(t) && part.contains(t) && Some(t) != loose implies #[trigger] new.node_reds(
            t,
        ) by {
            self.lemma_mend_at(mid, new, core, dye, t);
        }
        assert forall|i: usize| self.alive(i) && !part.contains(i) implies #[trigger] self.same_hue(
            new,
            i,
        ) by {
            self.lemma_mend_at(mid, new, core, dye, i);
        }
        assert forall|t: usize|
            self.alive(t) && part.contains(t) && self.nd(t).parent.is_some() && !part.contains(
                self.nd(t).parent.unwrap(),
            ) implies (#[trigger] new.nd(t)).color == self.nd(t).color || new.nd(t).color
            == Color::Black by {
            assert(self.same_tint(new, t));
        }
        assert forall|t: usize|
            self.alive(t) && part.contains(t) && self.nd(t).parent.is_some() && !part.contains(
                self.nd(t).parent.unwrap(),
            ) && self.nd(t).parent != up implies (#[trigger] new.info(t)).bh == self.info(t).bh by {
            assert(self.same_tint(new, t));
        }
        assert(self.patched(new, part, up, loose));
        self.lemma_patched(new, part, up, loose);
    }

    /// What a change of colours within `part` says of slot `i`.
    pub(crate) proof fn lemma_dyed_at(&self, new: &RedBlackTree, part: Set<usize>, i: usize)
        requires
            self.dyed(new, part),
            i < self.nodes@.len(),
            self.shape@.info.len() == self.nodes@.len(),
        ensures
            new.nd(i) == (Node { color: new.nd(i).color, ..self.nd(i) }),
            new.info(i) == (Info { bh: new.info(i).bh, ..self.info(i) }),
            !part.contains(i) ==> new.nd(i) == self.nd(i) && new.info(i) == self.info(i),
            new.root == self.root,
    {
        reveal(RedBlackTree::dyed);
        assert(new.nd(i) == (Node { color: new.nd(i).color, ..self.nd(i) }));
        assert(new.info(i) == (Info { bh: new.info(i).bh, ..self.info(i) }));
    }

    /// A change of colours within a set is one within every larger set.
    pub(crate) proof fn lemma_dyed_wider(
        &self,
        new: &RedBlackTree,
        part: Set<usize>,
        more: Set<usize>,
    )
        requires
            self.dyed(new, part),
            part.subset_of(more),
        ensures
            self.dyed(new, more),
    {
        reveal(RedBlackTree::dyed);
    }

    /// A reshaping changes no colour and no recorded black height.
    pub(crate) proof fn lemma_reshaped_at(&self, new: &RedBlackTree, core: Set<usize>, i: usize)
        requires
            self.reshaped(new, core),
            i < self.nodes@.len(),
        ensures
            new.nd(i).color == self.nd(i).color,
            new.info(i).bh == self.info(i).bh,
            new.alive(i) == self.alive(i),
            new.nodes@.len() == self.nodes@.len(),
            new.shape@.info.len() == new.nodes@.len(),
            new.count() == self.count(),
    {
        reveal(RedBlackTree::reshaped);
        assert(new.nd(i).color == self.nd(i).color);
        assert(new.info(i).bh == self.info(i).bh);
    }

    /// One reshaping after another is a reshaping within both parts.
    pub(crate) proof fn lemma_reshaped_twice(
        &self,
        mid: &RedBlackTree,
        new: &RedBlackTree,
        one: Set<usize>,
        two: Set<usize>,
        part: Set<usize>,
    )
        requires
            self.reshaped(mid, one),
            mid.reshaped(new, two),
            one.subset_of(part),
            two.subset_of(part),
        ensures
            self.reshaped(new, part),
    {
        reveal(RedBlackTree::reshaped);
        assert forall|i: usize| i < self.nodes@.len() implies (#[trigger] new.nd(i)).color
            == self.nd(i).color by {
            assert(mid.nd(i).color == self.nd(i).color);
        }
        assert forall|i: usize| i < self.nodes@.len() implies (#[trigger] new.info(i)).bh
            == self.info(i).bh && new.info(i).live == self.info(i).live by {
            assert(mid.info(i).bh == self.info(i).bh);
        }
        assert forall|i: usize| i < self.nodes@.len() && !part.contains(i) implies (
        #[trigger] new.nd(i)).left == self.nd(i).left && new.nd(i).right == self.nd(i).right by {
            assert(mid.nd(i).left == self.nd(i).left);
        }
    }

    /// Painting slots one after another is a change of colours within the
    /// set of them.
    pub(crate) proof fn lemma_painted(&self, new: &RedBlackTree, part: Set<usize>)
        requires
            self.slots_ok(),
            self.recolored(new),
            forall|i: usize|
                i < self.nodes@.len() && !part.contains(i) ==> new.nodes@[i as int]
                    == self.nodes@[i as int] && new.shape@.info[i as int]
                    == self.shape@.info[i as int],
        ensures
            self.dyed(new, part),
    {
        reveal(RedBlackTree::dyed);
    }

    /// A tree is a reshaping of itself.
    pub(crate) proof fn lemma_reshaped_same(&self, part: Set<usize>)
        requires
            self.linked(),
        ensures
            self.reshaped(self, part),
    {
        reveal(RedBlackTree::reshaped);
    }
}

impl Shape {
    /// The shape with `bh` recorded as the black height of slot `i`.
    pub(crate) open spec fn with_bh(self, i: usize, bh: nat) -> Shape {
        Shape { order: self.order, info: self.info.update(i as int, Info { bh: bh, ..self.info[i as int] }) }
    }
}

} // verus!
