// Reading and writing single vertices: parent, sibling, side, colour, key.
use vstd::prelude::*;
use crate::rbtree_mod::{Color, Node, RedBlackTree};

verus! {

impl RedBlackTree {
    /// The sibling of `x`: the other child of its parent.
    pub(crate) open spec fn brother(&self, x: usize) -> Option<usize> {
        match self.nd(x).parent {
            None => None,
            Some(p) => if self.nd(p).left == Some(x) {
                self.nd(p).right
            } else {
                self.nd(p).left
            },
        }
    }

    /// `x` is the left child of its parent.
    pub(crate) open spec fn is_left(&self, x: usize) -> bool {
        match self.nd(x).parent {
            None => false,
            Some(p) => self.nd(p).left == Some(x),
        }
    }

    /// `x` is the right child of its parent.
    pub(crate) open spec fn is_right(&self, x: usize) -> bool {
        match self.nd(x).parent {
            None => false,
            Some(p) => self.nd(p).right == Some(x),
        }
    }

    /// The parent of `x`, absent for the root.
    pub(crate) fn get_parent(&self, x: usize) -> (p: Option<usize>)
        requires
            x < self.nodes@.len(),
        ensures
            p == self.nd(x).parent,
    {
        self.nodes[x].parent
    }

    /// The sibling of `x`, absent where `x` has no parent or is an only
    /// child.
    pub(crate) fn get_brother(&self, x: usize) -> (b: Option<usize>)
        requires
            self.linked(),
            self.alive(x),
        ensures
            b == self.brother(x),
    {
        proof {
            assert(self.node_linked(x));
        }
        match self.get_parent(x) {
            None => None,
            Some(p) => {
                if opt_is(self.nodes[p].left, x) {
                    self.nodes[p].right
                } else {
                    self.nodes[p].left
                }
            },
        }
    }

    /// Whether `x` is the left child of its parent.
    pub(crate) fn is_left_node(&self, x: usize) -> (r: bool)
        requires
            self.linked(),
            self.alive(x),
        ensures
            r == self.is_left(x),
    {
        proof {
            assert(self.node_linked(x));
        }
        match self.get_parent(x) {
            None => false,
            Some(p) => opt_is(self.nodes[p].left, x),
        }
    }

    /// Whether `x` is the right child of its parent.
    pub(crate) fn is_right_node(&self, x: usize) -> (r: bool)
        requires
            self.linked(),
            self.alive(x),
        ensures
            r == self.is_right(x),
    {
        proof {
            assert(self.node_linked(x));
        }
        match self.get_parent(x) {
            None => false,
            Some(p) => opt_is(self.nodes[p].right, x),
        }
    }

    /// Gives vertex `x` the colour `color`.
    pub(crate) fn set_color(&mut self, x: usize, color: Color)
        requires
            x < old(self).nodes@.len(),
        ensures
            final(self).nodes@ == old(self).nodes@.update(
                x as int,
                (Node { color: color, ..old(self).nd(x) }),
            ),
            final(self).free == old(self).free,
            final(self).root == old(self).root,
            final(self).len == old(self).len,
            final(self).shape == old(self).shape,
    {
        self.nodes[x].color = color;
    }

    /// Gives vertex `i` the colour `color` and records `bh` as the black
    /// height of its subtree.
    pub(crate) fn paint(&mut self, i: usize, color: Color, Ghost(bh): Ghost<nat>)
        requires
            old(self).slots_ok(),
            i < old(self).nodes@.len(),
        ensures
            final(self).nodes@ == old(self).nodes@.update(
                i as int,
                (Node { color: color, ..old(self).nd(i) }),
            ),
            final(self).shape@ == old(self).shape@.with_bh(i, bh),
            final(self).free == old(self).free,
            final(self).root == old(self).root,
            final(self).len == old(self).len,
            final(self).slots_ok(),
            old(self).recolored(final(self)),
            old(self).dyed(final(self), set![i]),
    {
        self.set_color(i, color);
        proof {
            self.shape = Ghost(self.shape@.with_bh(i, bh));
            old(self).lemma_painted(self, set![i]);
        }
    }

    /// Exchanges the keys of vertices `a` and `b`.
    pub(crate) fn swap_value(&mut self, a: usize, b: usize)
        requires
            a < old(self).nodes@.len(),
            b < old(self).nodes@.len(),
        ensures
            final(self).nodes@ == old(self).nodes@.update(
                a as int,
                (Node { value: old(self).nd(b).value, ..old(self).nd(a) }),
            ).update(
                b as int,
                (Node {
                    value: old(self).nd(a).value,
                    ..if a == b {
                        (Node { value: old(self).nd(b).value, ..old(self).nd(a) })
                    } else {
                        old(self).nd(b)
                    }
                }),
            ),
            final(self).free == old(self).free,
            final(self).root == old(self).root,
            final(self).len == old(self).len,
            final(self).shape == old(self).shape,
    {
        let va: i32 = self.nodes[a].value;
        let vb: i32 = self.nodes[b].value;
        self.nodes[a].value = vb;
        self.nodes[b].value = va;
    }
}

/// Whether the link `c` leads to slot `x`.
pub(crate) fn opt_is(c: Option<usize>, x: usize) -> (r: bool)
    ensures
        r == (c == Some(x)),
{
    match c {
        None => false,
        Some(i) => i == x,
    }
}

} // verus!
