// Insertion of a key: attaching a red leaf and restoring the colour rules.
use vstd::prelude::*;
use crate::rbtree_mod::rotate::{and_opt, kid, with_kid};
use crate::rbtree_mod::{Color, Info, Node, RedBlackTree, Shape};

verus! {

/// The record of a slot after a vertex has been put at rank `t`, next to the
/// vertex of rank `c`, as a child of that vertex.
pub(crate) open spec fn shifted(f: Info, c: int, t: int) -> Info {
    Info {
        pos: if f.pos >= t {
            f.pos + 1
        } else {
            f.pos
        },
        first: if f.first > c {
            f.first + 1
        } else {
            f.first
        },
        last: if f.last > c {
            f.last + 1
        } else {
            f.last
        },
        ..f
    }
}

impl RedBlackTree {
    /// The rank at which a new child of `pv` on the given side stands.
    pub(crate) open spec fn rank_under(&self, pv: usize, right: bool) -> int {
        if right {
            self.info(pv).pos + 1
        } else {
            self.info(pv).pos
        }
    }

    /// The ghost record of slot `i` after slot `x` has become a red leaf
    /// under `pv`.
    pub(crate) open spec fn attached_info(&self, pv: usize, right: bool, x: usize, i: usize) -> Info {
        let t = self.rank_under(pv, right);
        if i == x {
            Info { live: true, pos: t, first: t, last: t + 1, bh: 0 }
        } else if i < self.shape@.info.len() {
            shifted(self.info(i), self.info(pv).pos, t)
        } else {
            Info { live: false, pos: 0, first: 0, last: 0, bh: 0 }
        }
    }

    /// `new` is this tree with the key `value` in the fresh slot `x`, hung
    /// as a red leaf under `pv`.
    pub(crate) open spec fn attached(
        &self,
        new: &RedBlackTree,
        pv: usize,
        right: bool,
        x: usize,
        value: i32,
    ) -> bool {
        &&& self.placed(new, x)
        &&& new.nd(x) == (Node {
            value: value,
            color: Color::Red,
            left: None,
            right: None,
            parent: Some(pv),
        })
        &&& new.nd(pv) == with_kid(self.nd(pv), right, Some(x))
        &&& forall|i: usize|
            i < self.nodes@.len() && i != x && i != pv ==> #[trigger] new.nd(i) == self.nd(i)
        &&& forall|i: usize|
            i < new.nodes@.len() ==> #[trigger] new.info(i) == self.attached_info(pv, right, x, i)
        &&& new.shape@.order == self.shape@.order.insert(self.rank_under(pv, right), x)
        &&& new.root == self.root
    }

    /// `new` has taken the unused slot `x` into use: either the last of the
    /// free list, or a slot added at the end of the arena.
    pub(crate) open spec fn placed(&self, new: &RedBlackTree, x: usize) -> bool {
        &&& new.shape@.info.len() == new.nodes@.len()
        &&& new.len == self.len + 1
        &&& x < new.nodes@.len()
        &&& if self.free@.len() > 0 {
            &&& x == self.free@.last()
            &&& new.free@ == self.free@.drop_last()
            &&& new.nodes@.len() == self.nodes@.len()
        } else {
            &&& x == self.nodes@.len()
            &&& new.free@ == self.free@
            &&& new.nodes@.len() == self.nodes@.len() + 1
        }
    }

    /// A red vertex `i` has no red child other than `x`.
    pub(crate) open spec fn node_reds_but(&self, i: usize, x: usize) -> bool {
        self.nd(i).color == Color::Red ==> (self.nd(i).left == Some(x) || self.kid_black(
            self.nd(i).left,
        )) && (self.nd(i).right == Some(x) || self.kid_black(self.nd(i).right))
    }

    /// The colour rules hold but for `x`: it may be red under a red parent,
    /// and it may be a red root.
    pub(crate) open spec fn almost(&self, x: usize) -> bool {
        &&& self.root == Some(x) || self.root_black()
        &&& forall|i: usize| self.alive(i) ==> #[trigger] self.node_heights(i)
        &&& forall|i: usize| self.alive(i) ==> #[trigger] self.node_reds_but(i, x)
    }

    /// Hanging a red leaf under the vertex at which a search for its key
    /// ended keeps the tree linked and sorted, and breaks the colour rules at
    /// most between the leaf and its parent.
    pub(crate) proof fn lemma_attached(
        &self,
        new: &RedBlackTree,
        pv: usize,
        right: bool,
        x: usize,
        value: i32,
    )
        requires
            self.linked(),
            self.sorted(),
            self.balanced(),
            self.attach_point(pv, value),
            value != self.nd(pv).value,
            right == (value > self.nd(pv).value),
            self.attached(new, pv, right, x, value),
        ensures
            new.linked(),
            new.alive(x),
            new.keys() == self.keys().insert(self.rank_under(pv, right), value),
            new.sorted(),
            new.almost(x),
            new@ == self@.insert(value),
    {
        let c = self.info(pv).pos;
        let t = self.rank_under(pv, right);
        let n = self.count();
        assert(self.node_linked(pv));
        assert(!self.alive(x)) by {
            if self.free@.len() > 0 {
                assert(self.free@[self.free@.len() - 1] == x);
            }
        }
        assert(new.info(x) == self.attached_info(pv, right, x, x));
        assert(new.info(pv) == self.attached_info(pv, right, x, pv));
        assert forall|s: int| 0 <= s < new.shape@.order.len() implies new.alive(
            #[trigger] new.shape@.order[s],
        ) && new.shape@.info[new.shape@.order[s] as int].pos == s by {
            let i = new.shape@.order[s];
            if s < t {
                assert(i == self.shape@.order[s]);
                assert(self.alive(i));
            } else if s > t {
                assert(i == self.shape@.order[s - 1]);
                assert(self.alive(i));
            }
            assert(new.info(i) == self.attached_info(pv, right, x, i));
        }
        assert forall|k: int| 0 <= k < new.free@.len() implies (#[trigger] new.free@[k])
            < new.nodes@.len() && !new.shape@.info[new.free@[k] as int].live by {
            let i = new.free@[k];
            assert(i == self.free@[k]);
            assert(new.info(i) == self.attached_info(pv, right, x, i));
            if self.free@.len() > 0 {
                assert(self.free@[k] != self.free@[self.free@.len() - 1]);
            }
        }
        assert forall|a: int, b: int| 0 <= a < b < new.free@.len() implies #[trigger] new.free@[a]
            != #[trigger] new.free@[b] by {
            assert(new.free@[a] == self.free@[a]);
            assert(new.free@[b] == self.free@[b]);
        }
        assert(new.slots_ok());
        assert forall|i: usize| new.alive(i) implies #[trigger] new.node_linked(i) by {
            assert(new.info(i) == self.attached_info(pv, right, x, i));
            let m = new.nd(i);
            let f = new.info(i);
            if i != x {
                assert(self.alive(i));
                assert(self.node_linked(i));
                if i != pv {
                    assert(new.nd(i) == self.nd(i));
                    assert(self.info(i).pos != c);
                }
                if m.left.is_some() {
                    let l = m.left.unwrap();
                    assert(new.info(l) == self.attached_info(pv, right, x, l));
                    if l != x && l != pv {
                        assert(new.nd(l) == self.nd(l));
                    }
                }
                if m.right.is_some() {
                    let r = m.right.unwrap();
                    assert(new.info(r) == self.attached_info(pv, right, x, r));
                    if r != x && r != pv {
                        assert(new.nd(r) == self.nd(r));
                    }
                }
                if m.parent.is_some() {
                    let q = m.parent.unwrap();
                    assert(new.info(q) == self.attached_info(pv, right, x, q));
                    if q != pv {
                        assert(new.nd(q) == self.nd(q));
                    }
                }
                assert(new.shape@.order[f.pos] == i);
                assert(new.kid_linked(i, m.left, f.first, f.pos));
                assert(new.kid_linked(i, m.right, f.pos + 1, f.last));
            }
        }
        match new.root {
            None => {},
            Some(r) => {
                assert(new.info(r) == self.attached_info(pv, right, x, r));
                if r != pv {
                    assert(new.nd(r) == self.nd(r));
                }
            },
        }
        assert(new.linked());
        assert(new.keys() =~= self.keys().insert(t, value)) by {
            assert forall|s: int| 0 <= s < new.keys().len() implies new.keys()[s]
                == self.keys().insert(t, value)[s] by {
                let i = new.shape@.order[s];
                if s < t {
                    assert(i == self.shape@.order[s]);
                    assert(self.alive(i));
                    self.lemma_key_at(i);
                    assert(self.info(i).pos == s);
                    assert(i != pv || new.nd(i).value == self.nd(i).value);
                    assert(new.nd(i).value == self.nd(i).value);
                } else if s > t {
                    assert(i == self.shape@.order[s - 1]);
                    assert(self.alive(i));
                    assert(new.nd(i).value == self.nd(i).value);
                }
            }
        }
        assert(new.sorted()) by {
            let ks = self.keys();
            assert forall|a: int, b: int| 0 <= a < b < new.count() implies #[trigger] new.keys()[a]
                < #[trigger] new.keys()[b] by {
                if b < t {
                    assert(ks[a] < ks[b]);
                } else if b == t {
                    assert(ks[a] < value);
                } else if a < t {
                    assert(ks[a] < ks[b - 1]);
                } else if a == t {
                    assert(value < ks[b - 1]);
                } else {
                    assert(ks[a - 1] < ks[b - 1]);
                }
            }
        }
        assert forall|i: usize| new.alive(i) implies #[trigger] new.node_heights(i) by {
            assert(new.info(i) == self.attached_info(pv, right, x, i));
            if i != x {
                assert(self.alive(i));
                assert(self.node_heights(i));
                assert(self.node_linked(i));
                let m = new.nd(i);
                if m.left.is_some() {
                    let l = m.left.unwrap();
                    assert(new.info(l) == self.attached_info(pv, right, x, l));
                }
                if m.right.is_some() {
                    let r = m.right.unwrap();
                    assert(new.info(r) == self.attached_info(pv, right, x, r));
                }
            }
        }
        assert forall|i: usize| new.alive(i) implies #[trigger] new.node_reds_but(i, x) by {
            assert(new.info(i) == self.attached_info(pv, right, x, i));
            if i != x {
                assert(self.alive(i));
                assert(self.node_reds(i));
                assert(self.node_linked(i));
                let m = new.nd(i);
                if m.left.is_some() && m.left != Some(x) && m.left != Some(pv) {
                    assert(new.nd(m.left.unwrap()) == self.nd(m.left.unwrap()));
                }
                if m.right.is_some() && m.right != Some(x) && m.right != Some(pv) {
                    assert(new.nd(m.right.unwrap()) == self.nd(m.right.unwrap()));
                }
            }
        }
        match self.root {
            None => {},
            Some(r) => {
                assert(r != x);
            },
        }
        assert(new@ =~= self@.insert(value)) by {
            self.keys().insert_ensures(t, value);
            assert forall|k: i32| new@.contains(k) <==> self@.insert(value).contains(k) by {
                if new.keys().contains(k) {
                    let s = choose|s: int| 0 <= s < new.keys().len() && new.keys()[s] == k;
                    if s < t {
                        assert(self.keys()[s] == k);
                    } else if s > t {
                        assert(self.keys()[s - 1] == k);
                    }
                }
                if self.keys().contains(k) {
                    let s = choose|s: int| 0 <= s < self.keys().len() && self.keys()[s] == k;
                    if s < t {
                        assert(new.keys()[s] == k);
                    } else {
                        assert(new.keys()[s + 1] == k);
                    }
                }
                if k == value {
                    assert(new.keys()[t] == k);
                }
            }
        }
    }

    /// Makes the root black.
    pub(crate) fn root_fix(&mut self)
        requires
            old(self).linked(),
            old(self).settled(),
        ensures
            final(self).linked(),
            final(self).balanced(),
            final(self).keys() == old(self).keys(),
            old(self).root_black() ==> *final(self) == *old(self),
            old(self).recolored(final(self)),
    {
        if let Some(root) = self.root {
            if self.nodes[root].color != Color::Black {
                self.nodes[root].color = Color::Black;
                proof {
                    let ghost was = *old(self);
                    let f = was.info(root);
                    self.shape = Ghost(
                        Shape {
                            order: was.shape@.order,
                            info: was.shape@.info.update(
                                root as int,
                                (Info { bh: f.bh + 1, ..f }),
                            ),
                        },
                    );
                    assert(was.recolored(self));
                    was.lemma_recolored(self);
                    assert(was.node_linked(root));
                    assert forall|i: usize| self.alive(i) implies #[trigger] self.node_heights(
                        i,
                    ) by {
                        assert(was.node_heights(i));
                        assert(was.node_linked(i));
                    }
                    assert forall|i: usize| self.alive(i) implies #[trigger] self.node_reds(i) by {
                        assert(was.node_reds(i));
                        assert(was.node_linked(i));
                    }
                }
            }
        }
    }

    /// Takes an unused slot into use for `node`.
    pub(crate) fn take_slot(&mut self, node: Node) -> (x: usize)
        requires
            old(self).slots_ok(),
        ensures
            x < final(self).nodes@.len(),
            final(self).nd(x) == node,
            forall|i: usize|
                i < old(self).nodes@.len() && i != x ==> #[trigger] final(self).nd(i) == old(
                    self,
                ).nd(i),
            if old(self).free@.len() > 0 {
                &&& x == old(self).free@.last()
                &&& final(self).free@ == old(self).free@.drop_last()
                &&& final(self).nodes@.len() == old(self).nodes@.len()
            } else {
                &&& x == old(self).nodes@.len()
                &&& final(self).free@ == old(self).free@
                &&& final(self).nodes@.len() == old(self).nodes@.len() + 1
            },
            final(self).root == old(self).root,
            final(self).len == old(self).len,
            final(self).shape == old(self).shape,
    {
        match self.free.pop() {
            Some(x) => {
                assert(x == old(self).free@[old(self).free@.len() - 1]);
                self.nodes[x] = node;
                assert(self.free@ =~= old(self).free@.drop_last());
                x
            },
            None => {
                self.nodes.push(node);
                self.nodes.len() - 1
            },
        }
    }

    /// The states of one round of the walk of `insert_fix`, from this tree.
    ///
    /// `x` is red under the red `p`, which hangs under the black `g`. `s2`
    /// follows by lifting `top` into the place of `g`: that is `x` where it
    /// hangs on the inner side of `p`, else `p`; `low` is the other of the
    /// two. `s3` follows from `s2` by recolouring: with `pushed` the lower
    /// vertex has become black under a red `top`, without it `top` has
    /// become black and `g` red.
    pub(crate) open spec fn insert_round(
        &self,
        s2: &RedBlackTree,
        s3: &RedBlackTree,
        x: usize,
        top: usize,
        low: usize,
        pushed: bool,
    ) -> bool {
        let p = self.nd(x).parent.unwrap();
        let g = self.nd(p).parent.unwrap();
        let u = self.brother(p);
        let h = self.info(x).bh;
        &&& self.linked()
        &&& self.alive(x)
        &&& self.almost(x)
        &&& self.nd(x).color == Color::Red
        &&& self.nd(x).parent.is_some()
        &&& self.nd(p).color == Color::Red
        &&& self.nd(p).parent.is_some()
        &&& self.nd(g).color == Color::Black
        &&& self.is_right(x) != self.is_right(p) ==> top == x && low == p && self.bent_view(s2, x)
            && self.reshaped(s2, self.bent_part(x))
        &&& self.is_right(x) == self.is_right(p) ==> top == p && low == x && self.lift_view(s2, p)
            && self.reshaped(s2, self.lift_part(p))
        &&& s2.dyed(s3, set![top, low, g])
        &&& pushed <==> !(u.is_some() && self.nd(u.unwrap()).color == Color::Black)
        &&& s3.info(top).bh == h + 1
        &&& if pushed {
            &&& s3.nd(top).color == Color::Red
            &&& s3.nd(low).color == Color::Black
            &&& s3.nd(g).color == Color::Black
            &&& s3.info(low).bh == h + 1
            &&& s3.info(g).bh == h + 1
        } else {
            &&& s3.nd(top).color == Color::Black
            &&& s3.nd(low).color == Color::Red
            &&& s3.nd(g).color == Color::Red
            &&& s3.info(low).bh == h
            &&& s3.info(g).bh == h
        }
    }

    /// The vertices that a round of `insert_fix` works on: `x`, its parent,
    /// its grandparent and the vertex above them.
    pub(crate) open spec fn round_part(&self, x: usize) -> Set<usize> {
        let p = self.nd(x).parent.unwrap();
        let g = self.nd(p).parent.unwrap();
        and_opt(set![x, p, g], self.nd(g).parent)
    }

    /// The vertices whose child links a round of `insert_fix` changes.
    pub(crate) open spec fn round_core(&self, x: usize) -> Set<usize> {
        let p = self.nd(x).parent.unwrap();
        if self.is_right(x) != self.is_right(p) {
            self.bent_part(x)
        } else {
            self.lift_part(p)
        }
    }

    /// What the rules say of the vertices around a red `x` under a red
    /// parent.
    pub(crate) proof fn lemma_insert_near(
        &self,
        s2: &RedBlackTree,
        s3: &RedBlackTree,
        x: usize,
        top: usize,
        low: usize,
        pushed: bool,
    )
        requires
            self.insert_round(s2, s3, x, top, low, pushed),
        ensures
            ({
                let p = self.nd(x).parent.unwrap();
                let g = self.nd(p).parent.unwrap();
                let u = self.brother(p);
                let gg = self.nd(g).parent;
                let sp = self.is_right(p);
                &&& self.alive(p) && self.alive(g)
                &&& x != p && x != g && p != g
                &&& self.nd(x).parent == Some(p) && self.nd(p).parent == Some(g)
                &&& kid(self.nd(g), sp) == Some(p)
                &&& kid(self.nd(g), !sp) == u
                &&& kid(self.nd(p), self.is_right(x)) == Some(x)
                &&& self.node_linked(x) && self.node_linked(p) && self.node_linked(g)
                &&& self.info(x).bh == self.info(p).bh
                &&& self.info(g).bh == self.info(x).bh + 1
                &&& self.bhc(self.nd(x).left) == self.info(x).bh
                &&& self.bhc(self.nd(x).right) == self.info(x).bh
                &&& self.bhc(kid(self.nd(p), !self.is_right(x))) == self.info(x).bh
                &&& self.bhc(u) == self.info(x).bh
                &&& self.kid_black(self.nd(x).left) && self.kid_black(self.nd(x).right)
                &&& self.kid_black(kid(self.nd(p), !self.is_right(x)))
                &&& self.root != Some(x) && self.root != Some(p)
                &&& gg.is_none() ==> self.root == Some(g)
                &&& gg.is_some() ==> gg != Some(x) && gg != Some(p) && gg != Some(g)
                    && self.alive(gg.unwrap()) && self.root != Some(g)
                &&& u.is_some() ==> u != Some(x) && u != Some(p) && u != Some(g) && u != gg
                    && self.alive(u.unwrap()) && self.node_linked(u.unwrap())
                &&& self.nd(x).left != Some(p) && self.nd(x).left != Some(g) && self.nd(x).left
                    != Some(x)
                &&& self.nd(x).right != Some(p) && self.nd(x).right != Some(g) && self.nd(x).right
                    != Some(x)
                &&& kid(self.nd(p), !self.is_right(x)) != Some(p) && kid(
                    self.nd(p),
                    !self.is_right(x),
                ) != Some(g) && kid(self.nd(p), !self.is_right(x)) != Some(x)
            }),
    {
        let p = self.nd(x).parent.unwrap();
        let g = self.nd(p).parent.unwrap();
        let u = self.brother(p);
        assert(self.node_linked(x));
        assert(self.node_linked(p));
        assert(self.node_linked(g));
        assert(self.node_heights(x));
        assert(self.node_heights(p));
        assert(self.node_heights(g));
        assert(self.node_reds_but(x, x));
        assert(self.node_reds_but(p, x));
        if u.is_some() {
            assert(self.node_linked(u.unwrap()));
        }
        if self.nd(g).parent.is_some() {
            assert(self.node_linked(self.nd(g).parent.unwrap()));
        }
        if self.nd(x).left.is_some() {
            assert(self.node_linked(self.nd(x).left.unwrap()));
        }
        if self.nd(x).right.is_some() {
            assert(self.node_linked(self.nd(x).right.unwrap()));
        }
        if kid(self.nd(p), !self.is_right(x)).is_some() {
            assert(self.node_linked(kid(self.nd(p), !self.is_right(x)).unwrap()));
        }
    }

    /// After a round the colour rules hold at the three vertices that it
    /// has turned.
    pub(crate) proof fn lemma_insert_within(
        &self,
        s2: &RedBlackTree,
        s3: &RedBlackTree,
        x: usize,
        top: usize,
        low: usize,
        pushed: bool,
    )
        requires
            self.insert_round(s2, s3, x, top, low, pushed),
        ensures
            s3.node_heights(x) && s3.node_reds(x),
            s3.node_heights(self.nd(x).parent.unwrap()) && s3.node_reds(self.nd(x).parent.unwrap()),
            s3.node_heights(self.nd(self.nd(x).parent.unwrap()).parent.unwrap()) && s3.node_reds(
                self.nd(self.nd(x).parent.unwrap()).parent.unwrap(),
            ),
    {
        let p = self.nd(x).parent.unwrap();
        let g = self.nd(p).parent.unwrap();
        let u = self.brother(p);
        let core = self.round_core(x);
        let dye = set![top, low, g];
        self.lemma_insert_near(s2, s3, x, top, low, pushed);
        self.lemma_mend_at(s2, s3, core, dye, x);
        self.lemma_mend_at(s2, s3, core, dye, p);
        self.lemma_mend_at(s2, s3, core, dye, g);
        self.lemma_mend_under(s2, s3, core, dye, self.nd(x).left);
        self.lemma_mend_under(s2, s3, core, dye, self.nd(x).right);
        self.lemma_mend_under(s2, s3, core, dye, kid(self.nd(p), !self.is_right(x)));
        self.lemma_mend_under(s2, s3, core, dye, u);
    }

    /// After a round the colour rules hold at the vertex above the three,
    /// but that it may be red over a red `top`.
    pub(crate) proof fn lemma_insert_above(
        &self,
        s2: &RedBlackTree,
        s3: &RedBlackTree,
        x: usize,
        top: usize,
        low: usize,
        pushed: bool,
    )
        requires
            self.insert_round(s2, s3, x, top, low, pushed),
            self.nd(self.nd(self.nd(x).parent.unwrap()).parent.unwrap()).parent.is_some(),
        ensures
            ({
                let gg = self.nd(self.nd(self.nd(x).parent.unwrap()).parent.unwrap()).parent.unwrap();
                &&& s3.node_heights(gg)
                &&& s3.node_reds_but(gg, top)
                &&& self.same_face(s3, gg)
                &&& self.same_tint(s3, gg)
            }),
    {
        let p = self.nd(x).parent.unwrap();
        let g = self.nd(p).parent.unwrap();
        let gg = self.nd(g).parent.unwrap();
        let core = self.round_core(x);
        let dye = set![top, low, g];
        self.lemma_insert_near(s2, s3, x, top, low, pushed);
        assert(self.node_linked(gg));
        assert(self.node_heights(gg));
        assert(self.node_reds_but(gg, x));
        self.lemma_mend_at(s2, s3, core, dye, gg);
        self.lemma_mend_at(s2, s3, core, dye, top);
        let o = self.brother(g);
        if o.is_some() {
            assert(self.alive(o.unwrap()));
            assert(self.node_linked(o.unwrap()));
            self.lemma_mend_at(s2, s3, core, dye, o.unwrap());
        }
    }

    /// A round keeps the tree linked and the keys in place, and leaves the
    /// colour rules broken at most at `top`.
    pub(crate) proof fn lemma_insert_step(
        &self,
        s2: &RedBlackTree,
        s3: &RedBlackTree,
        x: usize,
        top: usize,
        low: usize,
        pushed: bool,
    )
        requires
            self.insert_round(s2, s3, x, top, low, pushed),
        ensures
            s3.linked(),
            s3.keys() == self.keys(),
            s3.count() == self.count(),
            s3.alive(top),
            s3.almost(top),
    {
        let p = self.nd(x).parent.unwrap();
        let g = self.nd(p).parent.unwrap();
        let gg = self.nd(g).parent;
        let core = self.round_core(x);
        let dye = set![top, low, g];
        let part = self.round_part(x);
        self.lemma_insert_near(s2, s3, x, top, low, pushed);
        self.lemma_insert_within(s2, s3, x, top, low, pushed);
        if gg.is_some() {
            self.lemma_insert_above(s2, s3, x, top, low, pushed);
        }
        assert forall|i: usize| self.alive(i) && !part.contains(i) implies #[trigger] self.node_reds(
            i,
        ) by {
            assert(self.node_reds_but(i, x));
            assert(self.node_linked(i));
        }
        assert(self.fine_outside(part));
        self.lemma_mended(s2, s3, core, dye, part, None, gg);
        self.lemma_mend_at(s2, s3, core, dye, top);
        assert forall|i: usize| s3.alive(i) implies #[trigger] s3.node_reds_but(i, top) by {
            if Some(i) != gg {
                assert(s3.node_reds(i));
            }
        }
        match self.root {
            None => {},
            Some(r) => {
                self.lemma_mend_at(s2, s3, core, dye, r);
                assert(s3.root == s2.root) by {
                    reveal(RedBlackTree::dyed);
                }
            },
        }
    }

    /// Restores the colour rules after the red leaf `x` has been attached.
    ///
    /// While `x` is red under a red parent, the pair is lifted over the
    /// (black) grandparent: `x` over both where the three do not stand in a
    /// line, else the parent. The three are then recoloured according to the
    /// colour of the parent's former sibling, and the walk goes on from the
    /// vertex that now stands where the grandparent stood. At the end the
    /// root is made black.
    pub(crate) fn insert_fix(&mut self, x: usize)
        requires
            old(self).linked(),
            old(self).alive(x),
            old(self).almost(x),
        ensures
            final(self).linked(),
            final(self).balanced(),
            final(self).keys() == old(self).keys(),
    {
        let mut x: usize = x;
        loop
            invariant_except_break
                self.alive(x),
                self.almost(x),
            invariant
                self.linked(),
                self.keys() == old(self).keys(),
            ensures
                self.settled(),
            decreases self.count() - (self.info(x).last - self.info(x).first),
        {
            proof {
                assert(self.node_linked(x));
            }
            if self.nodes[x].color == Color::Red {
                if let Some(p) = self.get_parent(x) {
                    proof {
                        assert(self.node_linked(p));
                    }
                    if self.nodes[p].color == Color::Red {
                        if let Some(g) = self.get_parent(p) {
                            proof {
                                assert(self.node_linked(g));
                            }
                            if self.nodes[g].color == Color::Black {
                                let ghost s0 = *self;
                                let ghost h = self.info(x).bh;
                                let u = self.get_brother(p);
                                let red_uncle = match u {
                                    Some(u) => self.nodes[u].color == Color::Red,
                                    None => true,
                                };
                                let top: usize;
                                let low: usize;
                                if self.is_right_node(p) != self.is_right_node(x) {
                                    top = x;
                                    low = p;
                                    self.bend(top);
                                    proof {
                                        assert(self.info(top) == s0.bent_info(x, top));
                                    }
                                } else {
                                    top = p;
                                    low = x;
                                    self.lift(top);
                                    proof {
                                        s0.lemma_lifted_at(self, top, top);
                                    }
                                }
                                let ghost s2 = *self;
                                proof {
                                    s0.lemma_reshaped_at(&s2, s0.round_core(x), low);
                                    s0.lemma_reshaped_at(&s2, s0.round_core(x), top);
                                    s0.lemma_reshaped_at(&s2, s0.round_core(x), g);
                                }
                                if red_uncle {
                                    self.paint(low, Color::Black, Ghost(h + 1));
                                    proof {
                                        self.shape = Ghost(self.shape@.with_bh(top, h + 1));
                                    }
                                } else {
                                    self.paint(top, Color::Black, Ghost(h + 1));
                                    self.paint(g, Color::Red, Ghost(h));
                                }
                                proof {
                                    assert(s0.node_heights(x) && s0.node_heights(p)
                                        && s0.node_heights(g));
                                    s2.lemma_painted(self, set![top, low, g]);
                                    s0.lemma_insert_step(&s2, self, x, top, low, red_uncle);
                                }
                                x = top;
                                continue ;
                            }
                            proof {
                                assert(self.node_reds_but(g, x));
                                assert(false);
                            }
                        }
                        proof {
                            assert(false);
                        }
                    }
                }
            }
            proof {
                let ghost s = *self;
                assert forall|i: usize| s.alive(i) implies #[trigger] s.node_reds(i) by {
                    assert(s.node_reds_but(i, x));
                    assert(s.node_linked(i));
                }
            }
            break ;
        }
        self.root_fix();
    }

    /// Makes the fresh slot `x`, which holds a black vertex without links,
    /// the whole tree.
    pub(crate) proof fn lemma_first(&self, new: &RedBlackTree, x: usize, value: i32)
        requires
            self.linked(),
            self.root.is_none(),
            self.placed(new, x),
            new.nd(x) == (Node {
                value: value,
                color: Color::Black,
                left: None,
                right: None,
                parent: None,
            }),
            new.root == Some(x),
            new.shape@.order == seq![x],
            forall|i: usize|
                i < new.nodes@.len() ==> #[trigger] new.info(i) == if i == x {
                    (Info { live: true, pos: 0, first: 0, last: 1, bh: 1 })
                } else {
                    (Info { live: false, pos: 0, first: 0, last: 0, bh: 0 })
                },
        ensures
            new.wf(),
            new@ == self@.insert(value),
    {
        assert(new.info(x).live);
        assert forall|k: int| 0 <= k < new.free@.len() implies (#[trigger] new.free@[k])
            < new.nodes@.len() && !new.shape@.info[new.free@[k] as int].live by {
            let i = new.free@[k];
            assert(i == self.free@[k]);
            if self.free@.len() > 0 {
                assert(self.free@[k] != self.free@[self.free@.len() - 1]);
            }
            assert(!new.info(i).live);
        }
        assert forall|a: int, b: int| 0 <= a < b < new.free@.len() implies #[trigger] new.free@[a]
            != #[trigger] new.free@[b] by {
            assert(new.free@[a] == self.free@[a]);
            assert(new.free@[b] == self.free@[b]);
        }
        assert forall|i: usize| new.alive(i) implies #[trigger] new.node_linked(i) by {
            assert(new.info(i).live);
        }
        assert forall|i: usize| new.alive(i) implies #[trigger] new.node_heights(i) by {
            assert(new.info(i).live);
        }
        assert forall|i: usize| new.alive(i) implies #[trigger] new.node_reds(i) by {
            assert(new.info(i).live);
        }
        assert(new.keys() =~= seq![value]);
        assert(self.keys() =~= Seq::<i32>::empty());
        assert(new@ =~= self@.insert(value)) by {
            assert forall|k: i32| new@.contains(k) <==> self@.insert(value).contains(k) by {
                if k == value {
                    assert(new.keys()[0] == k);
                }
            }
        }
    }

    /// Writing a key over itself changes nothing that the rules speak of.
    pub(crate) proof fn lemma_rewritten(&self, new: &RedBlackTree, pv: usize)
        requires
            self.wf(),
            self.alive(pv),
            new.nodes@ == self.nodes@.update(pv as int, self.nd(pv)),
            new.free == self.free,
            new.root == self.root,
            new.len == self.len,
            new.shape == self.shape,
        ensures
            new.wf(),
            new@ == self@,
            new.nodes@ == self.nodes@,
    {
        assert(new.nodes@ =~= self.nodes@);
        assert(new.keys() =~= self.keys());
        assert forall|i: usize| new.alive(i) implies #[trigger] new.node_linked(i) by {
            assert(self.node_linked(i));
        }
        assert forall|i: usize| new.alive(i) implies #[trigger] new.node_heights(i) by {
            assert(self.node_heights(i));
        }
        assert forall|i: usize| new.alive(i) implies #[trigger] new.node_reds(i) by {
            assert(self.node_reds(i));
        }
    }

    /// Puts the key `value` into the tree.
    ///
    /// A key that the tree already holds is written over itself, which
    /// changes nothing. A new key becomes a black root in an empty tree, and
    /// else a red leaf at the place where the search for it ended, after
    /// which the colour rules are restored.
    pub fn add(&mut self, value: i32)
        requires
            old(self).wf(),
        ensures
            final(self).wf(),
            final(self)@ == old(self)@.insert(value),
            old(self)@.contains(value) ==> final(self).same_tree(old(self)),
    {
        match self.insert_search(value, false) {
            None => {
                let x: usize = self.take_slot(Node::new(value, Color::Black, None));
                self.root = Some(x);
                self.len = 1;
                proof {
                    let count = self.nodes@.len();
                    self.shape = Ghost(
                        Shape {
                            order: seq![x],
                            info: Seq::new(
                                count,
                                |i: int|
                                    if i == x {
                                        (Info { live: true, pos: 0, first: 0, last: 1, bh: 1 })
                                    } else {
                                        (Info { live: false, pos: 0, first: 0, last: 0, bh: 0 })
                                    },
                            ),
                        },
                    );
                    old(self).lemma_first(self, x, value);
                    old(self).lemma_bracketed_absent(value, 0);
                }
            },
            Some(pv) => {
                let pv_value: i32 = self.nodes[pv].value;
                if value < pv_value {
                    let x: usize = self.take_slot(Node::new(value, Color::Red, Some(pv)));
                    let ghost mid = *self;
                    self.nodes[pv].left = Some(x);
                    proof {
                        assert(self.nodes@.len() == self.nodes.len());
                    }
                    self.len += 1;
                    proof {
                        let ghost was = *old(self);
                        let count = self.nodes@.len();
                        self.shape = Ghost(
                            Shape {
                                order: was.shape@.order.insert(was.rank_under(pv, false), x),
                                info: Seq::new(
                                    count,
                                    |i: int| was.attached_info(pv, false, x, i as usize),
                                ),
                            },
                        );
                        assert(was.node_linked(pv));
                        assert(!was.alive(x)) by {
                            if was.free@.len() > 0 {
                                assert(was.free@[was.free@.len() - 1] == x);
                            }
                        }
                        assert(mid.nd(pv) == was.nd(pv));
                        assert forall|i: usize|
                            i < was.nodes@.len() && i != x && i != pv implies #[trigger] self.nd(i)
                            == was.nd(i) by {
                            assert(mid.nd(i) == was.nd(i));
                        }
                        was.lemma_attached(self, pv, false, x, value);
                        was.lemma_bracketed_absent(value, was.info(pv).pos);
                    }
                    let ghost hung = *self;
                    self.insert_fix(x);
                    proof {
                        assert(self.keys().len() == self.count());
                        assert(hung.keys().len() == hung.count());
                        assert(self.sorted());
                    }
                } else if value > pv_value {
                    let x: usize = self.take_slot(Node::new(value, Color::Red, Some(pv)));
                    let ghost mid = *self;
                    self.nodes[pv].right = Some(x);
                    proof {
                        assert(self.nodes@.len() == self.nodes.len());
                    }
                    self.len += 1;
                    proof {
                        let ghost was = *old(self);
                        let count = self.nodes@.len();
                        self.shape = Ghost(
                            Shape {
                                order: was.shape@.order.insert(was.rank_under(pv, true), x),
                                info: Seq::new(
                                    count,
                                    |i: int| was.attached_info(pv, true, x, i as usize),
                                ),
                            },
                        );
                        assert(was.node_linked(pv));
                        assert(!was.alive(x)) by {
                            if was.free@.len() > 0 {
                                assert(was.free@[was.free@.len() - 1] == x);
                            }
                        }
                        assert(mid.nd(pv) == was.nd(pv));
                        assert forall|i: usize|
                            i < was.nodes@.len() && i != x && i != pv implies #[trigger] self.nd(i)
                            == was.nd(i) by {
                            assert(mid.nd(i) == was.nd(i));
                        }
                        was.lemma_attached(self, pv, true, x, value);
                        was.lemma_bracketed_absent(value, was.info(pv).pos + 1);
                    }
                    let ghost hung = *self;
                    self.insert_fix(x);
                    proof {
                        assert(self.keys().len() == self.count());
                        assert(hung.keys().len() == hung.count());
                        assert(self.sorted());
                    }
                } else {
                    self.nodes[pv].value = value;
                    proof {
                        old(self).lemma_rewritten(self, pv);
                        old(self).lemma_key_at(pv);
                    }
                }
            },
        }
    }
}

} // verus!
