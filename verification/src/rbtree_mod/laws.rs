// What well-formedness means in terms of walks through the tree, and how
// the operations relate to one another.
use vstd::prelude::*;
use crate::rbtree_mod::rotate::kid;
use crate::rbtree_mod::{Color, RedBlackTree};

verus! {

impl RedBlackTree {
    /// The vertex at which the walk ends that starts at the link `c` and
    /// goes left at each `false` and right at each `true` of `turns`; `None`
    /// where the walk leaves the tree.
    pub open spec fn reach(&self, c: Option<usize>, turns: Seq<bool>) -> Option<usize>
        decreases turns.len(),
    {
        match c {
            None => None,
            Some(i) => if turns.len() == 0 {
                Some(i)
            } else {
                self.reach(kid(self.at(i), turns[0]), turns.drop_first())
            },
        }
    }

    /// A walk from a vertex ends at a vertex of its subtree.
    pub(crate) proof fn lemma_reach_within(&self, s: usize, turns: Seq<bool>)
        requires
            self.linked(),
            self.alive(s),
            self.reach(Some(s), turns).is_some(),
        ensures
            self.alive(self.reach(Some(s), turns).unwrap()),
            self.info(s).first <= self.info(self.reach(Some(s), turns).unwrap()).pos < self.info(
                s,
            ).last,
        decreases turns.len(),
    {
        reveal_with_fuel(RedBlackTree::reach, 2);
        assert(self.node_linked(s));
        if turns.len() > 0 {
            let c = kid(self.nd(s), turns[0]).unwrap();
            assert(self.node_linked(c));
            self.lemma_reach_within(c, turns.drop_first());
        }
    }

    /// A walk down to an empty position crosses as many black vertices as
    /// the proofs record for the link it starts from.
    pub(crate) proof fn lemma_blacks_recorded(&self, c: Option<usize>, turns: Seq<bool>)
        requires
            self.linked(),
            self.balanced(),
            c.is_some() ==> self.alive(c.unwrap()),
            self.blacks_on(c, turns).is_some(),
        ensures
            self.blacks_on(c, turns).unwrap() == self.bhc(c),
        decreases turns.len(),
    {
        reveal_with_fuel(RedBlackTree::blacks_on, 2);
        if c.is_some() {
            let s = c.unwrap();
            assert(self.node_linked(s));
            assert(self.node_heights(s));
            self.lemma_blacks_recorded(kid(self.nd(s), turns[0]), turns.drop_first());
        }
    }

    /// In a well-formed tree the links form a tree, and every walk from the
    /// root down to an empty position crosses the same number of black
    /// vertices.
    pub proof fn lemma_wf_level(&self)
        requires
            self.wf(),
        ensures
            self.shaped(),
            self.level(),
    {
        assert forall|one: Seq<bool>, two: Seq<bool>|
            (#[trigger] self.blacks_on(self.top(), one)).is_some() && (#[trigger] self.blacks_on(
                self.top(),
                two,
            )).is_some() implies self.blacks_on(self.top(), one) == self.blacks_on(
            self.top(),
            two,
        ) by {
            self.lemma_blacks_recorded(self.root, one);
            self.lemma_blacks_recorded(self.root, two);
        }
    }

    /// In a well-formed tree the root is black.
    pub proof fn lemma_wf_root_black(&self)
        requires
            self.wf(),
            self.top().is_some(),
        ensures
            self.at(self.top().unwrap()).color == Color::Black,
    {
    }

    /// In a well-formed tree no red vertex has a red child: where a walk
    /// from the root ends at a red vertex, the children of that vertex are
    /// black.
    pub proof fn lemma_wf_no_red_red(&self, turns: Seq<bool>, right: bool)
        requires
            self.wf(),
            self.reach(self.top(), turns).is_some(),
            self.at(self.reach(self.top(), turns).unwrap()).color == Color::Red,
            kid(self.at(self.reach(self.top(), turns).unwrap()), right).is_some(),
        ensures
            self.at(
                kid(self.at(self.reach(self.top(), turns).unwrap()), right).unwrap(),
            ).color == Color::Black,
    {
        let r = self.root.unwrap();
        self.lemma_reach_within(r, turns);
        let i = self.reach(self.top(), turns).unwrap();
        assert(self.node_reds(i));
    }

    /// In a well-formed tree the keys are in search order: every key in the
    /// left subtree of a vertex is less than the key of that vertex, and
    /// every key in its right subtree is greater.
    pub proof fn lemma_wf_ordered(&self, turns: Seq<bool>, right: bool, more: Seq<bool>)
        requires
            self.wf(),
            self.reach(self.top(), turns).is_some(),
            self.reach(kid(self.at(self.reach(self.top(), turns).unwrap()), right), more).is_some(),
        ensures
            ({
                let i = self.reach(self.top(), turns).unwrap();
                let j = self.reach(kid(self.at(i), right), more).unwrap();
                if right {
                    self.at(i).value < self.at(j).value
                } else {
                    self.at(j).value < self.at(i).value
                }
            }),
    {
        let r = self.root.unwrap();
        self.lemma_reach_within(r, turns);
        let i = self.reach(self.top(), turns).unwrap();
        assert(self.node_linked(i));
        let c = kid(self.at(i), right).unwrap();
        self.lemma_reach_within(c, more);
        let j = self.reach(Some(c), more).unwrap();
        self.lemma_key_at(i);
        self.lemma_key_at(j);
        if right {
            assert(self.keys()[self.info(i).pos] < self.keys()[self.info(j).pos]);
        } else {
            assert(self.keys()[self.info(j).pos] < self.keys()[self.info(i).pos]);
        }
    }

    /// The keys of a well-formed tree are those of the vertices that walks
    /// from the root end at.
    pub proof fn lemma_wf_keys(&self, k: i32)
        requires
            self.wf(),
        ensures
            self@.contains(k) <==> exists|turns: Seq<bool>|
                (#[trigger] self.reach(self.top(), turns)).is_some() && self.at(
                    self.reach(self.top(), turns).unwrap(),
                ).value == k,
            self@.finite(),
    {
        vstd::seq_lib::seq_to_set_is_finite(self.keys());
        if self@.contains(k) {
            let t = choose|t: int| 0 <= t < self.keys().len() && self.keys()[t] == k;
            let i = self.shape@.order[t];
            assert(self.alive(i));
            let r = self.root.unwrap();
            assert(self.node_linked(r));
            assert(self.node_linked(i));
            let turns = self.lemma_way_to(r, i);
            assert(self.reach(self.top(), turns).is_some());
        }
        if exists|turns: Seq<bool>|
            (#[trigger] self.reach(self.top(), turns)).is_some() && self.at(
                self.reach(self.top(), turns).unwrap(),
            ).value == k {
            let turns = choose|turns: Seq<bool>|
                (#[trigger] self.reach(self.top(), turns)).is_some() && self.at(
                    self.reach(self.top(), turns).unwrap(),
                ).value == k;
            let r = self.root.unwrap();
            self.lemma_reach_within(r, turns);
            let i = self.reach(self.top(), turns).unwrap();
            self.lemma_key_at(i);
        }
    }

    /// There is a walk from a vertex to every vertex whose rank lies in the
    /// range of the subtree.
    pub(crate) proof fn lemma_way_to(&self, s: usize, i: usize) -> (turns: Seq<bool>)
        requires
            self.linked(),
            self.alive(s),
            self.alive(i),
            self.info(s).first <= self.info(i).pos < self.info(s).last,
        ensures
            self.reach(Some(s), turns) == Some(i),
        decreases self.info(s).last - self.info(s).first,
    {
        reveal_with_fuel(RedBlackTree::reach, 2);
        assert(self.node_linked(s));
        assert(self.node_linked(i));
        if self.info(i).pos == self.info(s).pos {
            Seq::<bool>::empty()
        } else {
            let right = self.info(i).pos > self.info(s).pos;
            let c = kid(self.nd(s), right).unwrap();
            assert(self.node_linked(c));
            let rest = self.lemma_way_to(c, i);
            let turns = seq![right] + rest;
            assert(turns.drop_first() =~= rest);
            turns
        }
    }

    /// Putting a key in twice is putting it in once: the second time the
    /// tree already holds the key, and holds the same keys afterwards.
    pub proof fn lemma_add_twice(&self, k: i32)
        requires
            self.wf(),
        ensures
            self@.insert(k).contains(k),
            self@.insert(k).insert(k) == self@.insert(k),
            self@.insert(k).insert(k).len() == self@.insert(k).len(),
    {
        assert(self@.insert(k).insert(k) =~= self@.insert(k));
    }

    /// A key that has been put in is in the tree, and a key that has been
    /// put in and taken out again is not.
    pub proof fn lemma_add_then_del(&self, k: i32)
        requires
            self.wf(),
        ensures
            self@.insert(k).contains(k),
            !self@.insert(k).remove(k).contains(k),
            !self@.contains(k) ==> self@.insert(k).remove(k) == self@,
    {
        if !self@.contains(k) {
            assert(self@.insert(k).remove(k) =~= self@);
        }
    }

    /// Taking out a key that is not in the tree changes no key and no
    /// count.
    pub proof fn lemma_del_absent(&self, k: i32)
        requires
            self.wf(),
            !self@.contains(k),
        ensures
            self@.remove(k) == self@,
            self@.remove(k).len() == self@.len(),
    {
        assert(self@.remove(k) =~= self@);
    }

    /// Two trees that are the same tree hold the same keys, and are
    /// well-formed together.
    pub proof fn lemma_same_tree(&self, other: &RedBlackTree)
        requires
            self.same_tree(other),
        ensures
            self@ == other@,
            self.wf() == other.wf(),
            self.top() == other.top(),
            forall|i: usize| self.at(i) == other.at(i),
    {
        assert(self.keys() =~= other.keys());
        if self.wf() {
            self.lemma_same_wf(other);
        }
        if other.wf() {
            other.lemma_same_wf(self);
        }
    }

    /// One half of `lemma_same_tree`.
    pub(crate) proof fn lemma_same_wf(&self, other: &RedBlackTree)
        requires
            self.same_tree(other),
            self.wf(),
        ensures
            other.wf(),
    {
        assert(self.keys() =~= other.keys());
        assert forall|i: usize| other.alive(i) implies #[trigger] other.node_linked(i) by {
            assert(self.node_linked(i));
        }
        assert forall|i: usize| other.alive(i) implies #[trigger] other.node_heights(i) by {
            assert(self.node_heights(i));
        }
        assert forall|i: usize| other.alive(i) implies #[trigger] other.node_reds(i) by {
            assert(self.node_reds(i));
        }
    }
}

} // verus!
