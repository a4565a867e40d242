// Descending the tree by key: lookup, the place for a new key, and the
// neighbours of a key in search order.
use vstd::prelude::*;
use crate::rbtree_mod::rotate::kid;
use crate::rbtree_mod::{Node, RedBlackTree};

verus! {

impl RedBlackTree {
    /// Number of keys in the tree.
    pub fn len(&self) -> (n: usize)
        requires
            self.wf(),
        ensures
            n == self@.len(),
    {
        proof {
            self.lemma_keys_distinct();
            self.keys().unique_seq_to_set();
        }
        self.len
    }

    /// In a sorted tree no key occurs twice.
    pub(crate) proof fn lemma_keys_distinct(&self)
        requires
            self.sorted(),
        ensures
            self.keys().no_duplicates(),
    {
        assert forall|s: int, t: int|
            0 <= s < self.keys().len() && 0 <= t < self.keys().len() && s != t implies self.keys()[s]
            != self.keys()[t] by {
            if s < t {
                assert(self.keys()[s] < self.keys()[t]);
            } else {
                assert(self.keys()[t] < self.keys()[s]);
            }
        }
    }

    /// Every key ranked below `lo` is less than `value`, and every key ranked
    /// `hi` or above is greater.
    pub(crate) open spec fn brackets(&self, value: i32, lo: int, hi: int) -> bool {
        &&& forall|t: int| 0 <= t < lo && t < self.count() ==> #[trigger] self.keys()[t] < value
        &&& forall|t: int| hi <= t < self.count() && 0 <= t ==> value < #[trigger] self.keys()[t]
    }

    /// `pv` is where a search for `value` ends: it holds `value`, or it lacks
    /// the child under which `value` belongs.
    pub(crate) open spec fn attach_point(&self, pv: usize, value: i32) -> bool {
        let n = self.nd(pv);
        let f = self.info(pv);
        &&& self.alive(pv)
        &&& value < n.value ==> n.left.is_none() && self.brackets(value, f.pos, f.pos)
        &&& value > n.value ==> n.right.is_none() && self.brackets(value, f.pos + 1, f.pos + 1)
    }

    /// The key of a live vertex stands at the vertex's rank.
    pub(crate) proof fn lemma_key_at(&self, x: usize)
        requires
            self.linked(),
            self.alive(x),
        ensures
            0 <= self.info(x).pos < self.count(),
            self.keys()[self.info(x).pos] == self.nd(x).value,
    {
        assert(self.node_linked(x));
    }

    /// Where every key is either below or above `value`, `value` is no key.
    pub(crate) proof fn lemma_bracketed_absent(&self, value: i32, at: int)
        requires
            self.brackets(value, at, at),
        ensures
            !self.keys().contains(value),
    {
        if self.keys().contains(value) {
            let t = choose|t: int| 0 <= t < self.keys().len() && self.keys()[t] == value;
            if t < at {
                assert(self.keys()[t] < value);
            } else {
                assert(value < self.keys()[t]);
            }
        }
    }

    /// Descends from the root by comparing `value` with the keys on the way.
    ///
    /// With `cmp` set this is a lookup: the vertex that holds `value`, if
    /// there is one. Without it the result is the vertex at which the descent
    /// ends, which is the place where `value` is to be attached (absent only
    /// for the empty tree).
    pub(crate) fn insert_search(&self, value: i32, cmp: bool) -> (r: Option<usize>)
        requires
            self.linked(),
            self.sorted(),
        ensures
            cmp ==> match r {
                Some(x) => self.alive(x) && self.nd(x).value == value,
                None => !self.keys().contains(value),
            },
            !cmp ==> match r {
                Some(pv) => self.attach_point(pv, value),
                None => self.root.is_none(),
            },
    {
        let mut cur: usize = match self.root {
            None => {
                return None;
            },
            Some(r) => r,
        };
        proof {
            assert(self.node_linked(cur));
        }
        loop
            invariant
                self.linked(),
                self.sorted(),
                self.alive(cur),
                self.brackets(value, self.info(cur).first, self.info(cur).last),
            decreases self.info(cur).last - self.info(cur).first,
        {
            proof {
                assert(self.node_linked(cur));
                self.lemma_key_at(cur);
            }
            let node: Node = self.nodes[cur];
            if value < node.value {
                match node.left {
                    Some(l) => {
                        proof {
                            assert(self.node_linked(l));
                            let p = self.info(cur).pos;
                            assert forall|t: int| p <= t < self.count() implies value
                                < #[trigger] self.keys()[t] by {
                                if p < t {
                                    assert(self.keys()[p] < self.keys()[t]);
                                }
                            }
                        }
                        cur = l;
                    },
                    None => {
                        proof {
                            let p = self.info(cur).pos;
                            assert forall|t: int| p <= t < self.count() implies value
                                < #[trigger] self.keys()[t] by {
                                if p < t {
                                    assert(self.keys()[p] < self.keys()[t]);
                                }
                            }
                            self.lemma_bracketed_absent(value, p);
                        }
                        return if cmp {
                            None
                        } else {
                            Some(cur)
                        };
                    },
                }
            } else if value > node.value {
                match node.right {
                    Some(r) => {
                        proof {
                            assert(self.node_linked(r));
                            let p = self.info(cur).pos;
                            assert forall|t: int| 0 <= t < p + 1 implies #[trigger] self.keys()[t]
                                < value by {
                                if t < p {
                                    assert(self.keys()[t] < self.keys()[p]);
                                }
                            }
                        }
                        cur = r;
                    },
                    None => {
                        proof {
                            let p = self.info(cur).pos;
                            assert forall|t: int| 0 <= t < p + 1 implies #[trigger] self.keys()[t]
                                < value by {
                                if t < p {
                                    assert(self.keys()[t] < self.keys()[p]);
                                }
                            }
                            self.lemma_bracketed_absent(value, p + 1);
                        }
                        return if cmp {
                            None
                        } else {
                            Some(cur)
                        };
                    },
                }
            } else {
                return Some(cur);
            }
        }
    }

    /// The rightmost vertex of the subtree at `x`.
    pub(crate) fn search_max_node(&self, x: Option<usize>) -> (r: Option<usize>)
        requires
            self.linked(),
            x.is_some() ==> self.alive(x.unwrap()),
        ensures
            r.is_none() <==> x.is_none(),
            r.is_some() ==> self.alive(r.unwrap()) && self.nd(r.unwrap()).right.is_none()
                && self.info(r.unwrap()).pos == self.info(x.unwrap()).last - 1
                && self.info(x.unwrap()).first <= self.info(r.unwrap()).first,
    {
        let mut cur: usize = match x {
            None => {
                return None;
            },
            Some(c) => c,
        };
        loop
            invariant
                self.linked(),
                x.is_some(),
                self.alive(cur),
                self.info(cur).last == self.info(x.unwrap()).last,
                self.info(x.unwrap()).first <= self.info(cur).first,
            decreases self.info(cur).last - self.info(cur).first,
        {
            proof {
                assert(self.node_linked(cur));
            }
            match self.nodes[cur].right {
                Some(r) => {
                    proof {
                        assert(self.node_linked(r));
                    }
                    cur = r;
                },
                None => {
                    return Some(cur);
                },
            }
        }
    }

    /// The leftmost vertex of the subtree at `x`.
    pub(crate) fn search_min_node(&self, x: Option<usize>) -> (r: Option<usize>)
        requires
            self.linked(),
            x.is_some() ==> self.alive(x.unwrap()),
        ensures
            r.is_none() <==> x.is_none(),
            r.is_some() ==> self.alive(r.unwrap()) && self.nd(r.unwrap()).left.is_none()
                && self.info(r.unwrap()).pos == self.info(x.unwrap()).first
                && self.info(r.unwrap()).last <= self.info(x.unwrap()).last,
    {
        let mut cur: usize = match x {
            None => {
                return None;
            },
            Some(c) => c,
        };
        loop
            invariant
                self.linked(),
                x.is_some(),
                self.alive(cur),
                self.info(cur).first == self.info(x.unwrap()).first,
                self.info(cur).last <= self.info(x.unwrap()).last,
            decreases self.info(cur).last - self.info(cur).first,
        {
            proof {
                assert(self.node_linked(cur));
            }
            match self.nodes[cur].left {
                Some(l) => {
                    proof {
                        assert(self.node_linked(l));
                    }
                    cur = l;
                },
                None => {
                    return Some(cur);
                },
            }
        }
    }

    /// The vertex whose key is next to that of `x` in search order and lies
    /// below `x`: the least key of the right subtree or, where `x` has no
    /// right child, the greatest key of the left subtree. Absent where `x`
    /// has no child.
    pub(crate) fn delete_search(&self, x: usize) -> (r: Option<usize>)
        requires
            self.linked(),
            self.alive(x),
        ensures
            r.is_none() <==> self.nd(x).left.is_none() && self.nd(x).right.is_none(),
            r.is_some() ==> self.alive(r.unwrap()) && r.unwrap() != x,
            r.is_some() && self.nd(x).right.is_some() ==> self.nd(r.unwrap()).left.is_none()
                && self.info(r.unwrap()).pos == self.info(x).pos + 1,
            r.is_some() && self.nd(x).right.is_none() ==> self.nd(r.unwrap()).right.is_none()
                && self.info(r.unwrap()).pos == self.info(x).pos - 1,
    {
        proof {
            assert(self.node_linked(x));
        }
        let node: Node = self.nodes[x];
        if node.right.is_some() {
            self.search_min_node(node.right)
        } else if node.left.is_some() {
            self.search_max_node(node.left)
        } else {
            None
        }
    }

    /// `node` is a vertex of the tree.
    pub closed spec fn holds(&self, node: Node) -> bool {
        exists|i: usize| self.alive(i) && self.nd(i) == node
    }

    /// The vertex that holds the key `value`, if the tree has that key.
    pub fn get(&self, value: i32) -> (r: Option<&Node>)
        requires
            self.wf(),
        ensures
            r.is_some() <==> self@.contains(value),
            r.is_some() ==> r.unwrap().value == value && self.holds(*r.unwrap()),
    {
        match self.insert_search(value, true) {
            None => None,
            Some(x) => {
                proof {
                    self.lemma_key_at(x);
                }
                Some(&self.nodes[x])
            },
        }
    }

    /// The root vertex, if the tree is not empty.
    pub fn root(&self) -> (r: Option<&Node>)
        requires
            self.wf(),
        ensures
            r.is_some() <==> self.top().is_some(),
            r.is_some() ==> *r.unwrap() == self.at(self.top().unwrap()) && self.holds(*r.unwrap()),
            r.is_none() <==> self@ == Set::<i32>::empty(),
    {
        match self.root {
            None => {
                proof {
                    assert(self.keys() =~= Seq::<i32>::empty());
                    assert(self@ =~= Set::<i32>::empty());
                }
                None
            },
            Some(x) => {
                proof {
                    self.lemma_key_at(x);
                    assert(self@.contains(self.nd(x).value));
                }
                Some(&self.nodes[x])
            },
        }
    }

    /// The child of the vertex `node` of this tree on the given side, if it
    /// has one there.
    pub fn child(&self, node: &Node, right: bool) -> (r: Option<&Node>)
        requires
            self.wf(),
            self.holds(*node),
        ensures
            r.is_some() <==> kid(*node, right).is_some(),
            r.is_some() ==> *r.unwrap() == self.at(kid(*node, right).unwrap()) && self.holds(
                *r.unwrap(),
            ),
    {
        proof {
            let i = choose|i: usize| self.alive(i) && self.nd(i) == *node;
            assert(self.node_linked(i));
        }
        let link = if right {
            node.right
        } else {
            node.left
        };
        match link {
            None => None,
            Some(c) => Some(&self.nodes[c]),
        }
    }
}

} // verus!
