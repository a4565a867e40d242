// The checker that walks every path of the tree and counts its black
// vertices.
use vstd::prelude::*;
use crate::rbtree_mod::rotate::kid;
use crate::rbtree_mod::{Color, RedBlackTree};

verus! {

impl RedBlackTree {
    /// The number of black vertices on the walk that starts at the link `c`
    /// and goes left at each `false` and right at each `true` of `turns`,
    /// where that walk ends at an empty position just when the turns are
    /// used up; `None` for any other walk.
    pub open spec fn blacks_on(&self, c: Option<usize>, turns: Seq<bool>) -> Option<nat>
        decreases turns.len(),
    {
        match c {
            None => if turns.len() == 0 {
                Some(0)
            } else {
                None
            },
            Some(i) => if turns.len() == 0 {
                None
            } else {
                match self.blacks_on(kid(self.at(i), turns[0]), turns.drop_first()) {
                    None => None,
                    Some(n) => Some(
                        if self.at(i).color == Color::Black {
                            n + 1
                        } else {
                            n
                        },
                    ),
                }
            },
        }
    }

    /// Every walk from the link `c` down to an empty position crosses `h`
    /// black vertices, where `i` of them are counted in advance.
    pub open spec fn even_from(&self, c: Option<usize>, i: nat, h: nat) -> bool {
        forall|turns: Seq<bool>|
            (#[trigger] self.blacks_on(c, turns)).is_some() ==> i + self.blacks_on(
                c,
                turns,
            ).unwrap() == h
    }

    /// All walks from the root down to an empty position cross the same
    /// number of black vertices.
    pub open spec fn level(&self) -> bool {
        forall|one: Seq<bool>, two: Seq<bool>|
            (#[trigger] self.blacks_on(self.top(), one)).is_some() && (#[trigger] self.blacks_on(
                self.top(),
                two,
            )).is_some() ==> self.blacks_on(self.top(), one) == self.blacks_on(self.top(), two)
    }

    /// The walks from a vertex are those from its two child links, each
    /// with one more turn in front.
    pub(crate) proof fn lemma_even_split(&self, x: usize, i: nat, h: nat)
        ensures
            self.even_from(Some(x), i, h) <==> self.even_from(
                self.nd(x).left,
                i + self.blk(x),
                h,
            ) && self.even_from(self.nd(x).right, i + self.blk(x), h),
    {
        let j = i + self.blk(x);
        if self.even_from(Some(x), i, h) {
            assert forall|turns: Seq<bool>|
                (#[trigger] self.blacks_on(self.nd(x).left, turns)).is_some() implies j
                + self.blacks_on(self.nd(x).left, turns).unwrap() == h by {
                let more = seq![false] + turns;
                assert(more.drop_first() =~= turns);
                assert(self.blacks_on(Some(x), more).is_some());
            }
            assert forall|turns: Seq<bool>|
                (#[trigger] self.blacks_on(self.nd(x).right, turns)).is_some() implies j
                + self.blacks_on(self.nd(x).right, turns).unwrap() == h by {
                let more = seq![true] + turns;
                assert(more.drop_first() =~= turns);
                assert(self.blacks_on(Some(x), more).is_some());
            }
        }
        if self.even_from(self.nd(x).left, j, h) && self.even_from(self.nd(x).right, j, h) {
            assert forall|turns: Seq<bool>|
                (#[trigger] self.blacks_on(Some(x), turns)).is_some() implies i + self.blacks_on(
                Some(x),
                turns,
            ).unwrap() == h by {
                let less = turns.drop_first();
                if turns[0] {
                    assert(self.blacks_on(self.nd(x).right, less).is_some());
                } else {
                    assert(self.blacks_on(self.nd(x).left, less).is_some());
                }
            }
        }
    }

    /// Walks the subtree behind the link `x` down to every empty position,
    /// counting in `i` the black vertices passed on the way. The count at
    /// the first empty position is kept in `hight`; `result` is cleared if
    /// the count at any position differs from the one kept.
    pub(crate) fn _check_rb_hight(
        &self,
        x: Option<usize>,
        i: usize,
        hight: &mut Option<usize>,
        result: &mut bool,
    )
        requires
            self.linked(),
            match x {
                None => i <= self.count(),
                Some(x) => self.alive(x) && i + (self.info(x).last - self.info(x).first)
                    <= self.count(),
            },
        ensures
            final(hight).is_some(),
            old(hight).is_some() ==> *final(hight) == *old(hight),
            old(hight).is_none() ==> exists|turns: Seq<bool>|
                self.blacks_on(x, turns).is_some() && i + self.blacks_on(x, turns).unwrap()
                    == final(hight).unwrap(),
            *final(result) == (*old(result) && self.even_from(
                x,
                i as nat,
                final(hight).unwrap() as nat,
            )),
        decreases
                match x {
                    None => 0,
                    Some(x) => self.info(x).last - self.info(x).first,
                },
    {
        match x {
            Some(x) => {
                proof {
                    assert(self.node_linked(x));
                    if self.nd(x).left.is_some() {
                        assert(self.node_linked(self.nd(x).left.unwrap()));
                    }
                    if self.nd(x).right.is_some() {
                        assert(self.node_linked(self.nd(x).right.unwrap()));
                    }
                    assert(self.nodes@.len() == self.nodes.len());
                }
                let x_node = self.nodes[x];
                let mut i: usize = i;
                if x_node.color == Color::Black {
                    i += 1;
                }
                let ghost before = *hight;
                self._check_rb_hight(x_node.left, i, hight, result);
                proof {
                    if before.is_none() {
                        let turns = choose|turns: Seq<bool>|
                            self.blacks_on(x_node.left, turns).is_some() && i + self.blacks_on(
                                x_node.left,
                                turns,
                            ).unwrap() == hight.unwrap();
                        let more = seq![false] + turns;
                        assert(more.drop_first() =~= turns);
                        assert(self.blacks_on(Some(x), more).is_some());
                    }
                }
                self._check_rb_hight(x_node.right, i, hight, result);
                proof {
                    self.lemma_even_split(x, (i - self.blk(x)) as nat, hight.unwrap() as nat);
                }
            },
            None => {
                if hight.is_none() {
                    *hight = Some(i);
                }
                if *result {
                    *result = opt_eq(*hight, i);
                }
                proof {
                    assert(self.blacks_on(None, Seq::<bool>::empty()) == Some(0nat));
                    assert(self.even_from(None, i as nat, hight.unwrap() as nat) <==> i
                        == hight.unwrap()) by {
                        if i == hight.unwrap() {
                            assert forall|turns: Seq<bool>|
                                (#[trigger] self.blacks_on(None, turns)).is_some() implies i
                                + self.blacks_on(None, turns).unwrap() == hight.unwrap() by {}
                        }
                    }
                }
            },
        }
    }

    /// Whether all walks from the root down to an empty position cross the
    /// same number of black vertices.
    pub fn check_tree(&self) -> (ok: bool)
        requires
            self.shaped(),
        ensures
            ok == self.level(),
    {
        let mut hight: Option<usize> = None;
        let mut result: bool = true;
        proof {
            if self.root.is_some() {
                assert(self.node_linked(self.root.unwrap()));
            }
        }
        self._check_rb_hight(self.root, 0, &mut hight, &mut result);
        proof {
            let h = hight.unwrap() as nat;
            let first = choose|turns: Seq<bool>|
                self.blacks_on(self.root, turns).is_some() && 0 + self.blacks_on(
                    self.root,
                    turns,
                ).unwrap() == h;
            if self.level() {
                assert forall|turns: Seq<bool>|
                    (#[trigger] self.blacks_on(self.root, turns)).is_some() implies 0
                    + self.blacks_on(self.root, turns).unwrap() == h by {
                    assert(self.blacks_on(self.root, turns) == self.blacks_on(self.root, first));
                }
            }
        }
        result
    }
}

/// Whether the value behind `o` is `i`.
pub(crate) fn opt_eq(o: Option<usize>, i: usize) -> (r: bool)
    ensures
        r == (o == Some(i)),
{
    match o {
        None => false,
        Some(v) => v == i,
    }
}

} // verus!
