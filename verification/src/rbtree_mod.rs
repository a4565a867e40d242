// The tree and its vertices, and what it means for a tree to be well-formed.
//
// Vertices stand in the slots of an arena and name one another by slot. The
// proofs keep, beside the arena, the in-order walk of the tree and for every
// vertex its rank in that walk, the range of ranks of its subtree and the
// black height of its subtree. All rules are then rules about one vertex and
// its neighbours.
use core::cmp::Ordering;
use vstd::prelude::*;

pub mod access;
pub mod check;
pub mod delete;
pub mod detach;
pub mod fixup;
pub mod frame;
pub mod insert;
pub mod laws;
pub mod rebalance;
pub mod rotate;
pub mod search;

verus! {

/// Colour of a tree vertex.
#[derive(Clone, Copy, Debug, PartialEq, Eq, Structural)]
pub enum Color {
    Red,
    Black,
}

/// A tree vertex.
///
/// Vertices live in the arena of their tree; `left`, `right` and `parent`
/// are slots of that arena. The children are owned by the vertex, the parent
/// link is a back-reference used for navigation only.
#[derive(Clone, Copy, Debug)]
pub struct Node {
    pub value: i32,
    pub color: Color,
    pub left: Option<usize>,
    pub right: Option<usize>,
    pub parent: Option<usize>,
}

impl Node {
    /// A childless vertex with the given key, colour and parent link.
    pub fn new(value: i32, color: Color, parent: Option<usize>) -> (node: Node)
        ensures
            node == (Node { value: value, color: color, left: None, right: None, parent: parent }),
    {
        Node { value: value, color: color, left: None, right: None, parent: parent }
    }
}

impl PartialEq for Node {
    /// Two vertices are equal where their keys are.
    fn eq(&self, other: &Self) -> (r: bool) {
        self.value == other.value
    }
}

impl vstd::std_specs::cmp::PartialEqSpecImpl for Node {
    open spec fn obeys_eq_spec() -> bool {
        true
    }

    open spec fn eq_spec(&self, other: &Self) -> bool {
        self.value == other.value
    }
}

impl PartialOrd for Node {
    /// Vertices are ordered as their keys are.
    fn partial_cmp(&self, other: &Self) -> (r: Option<Ordering>) {
        if self.value < other.value {
            Some(Ordering::Less)
        } else if self.value > other.value {
            Some(Ordering::Greater)
        } else {
            Some(Ordering::Equal)
        }
    }
}

impl vstd::std_specs::cmp::PartialOrdSpecImpl for Node {
    open spec fn obeys_partial_cmp_spec() -> bool {
        true
    }

    open spec fn partial_cmp_spec(&self, other: &Self) -> Option<Ordering> {
        if self.value < other.value {
            Some(Ordering::Less)
        } else if self.value > other.value {
            Some(Ordering::Greater)
        } else {
            Some(Ordering::Equal)
        }
    }
}

/// What the proofs record about one arena slot.
///
/// `pos` is the rank of the vertex in the in-order walk of the tree, and
/// `first .. last` is the range of ranks that its subtree covers. `bh` is the
/// number of black vertices on every path from the vertex (itself included)
/// down to an empty position.
pub(crate) struct Info {
    pub(crate) live: bool,
    pub(crate) pos: int,
    pub(crate) first: int,
    pub(crate) last: int,
    pub(crate) bh: nat,
}

/// The ghost description of a whole tree: the in-order walk as a sequence of
/// arena slots, and one `Info` per slot.
pub(crate) struct Shape {
    pub(crate) order: Seq<usize>,
    pub(crate) info: Seq<Info>,
}

/// An ordered set of `i32` keys kept as a red-black tree.
#[derive(Clone)]
pub struct RedBlackTree {
    pub(crate) nodes: Vec<Node>,
    pub(crate) free: Vec<usize>,
    pub(crate) root: Option<usize>,
    pub(crate) len: usize,
    pub(crate) shape: Ghost<Shape>,
}

impl View for RedBlackTree {
    type V = Set<i32>;

    /// The set of keys held by the tree.
    closed spec fn view(&self) -> Set<i32> {
        self.keys().to_set()
    }
}

impl RedBlackTree {
    /// The vertex in slot `i`.
    pub(crate) open spec fn nd(&self, i: usize) -> Node {
        self.nodes@[i as int]
    }

    /// The ghost record of slot `i`.
    pub(crate) open spec fn info(&self, i: usize) -> Info {
        self.shape@.info[i as int]
    }

    /// Number of vertices in the tree.
    pub(crate) open spec fn count(&self) -> int {
        self.shape@.order.len() as int
    }

    /// Slot `i` holds a vertex of the tree.
    pub(crate) open spec fn alive(&self, i: usize) -> bool {
        i < self.nodes@.len() && self.shape@.info[i as int].live
    }

    /// The keys in increasing rank.
    pub(crate) open spec fn keys(&self) -> Seq<i32> {
        Seq::new(self.shape@.order.len(), |t: int| self.nodes@[self.shape@.order[t] as int].value)
    }

    /// Bookkeeping of the arena: every slot is either listed once in the
    /// in-order walk or once in the free list.
    pub(crate) open spec fn slots_ok(&self) -> bool {
        &&& self.shape@.info.len() == self.nodes@.len()
        &&& self.len == self.shape@.order.len()
        &&& self.shape@.order.len() + self.free@.len() == self.nodes@.len()
        &&& forall|k: int|
            0 <= k < self.free@.len() ==> (#[trigger] self.free@[k]) < self.nodes@.len()
                && !self.shape@.info[self.free@[k] as int].live
        &&& forall|a: int, b: int|
            0 <= a < b < self.free@.len() ==> #[trigger] self.free@[a] != #[trigger] self.free@[b]
        &&& forall|t: int|
            0 <= t < self.shape@.order.len() ==> self.alive(#[trigger] self.shape@.order[t])
                && self.shape@.info[self.shape@.order[t] as int].pos == t
    }

    /// Child link `c` of vertex `i` is consistent: an absent child covers the
    /// empty range `lo .. hi`, a present one covers exactly that range and
    /// points back at `i`.
    pub(crate) open spec fn kid_linked(&self, i: usize, c: Option<usize>, lo: int, hi: int) -> bool {
        match c {
            None => lo == hi,
            Some(c) => self.alive(c) && self.nd(c).parent == Some(i) && self.info(c).first == lo
                && self.info(c).last == hi,
        }
    }

    /// The links and ranks of vertex `i` are consistent with its neighbours.
    pub(crate) open spec fn node_linked(&self, i: usize) -> bool {
        let n = self.nd(i);
        let f = self.info(i);
        &&& 0 <= f.first <= f.pos < f.last <= self.count()
        &&& self.shape@.order[f.pos] == i
        &&& self.kid_linked(i, n.left, f.first, f.pos)
        &&& self.kid_linked(i, n.right, f.pos + 1, f.last)
        &&& match n.parent {
            None => self.root == Some(i) && f.first == 0 && f.last == self.count(),
            Some(p) => self.alive(p) && (self.nd(p).left == Some(i) || self.nd(p).right == Some(
                i,
            )),
        }
    }

    /// The arena is a tree: the links agree with each other and with the
    /// in-order walk.
    pub(crate) open spec fn linked(&self) -> bool {
        &&& self.slots_ok()
        &&& match self.root {
            None => self.count() == 0,
            Some(r) => self.alive(r) && self.nd(r).parent.is_none(),
        }
        &&& forall|i: usize| self.alive(i) ==> #[trigger] self.node_linked(i)
    }

    /// Keys increase strictly along the in-order walk.
    pub(crate) open spec fn sorted(&self) -> bool {
        forall|s: int, t: int|
            0 <= s < t < self.count() ==> #[trigger] self.keys()[s] < #[trigger] self.keys()[t]
    }

    /// Black height of the subtree behind a child link.
    pub(crate) open spec fn bhc(&self, c: Option<usize>) -> nat {
        match c {
            None => 0,
            Some(c) => self.info(c).bh,
        }
    }

    /// One if vertex `i` is black, else zero.
    pub(crate) open spec fn blk(&self, i: usize) -> nat {
        if self.nd(i).color == Color::Black {
            1
        } else {
            0
        }
    }

    /// The child link leads to no red vertex.
    pub(crate) open spec fn kid_black(&self, c: Option<usize>) -> bool {
        match c {
            None => true,
            Some(c) => self.nd(c).color == Color::Black,
        }
    }

    /// Both subtrees of vertex `i` have the same black height, and `bh`
    /// records it.
    pub(crate) open spec fn node_heights(&self, i: usize) -> bool {
        &&& self.bhc(self.nd(i).left) == self.bhc(self.nd(i).right)
        &&& self.info(i).bh == self.bhc(self.nd(i).left) + self.blk(i)
    }

    /// A red vertex `i` has no red child.
    pub(crate) open spec fn node_reds(&self, i: usize) -> bool {
        self.nd(i).color == Color::Red ==> self.kid_black(self.nd(i).left) && self.kid_black(
            self.nd(i).right,
        )
    }

    /// The root, if any, is black.
    pub(crate) open spec fn root_black(&self) -> bool {
        match self.root {
            None => true,
            Some(r) => self.nd(r).color == Color::Black,
        }
    }

    /// The colour rules hold everywhere.
    pub(crate) open spec fn balanced(&self) -> bool {
        &&& self.root_black()
        &&& forall|i: usize| self.alive(i) ==> #[trigger] self.node_heights(i)
        &&& forall|i: usize| self.alive(i) ==> #[trigger] self.node_reds(i)
    }

    /// The tree is a red-black search tree: its links form a tree, the keys
    /// are in search order, no red vertex has a red child, every path from a
    /// vertex down to an empty position crosses the same number of black
    /// vertices, the root is black, and `len` counts the vertices.
    pub closed spec fn wf(&self) -> bool {
        &&& self.linked()
        &&& self.sorted()
        &&& self.balanced()
    }

    /// The vertex in arena slot `i`.
    pub closed spec fn at(&self, i: usize) -> Node {
        self.nd(i)
    }

    /// The arena slot of the root, if the tree has one.
    pub closed spec fn top(&self) -> Option<usize> {
        self.root
    }

    /// The arena is a tree: child and parent links agree, every vertex but
    /// the root hangs under exactly one other, and `len` counts the
    /// vertices.
    pub closed spec fn shaped(&self) -> bool {
        self.linked()
    }

    /// The two trees hold the same vertices in the same slots, linked and
    /// coloured alike.
    pub closed spec fn same_tree(&self, other: &RedBlackTree) -> bool {
        &&& self.nodes@ == other.nodes@
        &&& self.free@ == other.free@
        &&& self.root == other.root
        &&& self.len == other.len
        &&& self.shape@ == other.shape@
    }

    /// An empty tree.
    pub fn new() -> (tree: RedBlackTree)
        ensures
            tree.wf(),
            tree@ == Set::<i32>::empty(),
    {
        let tree = RedBlackTree {
            nodes: Vec::new(),
            free: Vec::new(),
            root: None,
            len: 0,
            shape: Ghost(Shape { order: Seq::empty(), info: Seq::empty() }),
        };
        assert(tree.keys() =~= Seq::<i32>::empty());
        tree
    }
}

} // verus!
