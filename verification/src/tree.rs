use vstd::prelude::*;

use crate::pane::Pane;

verus! {

/// Direction along which a split divides its space: `Horizontal` stacks its
/// children top/bottom, `Vertical` places them left/right.
#[derive(Clone, Copy, Debug, PartialEq, Eq, Structural)]
pub enum Axis {
    Horizontal,
    Vertical,
}

/// Why a mutation was refused.
#[derive(Clone, Copy, Debug, PartialEq, Eq, Structural)]
pub enum Fail {
    /// The id does not name an existing node of the required kind.
    NotFound,
    /// Closing the sole remaining leaf is never allowed.
    LastPaneProtected,
}

/// Ratios are stored in fixed point: a ratio of `r` gives the first child
/// `r / RATIO_UNIT` of the split's space.
pub const RATIO_UNIT: u32 = 10000;

/// Smallest fraction a pane may be squeezed to, so a pane never collapses
/// to nothing: two percent of its split.
pub const RATIO_MIN: u32 = 200;

/// An even split; the ratio every new split starts with.
pub const RATIO_HALF: u32 = 5000;

/// The ratio actually stored for a requested ratio `r`: clamped into
/// `[RATIO_MIN, RATIO_UNIT - RATIO_MIN]`.
pub open spec fn clamp_ratio_spec(r: u32) -> u32 {
    if r < RATIO_MIN {
        RATIO_MIN
    } else if r > RATIO_UNIT - RATIO_MIN {
        (RATIO_UNIT - RATIO_MIN) as u32
    } else {
        r
    }
}

/// Clamp a requested ratio into the allowed band.
pub fn clamp_ratio(r: u32) -> (c: u32)
    ensures
        c == clamp_ratio_spec(r),
{
    if r < RATIO_MIN {
        RATIO_MIN
    } else if r > RATIO_UNIT - RATIO_MIN {
        RATIO_UNIT - RATIO_MIN
    } else {
        r
    }
}

/// A clamped ratio always lies in the allowed band.
pub proof fn lemma_clamp_ratio_in_band(r: u32)
    ensures
        RATIO_MIN <= clamp_ratio_spec(r),
        clamp_ratio_spec(r) <= RATIO_UNIT - RATIO_MIN,
{
}

/// A node of the split tree. A `Leaf` holds one pane's content; a `Split`
/// divides its space along `axis` at `ratio` between `first` and `second`.
/// Every node carries the id under which callers address it.
#[derive(Debug, PartialEq, Eq)]
pub enum Node {
    Leaf { id: usize, content: Pane },
    Split { id: usize, axis: Axis, ratio: u32, first: Box<Node>, second: Box<Node> },
}

impl Node {
    /// Number of leaves below (and including) this node.
    pub open spec fn leaf_count(self) -> nat
        decreases self,
    {
        match self {
            Node::Leaf { .. } => 1,
            Node::Split { first, second, .. } => first.leaf_count() + second.leaf_count(),
        }
    }

    /// Number of split nodes below (and including) this node.
    pub open spec fn split_count(self) -> nat
        decreases self,
    {
        match self {
            Node::Leaf { .. } => 0,
            Node::Split { first, second, .. } => 1 + first.split_count() + second.split_count(),
        }
    }

    /// Number of nodes of either kind.
    pub open spec fn node_count(self) -> nat
        decreases self,
    {
        match self {
            Node::Leaf { .. } => 1,
            Node::Split { first, second, .. } => 1 + first.node_count() + second.node_count(),
        }
    }

    /// All ids present in this subtree, splits and leaves alike.
    pub open spec fn id_set(self) -> Set<usize>
        decreases self,
    {
        match self {
            Node::Leaf { id, .. } => set![id],
            Node::Split { id, first, second, .. } => first.id_set().union(
                second.id_set(),
            ).insert(id),
        }
    }

    /// The ids of the leaves of this subtree.
    pub open spec fn leaf_id_set(self) -> Set<usize>
        decreases self,
    {
        match self {
            Node::Leaf { id, .. } => set![id],
            Node::Split { first, second, .. } => first.leaf_id_set().union(second.leaf_id_set()),
        }
    }

    /// No id occurs twice in the subtree: the tree faithfully stands for an
    /// arena in which every node has a slot of its own.
    pub open spec fn ids_unique(self) -> bool
        decreases self,
    {
        match self {
            Node::Leaf { .. } => true,
            Node::Split { id, first, second, .. } => {
                &&& first.ids_unique()
                &&& second.ids_unique()
                &&& first.id_set().disjoint(second.id_set())
                &&& !first.id_set().contains(id)
                &&& !second.id_set().contains(id)
            },
        }
    }

    /// Every id in the subtree is below `bound`.
    pub open spec fn ids_below(self, bound: int) -> bool {
        forall|i: usize| self.id_set().contains(i) ==> i < bound
    }

    /// Every stored ratio lies in the allowed band.
    pub open spec fn ratios_ok(self) -> bool
        decreases self,
    {
        match self {
            Node::Leaf { .. } => true,
            Node::Split { ratio, first, second, .. } => {
                &&& RATIO_MIN <= ratio
                &&& ratio <= RATIO_UNIT - RATIO_MIN
                &&& first.ratios_ok()
                &&& second.ratios_ok()
            },
        }
    }

    /// Does `i` name a leaf of this subtree?
    pub open spec fn is_leaf_id(self, i: usize) -> bool
        decreases self,
    {
        match self {
            Node::Leaf { id, .. } => id == i,
            Node::Split { first, second, .. } => first.is_leaf_id(i) || second.is_leaf_id(i),
        }
    }

    /// Does `i` name a split of this subtree?
    pub open spec fn is_split_id(self, i: usize) -> bool
        decreases self,
    {
        match self {
            Node::Leaf { .. } => false,
            Node::Split { id, first, second, .. } => id == i || first.is_split_id(i)
                || second.is_split_id(i),
        }
    }

    /// The content of the leaf named `i` (meaningful when `is_leaf_id(i)`).
    pub open spec fn content_at(self, i: usize) -> Pane
        decreases self,
    {
        match self {
            Node::Leaf { content, .. } => content,
            Node::Split { first, second, .. } => if first.is_leaf_id(i) {
                first.content_at(i)
            } else {
                second.content_at(i)
            },
        }
    }

    /// The ratio of the split named `i` (meaningful when `is_split_id(i)`).
    pub open spec fn ratio_at(self, i: usize) -> u32
        decreases self,
    {
        match self {
            Node::Leaf { .. } => RATIO_HALF,
            Node::Split { id, ratio, first, second, .. } => if id == i {
                ratio
            } else if first.is_split_id(i) {
                first.ratio_at(i)
            } else {
                second.ratio_at(i)
            },
        }
    }

    /// The leaves of this subtree with their contents, left to right.
    pub open spec fn leaves_seq(self) -> Seq<(usize, Pane)>
        decreases self,
    {
        match self {
            Node::Leaf { id, content } => seq![(id, content)],
            Node::Split { first, second, .. } => first.leaves_seq() + second.leaves_seq(),
        }
    }

    /// The tree after splitting leaf `target`: that leaf's place is taken by
    /// a new split (id `fresh`) whose first child is the original leaf and
    /// whose second child is a new leaf (id `fresh + 1`) holding `content`.
    pub open spec fn spec_split(self, target: usize, ax: Axis, content: Pane, fresh: usize) -> Node
        decreases self,
    {
        match self {
            Node::Leaf { id, content: c } => if id == target {
                Node::Split {
                    id: fresh,
                    axis: ax,
                    ratio: RATIO_HALF,
                    first: Box::new(Node::Leaf { id, content: c }),
                    second: Box::new(Node::Leaf { id: (fresh + 1) as usize, content }),
                }
            } else {
                self
            },
            Node::Split { id, axis, ratio, first, second } => if first.is_leaf_id(target) {
                Node::Split {
                    id,
                    axis,
                    ratio,
                    first: Box::new(first.spec_split(target, ax, content, fresh)),
                    second,
                }
            } else {
                Node::Split {
                    id,
                    axis,
                    ratio,
                    first,
                    second: Box::new(second.spec_split(target, ax, content, fresh)),
                }
            },
        }
    }

    /// The tree after closing leaf `target`: its parent split disappears and
    /// the sibling subtree is promoted into the parent's place. Identity when
    /// `target` is not a leaf below a split.
    pub open spec fn spec_close(self, target: usize) -> Node
        decreases self,
    {
        match self {
            Node::Leaf { .. } => self,
            Node::Split { id, axis, ratio, first, second } => {
                if (*first) matches Node::Leaf { id: fid, .. } && fid == target {
                    *second
                } else if (*second) matches Node::Leaf { id: sid, .. } && sid == target {
                    *first
                } else if first.is_leaf_id(target) {
                    Node::Split { id, axis, ratio, first: Box::new(first.spec_close(target)), second }
                } else {
                    Node::Split { id, axis, ratio, first, second: Box::new(second.spec_close(target)) }
                }
            },
        }
    }

    /// The tree after storing `ratio` at split `target`.
    pub open spec fn spec_resize(self, target: usize, new_ratio: u32) -> Node
        decreases self,
    {
        match self {
            Node::Leaf { .. } => self,
            Node::Split { id, axis, ratio, first, second } => if id == target {
                Node::Split { id, axis, ratio: new_ratio, first, second }
            } else if first.is_split_id(target) {
                Node::Split {
                    id,
                    axis,
                    ratio,
                    first: Box::new(first.spec_resize(target, new_ratio)),
                    second,
                }
            } else {
                Node::Split {
                    id,
                    axis,
                    ratio,
                    first,
                    second: Box::new(second.spec_resize(target, new_ratio)),
                }
            },
        }
    }

    /// The tree after replacing the content of leaf `target` with `content`.
    pub open spec fn spec_set_content(self, target: usize, content: Pane) -> Node
        decreases self,
    {
        match self {
            Node::Leaf { id, content: c } => if id == target {
                Node::Leaf { id, content }
            } else {
                self
            },
            Node::Split { id, axis, ratio, first, second } => if first.is_leaf_id(target) {
                Node::Split {
                    id,
                    axis,
                    ratio,
                    first: Box::new(first.spec_set_content(target, content)),
                    second,
                }
            } else {
                Node::Split {
                    id,
                    axis,
                    ratio,
                    first,
                    second: Box::new(second.spec_set_content(target, content)),
                }
            },
        }
    }
}

/// Every proper binary tree has exactly one leaf more than it has splits,
/// and at least one leaf.
pub proof fn lemma_counts(n: Node)
    ensures
        n.leaf_count() == n.split_count() + 1,
        n.leaf_count() >= 1,
        n.node_count() == n.leaf_count() + n.split_count(),
    decreases n,
{
    match n {
        Node::Leaf { .. } => {},
        Node::Split { first, second, .. } => {
            lemma_counts(*first);
            lemma_counts(*second);
        },
    }
}

/// `i` names a leaf exactly when the leaf id set holds `i`.
pub proof fn lemma_leaf_ids(n: Node)
    ensures
        forall|i: usize| n.is_leaf_id(i) <==> n.leaf_id_set().contains(i),
    decreases n,
{
    match n {
        Node::Leaf { id, .. } => {
            assert forall|i: usize| n.is_leaf_id(i) <==> n.leaf_id_set().contains(i) by {
                assert(n.leaf_id_set() == set![id]);
            }
        },
        Node::Split { first, second, .. } => {
            lemma_leaf_ids(*first);
            lemma_leaf_ids(*second);
            assert forall|i: usize| n.is_leaf_id(i) <==> n.leaf_id_set().contains(i) by {
                assert(n.leaf_id_set() == first.leaf_id_set().union(second.leaf_id_set()));
                assert(first.is_leaf_id(i) <==> first.leaf_id_set().contains(i));
                assert(second.is_leaf_id(i) <==> second.leaf_id_set().contains(i));
            }
        },
    }
}

/// Leaf ids are ids.
pub proof fn lemma_leaf_ids_are_ids(n: Node)
    ensures
        n.leaf_id_set().subset_of(n.id_set()),
    decreases n,
{
    match n {
        Node::Leaf { .. } => {},
        Node::Split { first, second, .. } => {
            lemma_leaf_ids_are_ids(*first);
            lemma_leaf_ids_are_ids(*second);
            assert(n.leaf_id_set().subset_of(n.id_set()));
        },
    }
}

/// What `spec_split` does to the measures of the tree, given that `target`
/// names a leaf and `fresh`, `fresh + 1` are new ids.
pub proof fn lemma_split_props(n: Node, target: usize, ax: Axis, content: Pane, fresh: usize)
    requires
        n.ids_unique(),
        n.ids_below(fresh as int),
        n.ratios_ok(),
        n.is_leaf_id(target),
        fresh + 1 <= usize::MAX,
    ensures
        ({
            let m = n.spec_split(target, ax, content, fresh);
            &&& m.ids_unique()
            &&& m.ratios_ok()
            &&& m.id_set() =~= n.id_set().insert(fresh).insert((fresh + 1) as usize)
            &&& m.leaf_id_set() =~= n.leaf_id_set().insert((fresh + 1) as usize)
            &&& m.leaf_count() == n.leaf_count() + 1
            &&& m.node_count() == n.node_count() + 2
            &&& m.content_at((fresh + 1) as usize) == content
            &&& forall|j: usize| n.is_leaf_id(j) ==> m.content_at(j) == n.content_at(j)
        }),
    decreases n,
{
    lemma_leaf_ids(n);
    lemma_leaf_ids_are_ids(n);
    let m = n.spec_split(target, ax, content, fresh);
    match n {
        Node::Leaf { id, content: c } => {
            let f = Node::Leaf { id, content: c };
            let s = Node::Leaf { id: (fresh + 1) as usize, content };
            assert(*Box::new(f) == f);
            assert(*Box::new(s) == s);
            assert(m == (Node::Split {
                id: fresh,
                axis: ax,
                ratio: RATIO_HALF,
                first: Box::new(f),
                second: Box::new(s),
            }));
            assert(m.id_set() == f.id_set().union(s.id_set()).insert(fresh));
            assert(m.leaf_id_set() == f.leaf_id_set().union(s.leaf_id_set()));
            assert(m.id_set() =~= n.id_set().insert(fresh).insert((fresh + 1) as usize));
            assert(m.leaf_id_set() =~= n.leaf_id_set().insert((fresh + 1) as usize));
            assert(n.id_set().contains(id));
            assert(id < fresh);
            assert(f.id_set() == set![id]);
            assert(s.id_set() == set![(fresh + 1) as usize]);
            assert(f.id_set().disjoint(s.id_set())) by {
                assert forall|k: usize| f.id_set().contains(k) implies !s.id_set().contains(
                    k,
                ) by {
                    assert(k == id);
                }
            }
            assert(!f.id_set().contains(fresh));
            assert(!s.id_set().contains(fresh));
            assert(f.ids_unique());
            assert(s.ids_unique());
            assert(m.ids_unique());
            assert(!f.is_leaf_id((fresh + 1) as usize));
            assert(s.content_at((fresh + 1) as usize) == content);
            assert(m.content_at((fresh + 1) as usize) == content);
            assert(f.ratios_ok());
            assert(s.ratios_ok());
            assert(m.ratios_ok());
            assert(f.leaf_count() == 1 && s.leaf_count() == 1);
            assert(m.leaf_count() == n.leaf_count() + 1);
            assert(f.node_count() == 1 && s.node_count() == 1);
            assert(m.node_count() == n.node_count() + 2);
            assert forall|j: usize| n.is_leaf_id(j) implies m.content_at(j) == n.content_at(
                j,
            ) by {
                assert(j == target);
            }
        },
        Node::Split { id, axis, ratio, first, second } => {
            lemma_leaf_ids(*first);
            lemma_leaf_ids(*second);
            lemma_leaf_ids_are_ids(*first);
            lemma_leaf_ids_are_ids(*second);
            assert(first.id_set().subset_of(n.id_set()));
            assert(second.id_set().subset_of(n.id_set()));
            assert(first.ids_below(fresh as int));
            assert(second.ids_below(fresh as int));
            if first.is_leaf_id(target) {
                lemma_split_props(*first, target, ax, content, fresh);
                let fm = first.spec_split(target, ax, content, fresh);
                assert(*Box::new(fm) == fm);
                lemma_leaf_ids(fm);
                assert(m == (Node::Split { id, axis, ratio, first: Box::new(fm), second }));
                assert(m.id_set() == fm.id_set().union(second.id_set()).insert(id));
                assert(m.id_set() =~= n.id_set().insert(fresh).insert((fresh + 1) as usize));
                assert(m.leaf_id_set() =~= n.leaf_id_set().insert((fresh + 1) as usize));
                assert(!second.id_set().contains(fresh));
                assert(!second.id_set().contains((fresh + 1) as usize));
                assert(fm.id_set().disjoint(second.id_set())) by {
                    assert forall|k: usize|
                        fm.id_set().contains(k) implies !second.id_set().contains(k) by {
                        assert(fm.id_set().contains(k) ==> first.id_set().contains(k) || k == fresh
                            || k == (fresh + 1) as usize);
                    }
                }
                assert(n.id_set().contains(id));
                assert(id < fresh);
                assert(!fm.id_set().contains(id));
                assert(m.ids_unique());
                assert(m.content_at((fresh + 1) as usize) == content) by {
                    assert(fm.is_leaf_id((fresh + 1) as usize));
                }
                assert forall|j: usize| n.is_leaf_id(j) implies m.content_at(j) == n.content_at(
                    j,
                ) by {
                    assert(j < fresh);
                    if first.is_leaf_id(j) {
                        assert(fm.is_leaf_id(j));
                    } else {
                        assert(!fm.is_leaf_id(j));
                    }
                }
            } else {
                assert(second.is_leaf_id(target));
                lemma_split_props(*second, target, ax, content, fresh);
                let sm = second.spec_split(target, ax, content, fresh);
                assert(*Box::new(sm) == sm);
                lemma_leaf_ids(sm);
                assert(m == (Node::Split { id, axis, ratio, first, second: Box::new(sm) }));
                assert(m.id_set() == first.id_set().union(sm.id_set()).insert(id));
                assert(m.id_set() =~= n.id_set().insert(fresh).insert((fresh + 1) as usize));
                assert(m.leaf_id_set() =~= n.leaf_id_set().insert((fresh + 1) as usize));
                assert(!first.id_set().contains(fresh));
                assert(!first.id_set().contains((fresh + 1) as usize));
                assert(first.id_set().disjoint(sm.id_set())) by {
                    assert forall|k: usize|
                        first.id_set().contains(k) implies !sm.id_set().contains(k) by {
                        assert(sm.id_set().contains(k) ==> second.id_set().contains(k) || k == fresh
                            || k == (fresh + 1) as usize);
                    }
                }
                assert(n.id_set().contains(id));
                assert(id < fresh);
                assert(!sm.id_set().contains(id));
                assert(m.ids_unique());
                assert(m.content_at((fresh + 1) as usize) == content) by {
                    assert(!first.is_leaf_id((fresh + 1) as usize));
                    assert(sm.is_leaf_id((fresh + 1) as usize));
                }
                assert forall|j: usize| n.is_leaf_id(j) implies m.content_at(j) == n.content_at(
                    j,
                ) by {
                    if first.is_leaf_id(j) {
                    } else {
                        assert(second.is_leaf_id(j));
                        assert(sm.content_at(j) == second.content_at(j));
                    }
                }
            }
        },
    }
}

impl Node {
    /// Does `target` name a leaf of this subtree?
    pub fn leaf_in(&self, target: usize) -> (r: bool)
        ensures
            r == self.is_leaf_id(target),
        decreases *self,
    {
        match self {
            Node::Leaf { id, .. } => *id == target,
            Node::Split { first, second, .. } => first.leaf_in(target) || second.leaf_in(target),
        }
    }

    /// Does `target` name a split of this subtree?
    pub fn split_in(&self, target: usize) -> (r: bool)
        ensures
            r == self.is_split_id(target),
        decreases *self,
    {
        match self {
            Node::Leaf { .. } => false,
            Node::Split { id, first, second, .. } => *id == target || first.split_in(target)
                || second.split_in(target),
        }
    }

    /// The content of the leaf named `target`.
    pub fn content_of(&self, target: usize) -> (r: Pane)
        ensures
            r == self.content_at(target),
        decreases *self,
    {
        match self {
            Node::Leaf { content, .. } => *content,
            Node::Split { first, second, .. } => if first.leaf_in(target) {
                first.content_of(target)
            } else {
                second.content_of(target)
            },
        }
    }

    /// Is this node the leaf named `target`?
    fn is_exactly_leaf(&self, target: usize) -> (r: bool)
        ensures
            r == (*self matches Node::Leaf { id, .. } && id == target),
    {
        match self {
            Node::Leaf { id, .. } => *id == target,
            Node::Split { .. } => false,
        }
    }

    /// Rebuild this tree with leaf `target` split; mirrors `spec_split`.
    fn split_walk(self, target: usize, ax: Axis, content: Pane, fresh: usize) -> (r: Node)
        requires
            fresh + 1 <= usize::MAX,
        ensures
            r == self.spec_split(target, ax, content, fresh),
        decreases self,
    {
        match self {
            Node::Leaf { id, content: c } => {
                if id == target {
                    Node::Split {
                        id: fresh,
                        axis: ax,
                        ratio: RATIO_HALF,
                        first: Box::new(Node::Leaf { id, content: c }),
                        second: Box::new(Node::Leaf { id: fresh + 1, content }),
                    }
                } else {
                    Node::Leaf { id, content: c }
                }
            },
            Node::Split { id, axis, ratio, first, second } => {
                if first.leaf_in(target) {
                    let sub = *first;
                    Node::Split {
                        id,
                        axis,
                        ratio,
                        first: Box::new(sub.split_walk(target, ax, content, fresh)),
                        second,
                    }
                } else {
                    let sub = *second;
                    Node::Split {
                        id,
                        axis,
                        ratio,
                        first,
                        second: Box::new(sub.split_walk(target, ax, content, fresh)),
                    }
                }
            },
        }
    }

    /// Is this node itself a leaf?
    pub open spec fn is_leaf_node(self) -> bool {
        self matches Node::Leaf { .. }
    }

    /// Exec mirror of `is_leaf_node`.
    pub fn leaf_node(&self) -> (r: bool)
        ensures
            r == self.is_leaf_node(),
    {
        match self {
            Node::Leaf { .. } => true,
            Node::Split { .. } => false,
        }
    }

    /// Rebuild this tree with leaf `target` closed; mirrors `spec_close`.
    fn close_walk(self, target: usize) -> (r: Node)
        ensures
            r == self.spec_close(target),
        decreases self,
    {
        match self {
            Node::Leaf { id, content } => Node::Leaf { id, content },
            Node::Split { id, axis, ratio, first, second } => {
                if first.is_exactly_leaf(target) {
                    *second
                } else if second.is_exactly_leaf(target) {
                    *first
                } else if first.leaf_in(target) {
                    let sub = *first;
                    Node::Split { id, axis, ratio, first: Box::new(sub.close_walk(target)), second }
                } else {
                    let sub = *second;
                    Node::Split { id, axis, ratio, first, second: Box::new(sub.close_walk(target)) }
                }
            },
        }
    }

    /// Rebuild this tree with the ratio at split `target` replaced; mirrors
    /// `spec_resize`.
    fn resize_walk(self, target: usize, new_ratio: u32) -> (r: Node)
        ensures
            r == self.spec_resize(target, new_ratio),
        decreases self,
    {
        match self {
            Node::Leaf { id, content } => Node::Leaf { id, content },
            Node::Split { id, axis, ratio, first, second } => {
                if id == target {
                    Node::Split { id, axis, ratio: new_ratio, first, second }
                } else if first.split_in(target) {
                    let sub = *first;
                    Node::Split {
                        id,
                        axis,
                        ratio,
                        first: Box::new(sub.resize_walk(target, new_ratio)),
                        second,
                    }
                } else {
                    let sub = *second;
                    Node::Split {
                        id,
                        axis,
                        ratio,
                        first,
                        second: Box::new(sub.resize_walk(target, new_ratio)),
                    }
                }
            },
        }
    }

    /// Rebuild this tree with the content of leaf `target` replaced; mirrors
    /// `spec_set_content`.
    fn set_content_walk(self, target: usize, content: Pane) -> (r: Node)
        ensures
            r == self.spec_set_content(target, content),
        decreases self,
    {
        match self {
            Node::Leaf { id, content: c } => {
                if id == target {
                    Node::Leaf { id, content }
                } else {
                    Node::Leaf { id, content: c }
                }
            },
            Node::Split { id, axis, ratio, first, second } => {
                if first.leaf_in(target) {
                    let sub = *first;
                    Node::Split {
                        id,
                        axis,
                        ratio,
                        first: Box::new(sub.set_content_walk(target, content)),
                        second,
                    }
                } else {
                    let sub = *second;
                    Node::Split {
                        id,
                        axis,
                        ratio,
                        first,
                        second: Box::new(sub.set_content_walk(target, content)),
                    }
                }
            },
        }
    }

    /// Count the leaves of this subtree.
    fn count_leaves(&self) -> (r: usize)
        requires
            self.leaf_count() <= usize::MAX,
        ensures
            r == self.leaf_count(),
        decreases *self,
    {
        match self {
            Node::Leaf { .. } => 1,
            Node::Split { first, second, .. } => {
                proof {
                    lemma_counts(**first);
                    lemma_counts(**second);
                }
                first.count_leaves() + second.count_leaves()
            },
        }
    }

    /// Append the leaves of this subtree, left to right, to `out`.
    fn push_leaves(&self, out: &mut Vec<(usize, Pane)>)
        ensures
            final(out)@ == old(out)@ + self.leaves_seq(),
        decreases *self,
    {
        match self {
            Node::Leaf { id, content } => {
                out.push((*id, *content));
                proof {
                    assert(out@ =~= old(out)@ + self.leaves_seq());
                }
            },
            Node::Split { first, second, .. } => {
                first.push_leaves(out);
                second.push_leaves(out);
                proof {
                    assert(out@ =~= old(out)@ + self.leaves_seq());
                }
            },
        }
    }
}

/// A tree holds exactly one leaf when it is a single leaf node.
pub proof fn lemma_single_leaf(n: Node)
    ensures
        n.leaf_count() == 1 <==> n.is_leaf_node(),
{
    match n {
        Node::Leaf { .. } => {},
        Node::Split { first, second, .. } => {
            lemma_counts(*first);
            lemma_counts(*second);
        },
    }
}

/// What `spec_close` does to the measures of the tree, given that `target`
/// names a leaf of a tree that holds more than that leaf.
pub proof fn lemma_close_props(n: Node, target: usize)
    requires
        n.ids_unique(),
        n.ratios_ok(),
        n.is_leaf_id(target),
        !n.is_leaf_node(),
    ensures
        ({
            let m = n.spec_close(target);
            &&& m.ids_unique()
            &&& m.ratios_ok()
            &&& m.id_set().subset_of(n.id_set().remove(target))
            &&& m.leaf_id_set() =~= n.leaf_id_set().remove(target)
            &&& m.leaf_count() + 1 == n.leaf_count()
            &&& m.node_count() + 2 == n.node_count()
            &&& forall|j: usize|
                j != target && n.is_leaf_id(j) ==> m.content_at(j) == n.content_at(j)
        }),
    decreases n,
{
    let m = n.spec_close(target);
    lemma_leaf_ids(n);
    lemma_leaf_ids_are_ids(n);
    match n {
        Node::Leaf { .. } => {},
        Node::Split { id, axis, ratio, first, second } => {
            lemma_leaf_ids(*first);
            lemma_leaf_ids(*second);
            lemma_leaf_ids_are_ids(*first);
            lemma_leaf_ids_are_ids(*second);
            lemma_counts(*first);
            lemma_counts(*second);
            assert(!first.id_set().contains(id));
            assert(!second.id_set().contains(id));
            if (*first) matches Node::Leaf { id: fid, .. } && fid == target {
                assert(m == *second);
                assert(first.id_set() == set![target]);
                assert(first.leaf_id_set() == set![target]);
                assert(!second.id_set().contains(target));
                assert(!second.leaf_id_set().contains(target));
                assert(m.leaf_id_set() =~= n.leaf_id_set().remove(target));
                assert(m.id_set().subset_of(n.id_set().remove(target)));
                assert forall|j: usize|
                    j != target && n.is_leaf_id(j) implies m.content_at(j) == n.content_at(j) by {
                    assert(!first.is_leaf_id(j));
                }
            } else if (*second) matches Node::Leaf { id: sid, .. } && sid == target {
                assert(m == *first);
                assert(second.id_set() == set![target]);
                assert(second.leaf_id_set() == set![target]);
                assert(!first.id_set().contains(target));
                assert(!first.leaf_id_set().contains(target));
                assert(m.leaf_id_set() =~= n.leaf_id_set().remove(target));
                assert(m.id_set().subset_of(n.id_set().remove(target)));
                assert forall|j: usize|
                    j != target && n.is_leaf_id(j) implies m.content_at(j) == n.content_at(j) by {
                    if first.is_leaf_id(j) {
                        assert(first.id_set().contains(j));
                        assert(m.content_at(j) == first.content_at(j));
                    }
                }
            } else if first.is_leaf_id(target) {
                assert(!first.is_leaf_node()) by {
                    match *first {
                        Node::Leaf { id: fid, .. } => {
                            assert(fid == target);
                        },
                        Node::Split { .. } => {},
                    }
                }
                lemma_close_props(*first, target);
                let fm = first.spec_close(target);
                assert(*Box::new(fm) == fm);
                assert(m == (Node::Split { id, axis, ratio, first: Box::new(fm), second }));
                lemma_leaf_ids(fm);
                assert(first.id_set().contains(target));
                assert(id != target);
                assert(!second.id_set().contains(target));
                assert(!second.leaf_id_set().contains(target));
                assert(fm.id_set().disjoint(second.id_set())) by {
                    assert forall|k: usize|
                        fm.id_set().contains(k) implies !second.id_set().contains(k) by {
                        assert(first.id_set().contains(k));
                    }
                }
                assert(!fm.id_set().contains(id));
                assert(m.ids_unique());
                assert(m.id_set() == fm.id_set().union(second.id_set()).insert(id));
                assert(m.id_set().subset_of(n.id_set().remove(target)));
                assert(m.leaf_id_set() =~= n.leaf_id_set().remove(target));
                assert forall|j: usize|
                    j != target && n.is_leaf_id(j) implies m.content_at(j) == n.content_at(j) by {
                    if first.is_leaf_id(j) {
                        assert(fm.is_leaf_id(j));
                        assert(fm.content_at(j) == first.content_at(j));
                    } else {
                        assert(second.is_leaf_id(j));
                        assert(second.id_set().contains(j));
                        assert(!first.id_set().contains(j));
                        assert(!first.leaf_id_set().contains(j));
                        assert(!fm.is_leaf_id(j));
                    }
                }
            } else {
                assert(second.is_leaf_id(target));
                assert(!second.is_leaf_node()) by {
                    match *second {
                        Node::Leaf { id: sid, .. } => {
                            assert(sid == target);
                        },
                        Node::Split { .. } => {},
                    }
                }
                lemma_close_props(*second, target);
                let sm = second.spec_close(target);
                assert(*Box::new(sm) == sm);
                assert(m == (Node::Split { id, axis, ratio, first, second: Box::new(sm) }));
                lemma_leaf_ids(sm);
                assert(second.id_set().contains(target));
                assert(id != target);
                assert(!first.id_set().contains(target));
                assert(!first.leaf_id_set().contains(target));
                assert(first.id_set().disjoint(sm.id_set())) by {
                    assert forall|k: usize|
                        first.id_set().contains(k) implies !sm.id_set().contains(k) by {
                        assert(sm.id_set().contains(k) ==> second.id_set().contains(k));
                    }
                }
                assert(!sm.id_set().contains(id));
                assert(m.ids_unique());
                assert(m.id_set() == first.id_set().union(sm.id_set()).insert(id));
                assert(m.id_set().subset_of(n.id_set().remove(target)));
                assert(m.leaf_id_set() =~= n.leaf_id_set().remove(target));
                assert forall|j: usize|
                    j != target && n.is_leaf_id(j) implies m.content_at(j) == n.content_at(j) by {
                    if first.is_leaf_id(j) {
                    } else {
                        assert(second.is_leaf_id(j));
                        assert(sm.content_at(j) == second.content_at(j));
                        assert(!first.is_leaf_id(j));
                    }
                }
            }
        },
    }
}

/// What `spec_resize` does: only the one stored ratio changes.
pub proof fn lemma_resize_props(n: Node, target: usize, r: u32)
    requires
        n.ids_unique(),
        n.ratios_ok(),
        RATIO_MIN <= r,
        r <= RATIO_UNIT - RATIO_MIN,
        n.is_split_id(target),
    ensures
        ({
            let m = n.spec_resize(target, r);
            &&& m.ids_unique()
            &&& m.ratios_ok()
            &&& m.id_set() =~= n.id_set()
            &&& m.leaf_id_set() =~= n.leaf_id_set()
            &&& m.leaf_count() == n.leaf_count()
            &&& m.node_count() == n.node_count()
            &&& m.leaves_seq() == n.leaves_seq()
            &&& m.is_split_id(target)
            &&& m.ratio_at(target) == r
            &&& forall|j: usize| n.is_leaf_id(j) ==> m.content_at(j) == n.content_at(j)
        }),
    decreases n,
{
    let m = n.spec_resize(target, r);
    match n {
        Node::Leaf { .. } => {
            assert(!n.is_split_id(target));
        },
        Node::Split { id, axis, ratio, first, second } => {
            lemma_leaf_ids(*first);
            lemma_leaf_ids(*second);
            if id == target {
                assert(m == (Node::Split { id, axis, ratio: r, first, second }));
                assert(m.id_set() =~= n.id_set());
                assert(m.leaf_id_set() =~= n.leaf_id_set());
                assert(m.leaves_seq() == n.leaves_seq());
            } else if first.is_split_id(target) {
                lemma_resize_props(*first, target, r);
                let fm = first.spec_resize(target, r);
                assert(*Box::new(fm) == fm);
                assert(m == (Node::Split { id, axis, ratio, first: Box::new(fm), second }));
                lemma_leaf_ids(fm);
                assert(m.id_set() =~= n.id_set());
                assert(m.leaf_id_set() =~= n.leaf_id_set());
                assert(m.leaves_seq() == n.leaves_seq());
                assert(m.ids_unique());
                assert(fm.is_split_id(target));
                assert(m.ratio_at(target) == r);
                assert forall|j: usize| n.is_leaf_id(j) implies m.content_at(j) == n.content_at(
                    j,
                ) by {
                    if first.is_leaf_id(j) {
                        assert(fm.is_leaf_id(j));
                        assert(fm.content_at(j) == first.content_at(j));
                    } else {
                        assert(!fm.is_leaf_id(j));
                    }
                }
            } else {
                assert(second.is_split_id(target));
                lemma_resize_props(*second, target, r);
                let sm = second.spec_resize(target, r);
                assert(*Box::new(sm) == sm);
                assert(m == (Node::Split { id, axis, ratio, first, second: Box::new(sm) }));
                lemma_leaf_ids(sm);
                assert(m.id_set() =~= n.id_set());
                assert(m.leaf_id_set() =~= n.leaf_id_set());
                assert(m.leaves_seq() == n.leaves_seq());
                assert(m.ids_unique());
                assert(sm.is_split_id(target));
                assert(m.ratio_at(target) == r);
                assert forall|j: usize| n.is_leaf_id(j) implies m.content_at(j) == n.content_at(
                    j,
                ) by {
                    if !first.is_leaf_id(j) {
                        assert(second.is_leaf_id(j));
                        assert(sm.content_at(j) == second.content_at(j));
                    }
                }
            }
        },
    }
}

/// What `spec_set_content` does: only the one leaf's content changes.
pub proof fn lemma_set_content_props(n: Node, target: usize, c: Pane)
    requires
        n.ids_unique(),
        n.ratios_ok(),
        n.is_leaf_id(target),
    ensures
        ({
            let m = n.spec_set_content(target, c);
            &&& m.ids_unique()
            &&& m.ratios_ok()
            &&& m.id_set() =~= n.id_set()
            &&& m.leaf_id_set() =~= n.leaf_id_set()
            &&& m.leaf_count() == n.leaf_count()
            &&& m.node_count() == n.node_count()
            &&& m.content_at(target) == c
            &&& forall|j: usize|
                j != target && n.is_leaf_id(j) ==> m.content_at(j) == n.content_at(j)
        }),
    decreases n,
{
    let m = n.spec_set_content(target, c);
    match n {
        Node::Leaf { id, content } => {},
        Node::Split { id, axis, ratio, first, second } => {
            lemma_leaf_ids(*first);
            lemma_leaf_ids(*second);
            if first.is_leaf_id(target) {
                lemma_set_content_props(*first, target, c);
                let fm = first.spec_set_content(target, c);
                assert(*Box::new(fm) == fm);
                assert(m == (Node::Split { id, axis, ratio, first: Box::new(fm), second }));
                lemma_leaf_ids(fm);
                assert(m.id_set() =~= n.id_set());
                assert(m.leaf_id_set() =~= n.leaf_id_set());
                assert(m.ids_unique());
                assert(fm.is_leaf_id(target));
                assert(m.content_at(target) == c);
                assert forall|j: usize|
                    j != target && n.is_leaf_id(j) implies m.content_at(j) == n.content_at(j) by {
                    if first.is_leaf_id(j) {
                        assert(fm.is_leaf_id(j));
                        assert(fm.content_at(j) == first.content_at(j));
                    } else {
                        assert(!fm.is_leaf_id(j));
                    }
                }
            } else {
                assert(second.is_leaf_id(target));
                lemma_set_content_props(*second, target, c);
                let sm = second.spec_set_content(target, c);
                assert(*Box::new(sm) == sm);
                assert(m == (Node::Split { id, axis, ratio, first, second: Box::new(sm) }));
                lemma_leaf_ids(sm);
                assert(m.id_set() =~= n.id_set());
                assert(m.leaf_id_set() =~= n.leaf_id_set());
                assert(m.ids_unique());
                assert(!first.is_leaf_id(target));
                assert(m.content_at(target) == c);
                assert forall|j: usize|
                    j != target && n.is_leaf_id(j) implies m.content_at(j) == n.content_at(j) by {
                    if !first.is_leaf_id(j) {
                        assert(second.is_leaf_id(j));
                        assert(sm.content_at(j) == second.content_at(j));
                    }
                }
            }
        },
    }
}

/// Splitting a leaf and then closing the leaf the split created restores the
/// original tree exactly.
pub proof fn lemma_split_close_inverse(n: Node, target: usize, ax: Axis, content: Pane, fresh: usize)
    requires
        n.ids_unique(),
        n.ids_below(fresh as int),
        n.ratios_ok(),
        n.is_leaf_id(target),
        fresh + 1 <= usize::MAX,
    ensures
        n.spec_split(target, ax, content, fresh).spec_close((fresh + 1) as usize) == n,
    decreases n,
{
    let m = n.spec_split(target, ax, content, fresh);
    lemma_leaf_ids(n);
    lemma_leaf_ids_are_ids(n);
    match n {
        Node::Leaf { id, content: c } => {
            let f = Node::Leaf { id, content: c };
            let s = Node::Leaf { id: (fresh + 1) as usize, content };
            assert(*Box::new(f) == f);
            assert(*Box::new(s) == s);
            assert(n.id_set().contains(id));
            assert(id < fresh);
            assert(m == (Node::Split {
                id: fresh,
                axis: ax,
                ratio: RATIO_HALF,
                first: Box::new(f),
                second: Box::new(s),
            }));
            assert(m.spec_close((fresh + 1) as usize) == f);
        },
        Node::Split { id, axis, ratio, first, second } => {
            lemma_leaf_ids(*first);
            lemma_leaf_ids(*second);
            lemma_leaf_ids_are_ids(*first);
            lemma_leaf_ids_are_ids(*second);
            assert(first.id_set().subset_of(n.id_set()));
            assert(second.id_set().subset_of(n.id_set()));
            assert(first.ids_below(fresh as int));
            assert(second.ids_below(fresh as int));
            if first.is_leaf_id(target) {
                lemma_split_props(*first, target, ax, content, fresh);
                lemma_split_close_inverse(*first, target, ax, content, fresh);
                let fm = first.spec_split(target, ax, content, fresh);
                assert(*Box::new(fm) == fm);
                assert(m == (Node::Split { id, axis, ratio, first: Box::new(fm), second }));
                lemma_leaf_ids(fm);
                assert(fm.is_leaf_id((fresh + 1) as usize));
                assert(!fm.is_leaf_node()) by {
                    match *first {
                        Node::Leaf { id: fid, .. } => {
                            assert(fid == target);
                        },
                        Node::Split { .. } => {},
                    }
                }
                assert(!((*second) matches Node::Leaf {
                    id: sid,
                    .. } && sid == (fresh + 1) as usize)) by {
                    match *second {
                        Node::Leaf { id: sid, .. } => {
                            assert(second.id_set().contains(sid));
                        },
                        Node::Split { .. } => {},
                    }
                }
                assert(m.spec_close((fresh + 1) as usize) == (Node::Split {
                    id,
                    axis,
                    ratio,
                    first: Box::new(fm.spec_close((fresh + 1) as usize)),
                    second,
                }));
                assert(fm.spec_close((fresh + 1) as usize) == *first);
                assert(Box::new(fm.spec_close((fresh + 1) as usize)) == first);
            } else {
                assert(second.is_leaf_id(target));
                lemma_split_props(*second, target, ax, content, fresh);
                lemma_split_close_inverse(*second, target, ax, content, fresh);
                let sm = second.spec_split(target, ax, content, fresh);
                assert(*Box::new(sm) == sm);
                assert(m == (Node::Split { id, axis, ratio, first, second: Box::new(sm) }));
                lemma_leaf_ids(sm);
                assert(sm.is_leaf_id((fresh + 1) as usize));
                assert(!sm.is_leaf_node()) by {
                    match *second {
                        Node::Leaf { id: sid, .. } => {
                            assert(sid == target);
                        },
                        Node::Split { .. } => {},
                    }
                }
                assert(!((*first) matches Node::Leaf {
                    id: fid,
                    .. } && fid == (fresh + 1) as usize)) by {
                    match *first {
                        Node::Leaf { id: fid, .. } => {
                            assert(first.id_set().contains(fid));
                        },
                        Node::Split { .. } => {},
                    }
                }
                assert(!first.is_leaf_id((fresh + 1) as usize));
                assert(m.spec_close((fresh + 1) as usize) == (Node::Split {
                    id,
                    axis,
                    ratio,
                    first,
                    second: Box::new(sm.spec_close((fresh + 1) as usize)),
                }));
                assert(sm.spec_close((fresh + 1) as usize) == *second);
                assert(Box::new(sm.spec_close((fresh + 1) as usize)) == second);
            }
        },
    }
}

/// Which edge of the layout a pane can be moved to.
#[derive(Clone, Copy, Debug, PartialEq, Eq, Structural)]
pub enum Edge {
    Top,
    Bottom,
    Left,
    Right,
}

/// The axis of the split that moving a pane to `e` creates: `Vertical` for
/// the left and right edges, `Horizontal` for top and bottom.
pub open spec fn edge_axis(e: Edge) -> Axis {
    match e {
        Edge::Left | Edge::Right => Axis::Vertical,
        Edge::Top | Edge::Bottom => Axis::Horizontal,
    }
}

/// Whether the moved pane becomes the first child (top and left edges) or
/// the second (bottom and right).
pub open spec fn edge_leads(e: Edge) -> bool {
    e == Edge::Top || e == Edge::Left
}

/// The tree after regrafting leaf `leaf_id` (holding `content`) at edge `e`
/// of the remaining tree `rest`, under a fresh root split.
pub open spec fn spec_graft(rest: Node, leaf_id: usize, content: Pane, e: Edge, fresh: usize) -> Node {
    let moved = Node::Leaf { id: leaf_id, content };
    if edge_leads(e) {
        Node::Split {
            id: fresh,
            axis: edge_axis(e),
            ratio: RATIO_HALF,
            first: Box::new(moved),
            second: Box::new(rest),
        }
    } else {
        Node::Split {
            id: fresh,
            axis: edge_axis(e),
            ratio: RATIO_HALF,
            first: Box::new(rest),
            second: Box::new(moved),
        }
    }
}

/// The split tree of a whole layout, together with the id allocator. Ids are
/// handed out in increasing order and never reused, so an id is fresh exactly
/// when it is at least `fresh_mark`.
pub struct PaneTree {
    root: Node,
    next_id: usize,
}

impl View for PaneTree {
    type V = Node;

    closed spec fn view(&self) -> Node {
        self.root
    }
}

impl PaneTree {
    /// The first id that has never been handed out.
    pub closed spec fn fresh_mark(self) -> usize {
        self.next_id
    }

    /// Well-formedness: every id occurs once, ids stay below the allocator
    /// mark, ratios stay in band, and the node count never outruns the ids
    /// handed out (so counting always fits a `usize`).
    pub open spec fn wf(self) -> bool {
        &&& self@.ids_unique()
        &&& self@.ids_below(self.fresh_mark() as int)
        &&& self@.ratios_ok()
        &&& self@.node_count() <= self.fresh_mark() + 1
    }

    /// A layout of exactly one leaf, with id 0, holding `content`.
    pub fn new(content: Pane) -> (t: PaneTree)
        ensures
            t.wf(),
            t@ == (Node::Leaf { id: 0usize, content }),
            t.fresh_mark() == 1,
            t@.leaf_count() == 1,
            t@.is_leaf_id(0),
            t@.content_at(0) == content,
    {
        let t = PaneTree { root: Node::Leaf { id: 0, content }, next_id: 1 };
        proof {
            assert(t@.id_set() == set![0usize]);
            assert forall|i: usize| t@.id_set().contains(i) implies i < 1 by {
                assert(i == 0);
            }
        }
        t
    }

    /// Borrow the root node of the layout tree.
    pub fn root(&self) -> (r: &Node)
        ensures
            *r == self@,
    {
        &self.root
    }

    /// Does `id` name a leaf of this layout?
    pub fn contains_leaf(&self, id: usize) -> (r: bool)
        ensures
            r == self@.is_leaf_id(id),
    {
        self.root.leaf_in(id)
    }

    /// Does `id` name a split of this layout?
    pub fn contains_split(&self, id: usize) -> (r: bool)
        ensures
            r == self@.is_split_id(id),
    {
        self.root.split_in(id)
    }

    /// The content of the leaf named `id`.
    pub fn pane_of(&self, id: usize) -> (r: Pane)
        ensures
            r == self@.content_at(id),
    {
        self.root.content_of(id)
    }

    /// How many leaves the layout holds.
    pub fn leaf_count(&self) -> (r: usize)
        requires
            self.wf(),
        ensures
            r == self@.leaf_count(),
    {
        proof {
            lemma_counts(self@);
        }
        self.root.count_leaves()
    }

    /// The leaves of the layout with their contents, left to right.
    pub fn leaves(&self) -> (r: Vec<(usize, Pane)>)
        ensures
            r@ == self@.leaves_seq(),
    {
        let mut out: Vec<(usize, Pane)> = Vec::new();
        self.root.push_leaves(&mut out);
        proof {
            assert(out@ =~= self@.leaves_seq());
        }
        out
    }

    /// Split the leaf named `target` along `ax`; the original leaf keeps its
    /// id and becomes the first child, a new leaf holding `content` becomes
    /// the second. Returns the new leaf's id. Fails with `NotFound` when
    /// `target` does not name a leaf (or, on an exhausted id space, when no
    /// two ids are left).
    pub fn split(&mut self, target: usize, ax: Axis, content: Pane) -> (r: Result<usize, Fail>)
        requires
            old(self).wf(),
        ensures
            final(self).wf(),
            r is Ok <==> old(self)@.is_leaf_id(target) && old(self).fresh_mark() + 2 <= usize::MAX,
            r matches Ok(n) ==> {
                &&& n == old(self).fresh_mark() + 1
                &&& !old(self)@.id_set().contains(n)
                &&& final(self)@ == old(self)@.spec_split(target, ax, content, old(self).fresh_mark())
                &&& final(self).fresh_mark() == old(self).fresh_mark() + 2
                &&& final(self)@.leaf_count() == old(self)@.leaf_count() + 1
                &&& final(self)@.is_leaf_id(n)
                &&& final(self)@.content_at(n) == content
                &&& final(self)@.leaf_id_set() =~= old(self)@.leaf_id_set().insert(n)
                &&& (forall|j: usize|
                    old(self)@.is_leaf_id(j) ==> final(self)@.content_at(j) == old(
                        self,
                    )@.content_at(j))
            },
            r is Err ==> *final(self) == *old(self) && r == Result::<usize, Fail>::Err(
                Fail::NotFound,
            ),
    {
        if usize::MAX - self.next_id < 2 {
            return Err(Fail::NotFound);
        }
        if !self.root.leaf_in(target) {
            return Err(Fail::NotFound);
        }
        let fresh = self.next_id;
        let mut work: Node = Node::Leaf { id: 0, content: Pane::Editor };
        core::mem::swap(&mut work, &mut self.root);
        proof {
            lemma_split_props(work, target, ax, content, fresh);
            lemma_leaf_ids(work);
            lemma_leaf_ids(work.spec_split(target, ax, content, fresh));
        }
        let newroot = work.split_walk(target, ax, content, fresh);
        self.root = newroot;
        self.next_id = fresh + 2;
        proof {
            assert forall|i: usize| self@.id_set().contains(i) implies i < self.next_id by {}
        }
        Ok(fresh + 1)
    }

    /// Close the leaf named `target`: its sibling subtree is promoted into
    /// the parent split's place. Fails with `LastPaneProtected` when `target`
    /// is the sole leaf, with `NotFound` when it names no leaf.
    pub fn close(&mut self, target: usize) -> (r: Result<(), Fail>)
        requires
            old(self).wf(),
        ensures
            final(self).wf(),
            r is Ok <==> old(self)@.is_leaf_id(target) && old(self)@.leaf_count() >= 2,
            r is Ok ==> {
                &&& final(self)@ == old(self)@.spec_close(target)
                &&& final(self).fresh_mark() == old(self).fresh_mark()
                &&& final(self)@.leaf_count() + 1 == old(self)@.leaf_count()
                &&& final(self)@.leaf_id_set() =~= old(self)@.leaf_id_set().remove(target)
                &&& (forall|j: usize|
                    j != target && old(self)@.is_leaf_id(j) ==> final(self)@.content_at(j) == old(
                        self,
                    )@.content_at(j))
            },
            r is Err ==> *final(self) == *old(self),
            r == Result::<(), Fail>::Err(Fail::LastPaneProtected) <==> old(self)@.is_leaf_id(
                target,
            ) && old(self)@.leaf_count() == 1,
            r == Result::<(), Fail>::Err(Fail::NotFound) <==> !old(self)@.is_leaf_id(target),
    {
        proof {
            lemma_single_leaf(self@);
            lemma_counts(self@);
        }
        if self.root.is_exactly_leaf(target) {
            return Err(Fail::LastPaneProtected);
        }
        if !self.root.leaf_in(target) {
            return Err(Fail::NotFound);
        }
        proof {
            lemma_close_props(self@, target);
            lemma_leaf_ids(self@);
            lemma_leaf_ids(self@.spec_close(target));
            lemma_leaf_ids_are_ids(self@.spec_close(target));
        }
        let mut work: Node = Node::Leaf { id: 0, content: Pane::Editor };
        core::mem::swap(&mut work, &mut self.root);
        let newroot = work.close_walk(target);
        self.root = newroot;
        proof {
            assert forall|i: usize| self@.id_set().contains(i) implies i < self.next_id by {}
        }
        Ok(())
    }

    /// Store a new ratio at the split named `target`; the ratio is first
    /// clamped into the allowed band, so out-of-range input never fails.
    /// Fails with `NotFound` when `target` names no split.
    pub fn resize(&mut self, target: usize, ratio: u32) -> (r: Result<(), Fail>)
        requires
            old(self).wf(),
        ensures
            final(self).wf(),
            r is Ok <==> old(self)@.is_split_id(target),
            r is Ok ==> {
                &&& final(self)@ == old(self)@.spec_resize(target, clamp_ratio_spec(ratio))
                &&& final(self).fresh_mark() == old(self).fresh_mark()
                &&& final(self)@.ratio_at(target) == clamp_ratio_spec(ratio)
                &&& RATIO_MIN <= final(self)@.ratio_at(target)
                &&& final(self)@.ratio_at(target) <= RATIO_UNIT - RATIO_MIN
                &&& final(self)@.leaves_seq() == old(self)@.leaves_seq()
                &&& final(self)@.leaf_count() == old(self)@.leaf_count()
                &&& final(self)@.leaf_id_set() =~= old(self)@.leaf_id_set()
                &&& (forall|j: usize|
                    old(self)@.is_leaf_id(j) ==> final(self)@.content_at(j) == old(
                        self,
                    )@.content_at(j))
            },
            r is Err ==> *final(self) == *old(self) && r == Result::<(), Fail>::Err(Fail::NotFound),
    {
        if !self.root.split_in(target) {
            return Err(Fail::NotFound);
        }
        let clamped = clamp_ratio(ratio);
        proof {
            lemma_resize_props(self@, target, clamp_ratio_spec(ratio));
        }
        let mut work: Node = Node::Leaf { id: 0, content: Pane::Editor };
        core::mem::swap(&mut work, &mut self.root);
        let newroot = work.resize_walk(target, clamped);
        self.root = newroot;
        proof {
            assert forall|i: usize| self@.id_set().contains(i) implies i < self.next_id by {}
        }
        Ok(())
    }

    /// Exchange the contents of the leaves named `a` and `b`; the tree shape
    /// and both ids are unchanged, and `a == b` is a no-op. Fails with
    /// `NotFound` unless both name leaves.
    pub fn swap(&mut self, a: usize, b: usize) -> (r: Result<(), Fail>)
        requires
            old(self).wf(),
        ensures
            final(self).wf(),
            r is Ok <==> old(self)@.is_leaf_id(a) && old(self)@.is_leaf_id(b),
            r is Ok ==> {
                &&& final(self)@ == old(self)@.spec_set_content(
                    a,
                    old(self)@.content_at(b),
                ).spec_set_content(b, old(self)@.content_at(a))
                &&& final(self).fresh_mark() == old(self).fresh_mark()
                &&& final(self)@.content_at(a) == old(self)@.content_at(b)
                &&& final(self)@.content_at(b) == old(self)@.content_at(a)
                &&& final(self)@.leaf_count() == old(self)@.leaf_count()
                &&& final(self)@.leaf_id_set() =~= old(self)@.leaf_id_set()
                &&& (forall|j: usize|
                    j != a && j != b && old(self)@.is_leaf_id(j) ==> final(self)@.content_at(j)
                        == old(self)@.content_at(j))
            },
            r is Err ==> *final(self) == *old(self) && r == Result::<(), Fail>::Err(Fail::NotFound),
    {
        if !self.root.leaf_in(a) || !self.root.leaf_in(b) {
            return Err(Fail::NotFound);
        }
        let ca = self.root.content_of(a);
        let cb = self.root.content_of(b);
        proof {
            lemma_set_content_props(self@, a, cb);
            lemma_leaf_ids(self@);
            lemma_leaf_ids(self@.spec_set_content(a, cb));
            lemma_set_content_props(self@.spec_set_content(a, cb), b, ca);
            lemma_leaf_ids(self@.spec_set_content(a, cb).spec_set_content(b, ca));
        }
        let mut work: Node = Node::Leaf { id: 0, content: Pane::Editor };
        core::mem::swap(&mut work, &mut self.root);
        let mid = work.set_content_walk(a, cb);
        let newroot = mid.set_content_walk(b, ca);
        self.root = newroot;
        proof {
            assert forall|i: usize| self@.id_set().contains(i) implies i < self.next_id by {}
            if a == b {
                assert(final(self)@.content_at(a) == old(self)@.content_at(b));
            }
        }
        Ok(())
    }

    /// Can `target` actually be moved to an edge: it names a leaf, the tree
    /// holds more than that leaf, and one fresh id is left.
    pub open spec fn can_move_to_edge(self, target: usize) -> bool {
        &&& self@.is_leaf_id(target)
        &&& !self@.is_leaf_node()
        &&& self.fresh_mark() + 1 <= usize::MAX
    }

    /// Detach the leaf named `target` (promoting its sibling exactly as
    /// `close` does) and regraft it as one side of a fresh root split at
    /// `edge`. The moved leaf keeps its id, which is returned. A no-op
    /// returning `target` when the leaf is already the whole tree or
    /// `target` names no leaf.
    pub fn move_to_edge(&mut self, target: usize, edge: Edge) -> (r: usize)
        requires
            old(self).wf(),
        ensures
            final(self).wf(),
            r == target,
            old(self).can_move_to_edge(target) ==> {
                &&& final(self)@ == spec_graft(
                    old(self)@.spec_close(target),
                    target,
                    old(self)@.content_at(target),
                    edge,
                    old(self).fresh_mark(),
                )
                &&& final(self).fresh_mark() == old(self).fresh_mark() + 1
                &&& final(self)@.leaf_count() == old(self)@.leaf_count()
                &&& final(self)@.leaf_id_set() =~= old(self)@.leaf_id_set()
                &&& final(self)@.is_leaf_id(target)
                &&& final(self)@.content_at(target) == old(self)@.content_at(target)
                &&& (forall|j: usize|
                    j != target && old(self)@.is_leaf_id(j) ==> final(self)@.content_at(j) == old(
                        self,
                    )@.content_at(j))
            },
            !old(self).can_move_to_edge(target) ==> *final(self) == *old(self),
    {
        if usize::MAX - self.next_id < 1 {
            return target;
        }
        if self.root.leaf_node() {
            return target;
        }
        if !self.root.leaf_in(target) {
            return target;
        }
        let fresh = self.next_id;
        let content = self.root.content_of(target);
        proof {
            lemma_close_props(self@, target);
            lemma_leaf_ids(self@);
            lemma_leaf_ids(self@.spec_close(target));
            lemma_leaf_ids_are_ids(self@.spec_close(target));
            lemma_counts(self@.spec_close(target));
        }
        let mut work: Node = Node::Leaf { id: 0, content: Pane::Editor };
        core::mem::swap(&mut work, &mut self.root);
        let ghost prev = work;
        let rest = work.close_walk(target);
        let moved = Node::Leaf { id: target, content };
        let newroot = match edge {
            Edge::Top | Edge::Left => Node::Split {
                id: fresh,
                axis: if matches!(edge, Edge::Top) {
                    Axis::Horizontal
                } else {
                    Axis::Vertical
                },
                ratio: RATIO_HALF,
                first: Box::new(moved),
                second: Box::new(rest),
            },
            Edge::Bottom | Edge::Right => Node::Split {
                id: fresh,
                axis: if matches!(edge, Edge::Bottom) {
                    Axis::Horizontal
                } else {
                    Axis::Vertical
                },
                ratio: RATIO_HALF,
                first: Box::new(rest),
                second: Box::new(moved),
            },
        };
        self.root = newroot;
        self.next_id = fresh + 1;
        proof {
            let rest_g = prev.spec_close(target);
            let mv = Node::Leaf { id: target, content };
            lemma_leaf_ids_are_ids(prev);
            assert(prev.id_set().contains(target));
            assert(self@ == spec_graft(rest_g, target, content, edge, fresh));
            assert(!rest_g.id_set().contains(target));
            assert(!rest_g.id_set().contains(fresh));
            assert(*Box::new(mv) == mv);
            assert(*Box::new(rest_g) == rest_g);
            assert(mv.id_set() == set![target]);
            assert(mv.ids_unique());
            assert(mv.ratios_ok());
            assert(mv.id_set().disjoint(rest_g.id_set())) by {
                assert forall|k: usize| mv.id_set().contains(k) implies !rest_g.id_set().contains(
                    k,
                ) by {
                    assert(k == target);
                }
            }
            assert(rest_g.id_set().disjoint(mv.id_set())) by {
                assert forall|k: usize| rest_g.id_set().contains(k) implies !mv.id_set().contains(
                    k,
                ) by {
                    assert(k != target);
                }
            }
            assert(self@.ids_unique());
            assert(self@.id_set() =~= rest_g.id_set().union(mv.id_set()).insert(fresh));
            assert forall|i: usize| self@.id_set().contains(i) implies i < self.next_id by {
                if rest_g.id_set().contains(i) {
                    assert(prev.id_set().contains(i));
                } else if i == target {
                    assert(prev.id_set().contains(target));
                }
            }
            assert(mv.node_count() == 1);
            assert(mv.leaf_count() == 1);
            assert(self@.node_count() == rest_g.node_count() + 2);
            assert(self@.node_count() <= self.next_id + 1);
            assert(self@.leaf_count() == rest_g.leaf_count() + 1);
            assert(mv.leaf_id_set() == set![target]);
            assert(prev.leaf_id_set().contains(target));
            assert(self@.leaf_id_set() =~= prev.leaf_id_set());
            lemma_leaf_ids(self@);
            assert(mv.is_leaf_id(target));
            assert(mv.content_at(target) == content);
            assert(self@.content_at(target) == content) by {
                if edge_leads(edge) {
                    assert(self@ == (Node::Split {
                        id: fresh,
                        axis: edge_axis(edge),
                        ratio: RATIO_HALF,
                        first: Box::new(mv),
                        second: Box::new(rest_g),
                    }));
                } else {
                    assert(self@ == (Node::Split {
                        id: fresh,
                        axis: edge_axis(edge),
                        ratio: RATIO_HALF,
                        first: Box::new(rest_g),
                        second: Box::new(mv),
                    }));
                    assert(!rest_g.is_leaf_id(target));
                }
            }
            assert forall|j: usize|
                j != target && prev.is_leaf_id(j) implies self@.content_at(j) == prev.content_at(
                j,
            ) by {
                assert(rest_g.is_leaf_id(j));
                assert(rest_g.content_at(j) == prev.content_at(j));
                if edge_leads(edge) {
                    let mv = Node::Leaf { id: target, content };
                    assert(!mv.is_leaf_id(j));
                }
            }
        }
        target
    }
}

} // verus!
