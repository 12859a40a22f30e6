use vstd::prelude::*;

use crate::geometry::{
    rect_bounded, rects_spec, spec_adjacent, lemma_adjacent_is_leaf, Direction, Rect,
};
use crate::pane::Pane;
use crate::tree::{clamp_ratio_spec, lemma_leaf_ids, spec_graft, Axis, Edge, Node, PaneTree};

verus! {

/// A command the layout controller applies as one atomic step. Structural
/// commands on stale or invalid ids are silently ignored, so applying a
/// command never fails.
#[derive(Clone, Copy, Debug, PartialEq, Eq, Structural)]
pub enum Command {
    /// Split the leaf `target` along `axis`; the new leaf holds `content`
    /// and takes the focus.
    Split { target: usize, axis: Axis, content: Pane },
    /// Close the leaf `target`; a focus or maximize pointer at it is
    /// cleared.
    Close { target: usize },
    /// Store `ratio` (clamped) at the split `target`.
    Resize { target: usize, ratio: u32 },
    /// Focus the leaf `target`.
    Clicked { target: usize },
    /// Focus the leaf `target` as the pointer enters it.
    MouseEnter { target: usize },
    /// A completed drag: exchange the contents of `source` and `target`.
    Dropped { source: usize, target: usize },
    /// Overlay the leaf `target` full-size.
    Maximize { target: usize },
    /// Drop the maximize overlay.
    Restore,
    /// Move the focus to the nearest leaf in `direction`, if any.
    FocusAdjacent { direction: Direction },
    /// Exchange the focused pane with its neighbour in `direction`, or push
    /// it to that edge of the layout when no neighbour lies there.
    SwapAdjacent { direction: Direction },
}

/// The edge a pane is pushed to when no neighbour lies in direction `d`.
pub open spec fn edge_for(d: Direction) -> Edge {
    match d {
        Direction::Up => Edge::Top,
        Direction::Down => Edge::Bottom,
        Direction::Left => Edge::Left,
        Direction::Right => Edge::Right,
    }
}

/// Exec mirror of `edge_for`.
pub fn edge_for_exec(d: Direction) -> (e: Edge)
    ensures
        e == edge_for(d),
{
    match d {
        Direction::Up => Edge::Top,
        Direction::Down => Edge::Bottom,
        Direction::Left => Edge::Left,
        Direction::Right => Edge::Right,
    }
}

/// The public-facing layout state: the split tree plus an optional focused
/// leaf and an optional maximized leaf. The maximize overlay is display-only
/// and never changes the tree.
pub struct LayoutController {
    tree: PaneTree,
    focus: Option<usize>,
    maximized: Option<usize>,
}

impl LayoutController {
    /// The layout tree this controller holds.
    pub closed spec fn spec_tree(self) -> PaneTree {
        self.tree
    }

    /// The focused leaf, if any.
    pub closed spec fn spec_focus(self) -> Option<usize> {
        self.focus
    }

    /// The maximized leaf, if any.
    pub closed spec fn spec_maximized(self) -> Option<usize> {
        self.maximized
    }

    /// Well-formedness: the tree is well formed and both optional pointers
    /// name leaves that currently exist.
    pub open spec fn wf(self) -> bool {
        &&& self.spec_tree().wf()
        &&& (self.spec_focus() matches Some(f) ==> self.spec_tree()@.is_leaf_id(f))
        &&& (self.spec_maximized() matches Some(m) ==> self.spec_tree()@.is_leaf_id(m))
    }

    /// A controller over a single leaf holding `initial_content`, with that
    /// leaf focused and nothing maximized.
    pub fn new(initial_content: Pane) -> (c: LayoutController)
        ensures
            c.wf(),
            c.spec_tree()@ == (Node::Leaf { id: 0usize, content: initial_content }),
            c.spec_tree().fresh_mark() == 1,
            c.spec_tree()@.leaf_count() == 1,
            c.spec_focus() == Some(0usize),
            c.spec_maximized() == Option::<usize>::None,
    {
        LayoutController { tree: PaneTree::new(initial_content), focus: Some(0), maximized: None }
    }

    /// The focused leaf, if any.
    pub fn focus(&self) -> (r: Option<usize>)
        ensures
            r == self.spec_focus(),
    {
        self.focus
    }

    /// The maximized leaf, if any.
    pub fn maximized(&self) -> (r: Option<usize>)
        ensures
            r == self.spec_maximized(),
    {
        self.maximized
    }

    /// How many leaves the layout holds.
    pub fn leaf_count(&self) -> (r: usize)
        requires
            self.wf(),
        ensures
            r == self.spec_tree()@.leaf_count(),
    {
        self.tree.leaf_count()
    }

    /// The leaves with their contents, left to right.
    pub fn leaves(&self) -> (r: Vec<(usize, Pane)>)
        ensures
            r@ == self.spec_tree()@.leaves_seq(),
    {
        self.tree.leaves()
    }

    /// The rectangle of every leaf when the layout fills `viewport`.
    pub fn geometry(&self, viewport: Rect) -> (r: Vec<(usize, Rect)>)
        requires
            self.wf(),
            rect_bounded(viewport),
        ensures
            r@ == rects_spec(self.spec_tree()@, viewport),
    {
        self.tree.geometry(viewport)
    }

    /// The nearest leaf in direction `dir` from leaf `from`.
    pub fn adjacent(&self, from: usize, dir: Direction) -> (r: Option<usize>)
        requires
            self.wf(),
        ensures
            r == spec_adjacent(self.spec_tree()@, from, dir),
    {
        self.tree.adjacent(from, dir)
    }

    /// Borrow the layout tree.
    pub fn tree(&self) -> (r: &PaneTree)
        ensures
            *r == self.spec_tree(),
    {
        &self.tree
    }

    /// Apply one command as an atomic step. Commands whose ids are stale or
    /// of the wrong kind leave the state exactly as it was.
    pub fn apply(&mut self, cmd: Command)
        requires
            old(self).wf(),
        ensures
            final(self).wf(),
            cmd matches Command::Split { target, axis, content } ==> ({
                let t = old(self).spec_tree();
                if t@.is_leaf_id(target) && t.fresh_mark() + 2 <= usize::MAX {
                    &&& final(self).spec_tree()@ == t@.spec_split(
                        target,
                        axis,
                        content,
                        t.fresh_mark(),
                    )
                    &&& final(self).spec_tree()@.leaf_count() == t@.leaf_count() + 1
                    &&& final(self).spec_tree().fresh_mark() == t.fresh_mark() + 2
                    &&& final(self).spec_focus() == Some(((t.fresh_mark() + 1) as usize))
                    &&& final(self).spec_maximized() == old(self).spec_maximized()
                } else {
                    *final(self) == *old(self)
                }
            }),
            cmd matches Command::Close { target } ==> ({
                let t = old(self).spec_tree();
                if t@.is_leaf_id(target) && t@.leaf_count() >= 2 {
                    &&& final(self).spec_tree()@ == t@.spec_close(target)
                    &&& final(self).spec_tree()@.leaf_count() + 1 == t@.leaf_count()
                    &&& final(self).spec_tree().fresh_mark() == t.fresh_mark()
                    &&& final(self).spec_focus() == (if old(self).spec_focus() == Some(target) {
                        Option::<usize>::None
                    } else {
                        old(self).spec_focus()
                    })
                    &&& final(self).spec_maximized() == (if old(self).spec_maximized() == Some(
                        target,
                    ) {
                        Option::<usize>::None
                    } else {
                        old(self).spec_maximized()
                    })
                } else {
                    *final(self) == *old(self)
                }
            }),
            cmd matches Command::Resize { target, ratio } ==> ({
                let t = old(self).spec_tree();
                if t@.is_split_id(target) {
                    &&& final(self).spec_tree()@ == t@.spec_resize(target, clamp_ratio_spec(ratio))
                    &&& final(self).spec_focus() == old(self).spec_focus()
                    &&& final(self).spec_maximized() == old(self).spec_maximized()
                } else {
                    *final(self) == *old(self)
                }
            }),
            cmd matches Command::Clicked { target } ==> ({
                if old(self).spec_tree()@.is_leaf_id(target) {
                    &&& final(self).spec_tree() == old(self).spec_tree()
                    &&& final(self).spec_focus() == Some(target)
                    &&& final(self).spec_maximized() == old(self).spec_maximized()
                } else {
                    *final(self) == *old(self)
                }
            }),
            cmd matches Command::MouseEnter { target } ==> ({
                if old(self).spec_tree()@.is_leaf_id(target) {
                    &&& final(self).spec_tree() == old(self).spec_tree()
                    &&& final(self).spec_focus() == Some(target)
                    &&& final(self).spec_maximized() == old(self).spec_maximized()
                } else {
                    *final(self) == *old(self)
                }
            }),
            cmd matches Command::Dropped { source, target } ==> ({
                let t = old(self).spec_tree();
                if t@.is_leaf_id(source) && t@.is_leaf_id(target) {
                    &&& final(self).spec_tree()@ == t@.spec_set_content(
                        source,
                        t@.content_at(target),
                    ).spec_set_content(target, t@.content_at(source))
                    &&& final(self).spec_focus() == old(self).spec_focus()
                    &&& final(self).spec_maximized() == old(self).spec_maximized()
                } else {
                    *final(self) == *old(self)
                }
            }),
            cmd matches Command::Maximize { target } ==> ({
                if old(self).spec_tree()@.is_leaf_id(target) {
                    &&& final(self).spec_tree() == old(self).spec_tree()
                    &&& final(self).spec_focus() == old(self).spec_focus()
                    &&& final(self).spec_maximized() == Some(target)
                } else {
                    *final(self) == *old(self)
                }
            }),
            cmd == Command::Restore ==> ({
                &&& final(self).spec_tree() == old(self).spec_tree()
                &&& final(self).spec_focus() == old(self).spec_focus()
                &&& final(self).spec_maximized() == Option::<usize>::None
            }),
            (cmd == Command::Restore && old(self).spec_maximized() == Option::<usize>::None)
                ==> *final(self) == *old(self),
            cmd matches Command::FocusAdjacent { direction } ==> ({
                &&& final(self).spec_tree() == old(self).spec_tree()
                &&& final(self).spec_maximized() == old(self).spec_maximized()
                &&& final(self).spec_focus() == (match old(self).spec_focus() {
                    Some(f) => match spec_adjacent(old(self).spec_tree()@, f, direction) {
                        Some(nb) => Some(nb),
                        None => old(self).spec_focus(),
                    },
                    None => old(self).spec_focus(),
                })
            }),
            cmd matches Command::SwapAdjacent { direction } ==> ({
                let t = old(self).spec_tree();
                match old(self).spec_focus() {
                    None => *final(self) == *old(self),
                    Some(f) => match spec_adjacent(t@, f, direction) {
                        Some(nb) => {
                            &&& final(self).spec_tree()@ == t@.spec_set_content(
                                f,
                                t@.content_at(nb),
                            ).spec_set_content(nb, t@.content_at(f))
                            &&& final(self).spec_focus() == old(self).spec_focus()
                            &&& final(self).spec_maximized() == old(self).spec_maximized()
                        },
                        None => {
                            &&& (t.can_move_to_edge(f) ==> final(self).spec_tree()@ == spec_graft(
                                t@.spec_close(f),
                                f,
                                t@.content_at(f),
                                edge_for(direction),
                                t.fresh_mark(),
                            ))
                            &&& (!t.can_move_to_edge(f) ==> final(self).spec_tree() == t)
                            &&& final(self).spec_focus() == Some(f)
                            &&& final(self).spec_maximized() == old(self).spec_maximized()
                        },
                    },
                }
            }),
    {
        match cmd {
            Command::Split { target, axis, content } => {
                let r = self.tree.split(target, axis, content);
                match r {
                    Ok(new_id) => {
                        self.focus = Some(new_id);
                        proof {
                            lemma_leaf_ids(old(self).spec_tree()@);
                            lemma_leaf_ids(self.tree@);
                            match self.maximized {

                                Some(m) => {

                                    assert(self.tree@.is_leaf_id(m));

                                },

                                None => {},
                                }
                        }
                    },
                    Err(_) => {},
                }
            },
            Command::Close { target } => {
                let r = self.tree.close(target);
                match r {
                    Ok(_) => {
                        proof {
                            lemma_leaf_ids(old(self).spec_tree()@);
                            lemma_leaf_ids(self.tree@);
                        }
                        match self.focus {
                            Some(f) => if f == target {
                                self.focus = None;
                            },
                            None => {},
                        }
                        match self.maximized {
                            Some(m) => if m == target {
                                self.maximized = None;
                            },
                            None => {},
                        }
                        proof {
                            match self.focus {

                                Some(f) => {

                                    assert(self.tree@.is_leaf_id(f));

                                },

                                None => {},
                                }
                            match self.maximized {

                                Some(m) => {

                                    assert(self.tree@.is_leaf_id(m));

                                },

                                None => {},
                                }
                        }
                    },
                    Err(_) => {},
                }
            },
            Command::Resize { target, ratio } => {
                let r = self.tree.resize(target, ratio);
                proof {
                    if r is Ok {
                        lemma_leaf_ids(old(self).spec_tree()@);
                        lemma_leaf_ids(self.tree@);
                        match self.focus {

                            Some(f) => {

                                assert(self.tree@.is_leaf_id(f));

                            },

                            None => {},
                            }
                        match self.maximized {

                            Some(m) => {

                                assert(self.tree@.is_leaf_id(m));

                            },

                            None => {},
                            }
                    }
                }
            },
            Command::Clicked { target } => {
                if self.tree.contains_leaf(target) {
                    self.focus = Some(target);
                }
            },
            Command::MouseEnter { target } => {
                if self.tree.contains_leaf(target) {
                    self.focus = Some(target);
                }
            },
            Command::Dropped { source, target } => {
                let r = self.tree.swap(source, target);
                proof {
                    if r is Ok {
                        lemma_leaf_ids(old(self).spec_tree()@);
                        lemma_leaf_ids(self.tree@);
                        match self.focus {

                            Some(f) => {

                                assert(self.tree@.is_leaf_id(f));

                            },

                            None => {},
                            }
                        match self.maximized {

                            Some(m) => {

                                assert(self.tree@.is_leaf_id(m));

                            },

                            None => {},
                            }
                    }
                }
            },
            Command::Maximize { target } => {
                if self.tree.contains_leaf(target) {
                    self.maximized = Some(target);
                }
            },
            Command::Restore => {
                self.maximized = None;
            },
            Command::FocusAdjacent { direction } => {
                match self.focus {
                    Some(f) => {
                        let nb = self.tree.adjacent(f, direction);
                        proof {
                            lemma_adjacent_is_leaf(self.tree@, f, direction);
                        }
                        match nb {
                            Some(n) => {
                                self.focus = Some(n);
                            },
                            None => {},
                        }
                    },
                    None => {},
                }
            },
            Command::SwapAdjacent { direction } => {
                match self.focus {
                    Some(f) => {
                        let nb = self.tree.adjacent(f, direction);
                        proof {
                            lemma_adjacent_is_leaf(self.tree@, f, direction);
                        }
                        match nb {
                            Some(n) => {
                                let r = self.tree.swap(f, n);
                                proof {
                                    lemma_leaf_ids(old(self).spec_tree()@);
                                    lemma_leaf_ids(self.tree@);
                                    match self.focus {

                                        Some(ff) => {

                                            assert(self.tree@.is_leaf_id(ff));

                                        },

                                        None => {},
                                        }
                                    match self.maximized {

                                        Some(m) => {

                                            assert(self.tree@.is_leaf_id(m));

                                        },

                                        None => {},
                                        }
                                }
                            },
                            None => {
                                let e = edge_for_exec(direction);
                                let new_id = self.tree.move_to_edge(f, e);
                                self.focus = Some(new_id);
                                proof {
                                    lemma_leaf_ids(old(self).spec_tree()@);
                                    lemma_leaf_ids(self.tree@);
                                    match self.maximized {

                                        Some(m) => {

                                            assert(self.tree@.is_leaf_id(m));

                                        },

                                        None => {},
                                        }
                                }
                            },
                        }
                    },
                    None => {},
                }
            },
        }
    }
}

} // verus!
