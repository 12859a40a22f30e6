use vstd::prelude::*;

use crate::tree::{Axis, Node, PaneTree, RATIO_UNIT};

verus! {

/// An axis-aligned rectangle in layout coordinates.
#[derive(Clone, Copy, Debug, PartialEq, Eq, Structural)]
pub struct Rect {
    pub x: u64,
    pub y: u64,
    pub w: u64,
    pub h: u64,
}

/// Coordinates are kept below this bound so the fixed-point arithmetic of
/// the resolver never overflows a `u64`.
pub const COORD_MAX: u64 = 4294967295;

/// Side length of the fixed logical viewport in which directional
/// navigation measures rectangles.
pub const LOGICAL_SPAN: u64 = 1048576;

/// A direction a pane's neighbour can be looked up in.
#[derive(Clone, Copy, Debug, PartialEq, Eq, Structural)]
pub enum Direction {
    Up,
    Down,
    Left,
    Right,
}

/// A rectangle whose far corner stays within the coordinate bound.
pub open spec fn rect_bounded(r: Rect) -> bool {
    &&& r.x + r.w <= COORD_MAX
    &&& r.y + r.h <= COORD_MAX
}

/// The rectangle a split's first child receives: `vp` cut along the split's
/// axis at `ratio`.
pub open spec fn first_rect(vp: Rect, axis: Axis, ratio: u32) -> Rect {
    if axis == Axis::Vertical {
        Rect { x: vp.x, y: vp.y, w: ((vp.w * ratio) / (RATIO_UNIT as int)) as u64, h: vp.h }
    } else {
        Rect { x: vp.x, y: vp.y, w: vp.w, h: ((vp.h * ratio) / (RATIO_UNIT as int)) as u64 }
    }
}

/// The rectangle a split's second child receives: what the first leaves.
pub open spec fn second_rect(vp: Rect, axis: Axis, ratio: u32) -> Rect {
    let fr = first_rect(vp, axis, ratio);
    if axis == Axis::Vertical {
        Rect { x: (vp.x + fr.w) as u64, y: vp.y, w: (vp.w - fr.w) as u64, h: vp.h }
    } else {
        Rect { x: vp.x, y: (vp.y + fr.h) as u64, w: vp.w, h: (vp.h - fr.h) as u64 }
    }
}

/// The rectangle of every leaf of `n` when `n` fills `vp`, left to right.
pub open spec fn rects_spec(n: Node, vp: Rect) -> Seq<(usize, Rect)>
    decreases n,
{
    match n {
        Node::Leaf { id, .. } => seq![(id, vp)],
        Node::Split { axis, ratio, first, second, .. } => rects_spec(
            *first,
            first_rect(vp, axis, ratio),
        ) + rects_spec(*second, second_rect(vp, axis, ratio)),
    }
}

/// A split hands each child a rectangle no larger than its own, so every
/// leaf rectangle of a bounded viewport is bounded.
pub proof fn lemma_rects_bounded(n: Node, vp: Rect)
    requires
        n.ratios_ok(),
        rect_bounded(vp),
    ensures
        forall|k: int|
            0 <= k < rects_spec(n, vp).len() ==> rect_bounded(
                #[trigger] rects_spec(n, vp)[k].1,
            ),
    decreases n,
{
    match n {
        Node::Leaf { id, .. } => {
            assert(rects_spec(n, vp).len() == 1);
            assert(rects_spec(n, vp)[0].1 == vp);
        },
        Node::Split { axis, ratio, first, second, .. } => {
            let fr = first_rect(vp, axis, ratio);
            let sr = second_rect(vp, axis, ratio);
            assert((vp.w * ratio) / (RATIO_UNIT as int) <= vp.w) by (nonlinear_arith)
                requires
                    ratio <= RATIO_UNIT,
                    vp.w >= 0,
            ;
            assert((vp.h * ratio) / (RATIO_UNIT as int) <= vp.h) by (nonlinear_arith)
                requires
                    ratio <= RATIO_UNIT,
                    vp.h >= 0,
            ;
            assert(rect_bounded(fr));
            assert(rect_bounded(sr));
            lemma_rects_bounded(*first, fr);
            lemma_rects_bounded(*second, sr);
            let s1 = rects_spec(*first, fr);
            let s2 = rects_spec(*second, sr);
            assert forall|k: int|
                0 <= k < rects_spec(n, vp).len() implies rect_bounded(
                rects_spec(n, vp)[k].1,
            ) by {
                assert(rects_spec(n, vp) == s1 + s2);
                if k < s1.len() {
                    assert((s1 + s2)[k] == s1[k]);
                    assert(rect_bounded(s1[k].1));
                } else {
                    assert((s1 + s2)[k] == s2[k - s1.len()]);
                    assert(rect_bounded(s2[k - s1.len()].1));
                }
            }
        },
    }
}

/// Exec computation of the two child rectangles of a split of `vp`.
fn child_rects(vp: Rect, axis: Axis, ratio: u32) -> (r: (Rect, Rect))
    requires
        rect_bounded(vp),
        ratio <= RATIO_UNIT,
    ensures
        r.0 == first_rect(vp, axis, ratio),
        r.1 == second_rect(vp, axis, ratio),
        rect_bounded(r.0),
        rect_bounded(r.1),
{
    if axis == Axis::Vertical {
        proof {
            assert((vp.w * ratio) / (RATIO_UNIT as int) <= vp.w) by (nonlinear_arith)
                requires
                    ratio <= RATIO_UNIT,
                    vp.w >= 0,
            ;
            assert(vp.w * ratio <= COORD_MAX * RATIO_UNIT) by (nonlinear_arith)
                requires
                    vp.w <= COORD_MAX,
                    ratio <= RATIO_UNIT,
            ;
        }
        let fw = (vp.w * (ratio as u64)) / (RATIO_UNIT as u64);
        (
            Rect { x: vp.x, y: vp.y, w: fw, h: vp.h },
            Rect { x: vp.x + fw, y: vp.y, w: vp.w - fw, h: vp.h },
        )
    } else {
        proof {
            assert((vp.h * ratio) / (RATIO_UNIT as int) <= vp.h) by (nonlinear_arith)
                requires
                    ratio <= RATIO_UNIT,
                    vp.h >= 0,
            ;
            assert(vp.h * ratio <= COORD_MAX * RATIO_UNIT) by (nonlinear_arith)
                requires
                    vp.h <= COORD_MAX,
                    ratio <= RATIO_UNIT,
            ;
        }
        let fh = (vp.h * (ratio as u64)) / (RATIO_UNIT as u64);
        (
            Rect { x: vp.x, y: vp.y, w: vp.w, h: fh },
            Rect { x: vp.x, y: vp.y + fh, w: vp.w, h: vp.h - fh },
        )
    }
}

/// Append the rectangle of every leaf of `n` under viewport `vp` to `out`.
fn rects_walk(n: &Node, vp: Rect, out: &mut Vec<(usize, Rect)>)
    requires
        n.ratios_ok(),
        rect_bounded(vp),
    ensures
        final(out)@ == old(out)@ + rects_spec(*n, vp),
    decreases *n,
{
    match n {
        Node::Leaf { id, .. } => {
            out.push((*id, vp));
            proof {
                assert(out@ =~= old(out)@ + rects_spec(*n, vp));
            }
        },
        Node::Split { axis, ratio, first, second, .. } => {
            let (r1, r2) = child_rects(vp, *axis, *ratio);
            rects_walk(first, r1, out);
            rects_walk(second, r2, out);
            proof {
                assert(out@ =~= old(out)@ + rects_spec(*n, vp));
            }
        },
    }
}

impl PaneTree {
    /// The rectangle of every leaf when the layout fills `viewport`, in
    /// left-to-right tree order.
    pub fn geometry(&self, viewport: Rect) -> (r: Vec<(usize, Rect)>)
        requires
            self.wf(),
            rect_bounded(viewport),
        ensures
            r@ == rects_spec(self@, viewport),
    {
        let mut out: Vec<(usize, Rect)> = Vec::new();
        rects_walk(self.root(), viewport, &mut out);
        proof {
            assert(out@ =~= rects_spec(self@, viewport));
        }
        out
    }
}

/// The fixed viewport that directional navigation measures in.
pub open spec fn logical_viewport() -> Rect {
    Rect { x: 0, y: 0, w: LOGICAL_SPAN, h: LOGICAL_SPAN }
}

/// Do the vertical projections of `a` and `b` overlap?
pub open spec fn overlap_v(a: Rect, b: Rect) -> bool {
    b.y < a.y + a.h && a.y < b.y + b.h
}

/// Do the horizontal projections of `a` and `b` overlap?
pub open spec fn overlap_h(a: Rect, b: Rect) -> bool {
    b.x < a.x + a.w && a.x < b.x + b.w
}

/// Is `r` a neighbour candidate of `rf` in direction `dir`: wholly on that
/// side, with overlapping projection on the orthogonal axis?
pub open spec fn is_candidate(rf: Rect, r: Rect, dir: Direction) -> bool {
    match dir {
        Direction::Right => r.x >= rf.x + rf.w && overlap_v(rf, r),
        Direction::Left => r.x + r.w <= rf.x && overlap_v(rf, r),
        Direction::Down => r.y >= rf.y + rf.h && overlap_h(rf, r),
        Direction::Up => r.y + r.h <= rf.y && overlap_h(rf, r),
    }
}

/// The gap between `rf` and a candidate `r` along `dir`.
pub open spec fn gap_of(rf: Rect, r: Rect, dir: Direction) -> int {
    match dir {
        Direction::Right => r.x - (rf.x + rf.w),
        Direction::Left => rf.x - (r.x + r.w),
        Direction::Down => r.y - (rf.y + rf.h),
        Direction::Up => rf.y - (r.y + r.h),
    }
}

/// Twice the distance between the centres of `rf` and `r` on the axis
/// orthogonal to `dir`; the tie-breaker among equal gaps.
pub open spec fn center_gap(rf: Rect, r: Rect, dir: Direction) -> int {
    match dir {
        Direction::Right | Direction::Left => {
            let a = 2 * rf.y + rf.h;
            let b = 2 * r.y + r.h;
            if a >= b {
                a - b
            } else {
                b - a
            }
        },
        Direction::Up | Direction::Down => {
            let a = 2 * rf.x + rf.w;
            let b = 2 * r.x + r.w;
            if a >= b {
                a - b
            } else {
                b - a
            }
        },
    }
}

/// Is candidate `a` strictly nearer than candidate `b`: a smaller gap, or
/// the same gap and a smaller centre distance?
pub open spec fn key_lt(rf: Rect, a: Rect, b: Rect, dir: Direction) -> bool {
    ||| gap_of(rf, a, dir) < gap_of(rf, b, dir)
    ||| (gap_of(rf, a, dir) == gap_of(rf, b, dir) && center_gap(rf, a, dir) < center_gap(
        rf,
        b,
        dir,
    ))
}

/// Fold step of the nearest-candidate search: `x` displaces the current
/// best only when it is a candidate and strictly nearer, so among equals the
/// earlier leaf wins.
pub open spec fn better_choice(
    cur: Option<(usize, Rect)>,
    x: (usize, Rect),
    from: usize,
    rf: Rect,
    dir: Direction,
) -> Option<(usize, Rect)> {
    if x.0 == from || !is_candidate(rf, x.1, dir) {
        cur
    } else {
        match cur {
            None => Some(x),
            Some(b) => if key_lt(rf, x.1, b.1, dir) {
                Some(x)
            } else {
                Some(b)
            },
        }
    }
}

/// The nearest candidate among the leaf rectangles `s`, measured from the
/// rectangle `rf` of leaf `from`.
pub open spec fn best_candidate(
    s: Seq<(usize, Rect)>,
    from: usize,
    rf: Rect,
    dir: Direction,
) -> Option<(usize, Rect)>
    decreases s.len(),
{
    if s.len() == 0 {
        None
    } else {
        better_choice(best_candidate(s.drop_last(), from, rf, dir), s.last(), from, rf, dir)
    }
}

/// What the nearest-candidate search returns: nothing exactly when no other
/// leaf lies that way, else a candidate no farther than any other.
pub proof fn lemma_best_candidate_props(s: Seq<(usize, Rect)>, from: usize, rf: Rect, dir: Direction)
    ensures
        best_candidate(s, from, rf, dir) is None ==> forall|k: int|
            0 <= k < s.len() ==> (#[trigger] s[k]).0 == from || !is_candidate(rf, s[k].1, dir),
        best_candidate(s, from, rf, dir) matches Some(p) ==> {
            &&& s.contains(p)
            &&& p.0 != from
            &&& is_candidate(rf, p.1, dir)
            &&& forall|k: int|
                0 <= k < s.len() && (#[trigger] s[k]).0 != from && is_candidate(rf, s[k].1, dir)
                    ==> !key_lt(rf, s[k].1, p.1, dir)
        },
    decreases s.len(),
{
    if s.len() > 0 {
        lemma_best_candidate_props(s.drop_last(), from, rf, dir);
        assert(s =~= s.drop_last().push(s.last()));
        match best_candidate(s, from, rf, dir) {
            None => {},
            Some(p) => {
                match best_candidate(s.drop_last(), from, rf, dir) {
                    None => {
                        assert(s.contains(p)) by {
                            assert(s[s.len() - 1] == p);
                        }
                    },
                    Some(b) => {
                        if p == b {
                            assert(s.drop_last().contains(p));
                            assert(s.contains(p)) by {
                                let i = choose|i: int|
                                    0 <= i < s.drop_last().len() && s.drop_last()[i] == p;
                                assert(s[i] == p);
                            }
                        } else {
                            assert(s[s.len() - 1] == p);
                            assert(s.contains(p));
                        }
                    },
                }
            },
        }
    }
}

/// Every id recorded by the resolver names a leaf of the tree.
pub proof fn lemma_rects_are_leaves(n: Node, vp: Rect)
    ensures
        forall|k: int|
            0 <= k < rects_spec(n, vp).len() ==> n.is_leaf_id(
                (#[trigger] rects_spec(n, vp)[k]).0,
            ),
    decreases n,
{
    match n {
        Node::Leaf { id, .. } => {
            assert(rects_spec(n, vp).len() == 1);
            assert(rects_spec(n, vp)[0].0 == id);
        },
        Node::Split { axis, ratio, first, second, .. } => {
            let fr = first_rect(vp, axis, ratio);
            let sr = second_rect(vp, axis, ratio);
            lemma_rects_are_leaves(*first, fr);
            lemma_rects_are_leaves(*second, sr);
            let s1 = rects_spec(*first, fr);
            let s2 = rects_spec(*second, sr);
            assert forall|k: int|
                0 <= k < rects_spec(n, vp).len() implies n.is_leaf_id(
                rects_spec(n, vp)[k].0,
            ) by {
                assert(rects_spec(n, vp) == s1 + s2);
                if k < s1.len() {
                    assert((s1 + s2)[k] == s1[k]);
                    assert(first.is_leaf_id(s1[k].0));
                } else {
                    assert((s1 + s2)[k] == s2[k - s1.len()]);
                    assert(second.is_leaf_id(s2[k - s1.len()].0));
                }
            }
        },
    }
}

/// The rectangle recorded for leaf `id` in `s`, if any.
pub open spec fn rect_lookup(s: Seq<(usize, Rect)>, id: usize) -> Option<Rect>
    decreases s.len(),
{
    if s.len() == 0 {
        None
    } else if s[0].0 == id {
        Some(s[0].1)
    } else {
        rect_lookup(s.drop_first(), id)
    }
}

/// The nearest neighbour of leaf `from` in direction `dir`: among the leaves
/// whose rectangle in the logical viewport lies wholly on that side of
/// `from`'s and overlaps its orthogonal projection, the one with the
/// smallest gap, ties broken by the smallest centre distance, then by tree
/// order. `None` at the edge of the layout or when `from` names no leaf.
pub open spec fn spec_adjacent(n: Node, from: usize, dir: Direction) -> Option<usize> {
    let s = rects_spec(n, logical_viewport());
    match rect_lookup(s, from) {
        None => None,
        Some(rf) => match best_candidate(s, from, rf, dir) {
            None => None,
            Some(p) => Some(p.0),
        },
    }
}

/// A neighbour the navigation query names is always another leaf.
pub proof fn lemma_adjacent_is_leaf(n: Node, from: usize, dir: Direction)
    ensures
        spec_adjacent(n, from, dir) matches Some(j) ==> n.is_leaf_id(j) && j != from,
{
    let s = rects_spec(n, logical_viewport());
    match rect_lookup(s, from) {
        None => {},
        Some(rf) => {
            lemma_best_candidate_props(s, from, rf, dir);
            match best_candidate(s, from, rf, dir) {
                None => {},
                Some(p) => {
                    lemma_rects_are_leaves(n, logical_viewport());
                    assert(s.contains(p));
                    let i = choose|i: int| 0 <= i < s.len() && s[i] == p;
                    assert(n.is_leaf_id(s[i].0));
                },
            }
        },
    }
}

/// Exec candidate test; mirrors `is_candidate`.
fn candidate_exec(rf: Rect, r: Rect, dir: Direction) -> (c: bool)
    requires
        rect_bounded(rf),
        rect_bounded(r),
    ensures
        c == is_candidate(rf, r, dir),
{
    match dir {
        Direction::Right => r.x >= rf.x + rf.w && r.y < rf.y + rf.h && rf.y < r.y + r.h,
        Direction::Left => r.x + r.w <= rf.x && r.y < rf.y + rf.h && rf.y < r.y + r.h,
        Direction::Down => r.y >= rf.y + rf.h && r.x < rf.x + rf.w && rf.x < r.x + r.w,
        Direction::Up => r.y + r.h <= rf.y && r.x < rf.x + rf.w && rf.x < r.x + r.w,
    }
}

/// Exec nearness comparison for two candidates; mirrors `key_lt`.
fn key_lt_exec(rf: Rect, a: Rect, b: Rect, dir: Direction) -> (c: bool)
    requires
        rect_bounded(rf),
        rect_bounded(a),
        rect_bounded(b),
        is_candidate(rf, a, dir),
        is_candidate(rf, b, dir),
    ensures
        c == key_lt(rf, a, b, dir),
{
    let (ga, gb): (u64, u64) = match dir {
        Direction::Right => (a.x - (rf.x + rf.w), b.x - (rf.x + rf.w)),
        Direction::Left => (rf.x - (a.x + a.w), rf.x - (b.x + b.w)),
        Direction::Down => (a.y - (rf.y + rf.h), b.y - (rf.y + rf.h)),
        Direction::Up => (rf.y - (a.y + a.h), rf.y - (b.y + b.h)),
    };
    let (ca, cb): (u64, u64) = match dir {
        Direction::Right | Direction::Left => {
            let cf = 2 * rf.y + rf.h;
            let c1 = 2 * a.y + a.h;
            let c2 = 2 * b.y + b.h;
            (if cf >= c1 { cf - c1 } else { c1 - cf }, if cf >= c2 { cf - c2 } else { c2 - cf })
        },
        Direction::Up | Direction::Down => {
            let cf = 2 * rf.x + rf.w;
            let c1 = 2 * a.x + a.w;
            let c2 = 2 * b.x + b.w;
            (if cf >= c1 { cf - c1 } else { c1 - cf }, if cf >= c2 { cf - c2 } else { c2 - cf })
        },
    };
    ga < gb || (ga == gb && ca < cb)
}

impl PaneTree {
    /// The nearest leaf in direction `dir` from leaf `from`, derived from
    /// the geometry of the logical viewport; `None` at the layout's edge.
    pub fn adjacent(&self, from: usize, dir: Direction) -> (r: Option<usize>)
        requires
            self.wf(),
        ensures
            r == spec_adjacent(self@, from, dir),
    {
        let vp = Rect { x: 0, y: 0, w: LOGICAL_SPAN, h: LOGICAL_SPAN };
        let rects = self.geometry(vp);
        proof {
            assert(vp == logical_viewport());
            lemma_rects_bounded(self@, vp);
        }
        let ghost s = rects@;
        let n = rects.len();
        proof {
            assert(s.subrange(0, n as int) =~= s);
        }
        let mut i: usize = 0;
        let mut found: Option<Rect> = None;
        while i < n
            invariant
                n == rects.len(),
                s == rects@,
                i <= n,
                forall|k: int|
                    0 <= k < s.len() ==> rect_bounded(#[trigger] s[k].1),
                found is None ==> rect_lookup(s, from) == rect_lookup(
                    s.subrange(i as int, n as int),
                    from,
                ),
                found matches Some(rf) ==> rect_lookup(s, from) == Some(rf) && rect_bounded(rf),
            decreases n - i,
        {
            let e = rects[i];
            proof {
                assert(s.subrange(i as int, n as int).drop_first() =~= s.subrange(
                    i + 1 as int,
                    n as int,
                ));
                assert(s.subrange(i as int, n as int)[0] == s[i as int]);
            }
            if found.is_none() && e.0 == from {
                found = Some(e.1);
            }
            i += 1;
        }
        let rf = match found {
            Some(rf) => rf,
            None => {
                proof {
                    assert(s.subrange(n as int, n as int) =~= Seq::<(usize, Rect)>::empty());
                }
                return None;
            },
        };
        let mut best: Option<(usize, Rect)> = None;
        let mut j: usize = 0;
        while j < n
            invariant
                n == rects.len(),
                s == rects@,
                j <= n,
                rect_bounded(rf),
                forall|k: int|
                    0 <= k < s.len() ==> rect_bounded(#[trigger] s[k].1),
                best == best_candidate(s.subrange(0, j as int), from, rf, dir),
                best matches Some(b) ==> rect_bounded(b.1) && b.0 != from && is_candidate(
                    rf,
                    b.1,
                    dir,
                ),
            decreases n - j,
        {
            let e = rects[j];
            proof {
                assert(s.subrange(0, j + 1 as int).drop_last() =~= s.subrange(0, j as int));
                assert(s.subrange(0, j + 1 as int).last() == s[j as int]);
            }
            if e.0 != from && candidate_exec(rf, e.1, dir) {
                match best {
                    None => {
                        best = Some(e);
                    },
                    Some(b) => {
                        if key_lt_exec(rf, e.1, b.1, dir) {
                            best = Some(e);
                        }
                    },
                }
            }
            j += 1;
        }
        proof {
            assert(s.subrange(0, n as int) =~= s);
        }
        match best {
            Some(p) => Some(p.0),
            None => None,
        }
    }
}

} // verus!
