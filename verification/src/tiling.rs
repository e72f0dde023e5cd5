//! The layout solver and the event-driven mutation policy.
//!
//! The solver walks the layout tree and assigns a rectangle to every leaf so
//! that the leaves' ungapped extents exactly tile the output area inset by
//! the outer gap, each final rectangle additionally shrunk by the inner gap.

use vstd::prelude::*;

use crate::binarytree::BinaryTree;
use crate::binarytree::HorizontalOrVertical;
use crate::binarytree::TiledHoloWindow;
use crate::binarytree::DEFAULT_RATIO;
use crate::binarytree::contains_window;
use crate::binarytree::spec_insert;
use crate::binarytree::spec_remove;
use crate::geometry::GRect;
use crate::geometry::MAX_DIM;
use crate::geometry::Rect;
use crate::geometry::in_rect;
use crate::geometry::shrink;

verus! {

/// A window-lifecycle event delivered by the compositor.
#[derive(Clone, Copy, Debug, PartialEq, Eq, Structural)]
pub enum WindowLayoutEvent {
    Added,
    Removed,
    Resized,
}

/// Why a layout operation could not run.
#[derive(Clone, Copy, Debug, PartialEq, Eq, Structural)]
pub enum LayoutError {
    /// No output (monitor) with a current mode is registered, so there is no
    /// area to lay windows out into.
    NoOutputAvailable,
}

/// The output area inset by the outer gap on all four sides: the region the
/// leaves of the tree tile.
pub open spec fn outer_rect(out_w: int, out_h: int, outer: int) -> GRect {
    GRect { x: outer, y: outer, w: out_w - 2 * outer, h: out_h - 2 * outer }
}

/// The space carved out of the anchor rectangle `lastgeo` for a new
/// sibling: a `Horizontal` split halves the width, a `Vertical` split
/// halves the height.
pub open spec fn halved_w(lastgeo: GRect, split: HorizontalOrVertical) -> int {
    match split {
        HorizontalOrVertical::Horizontal => lastgeo.w / 2,
        HorizontalOrVertical::Vertical => lastgeo.w,
    }
}

/// See `halved_w`.
pub open spec fn halved_h(lastgeo: GRect, split: HorizontalOrVertical) -> int {
    match split {
        HorizontalOrVertical::Horizontal => lastgeo.h,
        HorizontalOrVertical::Vertical => lastgeo.h / 2,
    }
}

/// The ungapped rectangle the anchor keeps after the split: the halved
/// size, placed against the canvas edge opposite the new sibling.
pub open spec fn anchor_rect(
    lastgeo: GRect,
    split: HorizontalOrVertical,
    cw: int,
    ch: int,
) -> GRect {
    match split {
        HorizontalOrVertical::Horizontal => GRect {
            x: lastgeo.x,
            y: ch - halved_h(lastgeo, split),
            w: halved_w(lastgeo, split),
            h: halved_h(lastgeo, split),
        },
        HorizontalOrVertical::Vertical => GRect {
            x: cw - halved_w(lastgeo, split),
            y: lastgeo.y,
            w: halved_w(lastgeo, split),
            h: halved_h(lastgeo, split),
        },
    }
}

/// The ungapped rectangle carved out for the new sibling: the halved size,
/// placed at the canvas corner opposite the anchor along the split axis, so
/// the two halves are adjacent and non-overlapping.
pub open spec fn sibling_rect(
    lastgeo: GRect,
    split: HorizontalOrVertical,
    cw: int,
    ch: int,
) -> GRect {
    match split {
        HorizontalOrVertical::Horizontal => GRect {
            x: cw - halved_w(lastgeo, split),
            y: lastgeo.y,
            w: halved_w(lastgeo, split),
            h: halved_h(lastgeo, split),
        },
        HorizontalOrVertical::Vertical => GRect {
            x: lastgeo.x,
            y: ch - halved_h(lastgeo, split),
            w: halved_w(lastgeo, split),
            h: halved_h(lastgeo, split),
        },
    }
}

/// The ungapped rectangle of every window the partition step assigns,
/// anchor first: the anchor keeps one half of `lastgeo`; an immediate leaf
/// takes the other half; a further split hands that half to its own left
/// leaf and recurses into its right child with that leaf as the new anchor.
/// A subtree whose left child is not a leaf is left unassigned, and a stale
/// `Empty` subtree leaves the sibling half unassigned: the solver skips
/// rather than guesses when removal has broken the insertion shape.
pub open spec fn spec_partition(
    tree: BinaryTree,
    anchor: u64,
    lastgeo: GRect,
    split: HorizontalOrVertical,
    cw: int,
    ch: int,
) -> Seq<(u64, GRect)>
    decreases tree,
{
    let a = anchor_rect(lastgeo, split, cw, ch);
    let s = sibling_rect(lastgeo, split, cw, ch);
    match tree {
        BinaryTree::Empty => seq![(anchor, a)],
        BinaryTree::Window(w) => seq![(anchor, a), (w.element, s)],
        BinaryTree::Split { split: s2, left, right, .. } => match *left {
            BinaryTree::Window(w) => seq![(anchor, a)] + spec_partition(
                *right,
                w.element,
                s,
                s2,
                cw,
                ch,
            ),
            _ => seq![(anchor, a)],
        },
    }
}

/// The executable result `r` realises the ungapped assignment list `sp`
/// with every rectangle shrunk by the inner gap `g`.
pub open spec fn partition_matches(r: Seq<(u64, Rect)>, sp: Seq<(u64, GRect)>, g: int) -> bool {
    &&& r.len() == sp.len()
    &&& forall|i: int|
        0 <= i < sp.len() ==> (#[trigger] r[i]).0 == sp[i].0 && r[i].1@ == shrink(sp[i].1, g)
}

/// The core recursive partition step. Walks `tree` with `lastwin` as the
/// geometric anchor owning the ungapped region `lastgeo`, and returns the
/// final (inner-gapped) rectangle for the anchor and for every window in
/// `tree`, in anchor-first order. The split ratio is carried along with
/// each node but the partition always halves.
pub fn generate_layout(
    tree: &BinaryTree,
    lastwin: u64,
    lastgeo: Rect,
    split: HorizontalOrVertical,
    ratio: u32,
    output_w: i32,
    output_h: i32,
    gaps: (i32, i32),
) -> (r: Vec<(u64, Rect)>)
    requires
        0 <= lastgeo.w <= MAX_DIM,
        0 <= lastgeo.h <= MAX_DIM,
        -MAX_DIM <= lastgeo.x <= MAX_DIM,
        -MAX_DIM <= lastgeo.y <= MAX_DIM,
        0 <= output_w <= MAX_DIM,
        0 <= output_h <= MAX_DIM,
        0 <= gaps.1 <= MAX_DIM,
    ensures
        partition_matches(
            r@,
            spec_partition(*tree, lastwin, lastgeo@, split, output_w as int, output_h as int),
            gaps.1 as int,
        ),
    decreases *tree,
{
    let ghost sp = spec_partition(
        *tree,
        lastwin,
        lastgeo@,
        split,
        output_w as int,
        output_h as int,
    );
    let size_w: i32;
    let size_h: i32;
    match split {
        HorizontalOrVertical::Horizontal => {
            size_w = lastgeo.w / 2;
            size_h = lastgeo.h;
        },
        HorizontalOrVertical::Vertical => {
            size_w = lastgeo.w;
            size_h = lastgeo.h / 2;
        },
    }
    let aloc_x: i32;
    let aloc_y: i32;
    match split {
        HorizontalOrVertical::Horizontal => {
            aloc_x = lastgeo.x;
            aloc_y = output_h - size_h;
        },
        HorizontalOrVertical::Vertical => {
            aloc_x = output_w - size_w;
            aloc_y = lastgeo.y;
        },
    }
    let sloc_x: i32;
    let sloc_y: i32;
    match split {
        HorizontalOrVertical::Horizontal => {
            sloc_x = output_w - size_w;
            sloc_y = lastgeo.y;
        },
        HorizontalOrVertical::Vertical => {
            sloc_x = lastgeo.x;
            sloc_y = output_h - size_h;
        },
    }
    proof {
        assert(size_w == halved_w(lastgeo@, split));
        assert(size_h == halved_h(lastgeo@, split));
    }
    let g = gaps.1;
    let mut out: Vec<(u64, Rect)> = Vec::new();
    out.push(
        (lastwin, Rect { x: aloc_x + g, y: aloc_y + g, w: size_w - 2 * g, h: size_h - 2 * g }),
    );
    match tree {
        BinaryTree::Empty => {
            proof {
                assert(out@.len() == sp.len());
            }
        },
        BinaryTree::Window(w) => {
            out.push(
                (
                    w.element,
                    Rect { x: sloc_x + g, y: sloc_y + g, w: size_w - 2 * g, h: size_h - 2 * g },
                ),
            );
        },
        BinaryTree::Split { split: s2, ratio: r2, left, right } => {
            match (&**left) {
                BinaryTree::Window(w) => {
                    let srect = Rect { x: sloc_x, y: sloc_y, w: size_w, h: size_h };
                    let mut rest = generate_layout(
                        &**right,
                        w.element,
                        srect,
                        *s2,
                        *r2,
                        output_w,
                        output_h,
                        gaps,
                    );
                    let ghost sp_tail = spec_partition(
                        **right,
                        w.element,
                        srect@,
                        *s2,
                        output_w as int,
                        output_h as int,
                    );
                    let ghost head = out@;
                    let ghost restv = rest@;
                    out.append(&mut rest);
                    proof {
                        assert(sp == seq![
                            (
                                lastwin,
                                anchor_rect(
                                    lastgeo@,
                                    split,
                                    output_w as int,
                                    output_h as int,
                                ),
                            ),
                        ] + sp_tail);
                        assert forall|i: int| 0 <= i < sp.len() implies (#[trigger] out@[i]).0
                            == sp[i].0 && out@[i].1@ == shrink(sp[i].1, g as int) by {
                            if i > 0 {
                                assert(out@[i] == restv[i - 1]);
                                assert(sp[i] == sp_tail[i - 1]);
                            }
                        }
                    }
                },
                _ => {},
            }
        },
    }
    out
}

/// A tracked window record: the external window handle and the rectangle
/// the solver last assigned to it.
#[derive(Clone, Copy, Debug, PartialEq, Eq, Structural)]
pub struct HoloWindow {
    pub window: u64,
    pub rec: Rect,
}

/// The rectangle the assignment list `a` gives to window `id`: the value of
/// the last assignment with that handle, if any.
pub open spec fn assigned_rect(a: Seq<(u64, GRect)>, id: u64) -> Option<GRect>
    decreases a.len(),
{
    if a.len() == 0 {
        None
    } else if a.last().0 == id {
        Some(a.last().1)
    } else {
        assigned_rect(a.drop_last(), id)
    }
}

/// After a recompute with assignment list `a`, the record `newrec` of a
/// window `id` whose rectangle was `oldrect` holds the assigned rectangle,
/// or is untouched when the list assigns it none.
pub open spec fn rect_updated(newrec: HoloWindow, oldrect: GRect, id: u64, a: Seq<(u64, GRect)>) -> bool {
    match assigned_rect(a, id) {
        Some(g) => newrec.rec@ == g,
        None => newrec.rec@ == oldrect,
    }
}

/// The registry `m1` is the registry `m0` with the assignment list `a`
/// applied: same windows in the same order, each rectangle replaced by its
/// assigned value where one exists.
pub open spec fn applies(m0: Seq<HoloWindow>, m1: Seq<HoloWindow>, a: Seq<(u64, GRect)>) -> bool {
    &&& m1.len() == m0.len()
    &&& forall|i: int| 0 <= i < m0.len() ==> (#[trigger] m1[i]).window == m0[i].window
    &&& forall|i: int|
        0 <= i < m0.len() ==> rect_updated(#[trigger] m1[i], m0[i].rec@, m0[i].window, a)
}

/// The ungapped rectangle of every window a full recompute assigns. A lone
/// window takes the whole output area inset by the outer gap; a root split
/// whose left child is a leaf anchors the partition step on that leaf; a
/// root split whose left child is not a leaf (possible after a removal) is
/// skipped, assigning nothing.
pub open spec fn ws_ungapped(tree: BinaryTree, out_w: int, out_h: int, outer: int) -> Seq<(u64, GRect)> {
    match tree {
        BinaryTree::Empty => Seq::empty(),
        BinaryTree::Window(w) => seq![(w.element, outer_rect(out_w, out_h, outer))],
        BinaryTree::Split { split, left, right, .. } => match *left {
            BinaryTree::Window(w) => spec_partition(
                *right,
                w.element,
                outer_rect(out_w, out_h, outer),
                split,
                out_w - outer,
                out_h - outer,
            ),
            _ => Seq::empty(),
        },
    }
}

/// The final rectangle of every window a full recompute assigns: the
/// ungapped extents of `ws_ungapped`, each shrunk by the inner gap — except
/// that a lone window keeps the full outer-inset area, with no inner gap.
pub open spec fn ws_layout(
    tree: BinaryTree,
    out_w: int,
    out_h: int,
    outer: int,
    inner: int,
) -> Seq<(u64, GRect)> {
    match tree {
        BinaryTree::Empty => Seq::empty(),
        BinaryTree::Window(_) => ws_ungapped(tree, out_w, out_h, outer),
        BinaryTree::Split { left, .. } => match *left {
            BinaryTree::Window(_) => ws_ungapped(tree, out_w, out_h, outer).map_values(
                |p: (u64, GRect)| (p.0, shrink(p.1, inner)),
            ),
            _ => Seq::empty(),
        },
    }
}

/// Some record of the registry `s` holds the window handle `id`.
pub open spec fn seq_tracks(s: Seq<HoloWindow>, id: u64) -> bool {
    exists|i: int| 0 <= i < s.len() && (#[trigger] s[i]).window == id
}

/// The registry `s` with the first record holding `id` taken out; `s`
/// unchanged when none does.
pub open spec fn spec_unregister(s: Seq<HoloWindow>, id: u64) -> Seq<HoloWindow>
    decreases s.len(),
{
    if s.len() == 0 {
        s
    } else if s[0].window == id {
        s.drop_first()
    } else {
        seq![s[0]] + spec_unregister(s.drop_first(), id)
    }
}

/// Unregistering one handle does not disturb whether any other handle is
/// tracked.
pub proof fn lemma_unregister_keeps_others(s: Seq<HoloWindow>, id: u64, other: u64)
    requires
        other != id,
    ensures
        seq_tracks(spec_unregister(s, id), other) <==> seq_tracks(s, other),
    decreases s.len(),
{
    if s.len() == 0 {
    } else if s[0].window == id {
        let r = s.drop_first();
        if seq_tracks(s, other) {
            let i = choose|i: int| 0 <= i < s.len() && (#[trigger] s[i]).window == other;
            assert(i != 0);
            assert(r[i - 1].window == other);
        }
        if seq_tracks(r, other) {
            let i = choose|i: int| 0 <= i < r.len() && (#[trigger] r[i]).window == other;
            assert(s[i + 1].window == other);
        }
    } else {
        let tail = s.drop_first();
        let r = seq![s[0]] + spec_unregister(tail, id);
        lemma_unregister_keeps_others(tail, id, other);
        if seq_tracks(s, other) {
            let i = choose|i: int| 0 <= i < s.len() && (#[trigger] s[i]).window == other;
            if i == 0 {
                assert(r[0].window == other);
            } else {
                assert(tail[i - 1].window == other);
                assert(seq_tracks(tail, other));
                let j = choose|j: int|
                    0 <= j < spec_unregister(tail, id).len() && (#[trigger] spec_unregister(
                        tail,
                        id,
                    )[j]).window == other;
                assert(r[j + 1].window == other);
            }
        }
        if seq_tracks(r, other) {
            let i = choose|i: int| 0 <= i < r.len() && (#[trigger] r[i]).window == other;
            if i == 0 {
                assert(s[0].window == other);
            } else {
                assert(spec_unregister(tail, id)[i - 1].window == other);
                assert(seq_tracks(spec_unregister(tail, id), other));
                let j = choose|j: int| 0 <= j < tail.len() && (#[trigger] tail[j]).window
                    == other;
                assert(s[j + 1].window == other);
            }
        }
    }
}

/// When the first record holding `id` stands at `idx`, unregistering `id`
/// removes exactly that record.
proof fn lemma_unregister_first(s: Seq<HoloWindow>, id: u64, idx: int)
    requires
        0 <= idx < s.len(),
        s[idx].window == id,
        forall|k: int| 0 <= k < idx ==> (#[trigger] s[k]).window != id,
    ensures
        spec_unregister(s, id) == s.remove(idx),
    decreases idx,
{
    if idx == 0 {
        assert(spec_unregister(s, id) =~= s.remove(0));
    } else {
        let tail = s.drop_first();
        assert(forall|k: int| 0 <= k < idx - 1 ==> (#[trigger] tail[k]).window != id);
        lemma_unregister_first(tail, id, idx - 1);
        assert(seq![s[0]] + tail.remove(idx - 1) =~= s.remove(idx));
    }
}

/// Unregistering a handle that no record holds changes nothing.
proof fn lemma_unregister_absent(s: Seq<HoloWindow>, id: u64)
    requires
        !seq_tracks(s, id),
    ensures
        spec_unregister(s, id) == s,
    decreases s.len(),
{
    if s.len() == 0 {
        assert(spec_unregister(s, id) =~= s);
    } else {
        assert(s[0].window != id);
        let tail = s.drop_first();
        assert(!seq_tracks(tail, id)) by {
            if seq_tracks(tail, id) {
                let i = choose|i: int| 0 <= i < tail.len() && (#[trigger] tail[i]).window == id;
                assert(s[i + 1].window == id);
            }
        }
        lemma_unregister_absent(tail, id);
        assert(seq![s[0]] + tail =~= s);
    }
}

/// Constraints on the configured gaps relative to the output size: both
/// non-negative and bounded, and the outer inset no larger than the output,
/// so that the region being tiled does not invert.
pub open spec fn gaps_ok(gaps: (i32, i32), out_w: int, out_h: int) -> bool {
    &&& 0 <= gaps.0 <= MAX_DIM
    &&& 0 <= gaps.1 <= MAX_DIM
    &&& 2 * gaps.0 <= out_w
    &&& 2 * gaps.0 <= out_h
}

/// The width of the registered output, zero when none is registered.
pub open spec fn output_width(ws: Workspace) -> int {
    match ws.output {
        Some(p) => p.0 as int,
        None => 0,
    }
}

/// The height of the registered output, zero when none is registered.
pub open spec fn output_height(ws: Workspace) -> int {
    match ws.output {
        Some(p) => p.1 as int,
        None => 0,
    }
}

/// A workspace: the layout tree, the registry of tracked windows, and the
/// registered output size, if any.
pub struct Workspace {
    pub layout_tree: BinaryTree,
    pub windows: Vec<HoloWindow>,
    pub output: Option<(i32, i32)>,
}

impl Workspace {
    /// Well-formedness: the registered output size lies in bounds, no
    /// window handle appears in more than one leaf of the tree, and every
    /// handle in the tree is tracked by the registry.
    pub open spec fn wf(self) -> bool {
        &&& match self.output {
            Some(p) => 0 <= p.0 <= MAX_DIM && 0 <= p.1 <= MAX_DIM,
            None => true,
        }
        &&& crate::binarytree::tree_distinct(self.layout_tree)
        &&& forall|id: u64| #[trigger]
            contains_window(self.layout_tree, id) ==> seq_tracks(self.windows@, id)
    }

    /// A workspace with no windows, an empty tree and no output.
    pub fn new() -> (r: Self)
        ensures
            r.layout_tree == BinaryTree::Empty,
            r.windows@ == Seq::<HoloWindow>::empty(),
            r.output is None,
            r.wf(),
    {
        let r = Workspace { layout_tree: BinaryTree::new(), windows: Vec::new(), output: None };
        proof {
            assert(!contains_window(BinaryTree::Empty, 0));
        }
        r
    }

    /// Register the output whose size drives every recompute.
    pub fn add_output(&mut self, width: i32, height: i32)
        requires
            0 <= width <= MAX_DIM,
            0 <= height <= MAX_DIM,
        ensures
            *final(self) == (Workspace { output: Some((width, height)), ..*old(self) }),
    {
        self.output = Some((width, height));
    }

    /// Whether some record of the registry holds the handle `window`.
    pub fn has_window(&self, window: u64) -> (r: bool)
        ensures
            r == seq_tracks(self.windows@, window),
    {
        let mut i: usize = 0;
        while i < self.windows.len()
            invariant
                i <= self.windows@.len(),
                forall|k: int| 0 <= k < i ==> (#[trigger] self.windows@[k]).window != window,
            decreases self.windows@.len() - i,
        {
            if self.windows[i].window == window {
                return true;
            }
            i += 1;
        }
        false
    }

    /// Take the first record holding `window` out of the registry; a no-op
    /// when none does. The tree and the output are untouched.
    pub fn remove_window(&mut self, window: u64)
        ensures
            final(self).layout_tree == old(self).layout_tree,
            final(self).output == old(self).output,
            final(self).windows@ == spec_unregister(old(self).windows@, window),
    {
        let mut i: usize = 0;
        while i < self.windows.len()
            invariant
                i <= self.windows@.len(),
                *self == *old(self),
                forall|k: int| 0 <= k < i ==> (#[trigger] self.windows@[k]).window != window,
            decreases self.windows@.len() - i,
        {
            if self.windows[i].window == window {
                self.windows.remove(i);
                proof {
                    lemma_unregister_first(old(self).windows@, window, i as int);
                }
                return;
            }
            i += 1;
        }
        proof {
            lemma_unregister_absent(self.windows@, window);
        }
    }

    /// The handle and current rectangle of every tracked window, in
    /// registration order, for the rendering collaborator.
    pub fn current_rectangles(&self) -> (r: Vec<(u64, Rect)>)
        ensures
            r@.len() == self.windows@.len(),
            forall|i: int|
                0 <= i < self.windows@.len() ==> #[trigger] r@[i] == (self.windows@[i].window,
                self.windows@[i].rec),
    {
        let mut r: Vec<(u64, Rect)> = Vec::new();
        let mut i: usize = 0;
        while i < self.windows.len()
            invariant
                i <= self.windows@.len(),
                r@.len() == i,
                forall|k: int|
                    0 <= k < i ==> #[trigger] r@[k] == (self.windows@[k].window,
                    self.windows@[k].rec),
            decreases self.windows@.len() - i,
        {
            let hw = self.windows[i];
            r.push((hw.window, hw.rec));
            i += 1;
        }
        r
    }
}

/// The executable assignment list `a` realises the model list `l`: same
/// handles in the same order, each rectangle the model value.
pub open spec fn realises(a: Seq<(u64, Rect)>, l: Seq<(u64, GRect)>) -> bool {
    &&& a.len() == l.len()
    &&& forall|i: int| 0 <= i < l.len() ==> (#[trigger] a[i]).0 == l[i].0 && a[i].1@ == l[i].1
}

/// The rectangle the assignment list gives to `id`, reading the executable
/// list from its end.
fn lookup_assign(assigns: &Vec<(u64, Rect)>, Ghost(l): Ghost<Seq<(u64, GRect)>>, id: u64) -> (r:
    Option<Rect>)
    requires
        realises(assigns@, l),
    ensures
        match r {
            Some(rect) => assigned_rect(l, id) == Some(rect@),
            None => assigned_rect(l, id) is None,
        },
{
    let mut i: usize = assigns.len();
    proof {
        assert(l.take(i as int) =~= l);
    }
    while i > 0
        invariant
            i <= assigns@.len(),
            realises(assigns@, l),
            assigned_rect(l, id) == assigned_rect(l.take(i as int), id),
        decreases i,
    {
        i = i - 1;
        let p = assigns[i];
        proof {
            assert(l.take(i as int + 1).last() == l[i as int]);
        }
        if p.0 == id {
            return Some(p.1);
        }
        proof {
            assert(l.take(i as int + 1).drop_last() =~= l.take(i as int));
        }
    }
    proof {
        assert(l.take(0) =~= Seq::<(u64, GRect)>::empty());
    }
    None
}

/// Recompute the rectangle of every window of the workspace from the
/// tree and the output's current size, honouring the outer and inner gaps.
/// The tree itself is untouched; the registry keeps its windows and order,
/// with each assigned rectangle written into its record.
pub fn bsp_update_layout(workspace: &mut Workspace, gaps: (i32, i32))
    requires
        old(workspace).wf(),
        old(workspace).output is Some,
        gaps_ok(gaps, output_width(*old(workspace)), output_height(*old(workspace))),
    ensures
        final(workspace).layout_tree == old(workspace).layout_tree,
        final(workspace).output == old(workspace).output,
        final(workspace).wf(),
        applies(
            old(workspace).windows@,
            final(workspace).windows@,
            ws_layout(
                old(workspace).layout_tree,
                output_width(*old(workspace)),
                output_height(*old(workspace)),
                gaps.0 as int,
                gaps.1 as int,
            ),
        ),
{
    let (ow, oh) = workspace.output.unwrap();
    let lastgeo = Rect { x: gaps.0, y: gaps.0, w: ow - 2 * gaps.0, h: oh - 2 * gaps.0 };
    let ghost l = ws_layout(
        workspace.layout_tree,
        ow as int,
        oh as int,
        gaps.0 as int,
        gaps.1 as int,
    );
    let mut assigns: Vec<(u64, Rect)> = Vec::new();
    match &workspace.layout_tree {
        BinaryTree::Empty => {},
        BinaryTree::Window(w) => {
            assigns.push((w.element, lastgeo));
        },
        BinaryTree::Split { split, ratio, left, right } => {
            match (&**left) {
                BinaryTree::Window(w) => {
                    assigns = generate_layout(
                        &**right,
                        w.element,
                        lastgeo,
                        *split,
                        *ratio,
                        ow - gaps.0,
                        oh - gaps.0,
                        gaps,
                    );
                    proof {
                        let sp = ws_ungapped(
                            workspace.layout_tree,
                            ow as int,
                            oh as int,
                            gaps.0 as int,
                        );
                        assert(lastgeo@ == outer_rect(ow as int, oh as int, gaps.0 as int));
                        assert(sp == spec_partition(
                            **right,
                            w.element,
                            lastgeo@,
                            *split,
                            (ow - gaps.0) as int,
                            (oh - gaps.0) as int,
                        ));
                        assert forall|i: int| 0 <= i < l.len() implies (#[trigger] assigns@[i]).0
                            == l[i].0 && assigns@[i].1@ == l[i].1 by {
                            assert(l[i] == (sp[i].0, shrink(sp[i].1, gaps.1 as int)));
                        }
                    }
                },
                _ => {},
            }
        },
    }
    proof {
        assert(realises(assigns@, l));
    }
    let ghost m0 = workspace.windows@;
    let mut j: usize = 0;
    while j < workspace.windows.len()
        invariant
            j <= workspace.windows@.len(),
            workspace.windows@.len() == m0.len(),
            workspace.layout_tree == old(workspace).layout_tree,
            workspace.output == old(workspace).output,
            realises(assigns@, l),
            forall|k: int| j <= k < m0.len() ==> workspace.windows@[k] == m0[k],
            forall|k: int| 0 <= k < j ==> (#[trigger] workspace.windows@[k]).window
                == m0[k].window,
            forall|k: int|
                0 <= k < j ==> rect_updated(
                    #[trigger] workspace.windows@[k],
                    m0[k].rec@,
                    m0[k].window,
                    l,
                ),
        decreases m0.len() - j,
    {
        let id = workspace.windows[j].window;
        match lookup_assign(&assigns, Ghost(l), id) {
            Some(r) => {
                let hw = HoloWindow { window: id, rec: r };
                workspace.windows.set(j, hw);
            },
            None => {},
        }
        j += 1;
    }
    proof {
        assert forall|id: u64| #[trigger]
            contains_window(workspace.layout_tree, id) implies seq_tracks(
            workspace.windows@,
            id,
        ) by {
            assert(seq_tracks(m0, id));
            let i = choose|i: int| 0 <= i < m0.len() && (#[trigger] m0[i]).window == id;
            assert(workspace.windows@[i].window == id);
        }
    }
}

/// Dispatch a window-lifecycle event. `Added` tracks the window with an
/// initial rectangle of the output area inset by the outer gap, inserts it
/// as the rightmost leaf and recomputes the layout; `Removed` excises the
/// window from registry and tree and recomputes; `Resized` (the output
/// changed size) recomputes without mutating the tree. Fails with
/// `NoOutputAvailable`, changing nothing, exactly when no output is
/// registered.
pub fn bsp_layout(
    workspace: &mut Workspace,
    window: u64,
    event: WindowLayoutEvent,
    gaps: (i32, i32),
) -> (r: Result<(), LayoutError>)
    requires
        old(workspace).wf(),
        old(workspace).output is Some ==> gaps_ok(
            gaps,
            output_width(*old(workspace)),
            output_height(*old(workspace)),
        ),
        event is Added ==> !seq_tracks(old(workspace).windows@, window),
    ensures
        final(workspace).wf(),
        r is Err <==> old(workspace).output is None,
        r is Err ==> *final(workspace) == *old(workspace) && r == Err::<(), LayoutError>(
            LayoutError::NoOutputAvailable,
        ),
        r is Ok ==> final(workspace).output == old(workspace).output,
        r is Ok && event is Added ==> final(workspace).layout_tree == spec_insert(
            old(workspace).layout_tree,
            TiledHoloWindow {
                element: window,
                split: HorizontalOrVertical::Horizontal,
                ratio: DEFAULT_RATIO,
            },
        ) && applies(
            old(workspace).windows@.push(
                HoloWindow {
                    window,
                    rec: Rect {
                        x: gaps.0,
                        y: gaps.0,
                        w: (output_width(*old(workspace)) - 2 * gaps.0) as i32,
                        h: (output_height(*old(workspace)) - 2 * gaps.0) as i32,
                    },
                },
            ),
            final(workspace).windows@,
            ws_layout(
                final(workspace).layout_tree,
                output_width(*old(workspace)),
                output_height(*old(workspace)),
                gaps.0 as int,
                gaps.1 as int,
            ),
        ),
        r is Ok && event is Removed ==> final(workspace).layout_tree == spec_remove(
            old(workspace).layout_tree,
            window,
        ) && applies(
            spec_unregister(old(workspace).windows@, window),
            final(workspace).windows@,
            ws_layout(
                final(workspace).layout_tree,
                output_width(*old(workspace)),
                output_height(*old(workspace)),
                gaps.0 as int,
                gaps.1 as int,
            ),
        ),
        r is Ok && event is Resized ==> final(workspace).layout_tree == old(
            workspace,
        ).layout_tree && applies(
            old(workspace).windows@,
            final(workspace).windows@,
            ws_layout(
                old(workspace).layout_tree,
                output_width(*old(workspace)),
                output_height(*old(workspace)),
                gaps.0 as int,
                gaps.1 as int,
            ),
        ),
{
    let (ow, oh) = match workspace.output {
        Some(p) => p,
        None => {
            return Err(LayoutError::NoOutputAvailable);
        },
    };
    match event {
        WindowLayoutEvent::Added => {
            let rec = Rect { x: gaps.0, y: gaps.0, w: ow - 2 * gaps.0, h: oh - 2 * gaps.0 };
            workspace.windows.push(HoloWindow { window, rec });
            let record = TiledHoloWindow {
                element: window,
                split: HorizontalOrVertical::Horizontal,
                ratio: DEFAULT_RATIO,
            };
            let ghost t0 = workspace.layout_tree;
            let ghost m0 = old(workspace).windows@;
            workspace.layout_tree.insert(record);
            proof {
                assert(!contains_window(t0, record.element));
                crate::binarytree::lemma_insert_distinct(t0, record);
                assert forall|id: u64| #[trigger]
                    contains_window(workspace.layout_tree, id) implies seq_tracks(
                    workspace.windows@,
                    id,
                ) by {
                    crate::binarytree::lemma_insert_contains(t0, record, id);
                    if id == window {
                        assert(workspace.windows@[m0.len() as int].window == id);
                    } else {
                        assert(seq_tracks(m0, id));
                        let i = choose|i: int| 0 <= i < m0.len() && (#[trigger] m0[i]).window
                            == id;
                        assert(workspace.windows@[i].window == id);
                    }
                }
            }
            bsp_update_layout(workspace, gaps);
        },
        WindowLayoutEvent::Removed => {
            workspace.remove_window(window);
            let ghost t0 = workspace.layout_tree;
            let ghost m1 = workspace.windows@;
            workspace.layout_tree.remove(window);
            proof {
                crate::binarytree::lemma_remove_distinct(t0, window);
                assert forall|id: u64| #[trigger]
                    contains_window(workspace.layout_tree, id) implies seq_tracks(m1, id) by {
                    crate::binarytree::lemma_remove_contains(t0, window, id);
                    assert(seq_tracks(old(workspace).windows@, id));
                    lemma_unregister_keeps_others(old(workspace).windows@, window, id);
                }
            }
            bsp_update_layout(workspace, gaps);
        },
        WindowLayoutEvent::Resized => {
            bsp_update_layout(workspace, gaps);
        },
    }
    Ok(())
}

/// Idempotence of the recompute pass: with the tree and the output size
/// unchanged, applying the same assignment list a second time leaves every
/// record exactly as the first application did.
pub proof fn lemma_recompute_idempotent(
    m0: Seq<HoloWindow>,
    m1: Seq<HoloWindow>,
    m2: Seq<HoloWindow>,
    a: Seq<(u64, GRect)>,
)
    requires
        applies(m0, m1, a),
        applies(m1, m2, a),
    ensures
        m2 == m1,
{
    assert forall|i: int| 0 <= i < m1.len() implies m2[i] == m1[i] by {
        assert(m1[i].window == m0[i].window);
        assert(rect_updated(m1[i], m0[i].rec@, m0[i].window, a));
        assert(rect_updated(m2[i], m1[i].rec@, m1[i].window, a));
        assert(m2[i].rec@ == m1[i].rec@);
        assert(m2[i].rec == m1[i].rec);
    }
    assert(m2 =~= m1);
}

/// The shape the insertion policy guarantees for the right spine the solver
/// walks: every node is a window leaf, or a split whose left child is a
/// window leaf; no stale `Empty` placeholder anywhere on the spine.
pub open spec fn spine_ok(tree: BinaryTree) -> bool
    decreases tree,
{
    match tree {
        BinaryTree::Empty => false,
        BinaryTree::Window(_) => true,
        BinaryTree::Split { left, right, .. } => (*left is Window) && spine_ok(*right),
    }
}

/// The dimension a split halves is even in `lastgeo`: integer halving then
/// loses nothing, so the two halves partition the region exactly.
pub open spec fn dim_even(lastgeo: GRect, split: HorizontalOrVertical) -> bool {
    match split {
        HorizontalOrVertical::Horizontal => lastgeo.w % 2 == 0,
        HorizontalOrVertical::Vertical => lastgeo.h % 2 == 0,
    }
}

/// Every halving the partition of `tree` inside `lastgeo` performs is an
/// exact one (see `dim_even`).
pub open spec fn even_ok(
    tree: BinaryTree,
    lastgeo: GRect,
    split: HorizontalOrVertical,
    cw: int,
    ch: int,
) -> bool
    decreases tree,
{
    dim_even(lastgeo, split) && match tree {
        BinaryTree::Split { split: s2, right, .. } => even_ok(
            *right,
            sibling_rect(lastgeo, split, cw, ch),
            s2,
            cw,
            ch,
        ),
        _ => true,
    }
}

/// The point `(px, py)` lies in some rectangle of the assignment list `s`.
pub open spec fn covers(s: Seq<(u64, GRect)>, px: int, py: int) -> bool {
    exists|i: int| 0 <= i < s.len() && in_rect((#[trigger] s[i]).1, px, py)
}

/// The tessellation theorem for the partition step: on a spine of the
/// insertion shape, anchored at the bottom-right corner of the canvas, with
/// every halving exact, the ungapped rectangles the partition assigns cover
/// exactly the points of the anchor region `lastgeo`, and no point lies in
/// two of them.
pub proof fn lemma_partition_tiles(
    tree: BinaryTree,
    anchor: u64,
    lastgeo: GRect,
    split: HorizontalOrVertical,
    cw: int,
    ch: int,
)
    requires
        spine_ok(tree),
        lastgeo.w >= 0,
        lastgeo.h >= 0,
        lastgeo.x + lastgeo.w == cw,
        lastgeo.y + lastgeo.h == ch,
        even_ok(tree, lastgeo, split, cw, ch),
    ensures
        ({
            let s = spec_partition(tree, anchor, lastgeo, split, cw, ch);
            &&& forall|px: int, py: int|
                in_rect(lastgeo, px, py) <==> #[trigger] covers(s, px, py)
            &&& forall|i: int, j: int, px: int, py: int|
                0 <= i < j < s.len() ==> !(#[trigger] in_rect(s[i].1, px, py)
                    && #[trigger] in_rect(s[j].1, px, py))
        }),
    decreases tree,
{
    let s = spec_partition(tree, anchor, lastgeo, split, cw, ch);
    let a = anchor_rect(lastgeo, split, cw, ch);
    let sib = sibling_rect(lastgeo, split, cw, ch);
    match split {
        HorizontalOrVertical::Horizontal => {
            assert(lastgeo.w == 2 * (lastgeo.w / 2));
        },
        HorizontalOrVertical::Vertical => {
            assert(lastgeo.h == 2 * (lastgeo.h / 2));
        },
    }
    assert(forall|px: int, py: int|
        in_rect(lastgeo, px, py) <==> (in_rect(a, px, py) || #[trigger] in_rect(sib, px, py)));
    assert(forall|px: int, py: int|
        !(in_rect(a, px, py) && #[trigger] in_rect(sib, px, py)));
    match tree {
        BinaryTree::Empty => {},
        BinaryTree::Window(w) => {
            assert(s == seq![(anchor, a), (w.element, sib)]);
            assert forall|px: int, py: int|
                in_rect(lastgeo, px, py) <==> #[trigger] covers(s, px, py) by {
                if in_rect(lastgeo, px, py) {
                    if in_rect(a, px, py) {
                        assert(in_rect(s[0].1, px, py));
                    } else {
                        assert(in_rect(s[1].1, px, py));
                    }
                }
                if covers(s, px, py) {
                    let i = choose|i: int| 0 <= i < s.len() && in_rect(
                        (#[trigger] s[i]).1,
                        px,
                        py,
                    );
                    assert(i == 0 || i == 1);
                }
            }
        },
        BinaryTree::Split { split: s2, left, right, .. } => {
            match *left {
                BinaryTree::Window(w) => {
                    let tail = spec_partition(*right, w.element, sib, s2, cw, ch);
                    assert(s == seq![(anchor, a)] + tail);
                    lemma_partition_tiles(*right, w.element, sib, s2, cw, ch);
                    assert forall|px: int, py: int|
                        in_rect(lastgeo, px, py) <==> #[trigger] covers(s, px, py) by {
                        if in_rect(lastgeo, px, py) {
                            if in_rect(a, px, py) {
                                assert(in_rect(s[0].1, px, py));
                            } else {
                                assert(in_rect(sib, px, py));
                                assert(covers(tail, px, py));
                                let k = choose|k: int| 0 <= k < tail.len() && in_rect(
                                    (#[trigger] tail[k]).1,
                                    px,
                                    py,
                                );
                                assert(in_rect(s[k + 1].1, px, py));
                            }
                        }
                        if covers(s, px, py) {
                            let i = choose|i: int| 0 <= i < s.len() && in_rect(
                                (#[trigger] s[i]).1,
                                px,
                                py,
                            );
                            if i == 0 {
                                assert(in_rect(a, px, py));
                            } else {
                                assert(in_rect(tail[i - 1].1, px, py));
                                assert(covers(tail, px, py));
                                assert(in_rect(sib, px, py));
                            }
                        }
                    }
                    assert forall|i: int, j: int, px: int, py: int|
                        0 <= i < j < s.len() implies !(#[trigger] in_rect(s[i].1, px, py)
                        && #[trigger] in_rect(s[j].1, px, py)) by {
                        if in_rect(s[i].1, px, py) && in_rect(s[j].1, px, py) {
                            if i == 0 {
                                assert(in_rect(a, px, py));
                                assert(in_rect(tail[j - 1].1, px, py));
                                assert(covers(tail, px, py));
                                assert(in_rect(sib, px, py));
                            } else {
                                assert(in_rect(tail[i - 1].1, px, py));
                                assert(in_rect(tail[j - 1].1, px, py));
                            }
                        }
                    }
                },
                _ => {},
            }
        },
    }
}

/// Every halving a full recompute of `tree` performs is exact.
pub open spec fn ws_even_ok(tree: BinaryTree, out_w: int, out_h: int, outer: int) -> bool {
    match tree {
        BinaryTree::Split { split, right, .. } => even_ok(
            *right,
            outer_rect(out_w, out_h, outer),
            split,
            out_w - outer,
            out_h - outer,
        ),
        _ => true,
    }
}

/// The tessellation theorem for a full recompute: the ungapped extents of
/// the assigned rectangles cover exactly the output area inset once by the
/// outer gap, with zero overlap between any two of them.
pub proof fn lemma_recompute_tiles(tree: BinaryTree, out_w: int, out_h: int, outer: int)
    requires
        spine_ok(tree),
        0 <= outer,
        2 * outer <= out_w,
        2 * outer <= out_h,
        ws_even_ok(tree, out_w, out_h, outer),
    ensures
        ({
            let s = ws_ungapped(tree, out_w, out_h, outer);
            let region = outer_rect(out_w, out_h, outer);
            &&& forall|px: int, py: int|
                in_rect(region, px, py) <==> #[trigger] covers(s, px, py)
            &&& forall|i: int, j: int, px: int, py: int|
                0 <= i < j < s.len() ==> !(#[trigger] in_rect(s[i].1, px, py)
                    && #[trigger] in_rect(s[j].1, px, py))
        }),
{
    let s = ws_ungapped(tree, out_w, out_h, outer);
    let region = outer_rect(out_w, out_h, outer);
    match tree {
        BinaryTree::Empty => {},
        BinaryTree::Window(w) => {
            assert(s == seq![(w.element, region)]);
            assert forall|px: int, py: int|
                in_rect(region, px, py) <==> #[trigger] covers(s, px, py) by {
                if in_rect(region, px, py) {
                    assert(in_rect(s[0].1, px, py));
                }
            }
        },
        BinaryTree::Split { split, left, right, .. } => {
            match *left {
                BinaryTree::Window(w) => {
                    lemma_partition_tiles(
                        *right,
                        w.element,
                        region,
                        split,
                        out_w - outer,
                        out_h - outer,
                    );
                },
                _ => {},
            }
        },
    }
}

/// Insertion preserves the spine shape the solver needs: a tree grown only
/// by insertion always has a window leaf as each split's left child.
pub proof fn lemma_insert_spine(t: BinaryTree, window: TiledHoloWindow)
    requires
        t is Empty || spine_ok(t),
    ensures
        spine_ok(spec_insert(t, window)),
    decreases t,
{
    match t {
        BinaryTree::Empty => {},
        BinaryTree::Window(_) => {
            assert(spine_ok(BinaryTree::Window(window)));
        },
        BinaryTree::Split { right, .. } => {
            lemma_insert_spine(*right, window);
        },
    }
}

/// The inner-gap law over the solver's own assignments: when two ungapped
/// extents of a partition lie side by side, the final rectangles — each
/// shrunk by the inner gap `g` — show a visible separation of exactly
/// `2 g` between their facing boundaries.
pub proof fn lemma_partition_gap_separation(s: Seq<(u64, GRect)>, g: int, i: int, j: int)
    requires
        0 <= i < s.len(),
        0 <= j < s.len(),
    ensures
        crate::geometry::adjacent_horizontal(s[i].1, s[j].1) ==> shrink(s[j].1, g).x - (shrink(
            s[i].1,
            g,
        ).x + shrink(s[i].1, g).w) == 2 * g,
        crate::geometry::adjacent_vertical(s[i].1, s[j].1) ==> shrink(s[j].1, g).y - (shrink(
            s[i].1,
            g,
        ).y + shrink(s[i].1, g).h) == 2 * g,
{
    if crate::geometry::adjacent_horizontal(s[i].1, s[j].1) {
        crate::geometry::lemma_gap_separation_horizontal(s[i].1, s[j].1, g);
    }
    if crate::geometry::adjacent_vertical(s[i].1, s[j].1) {
        crate::geometry::lemma_gap_separation_vertical(s[i].1, s[j].1, g);
    }
}

/// The overlap-freedom half of the tessellation theorem, with no
/// restriction on the tree's shape or on parity: whatever the partition
/// step assigns, every ungapped rectangle lies inside the anchor region
/// `lastgeo`, and no point lies in two of them. (Exact coverage of the
/// region additionally needs the insertion spine shape and exact halvings:
/// see `lemma_partition_tiles`.)
pub proof fn lemma_partition_no_overlap(
    tree: BinaryTree,
    anchor: u64,
    lastgeo: GRect,
    split: HorizontalOrVertical,
    cw: int,
    ch: int,
)
    requires
        lastgeo.w >= 0,
        lastgeo.h >= 0,
        lastgeo.x + lastgeo.w == cw,
        lastgeo.y + lastgeo.h == ch,
    ensures
        ({
            let s = spec_partition(tree, anchor, lastgeo, split, cw, ch);
            &&& forall|px: int, py: int| #[trigger] covers(s, px, py) ==> in_rect(
                lastgeo,
                px,
                py,
            )
            &&& forall|i: int, j: int, px: int, py: int|
                0 <= i < j < s.len() ==> !(#[trigger] in_rect(s[i].1, px, py)
                    && #[trigger] in_rect(s[j].1, px, py))
        }),
    decreases tree,
{
    let s = spec_partition(tree, anchor, lastgeo, split, cw, ch);
    let a = anchor_rect(lastgeo, split, cw, ch);
    let sib = sibling_rect(lastgeo, split, cw, ch);
    assert(forall|px: int, py: int|
        (in_rect(a, px, py) || #[trigger] in_rect(sib, px, py)) ==> in_rect(lastgeo, px, py));
    assert(forall|px: int, py: int|
        !(in_rect(a, px, py) && #[trigger] in_rect(sib, px, py)));
    match tree {
        BinaryTree::Empty => {
            assert forall|px: int, py: int| #[trigger] covers(s, px, py) implies in_rect(
                lastgeo,
                px,
                py,
            ) by {
                let i = choose|i: int| 0 <= i < s.len() && in_rect((#[trigger] s[i]).1, px, py);
                assert(i == 0);
            }
        },
        BinaryTree::Window(_) => {
            assert forall|px: int, py: int| #[trigger] covers(s, px, py) implies in_rect(
                lastgeo,
                px,
                py,
            ) by {
                let i = choose|i: int| 0 <= i < s.len() && in_rect((#[trigger] s[i]).1, px, py);
                assert(i == 0 || i == 1);
            }
        },
        BinaryTree::Split { split: s2, left, right, .. } => {
            match *left {
                BinaryTree::Window(w) => {
                    let tail = spec_partition(*right, w.element, sib, s2, cw, ch);
                    assert(s == seq![(anchor, a)] + tail);
                    lemma_partition_no_overlap(*right, w.element, sib, s2, cw, ch);
                    assert forall|px: int, py: int| #[trigger] covers(s, px, py) implies in_rect(
                        lastgeo,
                        px,
                        py,
                    ) by {
                        let i = choose|i: int| 0 <= i < s.len() && in_rect(
                            (#[trigger] s[i]).1,
                            px,
                            py,
                        );
                        if i == 0 {
                            assert(in_rect(a, px, py));
                        } else {
                            assert(in_rect(tail[i - 1].1, px, py));
                            assert(covers(tail, px, py));
                            assert(in_rect(sib, px, py));
                        }
                    }
                    assert forall|i: int, j: int, px: int, py: int|
                        0 <= i < j < s.len() implies !(#[trigger] in_rect(s[i].1, px, py)
                        && #[trigger] in_rect(s[j].1, px, py)) by {
                        if in_rect(s[i].1, px, py) && in_rect(s[j].1, px, py) {
                            if i == 0 {
                                assert(in_rect(a, px, py));
                                assert(in_rect(tail[j - 1].1, px, py));
                                assert(covers(tail, px, py));
                                assert(in_rect(sib, px, py));
                            } else {
                                assert(in_rect(tail[i - 1].1, px, py));
                                assert(in_rect(tail[j - 1].1, px, py));
                            }
                        }
                    }
                },
                _ => {
                    assert forall|px: int, py: int| #[trigger] covers(s, px, py) implies in_rect(
                        lastgeo,
                        px,
                        py,
                    ) by {
                        let i = choose|i: int| 0 <= i < s.len() && in_rect(
                            (#[trigger] s[i]).1,
                            px,
                            py,
                        );
                        assert(i == 0);
                    }
                },
            }
        },
    }
}

/// Overlap-freedom for a full recompute, with no restriction on the tree:
/// every ungapped extent lies inside the output area inset by the outer
/// gap, and no point lies in two of them.
pub proof fn lemma_recompute_no_overlap(tree: BinaryTree, out_w: int, out_h: int, outer: int)
    requires
        0 <= outer,
        2 * outer <= out_w,
        2 * outer <= out_h,
    ensures
        ({
            let s = ws_ungapped(tree, out_w, out_h, outer);
            let region = outer_rect(out_w, out_h, outer);
            &&& forall|px: int, py: int| #[trigger] covers(s, px, py) ==> in_rect(
                region,
                px,
                py,
            )
            &&& forall|i: int, j: int, px: int, py: int|
                0 <= i < j < s.len() ==> !(#[trigger] in_rect(s[i].1, px, py)
                    && #[trigger] in_rect(s[j].1, px, py))
        }),
{
    let s = ws_ungapped(tree, out_w, out_h, outer);
    let region = outer_rect(out_w, out_h, outer);
    match tree {
        BinaryTree::Empty => {},
        BinaryTree::Window(_) => {
            assert forall|px: int, py: int| #[trigger] covers(s, px, py) implies in_rect(
                region,
                px,
                py,
            ) by {
                let i = choose|i: int| 0 <= i < s.len() && in_rect((#[trigger] s[i]).1, px, py);
                assert(i == 0);
            }
        },
        BinaryTree::Split { split, left, right, .. } => {
            match *left {
                BinaryTree::Window(w) => {
                    lemma_partition_no_overlap(
                        *right,
                        w.element,
                        region,
                        split,
                        out_w - outer,
                        out_h - outer,
                    );
                },
                _ => {},
            }
        },
    }
}

} // verus!
