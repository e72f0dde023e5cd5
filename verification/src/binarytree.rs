//! The layout tree: a binary tree whose leaves are tiled windows and whose
//! internal nodes are splits, together with the insertion and removal policy.

use vstd::prelude::*;

verus! {

/// A split orientation: `Horizontal` divides the width, `Vertical` divides
/// the height.
#[derive(Clone, Copy, Debug, PartialEq, Eq, Structural)]
pub enum HorizontalOrVertical {
    Horizontal,
    Vertical,
}

/// Split ratios are stored in permille; this is the even 50/50 default used
/// for a freshly created split.
pub const DEFAULT_RATIO: u32 = 500;

/// A leaf record: the handle of the window it holds, plus the orientation
/// and ratio (in permille, exclusive between 0 and 1000) to apply to the
/// next split involving this leaf.
#[derive(Clone, Copy, Debug, PartialEq, Eq, Structural)]
pub struct TiledHoloWindow {
    pub element: u64,
    pub split: HorizontalOrVertical,
    pub ratio: u32,
}

/// The layout tree. `Empty` holds no window, `Window` exactly one; `Split`
/// divides space between its two children along the stored orientation.
#[derive(Debug, PartialEq)]
pub enum BinaryTree {
    Empty,
    Window(TiledHoloWindow),
    Split {
        split: HorizontalOrVertical,
        ratio: u32,
        left: Box<BinaryTree>,
        right: Box<BinaryTree>,
    },
}

/// The tree `insert` produces: an empty tree becomes a leaf; a leaf splits
/// in place, keeping itself on the left and taking the newcomer on the
/// right, under the orientation and ratio the existing leaf carried; a split
/// recurses into its right child only, so the newest window always lands at
/// the rightmost leaf.
pub open spec fn spec_insert(t: BinaryTree, window: TiledHoloWindow) -> BinaryTree
    decreases t,
{
    match t {
        BinaryTree::Empty => BinaryTree::Window(window),
        BinaryTree::Window(w) => BinaryTree::Split {
            split: w.split,
            ratio: w.ratio,
            left: Box::new(BinaryTree::Window(w)),
            right: Box::new(BinaryTree::Window(window)),
        },
        BinaryTree::Split { split, ratio, left, right } => BinaryTree::Split {
            split,
            ratio,
            left,
            right: Box::new(spec_insert(*right, window)),
        },
    }
}

/// The tree `remove` produces: every leaf holding `window` becomes `Empty`;
/// split nodes are never collapsed when a child empties.
pub open spec fn spec_remove(t: BinaryTree, window: u64) -> BinaryTree
    decreases t,
{
    match t {
        BinaryTree::Empty => BinaryTree::Empty,
        BinaryTree::Window(w) => if w.element == window {
            BinaryTree::Empty
        } else {
            BinaryTree::Window(w)
        },
        BinaryTree::Split { split, ratio, left, right } => BinaryTree::Split {
            split,
            ratio,
            left: Box::new(spec_remove(*left, window)),
            right: Box::new(spec_remove(*right, window)),
        },
    }
}

/// The record of the rightmost non-empty leaf: the right subtree's answer
/// is preferred, the left subtree's is the fallback.
pub open spec fn spec_last(t: BinaryTree) -> Option<TiledHoloWindow>
    decreases t,
{
    match t {
        BinaryTree::Empty => None,
        BinaryTree::Window(w) => Some(w),
        BinaryTree::Split { left, right, .. } => match spec_last(*right) {
            Some(w) => Some(w),
            None => spec_last(*left),
        },
    }
}

/// Whether some leaf of `t` holds the window `window`.
pub open spec fn contains_window(t: BinaryTree, window: u64) -> bool
    decreases t,
{
    match t {
        BinaryTree::Empty => false,
        BinaryTree::Window(w) => w.element == window,
        BinaryTree::Split { left, right, .. } => contains_window(*left, window)
            || contains_window(*right, window),
    }
}

/// The number of leaves (windows) in `t`.
pub open spec fn count_leaves(t: BinaryTree) -> nat
    decreases t,
{
    match t {
        BinaryTree::Empty => 0,
        BinaryTree::Window(_) => 1,
        BinaryTree::Split { left, right, .. } => count_leaves(*left) + count_leaves(*right),
    }
}

/// The number of split nodes in `t`.
pub open spec fn count_splits(t: BinaryTree) -> nat
    decreases t,
{
    match t {
        BinaryTree::Empty => 0,
        BinaryTree::Window(_) => 0,
        BinaryTree::Split { left, right, .. } => 1 + count_splits(*left) + count_splits(*right),
    }
}

impl BinaryTree {
    /// A tree with no windows.
    pub fn new() -> (r: Self)
        ensures
            r == BinaryTree::Empty,
    {
        BinaryTree::Empty
    }

    /// Insert `window` as the rightmost leaf.
    pub fn insert(&mut self, window: TiledHoloWindow)
        ensures
            *final(self) == spec_insert(*old(self), window),
        decreases *old(self),
    {
        match self {
            BinaryTree::Empty => {
                *self = BinaryTree::Window(window);
            },
            BinaryTree::Window(w) => {
                let existing = *w;
                *self = BinaryTree::Split {
                    split: existing.split,
                    ratio: existing.ratio,
                    left: Box::new(BinaryTree::Window(existing)),
                    right: Box::new(BinaryTree::Window(window)),
                };
            },
            BinaryTree::Split { left: _, right, .. } => {
                right.insert(window);
            },
        }
    }

    /// Replace every leaf holding `window` with `Empty`. Removing a window
    /// that is not present leaves the tree unchanged (see
    /// `lemma_remove_absent_is_noop`).
    pub fn remove(&mut self, window: u64)
        ensures
            *final(self) == spec_remove(*old(self), window),
        decreases *old(self),
    {
        match self {
            BinaryTree::Empty => {},
            BinaryTree::Window(w) => {
                if w.element == window {
                    *self = BinaryTree::Empty;
                }
            },
            BinaryTree::Split { left, right, .. } => {
                left.remove(window);
                right.remove(window);
            },
        }
    }

    /// The record of the rightmost non-empty leaf, used by the solver as
    /// the geometric anchor of the most recent insertion.
    pub fn last(&self) -> (r: Option<TiledHoloWindow>)
        ensures
            r == spec_last(*self),
        decreases *self,
    {
        match self {
            BinaryTree::Empty => None,
            BinaryTree::Window(w) => Some(*w),
            BinaryTree::Split { left, right, .. } => match right.last() {
                Some(w) => Some(w),
                None => left.last(),
            },
        }
    }

    /// The number of windows in the tree.
    pub fn len(&self) -> (r: usize)
        requires
            count_leaves(*self) <= usize::MAX,
        ensures
            r == count_leaves(*self),
        decreases *self,
    {
        match self {
            BinaryTree::Empty => 0,
            BinaryTree::Window(_) => 1,
            BinaryTree::Split { left, right, .. } => {
                proof {
                    lemma_count_leaves_nonneg(**left);
                    lemma_count_leaves_nonneg(**right);
                }
                left.len() + right.len()
            },
        }
    }
}

impl Clone for BinaryTree {
    /// A structurally equal copy of the tree.
    fn clone(&self) -> (r: Self)
        ensures
            r == *self,
        decreases *self,
    {
        match self {
            BinaryTree::Empty => BinaryTree::Empty,
            BinaryTree::Window(w) => BinaryTree::Window(*w),
            BinaryTree::Split { split, ratio, left, right } => BinaryTree::Split {
                split: *split,
                ratio: *ratio,
                left: Box::new((**left).clone()),
                right: Box::new((**right).clone()),
            },
        }
    }
}

proof fn lemma_count_leaves_nonneg(t: BinaryTree)
    ensures
        count_leaves(t) >= 0,
{
}

/// No subtree of `t` is a stale `Empty` placeholder: every branch ends in a
/// window. Trees grown purely by insertion satisfy this; removal can break
/// it.
pub open spec fn no_empty(t: BinaryTree) -> bool
    decreases t,
{
    match t {
        BinaryTree::Empty => false,
        BinaryTree::Window(_) => true,
        BinaryTree::Split { left, right, .. } => no_empty(*left) && no_empty(*right),
    }
}

/// Insertion into an empty tree or one free of stale `Empty` placeholders
/// adds exactly one leaf, and adds one split node unless the tree was
/// empty; the result is again free of stale placeholders. (With a stale
/// `Empty` in the rightmost position, insertion fills it without creating
/// a new split, so that input is left out.)
pub proof fn lemma_insert_counts(t: BinaryTree, window: TiledHoloWindow)
    requires
        t is Empty || no_empty(t),
    ensures
        count_leaves(spec_insert(t, window)) == count_leaves(t) + 1,
        count_splits(spec_insert(t, window)) == count_splits(t)
            + if t is Empty { 0int } else { 1int },
        no_empty(spec_insert(t, window)),
    decreases t,
{
    match t {
        BinaryTree::Empty => {},
        BinaryTree::Window(_) => {
            assert(count_leaves(BinaryTree::Window(window)) == 1);
            assert(count_splits(BinaryTree::Window(window)) == 0);
            assert(no_empty(BinaryTree::Window(window)));
        },
        BinaryTree::Split { left, right, .. } => {
            assert(no_empty(*right));
            assert(!(*right is Empty));
            lemma_insert_counts(*right, window);
        },
    }
}

/// The tree built by inserting the records of `ws` in order into an empty
/// tree.
pub open spec fn spec_build(ws: Seq<TiledHoloWindow>) -> BinaryTree
    decreases ws.len(),
{
    if ws.len() == 0 {
        BinaryTree::Empty
    } else {
        spec_insert(spec_build(ws.drop_last()), ws.last())
    }
}

/// For every sequence of added windows of length `N`, the tree built from
/// it has exactly `N` leaves, and `N - 1` split nodes when `N >= 1` (zero
/// nodes when `N == 0`).
pub proof fn lemma_build_counts(ws: Seq<TiledHoloWindow>)
    ensures
        count_leaves(spec_build(ws)) == ws.len(),
        ws.len() == 0 ==> spec_build(ws) == BinaryTree::Empty,
        ws.len() >= 1 ==> count_splits(spec_build(ws)) == ws.len() - 1,
        ws.len() >= 1 ==> no_empty(spec_build(ws)),
    decreases ws.len(),
{
    if ws.len() == 0 {
    } else {
        lemma_build_counts(ws.drop_last());
        lemma_insert_counts(spec_build(ws.drop_last()), ws.last());
        if ws.len() == 1 {
            assert(spec_build(ws.drop_last()) == BinaryTree::Empty);
        } else {
            assert(count_leaves(spec_build(ws.drop_last())) == ws.len() - 1);
            assert(!(spec_build(ws.drop_last()) is Empty));
        }
    }
}

/// Insertion determinism: the freshly inserted window is always the
/// rightmost leaf of the resulting tree, whatever tree it was inserted
/// into.
pub proof fn lemma_insert_rightmost(t: BinaryTree, window: TiledHoloWindow)
    ensures
        spec_last(spec_insert(t, window)) == Some(window),
    decreases t,
{
    match t {
        BinaryTree::Empty => {},
        BinaryTree::Window(_) => {
            assert(spec_last(BinaryTree::Window(window)) == Some(window));
        },
        BinaryTree::Split { right, .. } => {
            lemma_insert_rightmost(*right, window);
        },
    }
}

/// Removing a window that no leaf holds leaves the tree structurally
/// unchanged.
pub proof fn lemma_remove_absent_is_noop(t: BinaryTree, window: u64)
    requires
        !contains_window(t, window),
    ensures
        spec_remove(t, window) == t,
    decreases t,
{
    match t {
        BinaryTree::Empty => {},
        BinaryTree::Window(_) => {},
        BinaryTree::Split { split, ratio, left, right } => {
            lemma_remove_absent_is_noop(*left, window);
            lemma_remove_absent_is_noop(*right, window);
            assert(spec_remove(t, window) == BinaryTree::Split {
                split,
                ratio,
                left: Box::new(spec_remove(*left, window)),
                right: Box::new(spec_remove(*right, window)),
            });
        },
    }
}


/// The handle-uniqueness invariant of the tree: no window handle appears in
/// more than one leaf.
pub open spec fn tree_distinct(t: BinaryTree) -> bool
    decreases t,
{
    match t {
        BinaryTree::Empty => true,
        BinaryTree::Window(_) => true,
        BinaryTree::Split { left, right, .. } => tree_distinct(*left) && tree_distinct(*right)
            && forall|id: u64| !(#[trigger] contains_window(*left, id) && contains_window(
            *right,
            id,
        )),
    }
}

/// A leaf of the tree after an insertion holds `id` exactly when one held it
/// before or `id` is the inserted window's handle.
pub proof fn lemma_insert_contains(t: BinaryTree, window: TiledHoloWindow, id: u64)
    ensures
        contains_window(spec_insert(t, window), id) <==> (contains_window(t, id) || id
            == window.element),
    decreases t,
{
    match t {
        BinaryTree::Empty => {},
        BinaryTree::Window(w0) => {
            assert(contains_window(BinaryTree::Window(w0), id) == (w0.element == id));
            assert(contains_window(BinaryTree::Window(window), id) == (window.element == id));
        },
        BinaryTree::Split { right, .. } => {
            lemma_insert_contains(*right, window, id);
        },
    }
}

/// Inserting a window whose handle is not yet in the tree preserves the
/// handle-uniqueness invariant.
pub proof fn lemma_insert_distinct(t: BinaryTree, window: TiledHoloWindow)
    requires
        tree_distinct(t),
        !contains_window(t, window.element),
    ensures
        tree_distinct(spec_insert(t, window)),
    decreases t,
{
    match t {
        BinaryTree::Empty => {},
        BinaryTree::Window(w0) => {
            assert forall|id: u64| !(#[trigger] contains_window(BinaryTree::Window(w0), id)
                && contains_window(BinaryTree::Window(window), id)) by {
                assert(contains_window(BinaryTree::Window(w0), id) == (w0.element == id));
                assert(contains_window(BinaryTree::Window(window), id) == (window.element
                    == id));
            }
            assert(tree_distinct(BinaryTree::Window(w0)));
            assert(tree_distinct(BinaryTree::Window(window)));
        },
        BinaryTree::Split { split, ratio, left, right } => {
            lemma_insert_distinct(*right, window);
            assert forall|id: u64| !(#[trigger] contains_window(*left, id) && contains_window(
                spec_insert(*right, window),
                id,
            )) by {
                lemma_insert_contains(*right, window, id);
            }
        },
    }
}

/// A leaf of the tree after a removal holds `id` exactly when one held it
/// before and `id` is not the removed handle.
pub proof fn lemma_remove_contains(t: BinaryTree, window: u64, id: u64)
    ensures
        contains_window(spec_remove(t, window), id) <==> (contains_window(t, id) && id
            != window),
    decreases t,
{
    match t {
        BinaryTree::Empty => {},
        BinaryTree::Window(_) => {},
        BinaryTree::Split { left, right, .. } => {
            lemma_remove_contains(*left, window, id);
            lemma_remove_contains(*right, window, id);
        },
    }
}

/// Removal preserves the handle-uniqueness invariant.
pub proof fn lemma_remove_distinct(t: BinaryTree, window: u64)
    requires
        tree_distinct(t),
    ensures
        tree_distinct(spec_remove(t, window)),
    decreases t,
{
    match t {
        BinaryTree::Empty => {},
        BinaryTree::Window(_) => {},
        BinaryTree::Split { left, right, .. } => {
            lemma_remove_distinct(*left, window);
            lemma_remove_distinct(*right, window);
            assert forall|id: u64| !(#[trigger] contains_window(spec_remove(*left, window), id)
                && contains_window(spec_remove(*right, window), id)) by {
                lemma_remove_contains(*left, window, id);
                lemma_remove_contains(*right, window, id);
            }
        },
    }
}

/// After a removal no leaf holds the removed window.
pub proof fn lemma_remove_removes(t: BinaryTree, window: u64)
    ensures
        !contains_window(spec_remove(t, window), window),
    decreases t,
{
    match t {
        BinaryTree::Empty => {},
        BinaryTree::Window(_) => {},
        BinaryTree::Split { left, right, .. } => {
            lemma_remove_removes(*left, window);
            lemma_remove_removes(*right, window);
        },
    }
}

} // verus!
