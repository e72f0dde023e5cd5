use holowm::binarytree::BinaryTree;
use holowm::binarytree::HorizontalOrVertical;
use holowm::binarytree::TiledHoloWindow;
use holowm::binarytree::DEFAULT_RATIO;
use holowm::geometry::Rect;
use holowm::tiling::bsp_layout;
use holowm::tiling::bsp_update_layout;
use holowm::tiling::generate_layout;
use holowm::tiling::LayoutError;
use holowm::tiling::WindowLayoutEvent;
use holowm::tiling::Workspace;

fn rect(x: i32, y: i32, w: i32, h: i32) -> Rect {
    Rect { x, y, w, h }
}

#[test]
fn no_output_means_no_layout() {
    let mut ws = Workspace::new();
    let r = bsp_layout(&mut ws, 1, WindowLayoutEvent::Added, (10, 5));
    assert_eq!(r, Err(LayoutError::NoOutputAvailable));
    assert_eq!(ws.current_rectangles(), vec![]);
    assert_eq!(ws.layout_tree, BinaryTree::Empty);
}

#[test]
fn single_window_takes_outer_inset() {
    // output 1920x1080, gaps (outer=10, inner=5): window A covers the whole
    // output inset by the outer gap alone
    let mut ws = Workspace::new();
    ws.add_output(1920, 1080);
    bsp_layout(&mut ws, 1, WindowLayoutEvent::Added, (10, 5)).unwrap();
    assert_eq!(ws.current_rectangles(), vec![(1, rect(10, 10, 1900, 1060))]);
}

#[test]
fn second_window_halves_with_inner_gaps() {
    // the horizontal split halves the inset area; both halves then shrink
    // by the inner gap of 5 on every side
    let mut ws = Workspace::new();
    ws.add_output(1920, 1080);
    bsp_layout(&mut ws, 1, WindowLayoutEvent::Added, (10, 5)).unwrap();
    bsp_layout(&mut ws, 2, WindowLayoutEvent::Added, (10, 5)).unwrap();
    assert_eq!(
        ws.current_rectangles(),
        vec![(1, rect(15, 15, 940, 1050)), (2, rect(965, 15, 940, 1050))]
    );
}

#[test]
fn three_windows_tile_without_gaps() {
    // with zero gaps the ungapped extents are the final rectangles: the
    // three leaves tessellate the whole output exactly
    let mut ws = Workspace::new();
    ws.add_output(1920, 1080);
    for id in 1..4u64 {
        bsp_layout(&mut ws, id, WindowLayoutEvent::Added, (0, 0)).unwrap();
    }
    let rects = ws.current_rectangles();
    assert_eq!(
        rects,
        vec![
            (1, rect(0, 0, 960, 1080)),
            (2, rect(960, 0, 480, 1080)),
            (3, rect(1440, 0, 480, 1080)),
        ]
    );
    let area: i64 = rects.iter().map(|(_, r)| r.w as i64 * r.h as i64).sum();
    assert_eq!(area, 1920 * 1080);
}

#[test]
fn inner_gap_separates_neighbours_by_twice_the_gap() {
    let mut ws = Workspace::new();
    ws.add_output(1920, 1080);
    bsp_layout(&mut ws, 1, WindowLayoutEvent::Added, (10, 5)).unwrap();
    bsp_layout(&mut ws, 2, WindowLayoutEvent::Added, (10, 5)).unwrap();
    let rects = ws.current_rectangles();
    let a = rects[0].1;
    let b = rects[1].1;
    assert_eq!(b.x - (a.x + a.w), 2 * 5);
}

#[test]
fn recompute_is_idempotent() {
    let mut ws = Workspace::new();
    ws.add_output(1920, 1080);
    bsp_layout(&mut ws, 1, WindowLayoutEvent::Added, (10, 5)).unwrap();
    bsp_layout(&mut ws, 2, WindowLayoutEvent::Added, (10, 5)).unwrap();
    bsp_update_layout(&mut ws, (10, 5));
    let once = ws.current_rectangles();
    let tree_once = ws.layout_tree.clone();
    bsp_update_layout(&mut ws, (10, 5));
    assert_eq!(ws.current_rectangles(), once);
    assert_eq!(ws.layout_tree, tree_once);
}

#[test]
fn resized_recomputes_without_mutating_tree() {
    let mut ws = Workspace::new();
    ws.add_output(1920, 1080);
    bsp_layout(&mut ws, 1, WindowLayoutEvent::Added, (10, 5)).unwrap();
    let tree_before = ws.layout_tree.clone();
    ws.add_output(1280, 720);
    bsp_layout(&mut ws, 1, WindowLayoutEvent::Resized, (10, 5)).unwrap();
    assert_eq!(ws.layout_tree, tree_before);
    assert_eq!(ws.current_rectangles(), vec![(1, rect(10, 10, 1260, 700))]);
}

#[test]
fn remove_only_window_leaves_empty_workspace() {
    let mut ws = Workspace::new();
    ws.add_output(1920, 1080);
    bsp_layout(&mut ws, 1, WindowLayoutEvent::Added, (10, 5)).unwrap();
    bsp_layout(&mut ws, 1, WindowLayoutEvent::Removed, (10, 5)).unwrap();
    assert_eq!(ws.layout_tree, BinaryTree::Empty);
    assert_eq!(ws.current_rectangles(), vec![]);
}

#[test]
fn remove_untracked_window_changes_nothing() {
    let mut ws = Workspace::new();
    ws.add_output(1920, 1080);
    bsp_layout(&mut ws, 1, WindowLayoutEvent::Added, (10, 5)).unwrap();
    let tree_before = ws.layout_tree.clone();
    let rects_before = ws.current_rectangles();
    bsp_layout(&mut ws, 42, WindowLayoutEvent::Removed, (10, 5)).unwrap();
    assert_eq!(ws.layout_tree, tree_before);
    assert_eq!(ws.current_rectangles(), rects_before);
}

#[test]
fn removed_sibling_hands_nothing_back() {
    // removing the left window of the first split leaves a stale Empty
    // child: the solver skips the broken root split, so the survivor keeps
    // its last rectangle
    let mut ws = Workspace::new();
    ws.add_output(1920, 1080);
    bsp_layout(&mut ws, 1, WindowLayoutEvent::Added, (10, 5)).unwrap();
    bsp_layout(&mut ws, 2, WindowLayoutEvent::Added, (10, 5)).unwrap();
    bsp_layout(&mut ws, 1, WindowLayoutEvent::Removed, (10, 5)).unwrap();
    assert_eq!(ws.current_rectangles(), vec![(2, rect(965, 15, 940, 1050))]);
    assert!(ws.has_window(2));
    assert!(!ws.has_window(1));
}

#[test]
fn generate_layout_assigns_anchor_and_leaf() {
    let anchor_id = 1u64;
    let leaf = BinaryTree::Window(TiledHoloWindow {
        element: 2,
        split: HorizontalOrVertical::Horizontal,
        ratio: DEFAULT_RATIO,
    });
    let assigns = generate_layout(
        &leaf,
        anchor_id,
        rect(0, 0, 1000, 600),
        HorizontalOrVertical::Vertical,
        DEFAULT_RATIO,
        1000,
        600,
        (0, 4),
    );
    // a vertical split halves the height, the anchor keeping the top half;
    // each half then loses 4 per side to the inner gap
    assert_eq!(
        assigns,
        vec![(1, rect(4, 4, 992, 292)), (2, rect(4, 304, 992, 292))]
    );
}

#[test]
fn vertical_then_horizontal_windmill() {
    // a horizontal root split and a vertical second split: each successive
    // window claims half of the remaining space, windmill-style
    let third = TiledHoloWindow {
        element: 3,
        split: HorizontalOrVertical::Horizontal,
        ratio: DEFAULT_RATIO,
    };
    let tree = BinaryTree::Split {
        split: HorizontalOrVertical::Vertical,
        ratio: DEFAULT_RATIO,
        left: Box::new(BinaryTree::Window(TiledHoloWindow {
            element: 2,
            split: HorizontalOrVertical::Vertical,
            ratio: DEFAULT_RATIO,
        })),
        right: Box::new(BinaryTree::Window(third)),
    };
    let assigns = generate_layout(
        &tree,
        1,
        rect(0, 0, 1000, 600),
        HorizontalOrVertical::Horizontal,
        DEFAULT_RATIO,
        1000,
        600,
        (0, 0),
    );
    assert_eq!(
        assigns,
        vec![
            (1, rect(0, 0, 500, 600)),
            (2, rect(500, 0, 500, 300)),
            (3, rect(500, 300, 500, 300)),
        ]
    );
}

#[test]
fn four_windows_stack_rightward() {
    // with every record at the horizontal default, each new window claims
    // half of the rightmost remaining column
    let mut ws = Workspace::new();
    ws.add_output(1600, 900);
    for id in 1..5u64 {
        bsp_layout(&mut ws, id, WindowLayoutEvent::Added, (0, 0)).unwrap();
    }
    assert_eq!(
        ws.current_rectangles(),
        vec![
            (1, rect(0, 0, 800, 900)),
            (2, rect(800, 0, 400, 900)),
            (3, rect(1200, 0, 200, 900)),
            (4, rect(1400, 0, 200, 900)),
        ]
    );
}

#[test]
fn odd_width_leaves_one_pixel_column() {
    // integer halving of an odd width loses one pixel between the halves:
    // the tessellation is exact only when every halved dimension is even
    let mut ws = Workspace::new();
    ws.add_output(1921, 1080);
    bsp_layout(&mut ws, 1, WindowLayoutEvent::Added, (0, 0)).unwrap();
    bsp_layout(&mut ws, 2, WindowLayoutEvent::Added, (0, 0)).unwrap();
    assert_eq!(
        ws.current_rectangles(),
        vec![(1, rect(0, 0, 960, 1080)), (2, rect(961, 0, 960, 1080))]
    );
}
