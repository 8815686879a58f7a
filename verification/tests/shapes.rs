// Shape drawing tools and the topology of their line chains.

use doombuilder::shapes::{
    adjust_draw_param, grid_links, polyline_links, shape_click, DrawTool, ShapeCommit, ShapeStep,
};

type P = (i32, i32);

#[test]
fn rectangle_takes_two_corners() {
    let mut t: DrawTool<P> = DrawTool::Rectangle { origin: None, bevel: 0 };
    assert_eq!(shape_click(&mut t, (0, 0)), ShapeStep::Origin);
    assert_eq!(t, DrawTool::Rectangle { origin: Some((0, 0)), bevel: 0 });
    adjust_draw_param(&mut t, 1);
    assert_eq!(
        shape_click(&mut t, (64, 32)),
        ShapeStep::Commit(ShapeCommit::Rectangle { a: (0, 0), b: (64, 32), bevel: 1 })
    );
}

#[test]
fn curve_takes_start_end_then_control() {
    let mut t: DrawTool<P> = DrawTool::Curve { points: Vec::new(), subdivisions: 12 };
    assert_eq!(shape_click(&mut t, (0, 0)), ShapeStep::CurvePoint(1));
    assert_eq!(shape_click(&mut t, (100, 0)), ShapeStep::CurvePoint(2));
    assert_eq!(
        shape_click(&mut t, (50, 40)),
        ShapeStep::Commit(ShapeCommit::Curve { start: (0, 0), end: (100, 0), control: (50, 40), subdivisions: 12 })
    );
}

#[test]
fn grid_and_free_clicks() {
    let mut g: DrawTool<P> = DrawTool::Grid { origin: Some((0, 0)), cols: 0, rows: 3 };
    assert_eq!(
        shape_click(&mut g, (10, 10)),
        ShapeStep::Commit(ShapeCommit::Grid { a: (0, 0), b: (10, 10), cols: 1, rows: 3 })
    );
    let mut f: DrawTool<P> = DrawTool::Free;
    assert_eq!(shape_click(&mut f, (1, 1)), ShapeStep::Nothing);
    assert_eq!(f, DrawTool::Free);
}

#[test]
fn draw_params_are_clamped() {
    let mut r: DrawTool<P> = DrawTool::Rectangle { origin: None, bevel: 0 };
    adjust_draw_param(&mut r, -1);
    assert_eq!(r, DrawTool::Rectangle { origin: None, bevel: 0 });
    let mut r: DrawTool<P> = DrawTool::Rectangle { origin: None, bevel: 64 };
    adjust_draw_param(&mut r, 1);
    assert_eq!(r, DrawTool::Rectangle { origin: None, bevel: 64 });
    let mut e: DrawTool<P> = DrawTool::Ellipse { origin: None, subdivisions: 4 };
    adjust_draw_param(&mut e, -1);
    assert_eq!(e, DrawTool::Ellipse { origin: None, subdivisions: 4 });
    adjust_draw_param(&mut e, 1);
    assert_eq!(e, DrawTool::Ellipse { origin: None, subdivisions: 5 });
    let mut c: DrawTool<P> = DrawTool::Curve { points: Vec::new(), subdivisions: 2 };
    adjust_draw_param(&mut c, -1);
    assert_eq!(c, DrawTool::Curve { points: Vec::new(), subdivisions: 2 });
    let mut g: DrawTool<P> = DrawTool::Grid { origin: None, cols: 4, rows: 1 };
    adjust_draw_param(&mut g, -1);
    assert_eq!(g, DrawTool::Grid { origin: None, cols: 3, rows: 1 });
    let mut g: DrawTool<P> = DrawTool::Grid { origin: None, cols: 64, rows: 63 };
    adjust_draw_param(&mut g, 1);
    assert_eq!(g, DrawTool::Grid { origin: None, cols: 64, rows: 64 });
}

#[test]
fn polyline_links_close_the_loop() {
    assert_eq!(polyline_links(4, true), vec![(0, 1), (1, 2), (2, 3), (3, 0)]);
    assert_eq!(polyline_links(4, false), vec![(0, 1), (1, 2), (2, 3)]);
    assert_eq!(polyline_links(1, false), vec![]);
    assert_eq!(polyline_links(0, true), vec![]);
}

#[test]
fn grid_links_count_and_layout() {
    let links = grid_links(2, 1);
    // 3 x 2 points: rows first, then columns.
    assert_eq!(links, vec![(0, 1), (1, 2), (3, 4), (4, 5), (0, 3), (1, 4), (2, 5)]);
    for (c, r) in [(1usize, 1usize), (4, 4), (3, 7), (64, 64)] {
        let l = grid_links(c, r);
        assert_eq!(l.len(), (c + 1) * r + (r + 1) * c);
        assert!(l.iter().all(|&(a, b)| a < (c + 1) * (r + 1) && b < (c + 1) * (r + 1)));
    }
}
