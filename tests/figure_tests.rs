use sumdoku::board::Cell;
use sumdoku::figure::{Edge, Figure, Line, LineLocation, Point};

#[test]
fn point_new_and_padding() {
    let mut p = Point::new(10, 20);
    assert_eq!((p.x, p.y, p.h, p.v), (10, 20, 0, 0));
    p.apply_padding(5);
    assert_eq!((p.x, p.y), (10, 20));
    p.h = 1;
    p.v = -1;
    p.apply_padding(5);
    assert_eq!((p.x, p.y), (5, 25));
    p.h = 2;
    p.v = 3;
    p.apply_padding(-2);
    assert_eq!((p.x, p.y), (-1, 21));
}

#[test]
fn figures_and_edges_compare() {
    let lines = vec![Line { x1: 10, y1: 10, x2: 20, y2: 10, loc: LineLocation::Top }];
    assert!(Figure::from_lines(10, 2, &lines) == Figure::from_lines(10, 2, &lines));
    let e = Edge::from_line(&lines[0]);
    assert!(e == Edge::from_line(&lines[0]));
}

#[test]
fn points_compare_by_position() {
    let mut a = Point::new(3, 4);
    let b = Point::new(3, 4);
    a.h = 1;
    assert!(a == b);
    assert!(a != Point::new(4, 3));
}

#[test]
fn line_new_vertical_and_horizontal() {
    let top = Line::new(80, 2, 2, 1, true, true);
    assert_eq!((top.x1, top.y1, top.x2, top.y2, top.loc), (80, 160, 80, 240, LineLocation::Top));
    let bottom = Line::new(80, 2, 2, 1, true, false);
    assert_eq!((bottom.x1, bottom.y1, bottom.x2, bottom.y2, bottom.loc), (160, 160, 160, 240, LineLocation::Bottom));
    let left = Line::new(80, 0, 1, 3, false, true);
    assert_eq!((left.x1, left.y1, left.x2, left.y2, left.loc), (0, 240, 160, 240, LineLocation::Left));
    let right = Line::new(80, 0, 1, 3, false, false);
    assert_eq!((right.x1, right.y1, right.x2, right.y2, right.loc), (0, 320, 160, 320, LineLocation::Right));
}

#[test]
fn lines_of_a_cell() {
    let lines = Line::from_cell(10, &Cell::new(1, 2));
    assert_eq!(lines.len(), 4);
    assert!(lines[0] == Line { x1: 10, y1: 20, x2: 10, y2: 30, loc: LineLocation::Top });
    assert!(lines[1] == Line { x1: 20, y1: 20, x2: 20, y2: 30, loc: LineLocation::Bottom });
    assert!(lines[2] == Line { x1: 10, y1: 20, x2: 20, y2: 20, loc: LineLocation::Left });
    assert!(lines[3] == Line { x1: 10, y1: 30, x2: 20, y2: 30, loc: LineLocation::Right });
    assert_eq!(lines[2].loc, LineLocation::Left);
}

#[test]
fn connection_and_merge() {
    let a = Line { x1: 0, y1: 0, x2: 10, y2: 0, loc: LineLocation::Top };
    let b = Line { x1: 10, y1: 0, x2: 20, y2: 0, loc: LineLocation::Bottom };
    assert_eq!(a.is_connected(&b), Some((0, 0, 20, 0)));
    assert_eq!(b.is_connected(&a), Some((20, 0, 0, 0)));
    let m = a.merge(&b).unwrap();
    assert_eq!((m.x1, m.y1, m.x2, m.y2, m.loc), (0, 0, 20, 0, LineLocation::Top));
    let c = Line { x1: 10, y1: 0, x2: 10, y2: 10, loc: LineLocation::Left };
    assert_eq!(a.is_connected(&c), Some((0, 0, 10, 10)));
    assert!(a.merge(&c).is_none());
    let d = Line { x1: 30, y1: 30, x2: 40, y2: 30, loc: LineLocation::Left };
    assert_eq!(a.is_connected(&d), None);
    assert!(a.merge(&d).is_none());
}

#[test]
fn edge_from_line() {
    let l = Line { x1: 10, y1: 20, x2: 10, y2: 30, loc: LineLocation::Left };
    let e = Edge::from_line(&l);
    assert_eq!((e.start.x, e.start.y, e.end.x, e.end.y), (10, 20, 10, 30));
    assert_eq!((e.h, e.v, e.x, e.y), (0, 1, 10, 0));
    let t = Edge::from_line(&Line { x1: 0, y1: 5, x2: 10, y2: 5, loc: LineLocation::Top });
    assert_eq!((t.h, t.v, t.x, t.y), (1, 0, 0, 5));
}

#[test]
fn figure_of_a_cell_is_padded_inwards() {
    let lines = vec![
        Line { x1: 10, y1: 10, x2: 20, y2: 10, loc: LineLocation::Top },
        Line { x1: 10, y1: 10, x2: 10, y2: 20, loc: LineLocation::Left },
    ];
    let f = Figure::from_lines(10, 2, &lines);
    assert_eq!(f.edges.len(), 2);
    // the shared corner (10, 10) is a top-left corner: moved by 2 in both directions
    let top = &f.edges[0];
    assert_eq!((top.start.x, top.start.y), (12, 12));
    assert_eq!((top.end.x, top.end.y), (20, 12));
    let left = &f.edges[1];
    assert_eq!((left.start.x, left.start.y), (12, 12));
    assert_eq!((left.end.x, left.end.y), (12, 20));
}

#[test]
fn corner_names() {
    let mut p = Point::new(0, 0);
    assert_eq!(p.str_corner(), "");
    p.h = 1;
    p.v = 1;
    assert_eq!(p.str_corner(), "top-left");
    p.h = -1;
    p.v = -1;
    assert_eq!(p.str_corner(), "bootom-right");
    p.h = 0;
    assert_eq!(p.str_corner(), "right");
    p.h = -1;
    p.v = 0;
    assert_eq!(p.str_corner(), "bootom");
}
