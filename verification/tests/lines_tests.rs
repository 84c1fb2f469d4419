use bingo::lines::{Line, Point};

#[test]
fn point_reads_two_fields() {
    assert_eq!(Point::from_string("1,2"), Some(Point { x: 1, y: 2 }));
    assert_eq!(Point::from_string("804,30"), Some(Point { x: 804, y: 30 }));
}

#[test]
fn point_ignores_fields_past_the_second() {
    assert_eq!(Point::from_string("1,2,9"), Some(Point { x: 1, y: 2 }));
}

#[test]
fn point_rejects_bad_text() {
    assert_eq!(Point::from_string("1"), None);
    assert_eq!(Point::from_string("a,2"), None);
    assert_eq!(Point::from_string("1,"), None);
    assert_eq!(Point::from_string(""), None);
}

#[test]
fn line_reads_two_points() {
    let l = Line::from_string("0,9 -> 5,9").unwrap();
    assert_eq!(l.start, Point { x: 0, y: 9 });
    assert_eq!(l.end, Point { x: 5, y: 9 });
    assert!(l.is_horizontal());
    assert!(!l.is_vertical());
}

#[test]
fn line_rejects_bad_text() {
    assert_eq!(Line::from_string("0,9 - 5,9"), None);
    assert_eq!(Line::from_string("0,9"), None);
    assert_eq!(Line::from_string("0,9 -> x,9"), None);
}

#[test]
fn vertical_line_is_detected() {
    let l = Line::from_string("2,1 -> 2,9").unwrap();
    assert!(l.is_vertical());
    assert!(!l.is_horizontal());
}

#[test]
fn horizontal_points_run_left_to_right() {
    let l = Line::from_string("9,7 -> 7,7").unwrap();
    let ps = l.points();
    assert_eq!(ps, vec![Point { x: 7, y: 7 }, Point { x: 8, y: 7 }, Point { x: 9, y: 7 }]);
}

#[test]
fn vertical_points_run_top_to_bottom() {
    let l = Line::from_string("1,3 -> 1,1").unwrap();
    let ps = l.points();
    assert_eq!(ps, vec![Point { x: 1, y: 1 }, Point { x: 1, y: 2 }, Point { x: 1, y: 3 }]);
}

#[test]
fn diagonal_points_run_from_start_to_end() {
    let l = Line::from_string("9,7 -> 7,9").unwrap();
    let ps = l.points();
    assert_eq!(ps, vec![Point { x: 9, y: 7 }, Point { x: 8, y: 8 }, Point { x: 7, y: 9 }]);
}

#[test]
fn rising_diagonal_points() {
    let l = Line::from_string("1,1 -> 3,3").unwrap();
    let ps = l.points();
    assert_eq!(ps, vec![Point { x: 1, y: 1 }, Point { x: 2, y: 2 }, Point { x: 3, y: 3 }]);
}

#[test]
fn a_single_cell_line_covers_one_point() {
    let l = Line::from_string("5,5 -> 5,5").unwrap();
    assert_eq!(l.points(), vec![Point { x: 5, y: 5 }]);
}
