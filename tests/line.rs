use geoms::line::{Line, LineError};

fn line_of(points: Vec<(f64, f64)>) -> Line<(f64, f64)> {
    Line::new(points).unwrap()
}

#[test]
fn line_creation_two_points() {
    let line = line_of(vec![(0.0, 0.0), (1.0, 1.0)]);
    assert_eq!(line.get_number_of_points(), 2);
    assert_eq!(line.get_start().0, 0.0);
    assert_eq!(line.get_start().1, 0.0);
    assert_eq!(line.get_last().0, 1.0);
    assert_eq!(line.get_last().1, 1.0);
}

#[test]
fn line_creation_twenty_points() {
    let points: Vec<(f64, f64)> = (0..20).map(|i| (i as f64, i as f64)).collect();
    let line = line_of(points);
    assert_eq!(line.get_number_of_points(), 20);
    assert_eq!(line.get_start().0, 0.0);
    assert_eq!(line.get_start().1, 0.0);
    assert_eq!(line.get_last().0, 19.0);
    assert_eq!(line.get_last().1, 19.0);
}

#[test]
fn line_of_one_point_is_refused() {
    let result = Line::new(vec![(0.0, 0.0)]);
    assert!(matches!(result, Err(LineError::TooFewPoints)));
    let empty: Vec<(f64, f64)> = Vec::new();
    assert!(Line::new(empty).is_err());
    assert_eq!(LineError::TooFewPoints.message(), "A line must have at least two points.");
}

#[test]
fn split_at_inner_vertex_shares_it() {
    let line = line_of(vec![(0.0, 0.0), (1.0, 0.0), (1.0, 1.0), (2.0, 1.0)]);
    let (a, b) = line.split_at_vertex(2).unwrap();
    assert_eq!(a.points(), &vec![(0.0, 0.0), (1.0, 0.0), (1.0, 1.0)]);
    assert_eq!(b.points(), &vec![(1.0, 1.0), (2.0, 1.0)]);
}

#[test]
fn split_at_end_vertex_is_refused() {
    let line = line_of(vec![(0.0, 0.0), (1.0, 0.0), (1.0, 1.0)]);
    assert!(line.split_at_vertex(0).is_none());
    assert!(line.split_at_vertex(2).is_none());
    assert!(line.split_at_vertex(7).is_none());
    assert!(line.split_at_vertex(1).is_some());
}

#[test]
fn split_in_segment_inserts_point() {
    let line = line_of(vec![(0.0, 0.0), (4.0, 0.0)]);
    let (a, b) = line.split_in_segment(0, (2.0, 0.0));
    assert_eq!(a.points(), &vec![(0.0, 0.0), (2.0, 0.0)]);
    assert_eq!(b.points(), &vec![(2.0, 0.0), (4.0, 0.0)]);
}

#[test]
fn split_in_later_segment_keeps_order() {
    let line = line_of(vec![(0.0, 0.0), (1.0, 0.0), (1.0, 1.0), (2.0, 1.0)]);
    let (a, b) = line.split_in_segment(1, (1.0, 0.5));
    assert_eq!(a.points(), &vec![(0.0, 0.0), (1.0, 0.0), (1.0, 0.5)]);
    assert_eq!(b.points(), &vec![(1.0, 0.5), (1.0, 1.0), (2.0, 1.0)]);
}

#[test]
fn set_points_replaces_or_keeps() {
    let mut line = line_of(vec![(0.0, 0.0), (1.0, 0.0)]);
    assert!(line.set_points(vec![(5.0, 5.0), (6.0, 6.0), (7.0, 7.0)]).is_ok());
    assert_eq!(line.get_number_of_points(), 3);
    assert_eq!(line.get_start(), (5.0, 5.0));
    assert_eq!(line.set_points(vec![(9.0, 9.0)]), Err(LineError::TooFewPoints));
    assert_eq!(line.get_number_of_points(), 3);
    assert_eq!(line.get_last(), (7.0, 7.0));
}
