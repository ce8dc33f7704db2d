use pathfinder::calculate_shortest_path;
use pathfinder::constdefs::{MAX_DISTANCE, MAX_HEIGHT, MAX_WIDTH, OFFSETS};
use pathfinder::errors::{MapError, PathfindingError};
use pathfinder::playfield::{Path, Playfield, Point2d};
use pathfinder::Pathfinder;

fn corridor() -> Vec<u32> {
    vec![
        1000, 1000, 1000, 1000, 1000, 1000, 1000,
        1000, 100, 700, 100, 100, 100, 1000,
        1000, 100, 100, 100, 100, 100, 1000,
        1000, 100, 100, 100, 100, 100, 1000,
        1000, 1000, 1000, 1000, 1000, 1000, 1000,
    ]
}

fn pt(x: i64, y: i64) -> Point2d {
    Point2d { x, y }
}

fn cost(width: i64, map: &[u32], steps: &[Point2d]) -> u64 {
    steps.iter().skip(1).map(|p| map[(p.y * width + p.x) as usize] as u64).sum()
}

fn assert_walk(steps: &[Point2d], start: Point2d, destination: Point2d, width: i64, height: i64) {
    assert_eq!(steps[0], start);
    assert_eq!(*steps.last().unwrap(), destination);
    for p in steps {
        assert!(p.x >= 0 && p.x < width && p.y >= 0 && p.y < height);
    }
    for w in steps.windows(2) {
        assert_eq!((w[0].x - w[1].x).abs() + (w[0].y - w[1].y).abs(), 1);
    }
}

#[test]
fn same_query_gives_same_path() {
    let a = calculate_shortest_path(7, 5, corridor(), (1, 1), (4, 1)).unwrap();
    let b = calculate_shortest_path(7, 5, corridor(), (1, 1), (4, 1)).unwrap();
    assert_eq!(a.steps, b.steps);
}

#[test]
fn rerun_on_fresh_grid_gives_same_path() {
    let mut first = Pathfinder::new(Playfield::new(7, 5, pt(1, 4), pt(4, 1), corridor()).unwrap());
    first.calculate();
    let mut second = Pathfinder::new(Playfield::new(7, 5, pt(1, 4), pt(4, 1), corridor()).unwrap());
    second.calculate();
    let expected = calculate_shortest_path(7, 5, corridor(), (1, 4), (4, 1)).unwrap();
    assert_eq!(first.into_path().steps, expected.steps);
    assert_eq!(second.into_path().steps, expected.steps);
}

#[test]
fn path_is_a_walk_from_start_to_destination() {
    let map = corridor();
    let path = calculate_shortest_path(7, 5, map.clone(), (5, 3), (1, 1)).unwrap();
    assert_walk(&path.steps, pt(5, 3), pt(1, 1), 7, 5);
}

#[test]
fn path_cost_is_the_computed_distance() {
    let map = corridor();
    let path = calculate_shortest_path(7, 5, map.clone(), (1, 1), (4, 1)).unwrap();
    assert_eq!(cost(7, &map, &path.steps), 500);
    let mut finder = Pathfinder::new(Playfield::new(7, 5, pt(1, 1), pt(4, 1), map.clone()).unwrap());
    finder.calculate();
    assert_eq!(finder.destination_distance(), 500);
}

#[test]
fn later_relaxation_overwrites_an_earlier_one() {
    // b is first reached from the start at 10, then overwritten from d at 12 before it settles.
    let map: Vec<u32> = vec![
        0, 10, 1,
        1, 1, 100,
    ];
    let path = calculate_shortest_path(3, 2, map.clone(), (0, 0), (2, 0)).unwrap();
    assert_eq!(path.steps, vec![pt(0, 0), pt(0, 1), pt(1, 1), pt(1, 0), pt(2, 0)]);
    assert_eq!(cost(3, &map, &path.steps), 13);
}

#[test]
fn neighbours_on_row_and_column_zero_are_entered() {
    let map: Vec<u32> = vec![
        0, 0, 0,
        0, 9, 9,
        0, 9, 9,
    ];
    let path = calculate_shortest_path(3, 3, map, (0, 2), (2, 0)).unwrap();
    assert_eq!(path.steps, vec![pt(0, 2), pt(0, 1), pt(0, 0), pt(1, 0), pt(2, 0)]);
}

#[test]
fn adjacent_destination_is_a_two_step_path() {
    let path = calculate_shortest_path(2, 1, vec![5, 7], (0, 0), (1, 0)).unwrap();
    assert_eq!(path.steps, vec![pt(0, 0), pt(1, 0)]);
}

#[test]
fn widest_grid_is_searched() {
    let width = MAX_WIDTH;
    let map: Vec<u32> = vec![1; (width * 2) as usize];
    let path = calculate_shortest_path(width, 2, map.clone(), (0, 0), (width - 1, 1)).unwrap();
    assert_walk(&path.steps, pt(0, 0), pt(width - 1, 1), width, 2);
    assert_eq!(path.steps.len() as i64, width + 1);
    assert_eq!(cost(width, &map, &path.steps), width as u64);
}

#[test]
fn too_big_wins_over_every_other_rule() {
    let r = calculate_shortest_path(MAX_WIDTH + 1, 3, vec![0; 2], (1, 1), (1, 1));
    assert_eq!(r.unwrap_err(), MapError::TooBig);
    let r = calculate_shortest_path(3, MAX_HEIGHT + 1, vec![0; 9], (-1, -1), (-1, -1));
    assert_eq!(r.unwrap_err(), MapError::TooBig);
}

#[test]
fn size_mismatch_wins_over_later_rules() {
    let r = calculate_shortest_path(3, 3, vec![0; 4], (9, 9), (9, 9));
    assert_eq!(r.unwrap_err(), MapError::SizeMismatch);
}

#[test]
fn start_eq_end_wins_over_bounds() {
    let r = calculate_shortest_path(3, 3, vec![0; 9], (7, 7), (7, 7));
    assert_eq!(r.unwrap_err(), MapError::StartEqEnd);
}

#[test]
fn start_bounds_are_checked_before_destination_bounds() {
    let r = calculate_shortest_path(3, 3, vec![0; 9], (3, 0), (0, 3));
    assert_eq!(r.unwrap_err(), MapError::StartOutOfBounds);
    let r = calculate_shortest_path(3, 3, vec![0; 9], (0, 0), (0, 3));
    assert_eq!(r.unwrap_err(), MapError::DestinationOutOfBounds);
}

#[test]
fn negative_dimensions_put_the_start_out_of_bounds() {
    let r = calculate_shortest_path(-3, -3, vec![0; 9], (0, 0), (1, 1));
    assert_eq!(r.unwrap_err(), MapError::StartOutOfBounds);
    let r = calculate_shortest_path(0, 5, vec![], (0, 0), (1, 1));
    assert_eq!(r.unwrap_err(), MapError::StartOutOfBounds);
}

#[test]
fn error_names_and_comments() {
    let all = [
        (MapError::SizeMismatch, "SizeMismatch"),
        (MapError::StartOutOfBounds, "StartOutOfBounds"),
        (MapError::DestinationOutOfBounds, "DestinationOutOfBounds"),
        (MapError::StartEqEnd, "StartEqEnd"),
        (MapError::TooBig, "TooBig"),
    ];
    for (e, name) in all {
        assert_eq!(e.name(), name);
        assert_eq!(e.comment(), format!("[ERROR] {}", name));
    }
}

#[test]
fn new_grid_is_fresh() {
    let pf = Playfield::new(3, 2, pt(2, 1), pt(0, 0), vec![1, 2, 3, 4, 5, 6]).unwrap();
    assert_eq!(pf.field.len(), 6);
    for (i, n) in pf.field.iter().enumerate() {
        assert_eq!(n.my_pos, pt(i as i64 % 3, i as i64 / 3));
        assert_eq!(n.penalty, i as u32 + 1);
        assert!(!n.visited);
        assert_eq!(n.predecessor, None);
        assert_eq!(n.distance, if i == 5 { 0 } else { MAX_DISTANCE });
    }
    assert_eq!(pf.to_index(&pt(2, 1)), 5);
    assert_eq!(pf.find_shortest_distance(), pt(2, 1));
}

#[test]
fn offsets_stay_on_the_grid() {
    let pf = Playfield::new(3, 2, pt(0, 0), pt(2, 1), vec![0; 6]).unwrap();
    assert_eq!(pf.apply_offset(&pt(1, 0), &(-1, 0)), Ok(pt(0, 0)));
    assert_eq!(pf.apply_offset(&pt(1, 1), &(0, -1)), Ok(pt(1, 0)));
    assert_eq!(pf.apply_offset(&pt(0, 0), &(-1, 0)), Err(PathfindingError::OutOfMap));
    assert_eq!(pf.apply_offset(&pt(2, 1), &(1, 0)), Err(PathfindingError::OutOfMap));
    assert_eq!(pf.apply_offset(&pt(2, 1), &(0, 1)), Err(PathfindingError::OutOfMap));
    assert_eq!(pf.apply_offset(&pt(i64::MAX, 0), &(1, 0)), Err(PathfindingError::OutOfMap));
    assert_eq!(OFFSETS, [(-1, 0), (1, 0), (0, -1), (0, 1)]);
}

#[test]
fn frontier_prefers_least_distance_then_lowest_index() {
    let mut pf = Playfield::new(3, 1, pt(0, 0), pt(2, 0), vec![0; 3]).unwrap();
    pf.set_visited(&pt(0, 0));
    let mut a = pf.field_at(&pt(1, 0));
    a.distance = 4;
    pf.set_field_at(&pt(1, 0), &a);
    let mut b = pf.field_at(&pt(2, 0));
    b.distance = 4;
    pf.set_field_at(&pt(2, 0), &b);
    assert_eq!(pf.find_shortest_distance(), pt(1, 0));
    b.distance = 3;
    pf.set_field_at(&pt(2, 0), &b);
    assert_eq!(pf.find_shortest_distance(), pt(2, 0));
    assert!(pf.field_at(&pt(0, 0)).visited);
    assert_eq!(pf.field_at(&pt(0, 0)).distance, 0);
}

#[test]
fn glue_follows_predecessors_back_to_the_start() {
    let mut pf = Playfield::new(3, 1, pt(0, 0), pt(2, 0), vec![0; 3]).unwrap();
    let mut mid = pf.field_at(&pt(1, 0));
    mid.predecessor = Some(pt(0, 0));
    pf.set_field_at(&pt(1, 0), &mid);
    let mut end = pf.field_at(&pt(2, 0));
    end.predecessor = Some(pt(1, 0));
    pf.set_field_at(&pt(2, 0), &end);
    let mut path = Path { steps: vec![pt(9, 9)] };
    pf.glue_path_to_destination(&end, &mut path);
    assert_eq!(path.steps, vec![pt(0, 0), pt(1, 0), pt(2, 0), pt(9, 9)]);
}
