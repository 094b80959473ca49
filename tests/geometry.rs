use tsp_sim::{Location, Route};

fn loc(name: &str, x: i32, y: i32) -> Location {
    Location { name: name.to_owned(), x, y }
}

#[test]
fn distance_of_a_right_triangle_hypotenuse() {
    assert_eq!(loc("A", 0, 0).distance(&loc("B", 3, 4)), 5000);
    assert_eq!(loc("B", 3, 4).distance(&loc("A", 0, 0)), 5000);
}

#[test]
fn distance_is_rounded_down_to_thousandths() {
    // sqrt(2) = 1.41421...
    assert_eq!(loc("A", 0, 0).distance(&loc("B", 1, 1)), 1414);
    // sqrt(5) = 2.23606...
    assert_eq!(loc("A", -1, 2).distance(&loc("B", 0, 0)), 2236);
}

#[test]
fn distance_between_extreme_coordinates() {
    let a = loc("A", i32::MIN, i32::MIN);
    let b = loc("B", i32::MAX, i32::MAX);
    // (2^32 - 1) * sqrt(2) * 1000, rounded down
    assert_eq!(a.distance(&b), 6_074_000_998_537);
}

#[test]
fn distance_to_itself_is_zero() {
    assert_eq!(loc("A", 7, -3).distance(&loc("A", 7, -3)), 0);
}

#[test]
fn route_length_is_open_path() {
    let r = Route::new(vec![loc("A", 0, 0), loc("B", 0, 10), loc("C", 10, 10), loc("D", 10, 0)]);
    assert_eq!(r.distance, 30_000);
    assert_eq!(r.locations.len(), 4);
    assert_eq!(r.locations[0].name, "A");
}

#[test]
fn route_of_no_or_one_point_has_no_length() {
    assert_eq!(Route::new(vec![]).distance, 0);
    assert_eq!(Route::new(vec![loc("A", 5, 5)]).distance, 0);
}

#[test]
fn duplicate_keeps_everything() {
    let r = Route::new(vec![loc("A", 0, 0), loc("B", 3, 4)]);
    assert_eq!(r.duplicate(), r);
    assert_eq!(loc("A", 1, 2).duplicate(), loc("A", 1, 2));
}
