use blizzard_basin::point::Point;

#[test]
fn moves_from_the_origin_stay_or_go_up_in_x_or_y() {
    let p = Point { x: 0, y: 0, t: 0 };
    assert_eq!(
        p.moves(),
        vec![
            (Point { x: 0, y: 0, t: 1 }, 1),
            (Point { x: 1, y: 0, t: 1 }, 1),
            (Point { x: 0, y: 1, t: 1 }, 1),
        ]
    );
}

#[test]
fn moves_from_an_inner_point_are_five_in_order() {
    let p = Point { x: 3, y: 2, t: 7 };
    assert_eq!(
        p.moves(),
        vec![
            (Point { x: 3, y: 2, t: 8 }, 1),
            (Point { x: 4, y: 2, t: 8 }, 1),
            (Point { x: 3, y: 3, t: 8 }, 1),
            (Point { x: 2, y: 2, t: 8 }, 1),
            (Point { x: 3, y: 1, t: 8 }, 1),
        ]
    );
}

#[test]
fn moves_on_the_left_edge_leave_out_the_step_to_lower_x() {
    let p = Point { x: 0, y: 4, t: 1 };
    assert_eq!(
        p.moves(),
        vec![
            (Point { x: 0, y: 4, t: 2 }, 1),
            (Point { x: 1, y: 4, t: 2 }, 1),
            (Point { x: 0, y: 5, t: 2 }, 1),
            (Point { x: 0, y: 3, t: 2 }, 1),
        ]
    );
}

#[test]
fn distance_is_manhattan_and_ignores_time() {
    let a = Point { x: 1, y: 0, t: 0 };
    let b = Point { x: 6, y: 5, t: 99 };
    assert_eq!(a.distance(&b), 10);
    assert_eq!(b.distance(&a), 10);
    assert_eq!(a.distance(&a), 0);
    assert_eq!(a.distance(&Point { x: 1, y: 0, t: 5 }), 0);
}

#[test]
fn points_compare_by_all_three_fields() {
    let a = Point { x: 1, y: 2, t: 3 };
    assert_eq!(a, Point { x: 1, y: 2, t: 3 });
    assert_ne!(a, Point { x: 1, y: 2, t: 4 });
    assert!(a < Point { x: 1, y: 2, t: 4 });
    assert!(a < Point { x: 1, y: 3, t: 0 });
    assert!(a < Point { x: 2, y: 0, t: 0 });
}
