use bouncing_balls::collider::{Collider, Rect, Shape, Circle};
use bouncing_balls::geometry::{half_i64, Aabb, Vector2};
use bouncing_balls::group::Group;

#[test]
fn intersection_is_symmetric() {
    let boxes = vec![
        Aabb { x_max: 10, x_min: -10, y_max: 10, y_min: -10 },
        Aabb { x_max: 30, x_min: 5, y_max: 2, y_min: -40 },
        Aabb { x_max: -11, x_min: -20, y_max: 0, y_min: -5 },
        Aabb { x_max: 10, x_min: 10, y_max: 10, y_min: 10 },
    ];
    for a in &boxes {
        for b in &boxes {
            assert_eq!(a.is_intersects(b), b.is_intersects(a));
        }
    }
}

#[test]
fn intersection_edge_cases() {
    let a = Aabb { x_max: 0, x_min: -10, y_max: 0, y_min: -10 };
    let b = Aabb { x_max: 10, x_min: 0, y_max: 10, y_min: 0 };
    // touching at a corner counts as intersecting (the test is strict
    // separation)
    assert!(a.is_intersects(&b));
    let c = Aabb { x_max: 10, x_min: 1, y_max: 10, y_min: 1 };
    assert!(!a.is_intersects(&c));
}

#[test]
fn union_of_boxes() {
    let boxes = vec![
        Aabb { x_max: 5, x_min: -3, y_max: 2, y_min: -1 },
        Aabb { x_max: 9, x_min: 0, y_max: -1, y_min: -7 },
        Aabb { x_max: 1, x_min: -8, y_max: 6, y_min: 4 },
    ];
    let u = Aabb::from_aabbs(&boxes);
    assert_eq!(u, Aabb { x_max: 9, x_min: -8, y_max: 6, y_min: -7 });
}

#[test]
fn circle_and_shape_boxes() {
    let c = Aabb::from_circle(3, -2, 5);
    assert_eq!(c, Aabb { x_max: 8, x_min: -2, y_max: 3, y_min: -7 });
    assert_eq!(c.size(), 10 + 10);

    let shape = Shape::Rect(Rect::new(10, 4));
    assert_eq!(
        shape.local_aabb(),
        Aabb { x_max: 5, x_min: -5, y_max: 2, y_min: -2 }
    );
    let round = Shape::Circle(Circle::new(7));
    assert_eq!(
        round.local_aabb(),
        Aabb { x_max: 7, x_min: -7, y_max: 7, y_min: -7 }
    );
}

#[test]
fn collider_world_box_is_centered() {
    let col = Collider::new(Rect::new(20, 10), Group::Enemy, Vector2::zero());
    let aabb = col.aabb(Vector2::new(100, -50));
    assert_eq!(aabb, Aabb { x_max: 110, x_min: 90, y_max: -45, y_min: -55 });
    assert_eq!(aabb.x_min + aabb.x_max, 2 * 100);
    assert_eq!(aabb.y_min + aabb.y_max, 2 * -50);
    assert_eq!(
        col.local_aabb(),
        Aabb { x_max: 10, x_min: -10, y_max: 5, y_min: -5 }
    );
}

#[test]
fn halving_rounds_toward_zero() {
    assert_eq!(half_i64(7), 3);
    assert_eq!(half_i64(-7), -3);
    assert_eq!(half_i64(8), 4);
    assert_eq!(half_i64(-8), -4);
    assert_eq!(half_i64(0), 0);
}
