use vision::features::geometry::circle::{circle_bresenham, Circle};
use vision::features::geometry::{Offset, Point};

fn pairs(circle: &Circle) -> Vec<(isize, isize)> {
    circle.offsets.iter().map(|o| (o.x, o.y)).collect()
}

#[test]
fn circle_of_radius_zero() {
    let c = circle_bresenham(3, 4, 0);
    assert_eq!(c.x_center, 3);
    assert_eq!(c.y_center, 4);
    assert_eq!(
        pairs(&c),
        vec![(0, 0), (0, 0), (-1, 1), (1, -1), (-1, -1), (-1, -1), (1, 1), (1, 1), (1, -1), (-1, 1)]
    );
}

#[test]
fn circle_of_radius_one() {
    let c = circle_bresenham(0, 0, 1);
    assert_eq!(
        pairs(&c),
        vec![
            (0, -1), (-1, 0), (0, 1), (1, 0), (-1, 0), (0, -1),
            (-1, 0), (0, -1), (1, 0), (0, 1), (1, 0), (0, 1)
        ]
    );
}

#[test]
fn circle_of_radius_two() {
    let c = circle_bresenham(10, 10, 2);
    assert_eq!(
        pairs(&c),
        vec![
            (0, -2), (-2, 0), (0, 2), (2, 0), (-1, -2), (-2, -1), (-1, 2), (2, -1), (1, -2),
            (-2, 1), (1, 2), (2, 1), (-2, -1), (-1, -2), (-2, 1), (1, -2), (2, -1), (-1, 2),
            (2, 1), (1, 2)
        ]
    );
}

#[test]
fn circle_is_symmetric_and_within_band() {
    for r in 1..60usize {
        let c = circle_bresenham(100, 100, r);
        let ps = pairs(&c);
        let ri = r as isize;
        for &(a, b) in &ps {
            assert!(ps.contains(&(b, a)));
            assert!(ps.contains(&(-a, b)));
            assert!(ps.contains(&(a, -b)));
            assert!(a.abs() <= ri && b.abs() <= ri);
            let d = a * a + b * b;
            assert!(ri * ri - 3 * ri <= d && d <= ri * ri + ri - 1);
        }
        for p in [(0, ri), (0, -ri), (ri, 0), (-ri, 0)] {
            assert!(ps.contains(&p));
        }
    }
}

#[test]
fn circle_points_are_center_plus_offsets() {
    let c = circle_bresenham(5, 7, 2);
    let points = c.points();
    assert_eq!(points.len(), c.offsets.len());
    assert_eq!(points[0], Point { x: 5, y: 5 });
    assert_eq!(points[1], Point { x: 3, y: 7 });
    for (p, o) in points.iter().zip(c.offsets.iter()) {
        assert_eq!(p.x as isize, 5 + o.x);
        assert_eq!(p.y as isize, 7 + o.y);
    }
}

#[test]
fn circle_points_wrap_below_zero() {
    let c = Circle { x_center: 0, y_center: 1, offsets: vec![Offset { x: -1, y: 2 }] };
    let points = c.points();
    assert_eq!(points, vec![Point { x: usize::MAX, y: 3 }]);
}
