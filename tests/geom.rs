use yakumo::geom::{Line, Point};

#[test]
fn geom_test_point() {
    let p0 = Point::<i64>::new(0, 0);
    let p1 = Point::<i64>::new(1, 2);
    assert_eq!(Line { a: 2, b: -1, c: 0 }, p0.line(&p1));
}

#[test]
fn point_test_point() {
    let p0 = Point::<i64>::new(0, 0);
    let p1 = Point::<i64>::new(1, 2);
    assert_eq!(Line { a: 2, b: -1, c: 0 }, p0.line(&p1));
}

#[test]
fn line_normalize() {
    let l = Line { a: -4, b: 6, c: 10 };
    assert_eq!(l.normalize(), Line { a: 2, b: -3, c: -5 });
    let l = Line { a: 0, b: -3, c: 6 };
    assert_eq!(l.normalize(), Line { a: 0, b: 1, c: -2 });
    let p = Point::<i64>::new(2, 3).line(&Point::<i64>::new(4, 7));
    assert_eq!(p.normalize(), Line { a: 2, b: -1, c: 1 });
}
