use bezier_flatten::fixed::FP_ONE;
use bezier_flatten::flatten::{
    assert_approx_eq, flatten_cubic_bezier, no_inflection_flattening_step, CubicFlatteningIter,
};
use bezier_flatten::geom::{CubicBezierSegment, Point};
use bezier_flatten::inflection::find_cubic_bezier_inflection_points;
use bezier_flatten::uptotwo::UpToTwo;

/// A scalar on the fixed-point grid: the value scaled by `FP_ONE`.
fn fp(v: f64) -> i64 {
    (v * FP_ONE as f64).round() as i64
}

fn pt(x: f64, y: f64) -> Point {
    Point::new(fp(x), fp(y))
}

fn collect_points(mut iter: CubicFlatteningIter) -> Vec<Point> {
    let mut points = Vec::new();
    loop {
        match iter.next() {
            Some(p) => points.push(p),
            None => break,
        }
    }
    points
}

#[test]
fn test_iterator_builder_1() {
    let tolerance = fp(0.01);
    let c1 = CubicBezierSegment {
        from: pt(0.0, 0.0),
        ctrl1: pt(1.0, 0.0),
        ctrl2: pt(1.0, 1.0),
        to: pt(0.0, 1.0),
    };
    let iter_points: Vec<Point> = collect_points(c1.flattening_iter(tolerance));
    let builder_points = flatten_cubic_bezier(c1, tolerance);

    assert!(iter_points.len() > 2);
    assert!(assert_approx_eq(&iter_points, &builder_points, 0));
}

#[test]
fn test_iterator_builder_2() {
    let tolerance = fp(0.01);
    let c1 = CubicBezierSegment {
        from: pt(0.0, 0.0),
        ctrl1: pt(1.0, 0.0),
        ctrl2: pt(0.0, 1.0),
        to: pt(1.0, 1.0),
    };
    let iter_points: Vec<Point> = collect_points(c1.flattening_iter(tolerance));
    let builder_points = flatten_cubic_bezier(c1, tolerance);

    assert!(iter_points.len() > 2);
    assert!(assert_approx_eq(&iter_points, &builder_points, 0));
}

#[test]
fn test_iterator_builder_3() {
    let tolerance = fp(0.01);
    let c1 = CubicBezierSegment {
        from: pt(141.0, 135.0),
        ctrl1: pt(141.0, 130.0),
        ctrl2: pt(140.0, 130.0),
        to: pt(131.0, 130.0),
    };
    let iter_points: Vec<Point> = collect_points(c1.flattening_iter(tolerance));
    let builder_points = flatten_cubic_bezier(c1, tolerance);

    assert!(iter_points.len() > 2);
    assert!(assert_approx_eq(&iter_points, &builder_points, 0));
}

#[test]
fn test_issue_19() {
    let tolerance = fp(0.15);
    let c1 = CubicBezierSegment {
        from: pt(11.71726, 9.07143),
        ctrl1: pt(1.889879, 13.22917),
        ctrl2: pt(18.142855, 19.27679),
        to: pt(18.142855, 19.27679),
    };
    let iter_points: Vec<Point> = collect_points(c1.flattening_iter(tolerance));
    let builder_points = flatten_cubic_bezier(c1, tolerance);

    assert!(assert_approx_eq(&iter_points, &builder_points, 0));

    assert!(iter_points.len() > 1);
}

#[test]
fn last_point_is_exactly_the_destination() {
    let curves = [
        CubicBezierSegment {
            from: pt(0.0, 0.0),
            ctrl1: pt(1.0, 0.0),
            ctrl2: pt(1.0, 1.0),
            to: pt(0.0, 1.0),
        },
        CubicBezierSegment {
            from: pt(0.0, 0.0),
            ctrl1: pt(1.0, 0.0),
            ctrl2: pt(0.0, 1.0),
            to: pt(1.0, 1.0),
        },
        CubicBezierSegment {
            from: pt(141.0, 135.0),
            ctrl1: pt(141.0, 130.0),
            ctrl2: pt(140.0, 130.0),
            to: pt(131.0, 130.0),
        },
        CubicBezierSegment {
            from: pt(11.71726, 9.07143),
            ctrl1: pt(1.889879, 13.22917),
            ctrl2: pt(18.142855, 19.27679),
            to: pt(18.142855, 19.27679),
        },
    ];
    for c in curves.iter() {
        let pushed = flatten_cubic_bezier(*c, fp(0.01));
        assert_eq!(*pushed.last().unwrap(), c.to);
        let pulled = collect_points(c.flattening_iter(fp(0.01)));
        assert_eq!(*pulled.last().unwrap(), c.to);
    }
}

#[test]
fn inflections_are_in_range_and_ascending() {
    let s_shaped = CubicBezierSegment {
        from: pt(0.0, 0.0),
        ctrl1: pt(1.0, 0.0),
        ctrl2: pt(0.0, 1.0),
        to: pt(1.0, 1.0),
    };
    let infl = find_cubic_bezier_inflection_points(&s_shaped);
    assert!(infl.len() <= 2);
    let mut previous: Option<i64> = None;
    for i in 0..infl.len() {
        let t = infl.get(i).unwrap();
        assert!(0 <= t && t < FP_ONE);
        if let Some(p) = previous {
            assert!(p < t);
        }
        previous = Some(t);
    }
    // This S-shaped curve has its single curvature sign change exactly
    // half-way along the parameter range.
    assert_eq!(infl.len(), 1);
    assert_eq!(infl.get(0), Some(FP_ONE / 2));
}

#[test]
fn degenerate_segment_reports_one_inflection_at_zero() {
    // All four points collinear: the derivative-based coefficients a, b and c
    // all vanish, and by convention one inflection is reported at zero.
    let line = CubicBezierSegment {
        from: pt(0.0, 0.0),
        ctrl1: pt(1.0, 1.0),
        ctrl2: pt(2.0, 2.0),
        to: pt(3.0, 3.0),
    };
    let infl = find_cubic_bezier_inflection_points(&line);
    assert_eq!(infl.len(), 1);
    assert_eq!(infl.get(0), Some(0));
}

#[test]
fn degenerate_direction_steps_to_the_end() {
    // Both control vectors point the same way, so the cross product is zero
    // and the estimator flattens the rest of the curve in one full step.
    let flat = CubicBezierSegment {
        from: pt(0.0, 0.0),
        ctrl1: pt(1.0, 0.0),
        ctrl2: pt(2.0, 0.0),
        to: pt(3.0, 0.0),
    };
    assert_eq!(no_inflection_flattening_step(&flat, fp(0.01)), FP_ONE);
}

#[test]
fn curved_segment_needs_a_partial_step() {
    let arc = CubicBezierSegment {
        from: pt(0.0, 0.0),
        ctrl1: pt(1.0, 0.0),
        ctrl2: pt(1.0, 1.0),
        to: pt(0.0, 1.0),
    };
    let t = no_inflection_flattening_step(&arc, fp(0.01));
    assert!(1 <= t && t < FP_ONE);
    // Exact value of 2 * sqrt(tolerance * |h / cross| / 3) on the fixed grid:
    // cross = -1, h = 1, tolerance = 655/65536, so t = 2 * isqrt(218 * 65536).
    assert_eq!(t, 7558);
}

#[test]
fn two_inflections_are_found_and_flattened() {
    // The quadratic for this segment is -40 t^2 + 32 t - 6, with roots at
    // exactly 0.5 and 0.3 (the latter lands one grid unit below 0.3 after
    // the fixed-point division).
    let c = CubicBezierSegment {
        from: pt(-3.0, 0.0),
        ctrl1: pt(-1.0, -4.0),
        ctrl2: pt(-3.0, -3.0),
        to: pt(-1.0, 3.0),
    };
    let infl = find_cubic_bezier_inflection_points(&c);
    assert_eq!(infl.len(), 2);
    assert_eq!(infl.get(0), Some(19660));
    assert_eq!(infl.get(1), Some(FP_ONE / 2));

    let tolerance = fp(0.01);
    let iter_points: Vec<Point> = collect_points(c.flattening_iter(tolerance));
    let builder_points = flatten_cubic_bezier(c, tolerance);
    assert!(iter_points.len() > 2);
    assert!(assert_approx_eq(&iter_points, &builder_points, 0));
    assert_eq!(*builder_points.last().unwrap(), c.to);
}

#[test]
fn approx_eq_distinguishes_sequences() {
    let a = vec![Point::new(0, 0), Point::new(100, 200)];
    let b = vec![Point::new(0, 0), Point::new(101, 200)];
    let shorter = vec![Point::new(0, 0)];
    assert!(assert_approx_eq(&a, &a, 0));
    assert!(!assert_approx_eq(&a, &b, 0));
    assert!(assert_approx_eq(&a, &b, 1));
    assert!(!assert_approx_eq(&a, &shorter, 0));
}

#[test]
fn up_to_two_holds_values_in_order() {
    let mut pair = UpToTwo::new();
    assert_eq!(pair.len(), 0);
    assert_eq!(pair.get(0), None);
    pair.push(7);
    assert_eq!(pair.len(), 1);
    assert_eq!(pair.get(0), Some(7));
    assert_eq!(pair.get(1), None);
    pair.push(9);
    assert_eq!(pair.len(), 2);
    assert_eq!(pair.get(0), Some(7));
    assert_eq!(pair.get(1), Some(9));
    assert_eq!(pair.get(2), None);
}

#[test]
fn pull_api_is_exhausted_for_good() {
    let c = CubicBezierSegment {
        from: pt(0.0, 0.0),
        ctrl1: pt(1.0, 0.0),
        ctrl2: pt(1.0, 1.0),
        to: pt(0.0, 1.0),
    };
    let mut iter = c.flattening_iter(fp(0.5));
    while iter.next().is_some() {}
    assert_eq!(iter.next(), None);
    assert_eq!(iter.next(), None);
}
