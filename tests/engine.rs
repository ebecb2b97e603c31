use compass::builder::{
    pick_input, reposition, BuildError, Builder, Construct, Input, InputKind, Pointer, Step,
};
use compass::geom::{
    direction, distance, floor_div, isqrt, normalize, project_circle, project_line, Circle, Line,
    Vec2, UNIT,
};

fn v(x: i64, y: i64) -> Vec2 {
    Vec2 { x, y }
}

fn built(inputs: Vec<Input>, steps: Vec<Step>) -> Builder {
    let mut b = Builder::new(inputs, steps);
    b.build().unwrap();
    b
}

#[test]
fn scenario_line_through_two_points() {
    let b = built(
        vec![Input::free(v(5000, 10000)), Input::free(v(30000, 30000))],
        vec![Step::LineSectPoints(0, 1)],
    );
    assert_eq!(
        b.constructs,
        vec![
            Construct::Point(v(5000, 10000)),
            Construct::Point(v(30000, 30000)),
            Construct::Line(Line { pos: v(5000, 10000), dir: v(780868, 624695) }),
        ]
    );
}

#[test]
fn scenario_single_input_dragged() {
    let mut b = built(vec![Input::free(v(0, 0))], vec![]);
    assert_eq!(b.constructs, vec![Construct::Point(v(0, 0))]);
    // hover, then press and drag to (10, 10)
    b.update(Pointer { pos: v(0, 0), held: false }).unwrap();
    assert_eq!(b.selected_input, Some(0));
    b.update(Pointer { pos: v(1000, 1000), held: true }).unwrap();
    assert_eq!(b.constructs, vec![Construct::Point(v(1000, 1000))]);
    assert_eq!(b.inputs[0].pos, v(1000, 1000));
    // release: selection cleared, position kept
    b.update(Pointer { pos: v(5000, 5000), held: false }).unwrap();
    assert_eq!(b.selected_input, None);
    assert_eq!(b.inputs[0].pos, v(1000, 1000));
}

#[test]
fn scenario_circle_through_point() {
    let b = built(
        vec![Input::free(v(0, 0)), Input::free(v(1000, 0))],
        vec![Step::CircAtSect(0, 1)],
    );
    assert_eq!(b.constructs[2], Construct::Circle(Circle { pos: v(0, 0), radius: 1000 }));
}

#[test]
fn rebuild_length_is_inputs_plus_steps() {
    let b = built(
        vec![
            Input::free(v(5000, 10000)),
            Input::sect(v(25000, 20000), 4),
            Input::free(v(30000, 30000)),
        ],
        vec![Step::CircAtSect(0, 1), Step::LineSectPoints(0, 2), Step::LineSectPerp(2, 4)],
    );
    assert_eq!(b.constructs.len(), 6);
    assert!(matches!(b.constructs[3], Construct::Circle(_)));
    assert!(matches!(b.constructs[4], Construct::Line(_)));
    match b.constructs[5] {
        Construct::Line(l) => {
            assert_eq!(l.pos, v(30000, 30000));
            assert_eq!(l.dir, v(-624695, 780868));
        }
        _ => panic!("expected a line"),
    }
}

#[test]
fn rebuild_twice_is_identical() {
    let mut b = built(
        vec![Input::free(v(0, 0)), Input::free(v(300, 400)), Input::free(v(-50, 70))],
        vec![Step::LineSectPoints(0, 1), Step::CircAtSect(2, 1), Step::LineSectPerp(2, 3)],
    );
    let first = b.constructs.clone();
    b.build().unwrap();
    assert_eq!(b.constructs, first);
}

#[test]
fn line_direction_has_unit_length() {
    for (x, y) in [(25000i64, 20000i64), (1, 1), (-7, 3), (0, -5), (123456, -654321)] {
        let d = direction(v(0, 0), v(x, y));
        let len_sq = (d.x as i128) * (d.x as i128) + (d.y as i128) * (d.y as i128);
        let unit = UNIT as i128;
        assert!((len_sq - unit * unit).abs() <= 12 * unit, "{:?}", d);
    }
    assert_eq!(direction(v(3, 3), v(3, 3)), v(0, 0));
}

#[test]
fn circle_radius_is_distance() {
    assert_eq!(distance(v(0, 0), v(300, 400)), 500);
    assert_eq!(distance(v(0, 0), v(1, 1)), 1);
    assert_eq!(distance(v(5, 5), v(5, 5)), 0);
    let b = built(
        vec![Input::free(v(10, 20)), Input::free(v(13, 24))],
        vec![Step::CircAtSect(1, 0)],
    );
    assert_eq!(b.constructs[2], Construct::Circle(Circle { pos: v(13, 24), radius: 5 }));
}

#[test]
fn line_projection_is_foot_of_perpendicular() {
    let horizontal = Line { pos: v(0, 0), dir: v(UNIT, 0) };
    assert_eq!(project_line(horizontal, v(500, 700)), Some(v(500, 0)));
    assert_eq!(project_line(horizontal, v(-500, -700)), Some(v(-500, 0)));
    let diagonal = Line { pos: v(100, 100), dir: normalize(1, 1) };
    assert_eq!(project_line(diagonal, v(100, 300)), Some(v(200, 200)));
    let degenerate = Line { pos: v(7, 8), dir: v(0, 0) };
    assert_eq!(project_line(degenerate, v(100, 300)), Some(v(7, 8)));
}

#[test]
fn circle_projection_lies_at_radius() {
    let c = Circle { pos: v(0, 0), radius: 1000 };
    assert_eq!(project_circle(c, v(3000, 4000), v(0, 0)), Some(v(600, 800)));
    assert_eq!(project_circle(c, v(30, 40), v(0, 0)), Some(v(600, 800)));
    // pointer on the centre: the previous direction is kept
    assert_eq!(project_circle(c, v(0, 0), v(0, -20)), Some(v(0, -1000)));
    // pointer and previous point on the centre: along the x axis
    assert_eq!(project_circle(c, v(0, 0), v(0, 0)), Some(v(1000, 0)));
}

#[test]
fn selection_picks_first_input_in_range() {
    let inputs = vec![
        Input::free(v(10000, 10000)),
        Input::free(v(100, 0)),
        Input::free(v(0, 100)),
    ];
    assert_eq!(pick_input(&inputs, v(0, 0)), Some(1));
    assert_eq!(pick_input(&inputs, v(0, 700)), Some(2));
    assert_eq!(pick_input(&inputs, v(5000, 5000)), None);
    // 6.9 units is 690: exactly on the radius is outside
    assert_eq!(pick_input(&inputs, v(10690, 10000)), None);
    assert_eq!(pick_input(&inputs, v(10689, 10000)), Some(0));
}

#[test]
fn dragging_constrained_inputs() {
    let line = Construct::Line(Line { pos: v(0, 0), dir: v(UNIT, 0) });
    let circle = Construct::Circle(Circle { pos: v(0, 0), radius: 1000 });
    let point = Construct::Point(v(42, 43));
    let cs = vec![point, line, circle];
    let p = v(300, 400);
    assert_eq!(reposition(&Input::free(v(1, 1)), p, &cs), Ok(p));
    assert_eq!(reposition(&Input::sect(v(1, 1), 0), p, &cs), Ok(v(42, 43)));
    assert_eq!(reposition(&Input::sect(v(1, 1), 1), p, &cs), Ok(v(300, 0)));
    assert_eq!(reposition(&Input::sect(v(1, 1), 2), p, &cs), Ok(v(600, 800)));
    assert_eq!(reposition(&Input::sect(v(1, 1), 3), p, &cs), Err(BuildError::Missing(3)));
}

#[test]
fn constrained_input_follows_line_in_update() {
    let mut b = built(
        vec![Input::free(v(0, 0)), Input::free(v(10000, 0)), Input::sect(v(5000, 0), 3)],
        vec![Step::LineSectPoints(0, 1)],
    );
    b.update(Pointer { pos: v(5000, 0), held: false }).unwrap();
    assert_eq!(b.selected_input, Some(2));
    b.update(Pointer { pos: v(7000, 6500), held: true }).unwrap();
    assert_eq!(b.inputs[2].pos, v(7000, 0));
    assert_eq!(b.inputs[2].kind, InputKind::Sect(3));
    assert_eq!(b.constructs[2], Construct::Point(v(7000, 0)));
}

#[test]
fn build_reports_definition_errors() {
    let mut b = Builder::new(vec![Input::free(v(0, 0))], vec![Step::LineSectPoints(0, 5)]);
    assert_eq!(b.build(), Err(BuildError::Missing(5)));
    let mut b = Builder::new(
        vec![Input::free(v(0, 0)), Input::free(v(1, 0))],
        vec![Step::CircAtSect(0, 1), Step::LineSectPoints(2, 0)],
    );
    assert_eq!(b.build(), Err(BuildError::NotAPoint(2)));
    let mut b = Builder::new(
        vec![Input::free(v(0, 0)), Input::free(v(1, 0))],
        vec![Step::LineSectPerp(0, 1)],
    );
    assert_eq!(b.build(), Err(BuildError::NotALine(1)));
}

#[test]
fn add_step_checks_references_eagerly() {
    let mut b = Builder::default();
    assert_eq!(b.add_input(InputKind::Free, v(0, 0)), 0);
    assert_eq!(b.add_input(InputKind::Free, v(100, 0)), 1);
    assert_eq!(b.add_step(Step::LineSectPoints(0, 2)), Err(BuildError::Missing(2)));
    assert_eq!(b.add_step(Step::LineSectPoints(0, 1)), Ok(2));
    assert_eq!(b.add_step(Step::CircAtSect(2, 0)), Err(BuildError::NotAPoint(2)));
    assert_eq!(b.add_step(Step::LineSectPerp(1, 0)), Err(BuildError::NotALine(0)));
    assert_eq!(b.add_step(Step::LineSectPerp(1, 2)), Ok(3));
    assert_eq!(b.steps.len(), 2);
    b.build().unwrap();
    assert_eq!(b.constructs.len(), 4);
}

#[test]
fn fixed_point_helpers() {
    assert_eq!(isqrt(0), 0);
    assert_eq!(isqrt(15), 3);
    assert_eq!(isqrt(16), 4);
    assert_eq!(isqrt(1u128 << 100), 1u128 << 50);
    assert_eq!(floor_div(7, 2), 3);
    assert_eq!(floor_div(-7, 2), -4);
    assert_eq!(floor_div(-8, 2), -4);
    assert_eq!(normalize(3, 4), v(600000, 800000));
    assert_eq!(normalize(-1, 0), v(-UNIT, 0));
    assert_eq!(normalize(0, 0), v(0, 0));
}
