//! Inputs, derivation steps and the engine that rebuilds the diagram.
use crate::geom::{
    circle_ok, direction, direction_spec, dist_sq, distance, distance_spec, in_range, is_root,
    lemma_distance, line_ok, project_circle, project_circle_spec, project_line, project_line_spec,
    Circle, Line, Vec2,
};
use vstd::prelude::*;

verus! {

/// Index of a construct: inputs come first, then one construct per step.
pub type VarId = usize;

/// Radius around the pointer within which an input is picked: 6.9 units of
/// the drawing, in coordinates that count hundredths of a unit.
pub const PICK_RADIUS: i64 = 690;

/// Whether an input moves freely or stays on an earlier construct.
#[derive(Clone, Copy, Debug, PartialEq, Eq, Structural)]
pub enum InputKind {
    Free,
    Sect(VarId),
}

/// A point that the user can drag.
#[derive(Clone, Copy, Debug, PartialEq, Eq, Structural)]
pub struct Input {
    pub pos: Vec2,
    pub kind: InputKind,
}

/// A rule that derives one construct from earlier ones.
#[derive(Clone, Copy, Debug, PartialEq, Eq, Structural)]
pub enum Step {
    /// Line through the first point towards the second.
    LineSectPoints(VarId, VarId),
    /// Circle centred at the first point through the second.
    CircAtSect(VarId, VarId),
    /// Line through the point, perpendicular to the line.
    LineSectPerp(VarId, VarId),
}

/// A geometric object of the diagram.
#[derive(Clone, Copy, Debug, PartialEq, Eq, Structural)]
pub enum Construct {
    Point(Vec2),
    Line(Line),
    Circle(Circle),
}

/// Why a construction definition cannot be carried out.
#[derive(Clone, Copy, Debug, PartialEq, Eq, Structural)]
pub enum BuildError {
    /// The referenced construct does not exist (yet).
    Missing(VarId),
    /// The referenced construct is not a point.
    NotAPoint(VarId),
    /// The referenced construct is not a line.
    NotALine(VarId),
}

/// The pointer as read at one tick: where it is and whether its primary button is down.
#[derive(Clone, Copy, Debug, PartialEq, Eq, Structural)]
pub struct Pointer {
    pub pos: Vec2,
    pub held: bool,
}

impl Input {
    pub fn free(pos: Vec2) -> (r: Self)
        ensures
            r == (Input { pos, kind: InputKind::Free }),
    {
        Self { pos, kind: InputKind::Free }
    }

    pub fn sect(pos: Vec2, sect: VarId) -> (r: Self)
        ensures
            r == (Input { pos, kind: InputKind::Sect(sect) }),
    {
        Self { pos, kind: InputKind::Sect(sect) }
    }
}

pub open spec fn construct_ok(c: Construct) -> bool {
    match c {
        Construct::Point(p) => in_range(p),
        Construct::Line(l) => line_ok(l),
        Construct::Circle(c) => circle_ok(c),
    }
}

pub open spec fn constructs_ok(cs: Seq<Construct>) -> bool {
    forall|k: int| 0 <= k < cs.len() ==> construct_ok(#[trigger] cs[k])
}

pub open spec fn inputs_in_range(inputs: Seq<Input>) -> bool {
    forall|k: int| 0 <= k < inputs.len() ==> in_range(#[trigger] inputs[k].pos)
}

/// The construct `id`, if it exists.
pub open spec fn construct_at(cs: Seq<Construct>, id: VarId) -> Result<Construct, BuildError> {
    if id < cs.len() {
        Ok(cs[id as int])
    } else {
        Err(BuildError::Missing(id))
    }
}

/// The point that construct `id` is.
pub open spec fn point_at(cs: Seq<Construct>, id: VarId) -> Result<Vec2, BuildError> {
    match construct_at(cs, id) {
        Ok(Construct::Point(p)) => Ok(p),
        Ok(_) => Err(BuildError::NotAPoint(id)),
        Err(e) => Err(e),
    }
}

/// The line that construct `id` is.
pub open spec fn line_at(cs: Seq<Construct>, id: VarId) -> Result<Line, BuildError> {
    match construct_at(cs, id) {
        Ok(Construct::Line(l)) => Ok(l),
        Ok(_) => Err(BuildError::NotALine(id)),
        Err(e) => Err(e),
    }
}

/// A direction turned a quarter turn.
pub open spec fn perpendicular(d: Vec2) -> Vec2 {
    Vec2 { x: (-d.y) as i64, y: d.x }
}

/// The construct that `step` derives from the constructs `cs` before it.
pub open spec fn step_spec(cs: Seq<Construct>, step: Step) -> Result<Construct, BuildError> {
    match step {
        Step::LineSectPoints(a, b) => match point_at(cs, a) {
            Err(e) => Err(e),
            Ok(pa) => match point_at(cs, b) {
                Err(e) => Err(e),
                Ok(pb) => Ok(Construct::Line(Line { pos: pa, dir: direction_spec(pa, pb) })),
            },
        },
        Step::CircAtSect(at, sect) => match point_at(cs, at) {
            Err(e) => Err(e),
            Ok(c) => match point_at(cs, sect) {
                Err(e) => Err(e),
                Ok(p) => Ok(
                    Construct::Circle(Circle { pos: c, radius: distance_spec(c, p) as i64 }),
                ),
            },
        },
        Step::LineSectPerp(at, perp) => match point_at(cs, at) {
            Err(e) => Err(e),
            Ok(p) => match line_at(cs, perp) {
                Err(e) => Err(e),
                Ok(l) => Ok(Construct::Line(Line { pos: p, dir: perpendicular(l.dir) })),
            },
        },
    }
}

/// One point construct per input, in input order.
pub open spec fn input_points(inputs: Seq<Input>) -> Seq<Construct> {
    inputs.map_values(|i: Input| Construct::Point(i.pos))
}

/// The constructs `cs` followed by what `steps` derive, one after another;
/// the first step that fails decides the error.
pub open spec fn run_steps(cs: Seq<Construct>, steps: Seq<Step>) -> Result<
    Seq<Construct>,
    BuildError,
>
    decreases steps.len(),
{
    if steps.len() == 0 {
        Ok(cs)
    } else {
        match run_steps(cs, steps.drop_last()) {
            Err(e) => Err(e),
            Ok(prev) => match step_spec(prev, steps.last()) {
                Err(e) => Err(e),
                Ok(c) => Ok(prev.push(c)),
            },
        }
    }
}

/// The whole diagram that `inputs` and `steps` describe.
pub open spec fn rebuild_spec(inputs: Seq<Input>, steps: Seq<Step>) -> Result<
    Seq<Construct>,
    BuildError,
> {
    run_steps(input_points(inputs), steps)
}

/// Once a prefix of the steps fails, the whole list fails with the same error.
pub proof fn lemma_run_steps_err(cs: Seq<Construct>, steps: Seq<Step>, n: int)
    requires
        0 <= n <= steps.len(),
        run_steps(cs, steps.subrange(0, n)) is Err,
    ensures
        run_steps(cs, steps) == run_steps(cs, steps.subrange(0, n)),
    decreases steps.len() - n,
{
    if n == steps.len() {
        assert(steps.subrange(0, n) =~= steps);
    } else {
        assert(steps.subrange(0, n + 1).drop_last() =~= steps.subrange(0, n));
        lemma_run_steps_err(cs, steps, n + 1);
    }
}

/// The pointer at `p` is close enough to pick a point at `q`.
pub open spec fn near(p: Vec2, q: Vec2) -> bool {
    dist_sq(p, q) < PICK_RADIUS * PICK_RADIUS
}

/// Input `i` is near the pointer and no earlier input is.
pub open spec fn first_near(inputs: Seq<Input>, p: Vec2, i: int) -> bool {
    &&& 0 <= i < inputs.len()
    &&& near(p, inputs[i].pos)
    &&& forall|j: int| 0 <= j < i ==> !near(p, #[trigger] inputs[j].pos)
}

/// The variant of a construct.
#[derive(Clone, Copy, Debug, PartialEq, Eq, Structural)]
pub enum Shape {
    Point,
    Line,
    Circle,
}

pub open spec fn shape_of(c: Construct) -> Shape {
    match c {
        Construct::Point(_) => Shape::Point,
        Construct::Line(_) => Shape::Line,
        Construct::Circle(_) => Shape::Circle,
    }
}

/// The variant of the construct that a step derives.
pub open spec fn step_shape(step: Step) -> Shape {
    match step {
        Step::LineSectPoints(_, _) => Shape::Line,
        Step::CircAtSect(_, _) => Shape::Circle,
        Step::LineSectPerp(_, _) => Shape::Line,
    }
}

/// The variant of construct `id` in a definition of `n` inputs and the given
/// steps, if it exists.
pub open spec fn shape_at(n: nat, steps: Seq<Step>, id: int) -> Option<Shape> {
    if 0 <= id < n {
        Some(Shape::Point)
    } else if n <= id < n + steps.len() {
        Some(step_shape(steps[id - n]))
    } else {
        None
    }
}

/// A reference to construct `id` where a construct of variant `want` is expected.
pub open spec fn check_ref(n: nat, steps: Seq<Step>, id: VarId, want: Shape) -> Result<
    (),
    BuildError,
> {
    match shape_at(n, steps, id as int) {
        None => Err(BuildError::Missing(id)),
        Some(s) => if s == want {
            Ok(())
        } else if want == Shape::Point {
            Err(BuildError::NotAPoint(id))
        } else {
            Err(BuildError::NotALine(id))
        },
    }
}

/// The variants that a step expects of what it references.
pub open spec fn step_refs(step: Step) -> (VarId, Shape, VarId, Shape) {
    match step {
        Step::LineSectPoints(a, b) => (a, Shape::Point, b, Shape::Point),
        Step::CircAtSect(a, b) => (a, Shape::Point, b, Shape::Point),
        Step::LineSectPerp(a, b) => (a, Shape::Point, b, Shape::Line),
    }
}

/// Whether `step` may follow `steps` in a definition of `n` inputs: it
/// references only earlier constructs, each of the variant it expects.
pub open spec fn check_step(n: nat, steps: Seq<Step>, step: Step) -> Result<(), BuildError> {
    let (a, sa, b, sb) = step_refs(step);
    match check_ref(n, steps, a, sa) {
        Err(e) => Err(e),
        Ok(_) => check_ref(n, steps, b, sb),
    }
}

/// Every step of the list passes `check_step` against the steps before it.
pub open spec fn steps_fit(n: nat, steps: Seq<Step>) -> bool {
    forall|k: int| 0 <= k < steps.len() ==> (#[trigger] check_step(n, steps.subrange(0, k), steps[k])) is Ok
}

/// A successful rebuild holds one construct per input and one per step.
pub proof fn lemma_run_steps_len(cs: Seq<Construct>, steps: Seq<Step>)
    requires
        run_steps(cs, steps) is Ok,
    ensures
        run_steps(cs, steps)->Ok_0.len() == cs.len() + steps.len(),
    decreases steps.len(),
{
    if steps.len() > 0 {
        lemma_run_steps_len(cs, steps.drop_last());
    }
}

/// A rebuild that succeeds yields exactly `inputs.len() + steps.len()`
/// constructs, the first of them the input points in order.
pub proof fn lemma_rebuild_len(inputs: Seq<Input>, steps: Seq<Step>)
    requires
        rebuild_spec(inputs, steps) is Ok,
    ensures
        rebuild_spec(inputs, steps)->Ok_0.len() == inputs.len() + steps.len(),
        rebuild_spec(inputs, steps)->Ok_0.subrange(0, inputs.len() as int) == input_points(inputs),
{
    lemma_run_steps_len(input_points(inputs), steps);
    lemma_run_steps_prefix(input_points(inputs), steps);
}

proof fn lemma_run_steps_prefix(cs: Seq<Construct>, steps: Seq<Step>)
    requires
        run_steps(cs, steps) is Ok,
    ensures
        run_steps(cs, steps)->Ok_0.subrange(0, cs.len() as int) == cs,
    decreases steps.len(),
{
    if steps.len() > 0 {
        lemma_run_steps_prefix(cs, steps.drop_last());
        lemma_run_steps_len(cs, steps.drop_last());
        let prev = run_steps(cs, steps.drop_last())->Ok_0;
        assert(run_steps(cs, steps)->Ok_0.subrange(0, cs.len() as int) =~= prev.subrange(
            0,
            cs.len() as int,
        ));
    } else {
        assert(cs.subrange(0, cs.len() as int) =~= cs);
    }
}

/// A definition whose every step passed `check_step` always rebuilds: the
/// rebuild succeeds, and construct `k` has the variant that `shape_at` gives.
pub proof fn lemma_checked_steps_rebuild(inputs: Seq<Input>, steps: Seq<Step>)
    requires
        steps_fit(inputs.len(), steps),
    ensures
        rebuild_spec(inputs, steps) is Ok,
        rebuild_spec(inputs, steps)->Ok_0.len() == inputs.len() + steps.len(),
        forall|k: int|
            0 <= k < inputs.len() + steps.len() ==> shape_of(
                #[trigger] rebuild_spec(inputs, steps)->Ok_0[k],
            ) == shape_at(inputs.len(), steps, k)->Some_0,
    decreases steps.len(),
{
    let n = inputs.len();
    let base = input_points(inputs);
    if steps.len() == 0 {
        assert forall|k: int| 0 <= k < n + steps.len() implies shape_of(
            #[trigger] rebuild_spec(inputs, steps)->Ok_0[k],
        ) == shape_at(n, steps, k)->Some_0 by {
            assert(base[k] == Construct::Point(inputs[k].pos));
        }
    } else {
        let before = steps.drop_last();
        let m = before.len();
        assert forall|k: int| 0 <= k < before.len() implies (#[trigger] check_step(
            n,
            before.subrange(0, k),
            before[k],
        )) is Ok by {
            assert(before.subrange(0, k) =~= steps.subrange(0, k));
            assert(check_step(n, steps.subrange(0, k), steps[k]) is Ok);
        }
        lemma_checked_steps_rebuild(inputs, before);
        let prev = rebuild_spec(inputs, before)->Ok_0;
        let step = steps.last();
        assert(steps.subrange(0, m as int) =~= before);
        assert(check_step(n, steps.subrange(0, m as int), steps[m as int]) is Ok);
        let (a, sa, b, sb) = step_refs(step);
        assert(shape_of(prev[a as int]) == sa);
        assert(shape_of(prev[b as int]) == sb);
        assert(step_spec(prev, step) is Ok);
        let c = step_spec(prev, step)->Ok_0;
        assert(shape_of(c) == step_shape(step));
        assert forall|k: int| 0 <= k < n + steps.len() implies shape_of(
            #[trigger] rebuild_spec(inputs, steps)->Ok_0[k],
        ) == shape_at(n, steps, k)->Some_0 by {
            if k < n + m {
                assert(prev.push(c)[k] == prev[k]);
                if k >= n {
                    assert(steps[k - n] == before[k - n]);
                }
            }
        }
    }
}

/// The first input near the pointer, if any.
pub open spec fn pick_spec(inputs: Seq<Input>, p: Vec2) -> Option<usize> {
    if exists|i: int| first_near(inputs, p, i) {
        Some((choose|i: int| first_near(inputs, p, i)) as usize)
    } else {
        None
    }
}

/// A projection that fell out of range leaves the point where it was.
pub open spec fn or_keep(o: Option<Vec2>, prev: Vec2) -> Vec2 {
    match o {
        Some(p) => p,
        None => prev,
    }
}

/// Where `input` goes when the pointer drags it to `p`, given the diagram `cs`.
pub open spec fn reposition_spec(input: Input, p: Vec2, cs: Seq<Construct>) -> Result<
    Vec2,
    BuildError,
> {
    match input.kind {
        InputKind::Free => Ok(p),
        InputKind::Sect(id) => match construct_at(cs, id) {
            Err(e) => Err(e),
            Ok(Construct::Point(q)) => Ok(q),
            Ok(Construct::Line(l)) => Ok(or_keep(project_line_spec(l, p), input.pos)),
            Ok(Construct::Circle(c)) => Ok(or_keep(project_circle_spec(c, p, input.pos), input.pos)),
        },
    }
}

/// The inputs after one tick: the held input, while the button is down,
/// follows the pointer.
pub open spec fn drag_spec(
    inputs: Seq<Input>,
    cs: Seq<Construct>,
    sel: Option<usize>,
    ptr: Pointer,
) -> Result<Seq<Input>, BuildError> {
    if !ptr.held {
        Ok(inputs)
    } else {
        match sel {
            None => Ok(inputs),
            Some(i) => match reposition_spec(inputs[i as int], ptr.pos, cs) {
                Err(e) => Err(e),
                Ok(q) => Ok(inputs.update(i as int, Input { pos: q, kind: inputs[i as int].kind })),
            },
        }
    }
}

/// The held input after one tick: released with the button, and picked
/// afresh while the button is up.
pub open spec fn next_selection(inputs: Seq<Input>, sel: Option<usize>, ptr: Pointer) -> Option<
    usize,
> {
    if ptr.held {
        sel
    } else {
        pick_spec(inputs, ptr.pos)
    }
}

/// The first input within the pick radius of the pointer, in input order.
pub fn pick_input(inputs: &Vec<Input>, pointer: Vec2) -> (r: Option<usize>)
    requires
        inputs_in_range(inputs@),
        in_range(pointer),
    ensures
        r == pick_spec(inputs@, pointer),
        r matches Some(i) ==> first_near(inputs@, pointer, i as int),
        r is None ==> forall|j: int| 0 <= j < inputs.len() ==> !near(pointer, #[trigger] inputs@[j].pos),
{
    let mut i: usize = 0;
    while i < inputs.len()
        invariant
            i <= inputs.len(),
            inputs_in_range(inputs@),
            in_range(pointer),
            forall|j: int| 0 <= j < i ==> !near(pointer, #[trigger] inputs@[j].pos),
        decreases inputs.len() - i,
    {
        let q = inputs[i].pos;
        assert(in_range(inputs@[i as int].pos));
        let dx = (q.x as i128) - (pointer.x as i128);
        let dy = (q.y as i128) - (pointer.y as i128);
        assert(0 <= dx * dx <= 4_000_000_000_000_000_000 && 0 <= dy * dy
            <= 4_000_000_000_000_000_000)
            by (nonlinear_arith)
            requires
                -2_000_000_000 <= dx <= 2_000_000_000,
                -2_000_000_000 <= dy <= 2_000_000_000,
        ;
        let radius = PICK_RADIUS as i128;
        assert(radius * radius == 476_100) by (nonlinear_arith)
            requires
                radius == 690,
        ;
        if dx * dx + dy * dy < radius * radius {
            proof {
                assert(first_near(inputs@, pointer, i as int));
                let c = choose|k: int| first_near(inputs@, pointer, k);
                assert(c == i as int) by {
                    if c < i {
                        assert(!near(pointer, inputs@[c].pos));
                    } else if c > i {
                        assert(!near(pointer, inputs@[i as int].pos));
                    }
                }
            }
            return Some(i);
        }
        i += 1;
    }
    None
}

/// Where `input` goes when the pointer drags it to `pointer`, given the
/// current diagram.
pub fn reposition(input: &Input, pointer: Vec2, constructs: &Vec<Construct>) -> (r: Result<
    Vec2,
    BuildError,
>)
    requires
        in_range(input.pos),
        in_range(pointer),
        constructs_ok(constructs@),
    ensures
        r == reposition_spec(*input, pointer, constructs@),
        r matches Ok(q) ==> in_range(q),
{
    match input.kind {
        InputKind::Free => Ok(pointer),
        InputKind::Sect(id) => {
            if id >= constructs.len() {
                return Err(BuildError::Missing(id));
            }
            proof {
                assert(construct_ok(constructs@[id as int]));
            }
            match constructs[id] {
                Construct::Point(q) => Ok(q),
                Construct::Line(l) => match project_line(l, pointer) {
                    Some(q) => Ok(q),
                    None => Ok(input.pos),
                },
                Construct::Circle(c) => match project_circle(c, pointer, input.pos) {
                    Some(q) => Ok(q),
                    None => Ok(input.pos),
                },
            }
        },
    }
}

/// The diagram depends on the input positions and the steps alone: inputs at
/// the same positions rebuild to the same diagram, so rebuilding again with no
/// position changed yields the same constructs.
pub proof fn lemma_rebuild_same_positions(a: Seq<Input>, b: Seq<Input>, steps: Seq<Step>)
    requires
        a.len() == b.len(),
        forall|k: int| 0 <= k < a.len() ==> (#[trigger] a[k]).pos == b[k].pos,
    ensures
        rebuild_spec(a, steps) == rebuild_spec(b, steps),
{
    assert(input_points(a) =~= input_points(b));
}

/// A circle through a point has as radius the distance, rounded down, from
/// its centre to that point: never negative, its square at most the squared
/// distance, and the square of one more above it.
pub proof fn lemma_circle_through_point(cs: Seq<Construct>, at: VarId, sect: VarId)
    requires
        constructs_ok(cs),
        step_spec(cs, Step::CircAtSect(at, sect)) is Ok,
    ensures
        ({
            let c = point_at(cs, at)->Ok_0;
            let p = point_at(cs, sect)->Ok_0;
            match step_spec(cs, Step::CircAtSect(at, sect))->Ok_0 {
                Construct::Circle(circ) => circ.pos == c && circ.radius >= 0 && is_root(
                    dist_sq(c, p),
                    circ.radius as int,
                ),
                _ => false,
            }
        }),
{
    let c = point_at(cs, at)->Ok_0;
    let p = point_at(cs, sect)->Ok_0;
    assert(construct_ok(cs[at as int]));
    assert(construct_ok(cs[sect as int]));
    lemma_distance(c, p);
}

/// Whenever some input is near the pointer, an input is picked, and it is
/// that one or an earlier one; of two inputs near the pointer the later is
/// never picked.
pub proof fn lemma_pick_earliest(inputs: Seq<Input>, p: Vec2, i: int)
    requires
        0 <= i < inputs.len() <= usize::MAX,
        near(p, inputs[i].pos),
    ensures
        pick_spec(inputs, p) is Some,
        pick_spec(inputs, p)->Some_0 <= i,
        first_near(inputs, p, pick_spec(inputs, p)->Some_0 as int),
    decreases i,
{
    if exists|j: int| 0 <= j < i && near(p, #[trigger] inputs[j].pos) {
        let j = choose|j: int| 0 <= j < i && near(p, #[trigger] inputs[j].pos);
        lemma_pick_earliest(inputs, p, j);
    } else {
        assert(first_near(inputs, p, i));
        let c = choose|k: int| first_near(inputs, p, k);
        assert(c <= i) by {
            if c > i {
                assert(!near(p, inputs[i].pos));
            }
        }
    }
}

/// The inputs and steps of a construction together with the diagram last
/// derived from them and the input that the pointer holds, if any.
pub struct Builder {
    pub inputs: Vec<Input>,
    pub steps: Vec<Step>,
    /// The diagram as last rebuilt.
    pub constructs: Vec<Construct>,
    /// The input that the pointer holds.
    pub selected_input: Option<usize>,
}

impl Default for Builder {
    fn default() -> (r: Self)
        ensures
            r.inputs@ == Seq::<Input>::empty(),
            r.steps@ == Seq::<Step>::empty(),
            r.constructs@ == Seq::<Construct>::empty(),
            r.selected_input is None,
            r.wf(),
    {
        Self { inputs: Vec::new(), steps: Vec::new(), constructs: Vec::new(), selected_input: None }
    }
}

impl Builder {
    /// Positions within range, a diagram of well-formed constructs, and a held
    /// input that exists.
    pub open spec fn wf(&self) -> bool {
        &&& inputs_in_range(self.inputs@)
        &&& constructs_ok(self.constructs@)
        &&& (self.selected_input matches Some(i) ==> i < self.inputs.len())
    }

    fn get(&self, id: VarId) -> (r: Result<Construct, BuildError>)
        ensures
            r == construct_at(self.constructs@, id),
    {
        if id < self.constructs.len() {
            Ok(self.constructs[id])
        } else {
            Err(BuildError::Missing(id))
        }
    }

    fn get_point(&self, id: VarId) -> (r: Result<Vec2, BuildError>)
        ensures
            r == point_at(self.constructs@, id),
    {
        match self.get(id) {
            Ok(Construct::Point(p)) => Ok(p),
            Ok(_) => Err(BuildError::NotAPoint(id)),
            Err(e) => Err(e),
        }
    }

    fn get_line(&self, id: VarId) -> (r: Result<Line, BuildError>)
        ensures
            r == line_at(self.constructs@, id),
    {
        match self.get(id) {
            Ok(Construct::Line(l)) => Ok(l),
            Ok(_) => Err(BuildError::NotALine(id)),
            Err(e) => Err(e),
        }
    }

    /// The construct that `step` derives from the current diagram.
    fn derive(&self, step: Step) -> (r: Result<Construct, BuildError>)
        requires
            constructs_ok(self.constructs@),
        ensures
            r == step_spec(self.constructs@, step),
            r matches Ok(c) ==> construct_ok(c),
    {
        match step {
            Step::LineSectPoints(a, b) => {
                let pa = match self.get_point(a) {
                    Ok(p) => p,
                    Err(e) => return Err(e),
                };
                let pb = match self.get_point(b) {
                    Ok(p) => p,
                    Err(e) => return Err(e),
                };
                Ok(Construct::Line(Line { pos: pa, dir: direction(pa, pb) }))
            },
            Step::CircAtSect(at, sect) => {
                let c = match self.get_point(at) {
                    Ok(p) => p,
                    Err(e) => return Err(e),
                };
                let p = match self.get_point(sect) {
                    Ok(p) => p,
                    Err(e) => return Err(e),
                };
                Ok(Construct::Circle(Circle { pos: c, radius: distance(c, p) }))
            },
            Step::LineSectPerp(at, perp) => {
                let p = match self.get_point(at) {
                    Ok(p) => p,
                    Err(e) => return Err(e),
                };
                let l = match self.get_line(perp) {
                    Ok(l) => l,
                    Err(e) => return Err(e),
                };
                Ok(Construct::Line(Line { pos: p, dir: Vec2 { x: -l.dir.y, y: l.dir.x } }))
            },
        }
    }

    /// A builder over the given inputs and steps, with an empty diagram and no
    /// input held.
    pub fn new(inputs: Vec<Input>, steps: Vec<Step>) -> (r: Self)
        requires
            inputs_in_range(inputs@),
        ensures
            r.inputs == inputs,
            r.steps == steps,
            r.constructs@ == Seq::<Construct>::empty(),
            r.selected_input is None,
            r.wf(),
    {
        Self { inputs, steps, constructs: Vec::new(), selected_input: None }
    }

    /// Derives the diagram afresh: one point per input, then one construct
    /// per step.
    pub fn build(&mut self) -> (r: Result<(), BuildError>)
        requires
            old(self).wf(),
        ensures
            final(self).wf(),
            final(self).inputs == old(self).inputs,
            final(self).steps == old(self).steps,
            final(self).selected_input == old(self).selected_input,
            match rebuild_spec(old(self).inputs@, old(self).steps@) {
                Ok(cs) => r is Ok && final(self).constructs@ == cs,
                Err(e) => r == Err::<(), BuildError>(e),
            },
    {
        self.constructs.clear();
        let mut i: usize = 0;
        while i < self.inputs.len()
            invariant
                self.inputs == old(self).inputs,
                self.steps == old(self).steps,
                self.selected_input == old(self).selected_input,
                inputs_in_range(self.inputs@),
                i <= self.inputs.len(),
                self.constructs@.len() == i,
                forall|k: int|
                    0 <= k < i ==> #[trigger] self.constructs@[k] == Construct::Point(
                        self.inputs@[k].pos,
                    ),
            decreases self.inputs.len() - i,
        {
            let pos = self.inputs[i].pos;
            self.constructs.push(Construct::Point(pos));
            i += 1;
        }
        let ghost base = input_points(self.inputs@);
        assert(self.constructs@ =~= base);
        assert(self.steps@.subrange(0, 0) =~= Seq::<Step>::empty());
        let mut j: usize = 0;
        while j < self.steps.len()
            invariant
                self.inputs == old(self).inputs,
                self.steps == old(self).steps,
                self.selected_input == old(self).selected_input,
                old(self).wf(),
                inputs_in_range(self.inputs@),
                base == input_points(self.inputs@),
                j <= self.steps.len(),
                constructs_ok(self.constructs@),
                run_steps(base, self.steps@.subrange(0, j as int)) == Ok::<
                    Seq<Construct>,
                    BuildError,
                >(self.constructs@),
            decreases self.steps.len() - j,
        {
            let step = self.steps[j];
            assert(self.steps@.subrange(0, j + 1).drop_last() =~= self.steps@.subrange(0, j as int));
            match self.derive(step) {
                Ok(c) => {
                    self.constructs.push(c);
                },
                Err(e) => {
                    proof {
                        lemma_run_steps_err(base, self.steps@, j + 1);
                    }
                    return Err(e);
                },
            }
            j += 1;
        }
        assert(self.steps@.subrange(0, j as int) =~= self.steps@);
        Ok(())
    }
    /// The variant of construct `id` as the definition fixes it.
    fn shape_at(&self, id: VarId) -> (r: Option<Shape>)
        ensures
            r == shape_at(self.inputs.len() as nat, self.steps@, id as int),
    {
        let n = self.inputs.len();
        if id < n {
            Some(Shape::Point)
        } else if id - n < self.steps.len() {
            Some(
                match self.steps[id - n] {
                    Step::LineSectPoints(_, _) => Shape::Line,
                    Step::CircAtSect(_, _) => Shape::Circle,
                    Step::LineSectPerp(_, _) => Shape::Line,
                },
            )
        } else {
            None
        }
    }

    fn check_ref(&self, id: VarId, want: Shape) -> (r: Result<(), BuildError>)
        ensures
            r == check_ref(self.inputs.len() as nat, self.steps@, id, want),
    {
        match self.shape_at(id) {
            None => Err(BuildError::Missing(id)),
            Some(s) => if s == want {
                Ok(())
            } else if want == Shape::Point {
                Err(BuildError::NotAPoint(id))
            } else {
                Err(BuildError::NotALine(id))
            },
        }
    }

    /// Appends an input and returns its index.
    pub fn add_input(&mut self, kind: InputKind, pos: Vec2) -> (r: VarId)
        requires
            old(self).wf(),
            in_range(pos),
        ensures
            final(self).wf(),
            r == old(self).inputs.len(),
            final(self).inputs@ == old(self).inputs@.push(Input { pos, kind }),
            final(self).steps == old(self).steps,
            final(self).constructs == old(self).constructs,
            final(self).selected_input == old(self).selected_input,
    {
        let r = self.inputs.len();
        self.inputs.push(Input { pos, kind });
        r
    }

    /// Appends a step after checking that it references only existing
    /// constructs of the variants it expects; returns the index of the
    /// construct it derives.
    pub fn add_step(&mut self, step: Step) -> (r: Result<VarId, BuildError>)
        requires
            old(self).wf(),
            old(self).inputs.len() + old(self).steps.len() < usize::MAX,
        ensures
            final(self).wf(),
            final(self).inputs == old(self).inputs,
            final(self).constructs == old(self).constructs,
            final(self).selected_input == old(self).selected_input,
            match check_step(old(self).inputs.len() as nat, old(self).steps@, step) {
                Ok(_) => r == Ok::<VarId, BuildError>(
                    (old(self).inputs.len() + old(self).steps.len()) as VarId,
                ) && final(self).steps@ == old(self).steps@.push(step),
                Err(e) => r == Err::<VarId, BuildError>(e) && final(self).steps == old(self).steps,
            },
            steps_fit(old(self).inputs.len() as nat, old(self).steps@) ==> steps_fit(
                final(self).inputs.len() as nat,
                final(self).steps@,
            ),
    {
        let (a, sa, b, sb) = match step {
            Step::LineSectPoints(a, b) => (a, Shape::Point, b, Shape::Point),
            Step::CircAtSect(a, b) => (a, Shape::Point, b, Shape::Point),
            Step::LineSectPerp(a, b) => (a, Shape::Point, b, Shape::Line),
        };
        if let Err(e) = self.check_ref(a, sa) {
            return Err(e);
        }
        if let Err(e) = self.check_ref(b, sb) {
            return Err(e);
        }
        let id = self.inputs.len() + self.steps.len();
        let ghost n = self.inputs.len() as nat;
        self.steps.push(step);
        proof {
            let s = self.steps@;
            assert forall|k: int| 0 <= k < old(self).steps@.len() && steps_fit(n, old(self).steps@) implies (#[trigger] check_step(
                n,
                s.subrange(0, k),
                s[k],
            )) is Ok by {
                assert(s.subrange(0, k) =~= old(self).steps@.subrange(0, k));
                assert(check_step(n, old(self).steps@.subrange(0, k), old(self).steps@[k]) is Ok);
            }
            assert(s.subrange(0, old(self).steps@.len() as int) =~= old(self).steps@);
        }
        Ok(id)
    }

    /// One tick of interaction: release or drag the held input, pick an input
    /// while the button is up, then rebuild the diagram.
    pub fn update(&mut self, pointer: Pointer) -> (r: Result<(), BuildError>)
        requires
            old(self).wf(),
            in_range(pointer.pos),
        ensures
            final(self).wf(),
            final(self).steps == old(self).steps,
            match drag_spec(old(self).inputs@, old(self).constructs@, old(self).selected_input, pointer) {
                Err(e) => r == Err::<(), BuildError>(e) && final(self).inputs == old(self).inputs,
                Ok(ins) => {
                    &&& final(self).inputs@ == ins
                    &&& final(self).selected_input == next_selection(ins, old(self).selected_input, pointer)
                    &&& match rebuild_spec(ins, old(self).steps@) {
                        Ok(cs) => r is Ok && final(self).constructs@ == cs,
                        Err(e) => r == Err::<(), BuildError>(e),
                    }
                },
            },
    {
        if !pointer.held {
            self.selected_input = None;
        } else if let Some(i) = self.selected_input {
            let q = match reposition(&self.inputs[i], pointer.pos, &self.constructs) {
                Ok(q) => q,
                Err(e) => return Err(e),
            };
            self.inputs[i].pos = q;
            proof {
                assert(self.inputs@ =~= old(self).inputs@.update(
                    i as int,
                    Input { pos: q, kind: old(self).inputs@[i as int].kind },
                ));
            }
        }
        if !pointer.held {
            self.selected_input = pick_input(&self.inputs, pointer.pos);
        }
        self.build()
    }
}

} // verus!