use optimizers::{zero_gradient, AxisLog, Direction, PatternHost, PatternOutcome, Residual};
use rand::rngs::StdRng;
use rand::SeedableRng;
use rand_distr::{Distribution, Uniform};

/// Runs the search on `host` and hands the host back.
fn search<H: PatternHost>(host: H, dims: usize, min_exponent: i64, max_exponent: i64) -> (PatternOutcome, H) {
    let mut log = AxisLog::new(host);
    let out = zero_gradient(&mut log, dims, min_exponent, max_exponent);
    (out, log.into_inner())
}

fn residual_of(value: f32) -> Residual {
    Residual::from_bits(value.to_bits())
}

fn value_of(residual: Residual) -> f32 {
    f32::from_bits(residual.to_bits())
}

fn clamp_unit(value: f32) -> f32 {
    if value > 1.0 {
        1.0
    } else if value < 0.0 {
        0.0
    } else {
        value
    }
}

/// Smallest `e` with `jump * 2^e >= floor`.
fn least_exponent(jump: f32, floor: f32) -> i64 {
    let mut e: i64 = 0;
    while jump * 2f32.powi(e as i32) < floor {
        e += 1;
    }
    while jump * 2f32.powi((e - 1) as i32) >= floor {
        e -= 1;
    }
    e
}

/// An anchor point in the unit cube and the objective over the box `bounds`.
struct FloatAxis {
    bounds: Vec<[f32; 2]>,
    anchor: Vec<f32>,
    left: f32,
    right: f32,
    jump: f32,
    objective: fn(&[f32]) -> f32,
    probes: Vec<(usize, f32)>,
}

impl FloatAxis {
    fn new(bounds: &[[f32; 2]], start: Vec<f32>, jump: f32, objective: fn(&[f32]) -> f32) -> FloatAxis {
        FloatAxis { bounds: bounds.to_vec(), anchor: start, left: 0.0, right: 0.0, jump, objective, probes: Vec::new() }
    }

    fn domain(&self, unit: &[f32]) -> Vec<f32> {
        unit.iter().zip(&self.bounds).map(|(u, b)| b[0] + u * (b[1] - b[0])).collect()
    }
}

impl PatternHost for FloatAxis {
    fn evaluate(&mut self) -> Residual {
        residual_of((self.objective)(&self.domain(&self.anchor)))
    }

    fn probe(&mut self, dim: usize, direction: Direction, exponent: i64) -> Residual {
        let step = self.jump * 2f32.powi(exponent as i32);
        let candidate = match direction {
            Direction::Left => clamp_unit(self.anchor[dim] - step),
            Direction::Right => clamp_unit(self.anchor[dim] + step),
        };
        match direction {
            Direction::Left => self.left = candidate,
            Direction::Right => self.right = candidate,
        }
        self.probes.push((dim, candidate));
        let mut point = self.anchor.clone();
        point[dim] = candidate;
        residual_of((self.objective)(&self.domain(&point)))
    }

    fn on_boundary(&self, direction: Direction) -> bool {
        let candidate = match direction {
            Direction::Left => self.left,
            Direction::Right => self.right,
        };
        candidate == 0.0 || candidate == 1.0
    }

    fn accept(&mut self, dim: usize, direction: Direction) {
        self.anchor[dim] = match direction {
            Direction::Left => self.left,
            Direction::Right => self.right,
        };
    }
}

fn sphere(x: &[f32]) -> f32 {
    x.iter().map(|v| v * v).sum()
}

fn shifted_square(x: &[f32]) -> f32 {
    (x[0] - 0.3) * (x[0] - 0.3)
}

fn random_start(dims: usize, seed: u64) -> Vec<f32> {
    let mut rng = StdRng::seed_from_u64(seed);
    let unit = Uniform::new_inclusive(0.0f32, 1.0).unwrap();
    (0..dims).map(|_| unit.sample(&mut rng)).collect()
}

#[test]
fn exponents_of_jump() {
    assert_eq!(least_exponent(0.1, 1.0), 4);
    assert_eq!(least_exponent(0.5, 1.0), 1);
    assert_eq!(least_exponent(1.0, 1.0), 0);
    assert_eq!(least_exponent(0.1, f32::EPSILON), -19);
}

#[test]
fn sphere_one_pass_never_worse_than_start() {
    let bounds = [[-10.0f32, 10.0], [-10.0, 10.0]];
    let jump = 0.1;
    let start = random_start(2, 7);
    let host = FloatAxis::new(&bounds, start.clone(), jump, sphere);
    let start_value = sphere(&host.domain(&start));
    let (out, host) = search(host, 2, least_exponent(jump, f32::EPSILON), least_exponent(jump, 1.0));
    let end = value_of(out.residual);
    assert!(end <= start_value, "{} > {}", end, start_value);
    assert_eq!(out.values[0], residual_of(start_value));
    assert_eq!(out.nfev as usize, out.values.len());
    assert_eq!(out.nfev as usize, host.probes.len() + 1);
    // the axes are visited once each, in order
    let dims: Vec<usize> = host.probes.iter().map(|p| p.0).collect();
    assert!(dims.windows(2).all(|w| w[0] <= w[1]));
    assert_eq!(dims.first(), Some(&0));
    assert_eq!(dims.last(), Some(&1));
    for k in 1..out.states.len() {
        assert!(out.states[k].running.at_most(&out.states[k - 1].running));
        assert!(out.states[k].dim == out.states[k - 1].dim || out.states[k].dim == out.states[k - 1].dim + 1);
    }
    assert!(out.states.last().unwrap().is_done());
    // the final residual is the least value evaluated
    assert!(out.values.iter().all(|v| out.residual.at_most(v)));
    assert_eq!(out.states.iter().filter(|s| s.dim == 0).count() >= 3, true);
    assert!(end < 1.0e-3, "{}", end);
    // per axis: top exponent 4, halvings from -19 to 4
    let axis_budget = 4 + 3 + 2 * (4 + 19 + 1);
    assert!(out.values.len() <= 1 + 2 * axis_budget);
}

#[test]
fn one_dimension_finds_shifted_minimum() {
    let bounds = [[0.0f32, 1.0]];
    let jump = 0.05;
    let host = FloatAxis::new(&bounds, random_start(1, 7), jump, shifted_square);
    let (out, host) = search(host, 1, least_exponent(jump, f32::EPSILON), least_exponent(jump, 1.0));
    assert!((host.anchor[0] - 0.3).abs() <= 1.0e-3, "{}", host.anchor[0]);
    assert!(value_of(out.residual) <= 1.0e-6);
}

#[test]
fn one_dimension_from_each_side() {
    for start in [0.0f32, 0.05, 0.9, 1.0] {
        let host = FloatAxis::new(&[[0.0, 1.0]], vec![start], 0.05, shifted_square);
        let (_, host) = search(host, 1, least_exponent(0.05, f32::EPSILON), least_exponent(0.05, 1.0));
        assert!((host.anchor[0] - 0.3).abs() <= 1.0e-3, "from {}: {}", start, host.anchor[0]);
    }
}

#[test]
fn zero_dimensions_evaluate_once() {
    let host = FloatAxis::new(&[], vec![], 0.1, sphere);
    let (out, _host) = search(host, 0, -19, 4);
    assert_eq!(out.nfev, 1);
    assert_eq!(out.residual, residual_of(0.0));
}

/// Answers probes from a script and records the calls.
struct ScriptedAxis {
    answers: Vec<i64>,
    next: usize,
    accepted: Vec<Direction>,
    exponents: Vec<i64>,
}

impl PatternHost for ScriptedAxis {
    fn evaluate(&mut self) -> Residual {
        Residual::Level(100)
    }

    fn probe(&mut self, _dim: usize, _direction: Direction, exponent: i64) -> Residual {
        self.exponents.push(exponent);
        let v = self.answers[self.next.min(self.answers.len() - 1)];
        self.next += 1;
        Residual::Level(v)
    }

    fn on_boundary(&self, _direction: Direction) -> bool {
        false
    }

    fn accept(&mut self, _dim: usize, direction: Direction) {
        self.accepted.push(direction);
    }
}

#[test]
fn center_best_keeps_anchor() {
    // both probes are worse at every scale: only the bracketing pair is spent
    let host = ScriptedAxis { answers: vec![200], next: 0, accepted: Vec::new(), exponents: Vec::new() };
    let (out, host) = search(host, 1, -3, 4);
    assert_eq!(out.nfev, 3);
    assert!(host.accepted.is_empty());
    assert_eq!(out.residual, Residual::Level(100));
}

#[test]
fn expansion_then_refinement_schedule() {
    // left 90, right 95: go left; expansion 80 (e=1), 85 worse (e=2) stops;
    // overshoot at e=1 gives 79; bisection from e=0 with both sides worse
    // down to the smallest exponent, then the follow-up finds nothing left
    let answers = vec![90, 95, 80, 85, 79, 500];
    let host = ScriptedAxis { answers, next: 0, accepted: Vec::new(), exponents: Vec::new() };
    let (out, host) = search(host, 1, -2, 4);
    assert_eq!(host.exponents, vec![0, 0, 1, 2, 1, 0, 0, -1, -1, -2, -2]);
    assert_eq!(host.accepted, vec![Direction::Left, Direction::Left, Direction::Left]);
    assert_eq!(out.residual, Residual::Level(79));
    assert_eq!(out.nfev, 12);
    assert_eq!(
        out.states.iter().map(|s| s.running).collect::<Vec<_>>(),
        vec![100, 100, 90, 80, 80, 79, 79, 79, 79, 79, 79, 79].into_iter().map(Residual::Level).collect::<Vec<_>>()
    );
}
