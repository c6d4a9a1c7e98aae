use optimizers::{Residual, StopRule, INFINITE_LEVEL};

fn residual_of(value: f32) -> Residual {
    Residual::from_bits(value.to_bits())
}

fn value_of(residual: Residual) -> f32 {
    f32::from_bits(residual.to_bits())
}

fn sum_of_squares(x: &[f32]) -> f32 {
    x.iter().map(|v| v * v).sum()
}

fn stops(rule: &StopRule, value: f32) -> bool {
    rule.should_stop(residual_of(value))
}

#[test]
fn levels_follow_float_order() {
    let samples = [
        f32::NEG_INFINITY,
        -1.0e30,
        -2.5,
        -1.0e-40,
        0.0,
        1.0e-40,
        1.0e-4,
        0.5,
        3.0,
        f32::MAX,
        f32::INFINITY,
    ];
    for i in 0..samples.len() {
        for j in 0..samples.len() {
            let (a, b) = (residual_of(samples[i]), residual_of(samples[j]));
            assert_eq!(a.less_than(&b), samples[i] < samples[j], "{} < {}", samples[i], samples[j]);
            assert_eq!(a.at_most(&b), samples[i] <= samples[j], "{} <= {}", samples[i], samples[j]);
        }
    }
}

#[test]
fn exact_levels() {
    assert_eq!(residual_of(0.0), Residual::Level(0));
    assert_eq!(residual_of(-0.0), Residual::Level(0));
    assert_eq!(residual_of(1.0), Residual::Level(0x3f80_0000));
    assert_eq!(residual_of(-1.0), Residual::Level(-0x3f80_0000));
    assert_eq!(residual_of(f32::INFINITY), Residual::Level(INFINITE_LEVEL));
    assert_eq!(residual_of(f32::NEG_INFINITY), Residual::Level(-INFINITE_LEVEL));
    assert_eq!(residual_of(f32::NAN), Residual::Unordered);
    assert_eq!(Residual::from_bits(0xffc0_0000), Residual::Unordered);
}

#[test]
fn infinite_sentinel() {
    assert!(Residual::infinite().is_infinite());
    assert!(residual_of(f32::INFINITY).is_infinite());
    assert!(!residual_of(f32::MAX).is_infinite());
    assert!(!Residual::Unordered.is_infinite());
}

#[test]
fn unordered_never_compares() {
    let nan = residual_of(f32::NAN);
    let one = residual_of(1.0);
    assert!(!nan.less_than(&one));
    assert!(!one.less_than(&nan));
    assert!(!nan.at_most(&nan));
}

#[test]
fn bits_round_trip() {
    for value in [0.0f32, 1.5, -3.25, 1.0e-42, -7.0e20, f32::INFINITY, f32::NEG_INFINITY] {
        assert_eq!(value_of(residual_of(value)).to_bits(), value.to_bits());
    }
    assert_eq!(value_of(residual_of(-0.0)).to_bits(), 0.0f32.to_bits());
    assert!(value_of(Residual::Unordered).is_nan());
    assert_eq!(Residual::Level(-5).to_bits(), 0x8000_0005);
}

#[test]
fn test_new_stores_values() {
    let rule = StopRule::new(residual_of(1.0));
    assert_eq!(rule.stop_residual, residual_of(1.0));
    assert!(!stops(&rule, sum_of_squares(&[2.0, 0.0])));
    assert!(stops(&rule, sum_of_squares(&[1.0, 0.0])));
}

#[test]
fn test_should_stop_exact_threshold() {
    let rule = StopRule::new(residual_of(5.0));
    let x = [2.0, 1.0];
    assert!(stops(&rule, sum_of_squares(&x)), "should stop when value equals threshold");
}

#[test]
fn test_should_stop_above_threshold() {
    let rule = StopRule::new(residual_of(3.0));
    let x = [2.0, 1.0];
    assert!(
        !stops(&rule, sum_of_squares(&x)),
        "should NOT stop when value is greater than threshold"
    );
}

#[test]
fn test_should_stop_below_threshold() {
    let rule = StopRule::new(residual_of(10.0));
    let x = [1.0, 2.0];
    assert!(stops(&rule, sum_of_squares(&x)), "should stop when value is below threshold");
}

#[test]
fn test_using_closure_that_captures_state() {
    let scale = 2.0_f32;
    let objective = move |x: &[f32]| scale * sum_of_squares(x);
    let rule = StopRule::new(residual_of(8.0));
    let x = [2.0, 0.0];
    assert!(stops(&rule, objective(&x)), "closure that captures state should work");
}

#[test]
fn test_using_function_pointer() {
    let objective = sum_of_squares as fn(&[f32]) -> f32;
    let rule = StopRule::new(residual_of(4.0));
    let x = [2.0, 0.0];
    assert!(stops(&rule, objective(&x)));
}

#[test]
#[should_panic(expected = "panic")]
fn test_should_stop_panics_if_function_panics() {
    let objective = |_x: &[f32]| -> f32 { panic!("panic!") };
    let rule = StopRule::new(residual_of(0.0));
    stops(&rule, objective(&[0.0, 0.0]));
}

#[test]
fn nan_never_stops() {
    let rule = StopRule::new(residual_of(1.0));
    assert!(!stops(&rule, f32::NAN));
    let never = StopRule::new(Residual::Unordered);
    assert!(!stops(&never, -1.0e30));
}
