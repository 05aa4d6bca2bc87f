use calculator::{Calculator, DivideByZero, Operation};

#[test]
fn starts_at_zero() {
    assert_eq!(Calculator::new().value(), 0);
    assert_eq!(Calculator::default().value(), 0);
    assert_eq!(Calculator::with_value(17).value(), 17);
}

#[test]
fn add_wraps_modulo_256() {
    let mut calc = Calculator::new();
    assert_eq!(calc.apply(Operation::Add(200)), Ok(()));
    assert_eq!(calc.value(), 200);
    assert_eq!(calc.apply(Operation::Add(100)), Ok(()));
    assert_eq!(calc.value(), 44);
    assert_eq!(calc.apply(Operation::Add(212)), Ok(()));
    assert_eq!(calc.value(), 0);
}

#[test]
fn sub_wraps_below_zero() {
    let mut calc = Calculator::new();
    assert_eq!(calc.apply(Operation::Sub(1)), Ok(()));
    assert_eq!(calc.value(), 255);
    assert_eq!(calc.apply(Operation::Sub(255)), Ok(()));
    assert_eq!(calc.value(), 0);
    let mut calc = Calculator::with_value(5);
    assert_eq!(calc.apply(Operation::Sub(10)), Ok(()));
    assert_eq!(calc.value(), 251);
}

#[test]
fn mul_wraps_modulo_256() {
    let mut calc = Calculator::with_value(44);
    assert_eq!(calc.apply(Operation::Mul(2)), Ok(()));
    assert_eq!(calc.value(), 88);
    let mut calc = Calculator::with_value(200);
    assert_eq!(calc.apply(Operation::Mul(3)), Ok(()));
    assert_eq!(calc.value(), 88);
    let mut calc = Calculator::with_value(255);
    assert_eq!(calc.apply(Operation::Mul(255)), Ok(()));
    assert_eq!(calc.value(), 1);
    assert_eq!(calc.apply(Operation::Mul(0)), Ok(()));
    assert_eq!(calc.value(), 0);
}

#[test]
fn div_rounds_down() {
    let mut calc = Calculator::with_value(255);
    assert_eq!(calc.apply(Operation::Div(2)), Ok(()));
    assert_eq!(calc.value(), 127);
    assert_eq!(calc.apply(Operation::Div(128)), Ok(()));
    assert_eq!(calc.value(), 0);
    let mut calc = Calculator::with_value(9);
    assert_eq!(calc.apply(Operation::Div(1)), Ok(()));
    assert_eq!(calc.value(), 9);
    assert_eq!(calc.apply(Operation::Div(9)), Ok(()));
    assert_eq!(calc.value(), 1);
}

#[test]
fn divide_by_zero_is_reported_and_changes_nothing() {
    for v in 0..=255u8 {
        let mut calc = Calculator::with_value(v);
        assert_eq!(calc.apply(Operation::Div(0)), Err(DivideByZero));
        assert_eq!(calc.value(), v);
    }
}

#[test]
fn only_a_division_by_zero_fails() {
    for n in 0..=255u8 {
        let mut calc = Calculator::with_value(3);
        assert_eq!(calc.apply(Operation::Add(n)), Ok(()));
        assert_eq!(calc.apply(Operation::Sub(n)), Ok(()));
        assert_eq!(calc.apply(Operation::Mul(n)), Ok(()));
        assert_eq!(calc.apply(Operation::Div(n)).is_err(), n == 0);
    }
}

#[test]
fn add_then_sub_gives_the_value_back() {
    for v in 0..=255u8 {
        for n in 0..=255u8 {
            let mut calc = Calculator::with_value(v);
            assert_eq!(calc.apply(Operation::Add(n)), Ok(()));
            assert_eq!(calc.apply(Operation::Sub(n)), Ok(()));
            assert_eq!(calc.value(), v);
        }
    }
}

#[test]
fn sub_then_add_gives_the_value_back() {
    for v in 0..=255u8 {
        for n in 0..=255u8 {
            let mut calc = Calculator::with_value(v);
            assert_eq!(calc.apply(Operation::Sub(n)), Ok(()));
            assert_eq!(calc.apply(Operation::Add(n)), Ok(()));
            assert_eq!(calc.value(), v);
        }
    }
}

#[test]
fn every_step_agrees_with_arithmetic_modulo_256() {
    for v in 0..=255u32 {
        for n in 0..=255u32 {
            let (a, b) = (v as u8, n as u8);
            let mut calc = Calculator::with_value(a);
            let _ = calc.apply(Operation::Add(b));
            assert_eq!(calc.value() as u32, (v + n) % 256);
            let mut calc = Calculator::with_value(a);
            let _ = calc.apply(Operation::Sub(b));
            assert_eq!(calc.value() as u32, (v + 256 - n) % 256);
            let mut calc = Calculator::with_value(a);
            let _ = calc.apply(Operation::Mul(b));
            assert_eq!(calc.value() as u32, (v * n) % 256);
            let mut calc = Calculator::with_value(a);
            let _ = calc.apply(Operation::Div(b));
            assert_eq!(calc.value() as u32, if n == 0 { v } else { v / n });
        }
    }
}
