use neco::Complex;

#[test]
fn complex_arithmetic_preserves_components() {
    let left = Complex::new(1.0_f64, 2.0);
    let right = Complex::new(3.0_f64, -1.0);
    assert_eq!(left + right, Complex::new(4.0, 1.0));
    assert_eq!(left - right, Complex::new(-2.0, 3.0));
    assert_eq!(left * right, Complex::new(5.0, 5.0));
    assert_eq!(left.conjugate(), Complex::new(1.0, -2.0));
}

#[test]
fn division_recovers_the_input_value() {
    let value = Complex::new(1.0_f64, 2.0);
    let factor = Complex::new(3.0_f64, -1.0);
    assert_eq!((value * factor) / factor, value);
}

#[test]
fn norm_squared_is_available_in_each_runtime_configuration() {
    assert_eq!(Complex::new(3.0_f64, 4.0).norm_squared(), 25.0);
}

#[test]
fn components_are_observed_and_replaced_through_methods() {
    let mut value = Complex::new(1.0_f64, -2.0);
    assert_eq!(value.real_value(), 1.0);
    assert_eq!(value.imaginary_value(), -2.0);
    value.set_real(3.0);
    value.set_imaginary(4.0);
    assert_eq!(value.into_parts(), (3.0, 4.0));
}

#[test]
fn integer_components_follow_the_component_operators() {
    let left = Complex::new(2_i64, -3);
    let right = Complex::new(-1_i64, 4);
    assert_eq!(left + right, Complex::new(1, 1));
    assert_eq!(left * right, Complex::new(10, 11));
    assert_eq!(-left, Complex::new(-2, 3));
    assert_eq!(left * 3, Complex::new(6, -9));
    assert_eq!(Complex::new(6_i64, -9) / 3, Complex::new(2, -3));
    assert_eq!(*left.real_part(), 2);
    assert_eq!(*left.imaginary(), -3);
    assert_eq!(left.norm_squared(), 13);
}
