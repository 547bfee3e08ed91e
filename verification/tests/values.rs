use calc::value::Value;

#[test]
fn addition_aligns_scales() {
    let a = Value::new(15, 1);
    let b = Value::new(25, 2);
    assert_eq!(a.checked_add(b), Some(Value::new(175, 2)));
    assert_eq!(b.checked_add(a), Some(Value::new(175, 2)));
}

#[test]
fn subtraction_is_oriented() {
    let a = Value::new(1, 0);
    let b = Value::new(25, 1);
    assert_eq!(a.checked_sub(b), Some(Value::new(-15, 1)));
    assert_eq!(b.checked_sub(a), Some(Value::new(15, 1)));
}

#[test]
fn multiplication_adds_scales() {
    let a = Value::new(5, 1);
    let b = Value::new(5, 1);
    assert_eq!(a.checked_mul(b), Some(Value::new(25, 2)));
}

#[test]
fn zero_mantissa_absorbs_any_scale_gap() {
    let zero = Value::new(0, 0);
    let tiny = Value::new(5, 100);
    assert_eq!(zero.checked_add(tiny), Some(Value::new(5, 100)));
    assert_eq!(tiny.checked_sub(zero), Some(Value::new(5, 100)));
}

#[test]
fn sum_out_of_range_is_refused() {
    let top = Value::new(i64::MAX, 0);
    let one = Value::new(1, 0);
    assert_eq!(top.checked_add(one), None);
    assert_eq!(top.checked_sub(one), Some(Value::new(i64::MAX - 1, 0)));
}

#[test]
fn difference_out_of_range_is_refused() {
    let bottom = Value::new(i64::MIN, 0);
    let one = Value::new(1, 0);
    assert_eq!(bottom.checked_sub(one), None);
    assert_eq!(bottom.checked_add(one), Some(Value::new(i64::MIN + 1, 0)));
}

#[test]
fn wide_scale_gap_with_nonzero_mantissa_is_refused() {
    let a = Value::new(1, 0);
    let b = Value::new(1, 25);
    assert_eq!(a.checked_add(b), None);
    assert_eq!(a.checked_sub(b), None);
}

#[test]
fn product_out_of_range_is_refused() {
    let big = Value::new(4000000000, 0);
    assert_eq!(big.checked_mul(big), None);
    let top_scale = Value::new(1, u32::MAX);
    assert_eq!(top_scale.checked_mul(Value::new(1, 1)), None);
    assert_eq!(top_scale.checked_mul(Value::new(1, 0)), Some(Value::new(1, u32::MAX)));
}
