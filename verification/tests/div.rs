use box_core::{BoxValue, BoxVariant};

#[test]
fn div_test_div() {
    let dividend = BoxValue::from(6);
    let divisor = BoxValue::from(3);
    let quot = dividend / divisor;
    let exp = BoxValue::from(2);
    assert_eq!(quot, exp);

    let dividend = BoxVariant::from(6) - BoxVariant::alpha() - BoxVariant::alpha() * BoxVariant::alpha();
    let divisor = BoxVariant::from(3) + BoxVariant::alpha();
    let quot = dividend / divisor;
    let exp = BoxVariant::from(2) - BoxVariant::alpha();
    assert_eq!(quot, exp);

    let dividend = 2 * BoxVariant::alpha() * BoxVariant::alpha();
    let divisor = BoxVariant::alpha() * BoxVariant::alpha();
    let quot = dividend / divisor;
    let exp = BoxVariant::from(2_u32);
    assert_eq!(quot, exp);

    let dividend = 2 * BoxVariant::alpha() * BoxVariant::alpha();
    let divisor = BoxVariant::alpha();
    let quot = dividend / divisor;
    let exp = 2 * BoxVariant::alpha();
    assert_eq!(quot, exp);
}

#[test]
fn test_div_multi() {
    let dividend = BoxVariant::from(1_u32)
        + BoxVariant::beta(box_core::natural::Natural::from_u32(1))
            * BoxVariant::beta(box_core::natural::Natural::from_u32(2))
            * BoxVariant::beta(box_core::natural::Natural::from_u32(2));
    let divisor = BoxVariant::beta(box_core::natural::Natural::from_u32(2));
    let quot = dividend / divisor;
    let exp = BoxVariant::beta(box_core::natural::Natural::from_u32(1))
        * BoxVariant::beta(box_core::natural::Natural::from_u32(2));
    assert_eq!(quot, exp);
}

#[test]
fn test_div_rem() {
    let dividend = BoxVariant::from(6) - BoxVariant::alpha() - BoxVariant::alpha() * BoxVariant::alpha();
    let divisor = BoxVariant::alpha();
    let quot = dividend / divisor;
    let exp = BoxVariant::from(-1) - BoxVariant::alpha();
    assert_eq!(quot, exp);
}

#[test]
fn div_test_rem() {
    let dividend = 2 * BoxVariant::alpha() * BoxVariant::alpha();
    let divisor = BoxVariant::alpha();
    let rem = dividend % divisor;
    let exp = BoxVariant::zero();
    assert_eq!(rem, exp);

    let dividend = BoxVariant::from(6) - BoxVariant::alpha() - BoxVariant::alpha() * BoxVariant::alpha();
    let divisor = BoxVariant::alpha();
    let rem = dividend % divisor;
    let exp = BoxVariant::from(6);
    assert_eq!(rem, exp);
}

#[test]
fn signs_divide_as_they_multiply() {
    let quot = BoxValue::from(6) / BoxValue::from(-3);
    assert_eq!(quot, BoxValue::from(-2));
    let quot = BoxValue::from(-6) / BoxValue::from(-3);
    assert_eq!(quot, BoxValue::from(2));
    let quot = BoxValue::from(-6) / BoxValue::from(3);
    assert_eq!(quot, BoxValue::from(-2));
    assert_eq!(BoxValue::from(2) * BoxValue::from(-3), BoxValue::from(-6));

    let dividend = BoxVariant::from(6) - BoxVariant::alpha() - BoxVariant::alpha() * BoxVariant::alpha();
    let divisor = BoxVariant::from(-3) - BoxVariant::alpha();
    let quot = dividend / divisor;
    assert_eq!(quot, BoxVariant::alpha() - BoxVariant::from(2));
}
