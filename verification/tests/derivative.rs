use box_core::natural::Natural;
use box_core::{BoxValue, PolynumBox};

#[test]
fn test_der_uni() {
    let poly = BoxValue::alpha() + 3_u32 * BoxValue::alpha() * BoxValue::alpha();
    let der = poly.derivative();
    let exp = BoxValue::from(1) + 6_u32 * BoxValue::alpha();
    assert_eq!(der, exp);

    let poly = 3_u32 * BoxValue::alpha();
    let der = poly.derivative();
    let exp = BoxValue::from(3).cast::<PolynumBox>();
    assert_eq!(der, exp);
}

#[test]
fn test_der_multi() {
    let multi = 3_u32 * BoxValue::beta(Natural::from_u32(2)) * BoxValue::beta(Natural::from_u32(2));
    let der = multi.duplicate().derivative(Natural::from_u32(2));
    let exp = 6 * BoxValue::beta(Natural::from_u32(2));
    assert_eq!(der, exp);

    let der = multi.duplicate().derivative(Natural::from_u32(1));
    let exp = BoxValue::zero();
    assert_eq!(der, exp.cast());

    let der = multi.derivative(Natural::from_u32(2));
    let der = der.derivative(Natural::from_u32(2));
    let exp = BoxValue::from(6);
    assert_eq!(der, exp.cast());
}
