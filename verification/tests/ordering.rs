use box_core::natural::Natural;
use box_core::{BoxValue, BoxVariant, PolynumBox};

#[test]
fn test_last_child() {
    let a = BoxValue::one() + BoxValue::alpha();
    let last = a.last_child();
    assert_eq!(last, BoxValue::zero().cast());
}

#[test]
fn test_ord() {
    let a = BoxValue::from(0_u32);
    let b = BoxValue::from(1_u32);
    assert!(a < b);

    let a = BoxValue::one().cast::<PolynumBox>();
    let b = BoxValue::alpha();
    assert!(a < b);

    let a = BoxValue::alpha();
    let b = 2 * BoxValue::alpha();
    assert!(a < b);

    let a = BoxValue::alpha();
    let b = BoxValue::one() + BoxValue::alpha();
    assert!(a < b);

    let a = BoxValue::alpha();
    let b = BoxValue::alpha() * BoxValue::alpha();
    assert!(a < b);

    let a = BoxValue::alpha().cast();
    let b = BoxValue::beta(Natural::from_u32(1));
    assert!(a < b);

    let a = BoxValue::beta(Natural::from_u32(1));
    let b = BoxValue::beta(Natural::from_u32(2));
    assert!(a < b);

    let a = BoxValue::beta(Natural::from_u32(2));
    let b = BoxValue::beta(Natural::from_u32(2)) * BoxValue::beta(Natural::from_u32(2));
    assert!(a < b);
}

#[test]
fn test_mul() {
    let prod = BoxVariant::from(2) * BoxVariant::from(3);
    let expected = BoxVariant::from(6);
    assert_eq!(prod, expected);

    let expected = BoxVariant::from(3) * BoxVariant::from(2);
    assert_eq!(prod, expected);

    let prod = BoxVariant::from(2) * BoxVariant::from(-3);
    let expected = BoxVariant::from(-6);
    assert_eq!(prod, expected);

    let prod = 2 * BoxVariant::from(-3);
    let expected = BoxVariant::from(-6);
    assert_eq!(prod, expected);

    let prod = BoxVariant::alpha() * BoxVariant::alpha();
    let expected = BoxVariant::from(2).wrap::<PolynumBox>(Natural::from_u32(1));
    assert_eq!(prod, expected);

    let s1 = BoxVariant::one() + BoxVariant::alpha();
    let minus_alpha = (-1) * BoxVariant::alpha();
    let s2 = BoxVariant::one() + minus_alpha;
    let prod = s1 * s2;
    let expected = BoxVariant::from(1) + (-1) * BoxVariant::alpha() * BoxVariant::alpha();
    assert_eq!(prod, expected);
}

#[test]
fn test_double_ended() {
    let a = BoxValue::one() + BoxValue::alpha() + BoxValue::alpha() * BoxValue::alpha();
    let mut iter = a.into_iter();
    let mut count = 0;
    while let Some(val) = iter.next_back() {
        println!("{:?}", val);
        count += 1;
    }
    assert_eq!(count, 3);
}

#[test]
fn sorting_a_box_without_rows_leaves_it() {
    let mut b = BoxValue::<box_core::AnyBox>::new();
    b.sort_immediate_children();
    assert_eq!(b, BoxValue::<box_core::AnyBox>::new());
}
