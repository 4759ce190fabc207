use box_core::BoxVariant;

#[test]
fn test_add() {
    let left = BoxVariant::from(3);
    let right = BoxVariant::from(5);
    let sum = left + right;
    let exp = BoxVariant::from(8);
    assert_eq!(sum, exp);

    let left = BoxVariant::from(-3);
    let right = BoxVariant::from(5);
    let sum = left + right;
    let exp = BoxVariant::from(2);
    assert_eq!(sum, exp);

    let left = BoxVariant::from(-3);
    let right = BoxVariant::from(3);
    let sum = left + right;
    let exp = BoxVariant::from(0);
    assert_eq!(sum, exp);

    let left = BoxVariant::anti_zero();
    let right = BoxVariant::from(3);
    let sum = left + right;
    let exp = BoxVariant::from(3).into_anti();
    assert_eq!(sum, exp);

    let sum = (BoxVariant::from(1) + BoxVariant::alpha())
        - (BoxVariant::from(1) + BoxVariant::alpha());
    let exp = BoxVariant::zero();
    assert_eq!(sum, exp);

    let sum = (BoxVariant::from(1) + BoxVariant::alpha()) - BoxVariant::alpha();
    let exp = BoxVariant::from(1);
    assert_eq!(sum, exp);
}
