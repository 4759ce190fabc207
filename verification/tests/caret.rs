use box_core::caret::Caret;
use box_core::natural::Natural;
use box_core::{AnyBox, BoxKind, BoxValue, Color, PolynumBox};
use BoxKind::{Any, Empty};
use Color::{Black, Red};

fn alpha_pow(n: u32) -> BoxValue<PolynumBox> {
    let mut r = BoxValue::alpha();
    for _ in 1..n {
        r = r * BoxValue::alpha();
    }
    r
}

#[test]
fn test_caret() {
    let a = BoxValue::from(2);
    let b = BoxValue::from(3);
    let exp = BoxValue::from(6);
    assert_eq!(a.caret(b), exp);

    let a = alpha_pow(2);
    let b = alpha_pow(3);
    let exp = alpha_pow(6);
    assert_eq!(a.caret(b), exp);

    let a = 5_u32 * alpha_pow(2);
    let b = 4_u32 * alpha_pow(3);
    let exp = 20_u32 * alpha_pow(6);
    assert_eq!(a.caret(b), exp);

    let a = BoxValue::alpha() + alpha_pow(2) + alpha_pow(3);
    let b = alpha_pow(2) + alpha_pow(4);
    let exp = alpha_pow(2) + 2 * alpha_pow(4) + alpha_pow(6) + alpha_pow(8) + alpha_pow(12);
    assert_eq!(a.caret(b), exp);

    let a = BoxValue::beta(Natural::from_u32(2));
    let b = BoxValue::beta(Natural::from_u32(4));
    let exp = BoxValue::beta(Natural::from_u32(6));
    assert_eq!(a.caret(b), exp);
}

fn rows(spec: &[(BoxKind, Color, u32, u32)]) -> BoxValue<AnyBox> {
    BoxValue::new_with(
        spec.iter().map(|r| r.0).collect(),
        spec.iter().map(|r| r.1).collect(),
        spec.iter().map(|r| Natural::from_u32(r.2)).collect(),
        spec.iter().map(|r| r.3).collect(),
    )
}

#[test]
fn caret_terms_of_opposite_colors_meet_at_the_second_row() {
    let left = rows(&[(Any, Black, 1, 5), (Any, Black, 1, 2), (Empty, Black, 1, 1), (Any, Red, 1, 2), (Empty, Black, 1, 1)]);
    let right = rows(&[(Any, Black, 1, 3), (Any, Black, 1, 2), (Empty, Black, 1, 1)]);
    let exp = rows(&[(Any, Black, 1, 3), (Any, Red, 1, 2), (Empty, Black, 0, 1)]);
    assert_eq!(left.caret(right), exp);
}
