use box_core::maxel::{maxel, vexel};
use box_core::{AnyBox, BoxValue, NumBox, PixelBox};

fn num(v: i32) -> BoxValue<AnyBox> {
    BoxValue::<NumBox>::from(v).cast()
}

fn pixel(x: i32, y: i32) -> BoxValue<PixelBox> {
    BoxValue::pixel(num(x), num(y))
}

fn pairs(ps: &[(i32, i32)]) -> Vec<(BoxValue<AnyBox>, BoxValue<AnyBox>)> {
    ps.iter().map(|&(x, y)| (num(x), num(y))).collect()
}

fn nums(vs: &[i32]) -> Vec<BoxValue<AnyBox>> {
    vs.iter().map(|&v| num(v)).collect()
}

#[test]
fn test_pixel() {
    let p1 = pixel(1, 2);
    let p2 = pixel(2, 3);
    let p3 = BoxValue::mul_pix(p1.duplicate(), p2);
    let expected = pixel(1, 3);

    assert_eq!(p3, Some(expected));

    let p4 = pixel(3, 2);
    let p5 = BoxValue::mul_pix(p1, p4);
    assert!(p5.is_none());
}

#[test]
fn maxel_test_maxel() {
    let a = maxel(pairs(&[(1, 1), (1, 2), (2, 2)]));
    let b = maxel(pairs(&[(1, 2), (2, 1)]));

    let prod = a * b;
    let expected = maxel(pairs(&[(1, 1), (1, 2), (2, 1)]));
    assert_eq!(prod, expected);

    let a = maxel(pairs(&[(1, 1), (1, 1), (1, 2), (2, 2), (1, 4)]));
    let b = maxel(pairs(&[(1, 2), (2, 1), (4, 1)]));

    let prod = a * b;
    let expected = maxel(pairs(&[(1, 1), (1, 1), (1, 2), (1, 2), (2, 1)]));
    assert_eq!(prod, expected);

    let m = maxel(pairs(&[(1, 1), (2, 2), (3, 3)]));
    let v = vexel(nums(&[1, 2, 3]));
    let prod = m * v;
    let expected = vexel(nums(&[1, 2, 3]));
    assert_eq!(prod, expected);

    let m = maxel(pairs(&[(1, 1), (2, 2), (3, 3)]));
    let v = vexel(nums(&[1, 1, 2, 3]));
    let prod = m * v;
    let expected = vexel(nums(&[1, 1, 2, 3]));
    assert_eq!(prod, expected);
}

#[test]
fn maxel_products_sum_over_repeated_pixels() {
    let a = maxel(pairs(&[(1, 1), (1, 2)]));
    let b = maxel(pairs(&[(1, 1), (1, 1), (2, 1), (2, 1)]));
    let prod = a * b;
    let expected = maxel(pairs(&[(1, 1), (1, 1), (1, 1), (1, 1)]));
    assert_eq!(prod, expected);
}
