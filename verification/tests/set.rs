use box_core::natural::Natural;
use box_core::{BoxValue, Color, SetBox};

#[test]
fn test_set_ops() {
    let mut m = BoxValue::empty_set(Color::Black);
    m.extend_with_mul(BoxValue::from(1), Natural::from_u32(4));
    m.extend_with_mul(BoxValue::from(2), Natural::from_u32(2));
    m.extend_with_mul(BoxValue::from(3), Natural::from_u32(1));

    let mut n = BoxValue::empty_set(Color::Black);
    n.extend_with_mul(BoxValue::from(1), Natural::from_u32(7));
    n.extend_with_mul(BoxValue::from(3), Natural::from_u32(3));
    n.extend(BoxValue::from(4));

    let union = BoxValue::union(m.duplicate(), n.duplicate());

    let mut exp = BoxValue::empty_set(Color::Black);
    exp.extend_with_mul(BoxValue::from(1), Natural::from_u32(7));
    exp.extend_with_mul(BoxValue::from(2), Natural::from_u32(2));
    exp.extend_with_mul(BoxValue::from(3), Natural::from_u32(3));
    exp.extend_with_mul(BoxValue::from(4), Natural::from_u32(1));
    exp.sort_immediate_children();

    assert_eq!(union, exp.cast::<SetBox>());

    let intersection = BoxValue::intersection(m, n);

    let mut exp = BoxValue::empty_set(Color::Black);
    exp.extend_with_mul(BoxValue::from(1), Natural::from_u32(4));
    exp.extend_with_mul(BoxValue::from(3), Natural::from_u32(1));
    exp.sort_immediate_children();

    assert_eq!(intersection, exp);
}

#[test]
fn support_appends_the_children_with_multiplicity_one() {
    let mut m = BoxValue::empty_set(Color::Black);
    m.extend_with_mul(BoxValue::from(1), Natural::from_u32(4));
    m.extend_with_mul(BoxValue::from(2), Natural::from_u32(2));
    let s = m.duplicate().support();

    let mut exp = BoxValue::<SetBox>::new();
    exp.extend_with_mul(BoxValue::from(1), Natural::from_u32(1));
    exp.extend_with_mul(BoxValue::from(2), Natural::from_u32(1));
    assert_eq!(s, exp);
    assert_eq!(s.get_length(0), m.get_length(0) - 1);
    assert_eq!(s.get_multiplicity(0), Natural::from_u32(1));
}
