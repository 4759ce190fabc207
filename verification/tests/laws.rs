use box_core::natural::Natural;
use box_core::store::BoxStore;
use box_core::caret::Caret;
use box_core::{AnyBox, BoxValue, BoxVariant, Color, NumBox, PolynumBox, SetBox};

#[test]
fn colors_combine_as_a_group() {
    for a in [Color::Red, Color::Black] {
        assert_eq!(a + Color::Black, a);
        assert_eq!(a + a, Color::Black);
        assert_eq!(a.invert().invert(), a);
        assert_eq!(Color::Red + a, a.invert());
        for b in [Color::Red, Color::Black] {
            assert_eq!(a + b, b + a);
            assert_eq!(a * b, b * a);
        }
    }
}

#[test]
fn anti_twice_is_identity() {
    let x = BoxVariant::from(1) + BoxVariant::alpha();
    let back = x.duplicate().into_anti().into_anti();
    assert_eq!(back, x);
    assert_ne!(x.duplicate().into_anti(), x);
}

#[test]
fn sums_and_products_commute() {
    let a = BoxVariant::from(3) + BoxVariant::alpha();
    let b = BoxVariant::from(-2) + BoxVariant::alpha() * BoxVariant::alpha();
    assert_eq!(a.duplicate() + b.duplicate(), b.duplicate() + a.duplicate());
    assert_eq!(a.duplicate() * b.duplicate(), b * a);
}

#[test]
fn union_and_intersection_membership() {
    let mut m = BoxValue::<SetBox>::empty_set(Color::Black);
    m.extend(BoxValue::from(1));
    m.extend(BoxValue::from(2));
    let mut n = BoxValue::<SetBox>::empty_set(Color::Black);
    n.extend(BoxValue::from(2));
    n.extend(BoxValue::from(3));
    assert!(m.is_set() && n.is_set());

    let u = BoxValue::union(m.duplicate(), n.duplicate());
    assert!(u.is_set());
    let mut exp = BoxValue::<SetBox>::empty_set(Color::Black);
    exp.extend(BoxValue::from(1));
    exp.extend(BoxValue::from(2));
    exp.extend(BoxValue::from(3));
    exp.sort_immediate_children();
    assert_eq!(u, exp);

    let i = BoxValue::intersection(m, n);
    let mut exp = BoxValue::<SetBox>::empty_set(Color::Black);
    exp.extend(BoxValue::from(2));
    assert_eq!(i, exp);
}

#[test]
fn decimal_round_trip() {
    for v in [0u64, 7, 10, 12345, u64::MAX] {
        let n = Natural::from_u64(v);
        let digits = n.to_decimal();
        let text: String = digits.iter().collect();
        assert_eq!(text, v.to_string());
        assert_eq!(Natural::from_decimal(&digits), n);
        assert_eq!(box_core::display::to_subscript(&n).len(), digits.len());
    }
}

#[test]
fn store_reads_back_what_was_written() {
    let mut store = BoxStore::new();
    store.store_with_name("x".to_string(), BoxVariant::from(5));
    store.store_with_name("y".to_string(), BoxVariant::alpha());
    assert_eq!(store.fetch_box_by_name("x"), Some(BoxVariant::from(5)));
    assert_eq!(store.fetch_box_by_name("y"), Some(BoxVariant::alpha()));
    assert_eq!(store.fetch_box_by_name("z"), None);
    store.store_with_name("x".to_string(), BoxVariant::from(6));
    assert_eq!(store.fetch_box_by_name("x"), Some(BoxVariant::from(6)));
}

#[test]
fn zero_is_neutral_and_absorbing() {
    let x = BoxVariant::from(2) + BoxVariant::alpha();
    assert_eq!(BoxVariant::zero() + x.duplicate(), x);
    assert_eq!(x.duplicate() + BoxVariant::zero(), x);
    assert_eq!(BoxVariant::anti_zero() + BoxVariant::from(3), BoxVariant::from(3).into_anti());
    assert_eq!(BoxVariant::zero() * x.duplicate(), BoxVariant::zero());
    assert_eq!(x.duplicate() * BoxVariant::anti_zero(), BoxVariant::anti_zero());
}

#[test]
fn multiplying_by_one_changes_nothing() {
    let x = BoxVariant::from(2) + BoxVariant::from(3) * BoxVariant::alpha()
        + BoxVariant::alpha() * BoxVariant::alpha();
    assert_eq!(x.duplicate() * BoxVariant::one(), x);
    assert_eq!(BoxVariant::one() * x.duplicate(), x);
    let n = BoxVariant::from(-7);
    assert_eq!(n.duplicate() * BoxVariant::one(), n);
    assert_eq!(BoxVariant::one() * n.duplicate(), n);
}

#[test]
fn caret_with_an_empty_side_is_empty() {
    let items: Vec<BoxValue<AnyBox>> = (1..2000).map(|v| BoxValue::<NumBox>::from(v).cast()).collect();
    let big = BoxVariant::Any(BoxValue::<AnyBox>::from_children(items));
    assert_eq!(BoxVariant::zero().caret(big.duplicate()), BoxVariant::zero());
    assert_eq!(big.duplicate().caret(BoxVariant::zero()), BoxVariant::zero());
    assert_eq!(BoxVariant::anti_zero().caret(big.duplicate()), BoxVariant::anti_zero());
    assert_eq!(big.caret(BoxVariant::anti_zero()), BoxVariant::anti_zero());
}

#[test]
fn taking_children_from_the_back_mirrors_the_front() {
    let items: Vec<BoxValue<AnyBox>> = [4, 1, 3].iter().map(|&v| BoxValue::<NumBox>::from(v).cast()).collect();
    let b = BoxValue::<AnyBox>::from_children(items);
    let mut front = Vec::new();
    let mut it = b.duplicate().into_iter();
    while let Some(c) = it.next() {
        front.push(c);
    }
    let mut back = Vec::new();
    let mut it = b.into_iter();
    while let Some(c) = it.next_back() {
        back.push(c);
    }
    back.reverse();
    assert_eq!(front.len(), 3);
    assert_eq!(front, back);

    let last = BoxValue::<PolynumBox>::alpha().into_iter().next_back();
    assert_eq!(last, Some(BoxValue::<NumBox>::one().cast::<AnyBox>()));
}
