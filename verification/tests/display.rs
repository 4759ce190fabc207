use box_core::display::{BoxDisplay, ColorMode, OutputFormat};
use box_core::maxel::{maxel, vexel};
use box_core::natural::Natural;
use box_core::store::BoxStore;
use box_core::{AnyBox, BoxValue, BoxVariant};

fn num(v: i32) -> BoxValue<AnyBox> {
    BoxValue::from(v).cast()
}

fn pairs(ps: &[(i32, i32)]) -> Vec<(BoxValue<AnyBox>, BoxValue<AnyBox>)> {
    ps.iter().map(|&(x, y)| (num(x), num(y))).collect()
}

fn show(d: &BoxDisplay) -> String {
    d.render(false).expect("the box can be written")
}

fn show_alt(d: &BoxDisplay) -> String {
    d.render(true).expect("the box can be written")
}

#[test]
fn test_display() {
    let mut store = BoxStore::new();
    let alpha = BoxVariant::alpha();
    store.store_with_name("α".to_string(), alpha);

    let minus_two = BoxDisplay::from_variant(BoxVariant::from(-2), &store);
    println!("{}", show(&minus_two));
    println!("{}", show_alt(&minus_two));
    assert_eq!(show(&minus_two), "-2");

    let mut minus_two = BoxDisplay::from_variant(BoxVariant::from(-2), &store);
    minus_two.set_mode(ColorMode::Terminal);
    minus_two.set_format(OutputFormat::Boxed);
    println!("{}", show(&minus_two));
    println!("{}", show_alt(&minus_two));

    let sum = BoxVariant::from(3) + BoxVariant::from(-2);
    let disp = BoxDisplay::from_variant(sum, &store);
    println!("{}", show(&disp));
    println!("{}", show_alt(&disp));
    assert_eq!(show(&disp), "1");

    let alpha = BoxVariant::alpha();
    let disp = BoxDisplay::from_variant(alpha.duplicate(), &store);
    println!("{}", show(&disp));
    println!("{}", show_alt(&disp));
    assert_eq!(show(&disp), "α");

    let poly = BoxVariant::from(-2) + 2_u32 * BoxVariant::alpha() + BoxVariant::alpha() * BoxVariant::alpha();
    let disp = BoxDisplay::from_variant(poly, &store);
    println!("{}", show(&disp));
    println!("{}", show_alt(&disp));

    let anti_box = BoxVariant::from(1).into_anti();
    let disp = BoxDisplay::from_variant(anti_box, &store);
    println!("{}", show(&disp));
    println!("{}", show_alt(&disp));
    assert_eq!(show(&disp), "<red>1</red>");

    let anti_box = BoxVariant::from(1).into_anti();
    let mut disp = BoxDisplay::from_variant(anti_box, &store);
    disp.set_mode(ColorMode::Terminal);
    println!("{}", show(&disp));
    println!("{}", show_alt(&disp));

    let a = maxel(pairs(&[(1, 1), (1, 2), (2, 2), (2, 2)]));
    let disp = BoxDisplay::from_variant(a, &store);
    println!("{}", show(&disp));
    println!("{}", show_alt(&disp));

    let a = vexel(vec![num(1), num(2), num(3), num(3)]);
    let disp = BoxDisplay::from_variant(a, &store);
    println!("{}", show(&disp));
    println!("{}", show_alt(&disp));
}

#[test]
fn test_display_multi() {
    let mut store = BoxStore::new();
    let alpha = BoxVariant::alpha();
    store.store_with_name("α".to_string(), alpha);
    store.store_with_name("β".to_string(), BoxVariant::beta(Natural::from_u32(1)));

    let beta = BoxVariant::beta(Natural::from_u32(0));
    let disp = BoxDisplay::from_variant(beta.duplicate(), &store);
    println!("{}", show(&disp));
    println!("{}", show_alt(&disp));
    assert_eq!(show(&disp), "α");

    let beta = BoxVariant::beta(Natural::from_u32(1));
    let mut disp = BoxDisplay::from_variant(beta.duplicate(), &store);
    println!("{}", show(&disp));
    println!("{}", show_alt(&disp));
    assert_eq!(show(&disp), "β₁");

    disp.set_format(OutputFormat::Boxed);
    println!("{}", show(&disp));
    println!("{}", show_alt(&disp));
    assert_eq!(show(&disp), "⌊⌊⌊□⌋⌋⌋");

    let beta = BoxVariant::beta(Natural::from_u32(2));
    let mut disp = BoxDisplay::from_variant(beta.duplicate(), &store);
    println!("{}", show(&disp));
    println!("{}", show_alt(&disp));
    assert_eq!(show(&disp), "β₂");

    disp.set_format(OutputFormat::Boxed);
    println!("{}", show(&disp));
    println!("{}", show_alt(&disp));
    assert_eq!(show(&disp), "⌊⌊⌊□,□⌋⌋⌋");
    assert_eq!(show_alt(&disp), "⌊⌊⌊₂□⌋⌋⌋");

    let multi = BoxVariant::beta(Natural::from_u32(2)) + BoxVariant::from(1) + BoxVariant::alpha();
    let disp = BoxDisplay::from_variant(multi.duplicate(), &store);
    println!("{}", show(&disp));
    println!("{}", show_alt(&disp));
}

#[test]
fn display_boxed_anti_and_subscripts() {
    let store = BoxStore::new();
    let mut disp = BoxDisplay::from_variant(BoxVariant::from(-2), &store);
    disp.set_format(OutputFormat::Boxed);
    assert_eq!(show(&disp), "⌊<red>□</red>,<red>□</red>⌋");
    assert_eq!(show_alt(&disp), "⌊₂<red>□</red>⌋");

    let disp = BoxDisplay::from_variant(BoxVariant::zero(), &store);
    assert_eq!(show(&disp), "0");
    let disp = BoxDisplay::from_variant(BoxVariant::anti_zero(), &store);
    assert_eq!(show(&disp), "<red>0</red>");
}

#[test]
fn display_without_names_uses_brackets() {
    let store = BoxStore::new();
    let disp = BoxDisplay::from_variant(BoxVariant::alpha(), &store);
    assert_eq!(show(&disp), "⌊□⌋");
}

#[test]
fn display_terminal_paints_or_keeps() {
    let store = BoxStore::new();
    let mut disp = BoxDisplay::from_variant(BoxVariant::anti_zero(), &store);
    disp.set_mode(ColorMode::Terminal);
    let text = show(&disp);
    assert!(text == "0" || text == "\u{1b}[31m0\u{1b}[0m");
}

#[test]
fn boxed_numbers_read_back() {
    let store = BoxStore::new();
    for n in 1u32..6 {
        let mut d = BoxDisplay::from_variant(BoxVariant::from(n), &store);
        d.set_format(OutputFormat::Boxed);
        let plain = show(&d);
        assert_eq!(plain, format!("⌊{}⌋", vec!["□"; n as usize].join(",")));
        let alt = show_alt(&d);
        for text in [plain, alt] {
            let tokens = box_core::lexer::lex(&text).expect("the text lexes");
            let expr = box_core::parser::parser(&tokens).expect("the tokens parse");
            assert_eq!(expr.eval(&store), Ok(BoxVariant::from(n)));
        }
    }
    let mut d = BoxDisplay::from_variant(BoxVariant::from(2u32), &store);
    d.set_format(OutputFormat::Boxed);
    assert_eq!(show_alt(&d), "⌊₂□⌋");
}
