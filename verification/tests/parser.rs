use box_core::display::BoxDisplay;
use box_core::eval::EvalError;
use box_core::lexer::lex;
use box_core::natural::Natural;
use box_core::parser::parser;
use box_core::store::BoxStore;
use box_core::{BoxKind, BoxValue, BoxVariant};

fn eval_with(store: &BoxStore, input: &str) -> Result<BoxVariant, ()> {
    let tokens = lex(input).map_err(|_| ())?;
    let ast = parser(&tokens).ok_or(())?;
    ast.eval(store).map_err(|_| ())
}

fn greek_store() -> BoxStore {
    let mut store = BoxStore::new();
    store.store_with_name("α".to_string(), BoxVariant::alpha());
    store.store_with_name("β".to_string(), BoxVariant::beta(Natural::from_u32(1)));
    store
}

fn eval_input(input: &str) -> Result<BoxVariant, ()> {
    eval_with(&greek_store(), input)
}

#[test]
fn test_num() {
    let input = "2";
    let val = eval_input(input).expect("eval_input failed");
    assert_eq!(val.get_kind(0), BoxKind::Num);

    let input = "⌊□,□⌋";
    let val = eval_input(input).expect("eval_input failed");
    assert_eq!(val.get_kind(0), BoxKind::Num);

    let input = "⌊₂□⌋";
    let val = eval_input(input).expect("eval_input failed");
    assert_eq!(val.get_kind(0), BoxKind::Num);

    let input = "⌊□,□⌋ + ⌊□⌋";
    let val = eval_input(input).expect("eval_input failed");
    assert_eq!(val.get_kind(0), BoxKind::Num);

    let input = "⌊<red>□</red>,□,□⌋";
    let val = eval_input(input).expect("eval_input failed");
    let exp = BoxVariant::from(1);
    assert_eq!(val, exp);
}

#[test]
fn test_polynum() {
    let input = "α+1";
    let val = eval_input(input).expect("eva_input failed");
    assert_eq!(val.get_kind(0), BoxKind::Polynum);

    let input = "⌊⌊□⌋⌋";
    let val = eval_input(input).expect("eva_input failed");
    assert_eq!(val.get_kind(0), BoxKind::Polynum);

    let input = "α*α";
    let val = eval_input(input).expect("eva_input failed");
    assert_eq!(val.get_kind(0), BoxKind::Polynum);

    let input = "<red>α</red>";
    let val = eval_input(input).expect("eval_input failed");
    let exp = BoxVariant::anti_alpha();
    assert_eq!(val, exp);

    let input = "<red>9</red>";
    let val = eval_input(input).expect("eval_input failed");
    let exp = BoxVariant::from(9_u32).into_anti();
    assert_eq!(val, exp);

    let input = "α²";
    let val = eval_input(input).expect("eval_input failed");
    let exp = BoxVariant::alpha() * BoxVariant::alpha();
    assert_eq!(val, exp);
}

#[test]
fn test_multinum() {
    let input = "⌊⌊⌊□⌋⌋⌋";
    let val = eval_input(input).expect("eva_input failed");
    assert_eq!(val.get_kind(0), BoxKind::Multinum);

    let input = "β₂";
    let val = eval_input(input).expect("eval_input failed");
    let exp = BoxVariant::beta(Natural::from_u32(2));
    assert_eq!(val, exp);

    let input = "<red>β</red>₂";
    let val = eval_input(input).expect("eval_input failed");
    let exp = BoxVariant::anti_beta(Natural::from_u32(2));
    assert_eq!(val, exp);

    let input = "β₂+1";
    let val = eval_input(input).expect("eval_input failed");
    let exp = BoxVariant::beta(Natural::from_u32(2)) + BoxVariant::from(1_u32);
    assert_eq!(val, exp);

    let input = "<red>β</red>₂+1";
    let val = eval_input(input).expect("eval_input failed");
    let exp = BoxVariant::anti_beta(Natural::from_u32(2)) + BoxVariant::from(1_u32);
    assert_eq!(val, exp);

    let input = "β₂²";
    let val = eval_input(input).expect("eval_input failed");
    let exp = BoxVariant::beta(Natural::from_u32(2)) * BoxVariant::beta(Natural::from_u32(2));
    assert_eq!(val, exp);
}

#[test]
fn parser_test_div() {
    let input = "α² / α";
    let val = eval_input(input).expect("eval_input failed");
    let exp = BoxVariant::alpha();
    assert_eq!(val, exp);
}

#[test]
fn parser_test_rem() {
    let input = "(1 + α²) % α";
    let val = eval_input(input).expect("eval_input failed");
    let exp = BoxVariant::one();
    assert_eq!(val, exp);
}

#[test]
fn test_vexel() {
    let input = "⌊⌈1⌉,⌈2⌉,⌈3⌉⌋";
    let val = eval_input(input).expect("eva_input failed");
    assert_eq!(val.get_kind(0), BoxKind::Vexel);
}

#[test]
fn parser_test_maxel() {
    let input = "⌊⌈1,1⌉,⌈1,2⌉,⌈2,2⌉⌋";
    let val = eval_input(input).expect("eva_input failed");
    assert_eq!(val.get_kind(0), BoxKind::Maxel);
}

#[test]
fn test_list() {
    let input = "⌈1,2,3⌉";
    let val = eval_input(input).expect("eva_input failed");
    println!("{val:?}");
    assert_eq!(val.get_kind(0), BoxKind::List);
}

#[test]
fn test_set() {
    let input = "{1,2,3}";
    let val = eval_input(input).expect("eva_input failed");
    assert_eq!(val.get_kind(0), BoxKind::SetBox);
}

#[test]
fn test_der() {
    let input = "der(1+α)";
    let val = eval_input(input).expect("eva_input failed");
    let exp = BoxVariant::Polynum(BoxValue::from(1_u32).cast());
    assert_eq!(val, exp);

    let input = "der(1+α^2)";
    let val = eval_input(input).expect("eva_input failed");
    let exp = 2 * BoxVariant::alpha();
    assert_eq!(val, exp);

    let input = "der(1+β,1)";
    let val = eval_input(input).expect("eva_input failed");
    let exp = BoxVariant::Multinum(BoxValue::from(1_u32).cast());
    assert_eq!(val, exp);

    let input = "der(1+β^2,1)";
    let val = eval_input(input).expect("eva_input failed");
    let exp = 2 * BoxVariant::beta(Natural::from_u32(1));
    assert_eq!(val, exp);
}

#[test]
fn eval_reports_errors() {
    let store = greek_store();
    let tokens = lex("γ + 1").unwrap();
    let ast = parser(&tokens).unwrap();
    assert!(!ast.names_bound(&store));
    let tokens = lex("α + 1").unwrap();
    assert!(parser(&tokens).unwrap().names_bound(&store));
    let tokens = lex("α").unwrap();
    assert_eq!(parser(&tokens).unwrap().eval(&store), Ok(BoxVariant::alpha()));

    let tokens = lex("⌈1⌉ + 1").unwrap();
    let ast = parser(&tokens).unwrap();
    assert_eq!(ast.eval(&store), Err(EvalError::TypeMismatch));

    let tokens = lex("{1} ∪ {2} ∩ {2}").unwrap();
    let ast = parser(&tokens).unwrap();
    assert_eq!(ast.eval(&store).unwrap().get_kind(0), BoxKind::SetBox);

    let tokens = lex("der(2)").unwrap();
    let ast = parser(&tokens).unwrap();
    assert_eq!(ast.eval(&store), Err(EvalError::TypeMismatch));
}

#[test]
fn eval_powers_and_subscripts() {
    assert_eq!(eval_input("α^0").unwrap(), BoxVariant::one());
    assert_eq!(eval_input("α^1").unwrap(), BoxVariant::alpha());
    assert_eq!(eval_input("α^3").unwrap(), BoxVariant::alpha() * BoxVariant::alpha() * BoxVariant::alpha());
    assert_eq!(eval_input("⌊₃□⌋").unwrap(), BoxVariant::from(3));
    assert_eq!(eval_input("⌊₂<red>□</red>⌋").unwrap(), BoxVariant::from(-2));
    assert_eq!(eval_input("-2 + 3").unwrap(), BoxVariant::from(1));
    assert_eq!(eval_input("2 - 3").unwrap(), BoxVariant::from(-1));
    assert_eq!(eval_input("□").unwrap(), BoxVariant::zero());
}

#[test]
fn parser_refuses_mismatched_colors() {
    let tokens = lex("<red>⌊</red>□⌋").unwrap();
    assert!(parser(&tokens).is_none());
    let tokens = lex("1 +").unwrap();
    assert!(parser(&tokens).is_none());
}

#[test]
fn test_parse() {
    let mut store = BoxStore::new();
    let alpha = BoxVariant::alpha();
    store.store_with_name("alpha".to_string(), alpha);

    let input = "-2 + 3 - 2*alpha + 5*alpha^2";
    let tokens = lex(input).unwrap();

    // parse the tokens to construct an AST
    let ast = match parser(&tokens) {
        Some(expr) => {
            println!("[AST]\n{:#?}", expr);
            expr
        }
        None => {
            println!("parse error");
            return;
        }
    };

    // evaluates the AST to get the result
    let val = ast.eval(&store).expect("evaluation failed");
    println!("\n[result]\n{}", BoxDisplay::from_variant(val, &store).render(true).unwrap());

    let input = "⌊⌈⌊□⌋,⌊□⌋⌉,⌈⌊□⌋,⌊₂□⌋⌉,₂⌈⌊₂□⌋,⌊₂□⌋⌉⌋";
    let tokens = lex(input).unwrap();

    // parse the tokens to construct an AST
    let ast = match parser(&tokens) {
        Some(expr) => {
            println!("[AST]\n{:#?}", expr);
            expr
        }
        None => {
            println!("parse error");
            return;
        }
    };

    // evaluates the AST to get the result
    let val = ast.eval(&store).expect("evaluation failed");
    println!("\n[result]\n{}", BoxDisplay::from_variant(val, &store).render(true).unwrap());
}
