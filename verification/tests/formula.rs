use notnow::formula::and_then;
use notnow::formula::chain;
use notnow::formula::or;
use notnow::formula::parse_and;
use notnow::formula::parse_var;
use notnow::formula::parse_formula;
use notnow::formula::parse_not;
use notnow::formula::parse_number;
use notnow::formula::parse_or;
use notnow::formula::Formula;

#[test]
fn number_parsing() {
    let (rest, num) = parse_number("0").unwrap();
    assert_eq!(rest, "");
    assert_eq!(num, 0);

    let (rest, num) = parse_number("1").unwrap();
    assert_eq!(rest, "");
    assert_eq!(num, 1);

    let (rest, num) = parse_number("01").unwrap();
    assert_eq!(rest, "");
    assert_eq!(num, 1);

    let (rest, num) = parse_number("12345").unwrap();
    assert_eq!(rest, "");
    assert_eq!(num, 12345);

    let err = parse_number("").unwrap_err();
    assert_eq!(err, "");
}

#[test]
fn not_parsing() {
    let err = parse_not("f").unwrap_err();
    assert_eq!(err, "f");

    let (rest, ()) = parse_not("!").unwrap();
    assert_eq!(rest, "");
}

#[test]
fn or_parsing() {
    let err = parse_or("foobar").unwrap_err();
    assert_eq!(err, "foobar");

    let err = parse_or("x").unwrap_err();
    assert_eq!(err, "x");

    let (rest, ()) = parse_or("|").unwrap();
    assert_eq!(rest, "");
}

#[test]
fn and_parsing() {
    let err = parse_and("foobar").unwrap_err();
    assert_eq!(err, "foobar");

    let err = parse_and("x").unwrap_err();
    assert_eq!(err, "x");

    let (rest, ()) = parse_and("&").unwrap();
    assert_eq!(rest, "");
}

#[test]
fn formula_parsing_precedence() {
    let formula = parse_formula("!45&9").unwrap();
    let expected = (!Formula::Var(45)) & Formula::Var(9);
    assert_eq!(formula, expected);

    let err = parse_formula("45|9&65").unwrap_err();
    assert_eq!(err, "&65");

    let err = parse_formula("45&9|65").unwrap_err();
    assert_eq!(err, "|65");

    let err = parse_formula("45&9|!65").unwrap_err();
    assert_eq!(err, "|!65");

    let err = parse_formula("45&!9|65").unwrap_err();
    assert_eq!(err, "|65");

    let err = parse_formula("!45&9|65").unwrap_err();
    assert_eq!(err, "|65");
}

#[test]
fn formula_parsing() {
    let formula = parse_formula("23").unwrap();
    let expected = Formula::Var(23);
    assert_eq!(formula, expected);

    let formula = parse_formula("!12").unwrap();
    let expected = !Formula::Var(12);
    assert_eq!(formula, expected);

    let formula = parse_formula("!!45").unwrap();
    let expected = !!Formula::Var(45);
    assert_eq!(formula, expected);

    let formula = parse_formula("1&2").unwrap();
    let expected = Formula::Var(1) & Formula::Var(2);
    assert_eq!(formula, expected);

    let formula = parse_formula("1|2").unwrap();
    let expected = Formula::Var(1) | Formula::Var(2);
    assert_eq!(formula, expected);

    let formula = parse_formula("(1|2)&3").unwrap();
    let expected = (Formula::Var(1) | Formula::Var(2)) & Formula::Var(3);
    assert_eq!(formula, expected);

    let formula = parse_formula("!1&(2|3)").unwrap();
    let expected = !Formula::Var(1) & (Formula::Var(2) | Formula::Var(3));
    assert_eq!(formula, expected);

    let formula = parse_formula("!!(45)").unwrap();
    let expected = !!Formula::Var(45);
    assert_eq!(formula, expected);

    let formula = parse_formula("!(!45&9)&8").unwrap();
    let expected = !(!Formula::Var(45) & Formula::Var(9)) & Formula::Var(8);
    assert_eq!(formula, expected);

    let err = parse_formula("xyz").unwrap_err();
    assert_eq!(err, "xyz");
}

#[test]
fn formula_parsing_whitespaces() {
    let formula = parse_formula(" 23").unwrap();
    let expected = Formula::Var(23);
    assert_eq!(formula, expected);

    let formula = parse_formula(" 23   ").unwrap();
    let expected = Formula::Var(23);
    assert_eq!(formula, expected);

    let formula = parse_formula("23 ").unwrap();
    let expected = Formula::Var(23);
    assert_eq!(formula, expected);

    let formula = parse_formula("!  12").unwrap();
    let expected = !Formula::Var(12);
    assert_eq!(formula, expected);

    let formula = parse_formula("  !  12 ").unwrap();
    let expected = !Formula::Var(12);
    assert_eq!(formula, expected);

    let formula = parse_formula("  !   !  12 ").unwrap();
    let expected = !!Formula::Var(12);
    assert_eq!(formula, expected);

    let formula = parse_formula("1  & 2  ").unwrap();
    let expected = Formula::Var(1) & Formula::Var(2);
    assert_eq!(formula, expected);

    let formula = parse_formula("(  45 )").unwrap();
    let expected = Formula::Var(45);
    assert_eq!(formula, expected);

    let formula = parse_formula("!  ! (  45 )").unwrap();
    let expected = !!Formula::Var(45);
    assert_eq!(formula, expected);

    let formula = parse_formula("!  (  !45&    9) &8   ").unwrap();
    let expected = !(!Formula::Var(45) & Formula::Var(9)) & Formula::Var(8);
    assert_eq!(formula, expected);
}

#[test]
fn formula_parsing_error() {
    let err = parse_formula("!!45!").unwrap_err();
    assert_eq!(err, "!");

    let err = parse_formula("(1&2").unwrap_err();
    assert_eq!(err, "(1&2");

    let err = parse_formula("1&&2").unwrap_err();
    assert_eq!(err, "&&2");
}

#[test]
fn formula_displaying() {
    fn test(input: &str) {
        let formula = parse_formula(input).unwrap();
        let s = formula.to_string();
        assert_eq!(s, input);
        assert_eq!(parse_formula(&s).unwrap(), formula);
    }

    test("42");
    test("1 | 2");
    test("(1 & 2) | 3");
    test("(1 & 2 & 3) | 4");
    test("1 | (2 & 3)");
    test("1 & !2 & !3");
    test("!(!45 & 9) & 8");
    test("!!(1 | 2)");
}

#[test]
fn printing_left_nested_conjunction_reparses_right_nested() {
    let formula = (Formula::Var(1) & Formula::Var(2)) & Formula::Var(3);
    let s = formula.to_string();
    assert_eq!(s, "1 & 2 & 3");
    let expected = Formula::Var(1) & (Formula::Var(2) & Formula::Var(3));
    assert_eq!(parse_formula(&s).unwrap(), expected);
}

#[test]
fn number_overflow_is_rejected() {
    let err = parse_number("18446744073709551616").unwrap_err();
    assert_eq!(err, "18446744073709551616");
    let (rest, num) = parse_number("18446744073709551615x").unwrap();
    assert_eq!(rest, "x");
    assert_eq!(num, u64::MAX);
}

#[test]
fn parser_chaining() {
    let parser = |input| chain(parse_or, parse_and, input);
    let (rest, ((), ())) = parser("|&").unwrap();
    assert_eq!(rest, "");

    let (rest, ((), ())) = parser("|&x").unwrap();
    assert_eq!(rest, "x");

    let err = parser("|x").unwrap_err();
    assert_eq!(err, "|x");

    let err = parser("x").unwrap_err();
    assert_eq!(err, "x");
}

#[test]
fn parser_anding() {
    let parser = |input| and_then(parse_var, |_var| parse_or, input);
    let (rest, ()) = parser("123|").unwrap();
    assert_eq!(rest, "");

    let err = parser("123").unwrap_err();
    assert_eq!(err, "123");
}

#[test]
fn output_mapping() {
    let input = "1234&";
    let (rest, var) = notnow::formula::map(|input| chain(parse_var, parse_and, input), |(l, ())| l, input).unwrap();
    assert_eq!(var, 1234);
    assert_eq!(rest, "");

    let input = "|987";
    let (rest, var) = notnow::formula::map(|input| chain(parse_or, parse_var, input), |((), r)| r, input).unwrap();
    assert_eq!(var, 987);
    assert_eq!(rest, "");
}

#[test]
fn parser_oring() {
    let input = "|";
    let (rest, ()) = or(parse_or, parse_and, input).unwrap();
    assert_eq!(rest, "");

    let input = "&";
    let (rest, ()) = or(parse_or, parse_and, input).unwrap();
    assert_eq!(rest, "");

    let input = "x";
    let err = or(parse_or, parse_and, input).unwrap_err();
    assert_eq!(err, "x");
}

#[test]
fn left_nested_chain_reads_back_right_nested() {
    let formula = parse_formula("(1 & 2) & 3").unwrap();
    assert_eq!(formula, (Formula::Var(1) & Formula::Var(2)) & Formula::Var(3));
    let text = formula.to_string();
    assert_eq!(text, "1 & 2 & 3");
    let again = parse_formula(&text).unwrap();
    assert_eq!(again, Formula::Var(1) & (Formula::Var(2) & Formula::Var(3)));
    assert_eq!(again.to_string(), text);

    let formula = parse_formula("(1 | 2) | !(3 | 4)").unwrap();
    let text = formula.to_string();
    assert_eq!(text, "1 | 2 | !(3 | 4)");
    assert_eq!(parse_formula(&text).unwrap().to_string(), text);
}
