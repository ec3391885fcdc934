use notnow::formula::parse_formula;
use notnow::formula::Formula;
use notnow::named_view::View;
use notnow::view::cnf_to_formula;
use notnow::view::formula_to_cnf;
use notnow::view::FormulaPair;
use notnow::view::TagLit;

#[test]
fn cnf_formula_conversion() {
    let cnf = vec![
        vec![TagLit::Pos(1)],
        vec![TagLit::Pos(2), TagLit::Neg(3)],
        vec![TagLit::Neg(4), TagLit::Pos(2)],
    ];

    let expected = parse_formula("1 & (2 | !3) & (!4 | 2)").unwrap();
    assert_eq!(cnf_to_formula(&cnf).unwrap(), expected);
}

#[test]
fn formula_cnf_conversion() {
    let formula = (Formula::Var(1) | !Formula::Var(2) | !Formula::Var(3))
        & (!Formula::Var(4) | Formula::Var(5));
    let expected = vec![
        vec![TagLit::Pos(1), TagLit::Neg(2), TagLit::Neg(3)],
        vec![TagLit::Neg(4), TagLit::Pos(5)],
    ];
    let cnf = formula_to_cnf(formula).unwrap();
    assert_eq!(cnf, expected);
}

#[test]
fn parsing_cnf_conversion_equivalence() {
    fn test(input: &str) {
        let formula = parse_formula(input).unwrap();
        let cnf = formula_to_cnf(formula.clone()).unwrap();
        let new = cnf_to_formula(&cnf).unwrap();
        assert_eq!(new, formula);
    }

    test("1 & !2 & !3");
    test("1 | !2 | !3");
}

#[test]
fn cnf_of_negated_disjunction_and_distribution() {
    let formula = !(Formula::Var(1) | Formula::Var(2));
    let cnf = formula_to_cnf(formula).unwrap();
    assert_eq!(cnf, vec![vec![TagLit::Neg(1)], vec![TagLit::Neg(2)]]);

    let formula = (Formula::Var(1) & Formula::Var(2)) | Formula::Var(3);
    let cnf = formula_to_cnf(formula).unwrap();
    assert_eq!(
        cnf,
        vec![vec![TagLit::Pos(1), TagLit::Pos(3)], vec![TagLit::Pos(2), TagLit::Pos(3)]]
    );
}

#[test]
fn empty_clauses_are_skipped() {
    let cnf: Vec<Vec<TagLit>> = vec![vec![], vec![TagLit::Pos(7)], vec![]];
    assert_eq!(cnf_to_formula(&cnf).unwrap(), Formula::Var(7));
    let cnf: Vec<Vec<TagLit>> = vec![vec![]];
    assert!(cnf_to_formula(&cnf).is_none());
}

#[test]
fn formula_pairs_compare_by_text() {
    let pair = FormulaPair::from_formula(Formula::Var(1) & Formula::Var(2));
    assert_eq!(pair.string, "1 & 2");
    let other = FormulaPair { string: "1 & 2".to_string(), formula: None };
    assert_eq!(pair, other);
    assert_ne!(pair, FormulaPair::default());
    assert_eq!(TagLit::Neg(9).name(), 9);
}

/// Write a view in its JSON form, an object with its name and the text
/// of its formula, and read it back.
fn json_round_trip(view: &View) -> View {
    let mut map = serde_json::Map::new();
    map.insert("name".to_string(), serde_json::Value::String(view.name.clone()));
    map.insert(
        "formula".to_string(),
        serde_json::Value::String(view.formula.string.clone()),
    );
    let serialized = serde_json::to_vec(&serde_json::Value::Object(map)).unwrap();

    let value = serde_json::from_slice::<serde_json::Value>(&serialized).unwrap();
    let name = value["name"].as_str().unwrap().to_string();
    let text = value["formula"].as_str().unwrap().to_string();
    View {
        name,
        formula: FormulaPair::from_text(text).unwrap(),
    }
}

#[test]
fn serialize_deserialize_view() {
    fn test(formula: FormulaPair) {
        let view = View {
            name: "test-view".to_string(),
            formula,
        };
        let deserialized = json_round_trip(&view);
        assert_eq!(deserialized, view);
        assert_eq!(deserialized.formula.formula, view.formula.formula);
    }

    let formula = parse_formula("1 & (2 | !3) & (!4 | 2)").unwrap();
    test(FormulaPair::from_formula(formula));
    test(FormulaPair::default());
}

#[test]
fn formula_text_that_is_no_formula() {
    assert!(FormulaPair::from_text("1 &".to_string()).is_none());
    let pair = FormulaPair::from_text(String::new()).unwrap();
    assert!(pair.formula.is_none());
}

#[test]
fn tag_zero_has_no_cnf() {
    assert!(formula_to_cnf(Formula::Var(0)).is_none());
    assert!(formula_to_cnf(Formula::Var(1) & !Formula::Var(0)).is_none());
    assert!(formula_to_cnf(Formula::Var(1) | Formula::Var(2)).is_some());
}
