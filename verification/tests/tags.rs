use notnow::tags::Templates;

#[test]
fn different_instantiated_tags_are_equal() {
    let templates = Templates::with_serde(vec![(42, "test-tag".to_string())]).unwrap();
    let tag1 = templates.instantiate_from_name("test-tag");
    let tag2 = templates.instantiate_from_name("test-tag");

    assert_eq!(tag1, tag2)
}

#[test]
fn duplicate_or_zero_template_ids_are_refused() {
    let result = Templates::with_serde(vec![
        (1, "a".to_string()),
        (2, "b".to_string()),
        (1, "c".to_string()),
        (0, "d".to_string()),
    ]);
    assert_eq!(result.err(), Some(1));

    let result = Templates::with_serde(vec![(3, "a".to_string()), (0, "b".to_string())]);
    assert_eq!(result.err(), Some(0));
}

#[test]
fn templates_come_in_identifier_order() {
    let templates = Templates::with_serde(vec![
        (7, "seven".to_string()),
        (2, "two".to_string()),
        (5, "five".to_string()),
    ])
    .unwrap();
    let names = templates
        .iter()
        .iter()
        .map(|t| (t.id_value(), t.name().to_string()))
        .collect::<Vec<_>>();
    assert_eq!(
        names,
        vec![
            (2, "two".to_string()),
            (5, "five".to_string()),
            (7, "seven".to_string())
        ]
    );
}

#[test]
fn instantiation_by_identifier() {
    let templates = Templates::with_serde(vec![(3, "x".to_string())]).unwrap();
    let tag = templates.instantiate(3).unwrap();
    assert_eq!(tag.name(), "x");
    assert_eq!(tag.id_value(), 3);
    assert!(templates.instantiate(4).is_none());
}

#[test]
fn instantiation_by_name_takes_the_least_identifier() {
    let templates =
        Templates::with_serde(vec![(9, "same".to_string()), (4, "same".to_string())]).unwrap();
    let tag = templates.instantiate_from_name("same");
    assert_eq!(tag.id_value(), 4);
}
