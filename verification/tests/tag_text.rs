use notnow::tag_text::emit_id;
use notnow::tag_text::emit_list;
use notnow::tag_text::emit_template;
use notnow::tag_text::emit_template_list;
use notnow::tag_text::parse_id;
use notnow::tag_text::parse_list;
use notnow::tag_text::parse_template;
use notnow::tag_text::parse_template_list;
use notnow::tag_text::TextError;

#[test]
fn emit_parse_template() {
    let emitted = emit_template(42, "test tag");
    assert_eq!(emitted, "42,test tag");
    let parsed = parse_template(&emitted).unwrap();
    assert_eq!(parsed, (42, "test tag".to_string()));
}

#[test]
fn emit_parse_tag() {
    let emitted = emit_id(usize::MAX);
    assert_eq!(emitted, usize::MAX.to_string());
    let parsed = parse_id(&emitted).unwrap();
    assert_eq!(parsed, usize::MAX);
}

#[test]
fn emit_parse_tag_list() {
    assert_eq!(emit_list(&vec![]), None);

    let tags = vec![1];
    assert_eq!(parse_list(&emit_list(&tags).unwrap()).unwrap(), tags);

    let tags = vec![42, 37];
    assert_eq!(emit_list(&tags).unwrap(), "42|37");
    assert_eq!(parse_list(&emit_list(&tags).unwrap()).unwrap(), tags);
}

#[test]
fn id_text_errors() {
    assert_eq!(parse_id(""), Err(TextError::NotANumber));
    assert_eq!(parse_id("+"), Err(TextError::NotANumber));
    assert_eq!(parse_id("-3"), Err(TextError::NotANumber));
    assert_eq!(parse_id("1a"), Err(TextError::NotANumber));
    assert_eq!(parse_id("0"), Err(TextError::Zero));
    assert_eq!(parse_id("+17"), Ok(17));
    assert_eq!(parse_id("007"), Ok(7));
    assert_eq!(
        parse_id("184467440737095516150"),
        Err(TextError::TooLarge)
    );
}

#[test]
fn template_text_errors_and_commas_in_names() {
    assert_eq!(parse_template("12"), Err(TextError::MissingSeparator));
    assert_eq!(parse_template(",x"), Err(TextError::NotANumber));
    assert_eq!(parse_template("0,x"), Err(TextError::Zero));
    assert_eq!(parse_template("5,a,b"), Ok((5, "a,b".to_string())));
    assert_eq!(parse_template("5,"), Ok((5, String::new())));
}

#[test]
fn list_text_errors() {
    assert_eq!(parse_list("1||2"), Err(TextError::NotANumber));
    assert_eq!(parse_list("3|0|x"), Err(TextError::Zero));
    assert_eq!(parse_list("3|4|"), Err(TextError::NotANumber));
    assert_eq!(parse_list("9"), Ok(vec![9]));
}

#[test]
fn emit_parse_template_list() {
    assert_eq!(emit_template_list(&vec![]), None);
    let templates = vec![(3, "tag1".to_string()), (990, "tag, 990".to_string())];
    let text = emit_template_list(&templates).unwrap();
    assert_eq!(text, "3,tag1|990,tag, 990");
    assert_eq!(parse_template_list(&text).unwrap(), templates);
    assert_eq!(parse_template_list("1,a|b"), Err(TextError::MissingSeparator));
}
