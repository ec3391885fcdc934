use notnow::ical::task_from_ical;
use notnow::ical::task_properties;
use notnow::ical::task_to_ical;
use notnow::ical::templates_from_ical;
use notnow::ical::templates_properties;
use notnow::ical::templates_to_ical;
use notnow::ical::IcalError;
use notnow::tag_text::TextError;

fn calendar(components: &str) -> String {
    format!("BEGIN:VCALENDAR\r\nVERSION:2.0\r\n{components}END:VCALENDAR\r\n")
}

#[test]
fn task_is_read_from_its_todo() {
    let text = calendar("BEGIN:VTODO\r\nUID:x\r\nSUMMARY:buy milk\r\nTAGS:3|1\r\nPOSITION:2.5\r\nEND:VTODO\r\n");
    let (task, position) = task_from_ical(&text, 7).unwrap();
    assert_eq!(task, (7, "buy milk".to_string(), vec![3, 1]));
    assert_eq!(position, Some("2.5".to_string()));

    let text = calendar("BEGIN:VTODO\r\nUID:x\r\nEND:VTODO\r\n");
    assert_eq!(task_from_ical(&text, 1).unwrap(), ((1, String::new(), Vec::new()), None));
}

#[test]
fn task_errors() {
    assert_eq!(task_from_ical("no calendar", 1).err(), Some(IcalError::NotParsed));
    assert_eq!(task_from_ical(&calendar(""), 1).err(), Some(IcalError::NoComponent));
    let todo = "BEGIN:VTODO\r\nUID:x\r\nEND:VTODO\r\n";
    assert_eq!(
        task_from_ical(&calendar(&format!("{todo}{todo}")), 1).err(),
        Some(IcalError::SeveralComponents)
    );
    let event = "BEGIN:VEVENT\r\nUID:x\r\nEND:VEVENT\r\n";
    assert_eq!(task_from_ical(&calendar(event), 1).err(), Some(IcalError::NotATodo));
    let bad = calendar("BEGIN:VTODO\r\nUID:x\r\nTAGS:1|x\r\nEND:VTODO\r\n");
    assert_eq!(task_from_ical(&bad, 1).err(), Some(IcalError::Tags(TextError::NotANumber)));
}

#[test]
fn task_round_trip() {
    let text = task_to_ical("uid-1", "call mom", &vec![2, 5], Some("10".to_string()));
    let (task, position) = task_from_ical(&text, 9).unwrap();
    assert_eq!(task, (9, "call mom".to_string(), vec![2, 5]));
    assert_eq!(position, Some("10".to_string()));

    let text = task_to_ical("uid-2", "", &Vec::new(), None);
    assert_eq!(task_from_ical(&text, 3).unwrap(), ((3, String::new(), Vec::new()), None));
}

#[test]
fn task_properties_list() {
    let props = task_properties("u", "s", &vec![1, 2], Some("4".to_string()));
    let expected = vec![
        ("UID".to_string(), "u".to_string()),
        ("SUMMARY".to_string(), "s".to_string()),
        ("TAGS".to_string(), "1|2".to_string()),
        ("POSITION".to_string(), "4".to_string()),
    ];
    assert_eq!(props, expected);
    assert_eq!(task_properties("u", "s", &Vec::new(), None).len(), 2);
}

#[test]
fn templates_round_trip() {
    let templates = vec![(1, "complete".to_string()), (4, "work".to_string())];
    let text = templates_to_ical(&templates);
    assert_eq!(templates_from_ical(&text).unwrap(), templates);
    assert_eq!(templates_from_ical(&templates_to_ical(&Vec::new())).unwrap(), Vec::new());
    assert_eq!(templates_properties(&Vec::new()).len(), 1);

    let bad = calendar("BEGIN:VTODO\r\nUID:x\r\nTEMPLATES:1\r\nEND:VTODO\r\n");
    assert_eq!(templates_from_ical(&bad).err(), Some(IcalError::Templates(TextError::MissingSeparator)));
}

#[test]
fn task_round_trip_escapes_and_folds() {
    let summary = "a, b; c\\d\nnext line \u{00fc}ber \u{2603} and a summary long enough to be folded over several lines of the calendar text";
    let position = "0.123456789012345678901234567890123456789012345678901234567890123456789012345678901234567890";
    let text = task_to_ical("uid, with; specials", summary, &vec![7, 1, 300], Some(position.to_string()));
    let (task, read_position) = task_from_ical(&text, 42).unwrap();
    assert_eq!(task, (42, summary.to_string(), vec![7, 1, 300]));
    assert_eq!(read_position, Some(position.to_string()));
}

#[test]
fn templates_round_trip_with_commas_in_names() {
    let templates = vec![(2, "a, b".to_string()), (9, "x;y\\z".to_string())];
    let text = templates_to_ical(&templates);
    assert_eq!(templates_from_ical(&text).unwrap(), templates);
}
