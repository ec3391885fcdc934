//! Tasks and tag templates as iCalendar text: each is stored as a
//! calendar holding a single to-do, whose properties carry the task's
//! summary, tags and position, or the templates.

use vstd::prelude::*;

use icalendar::Component as _;

use crate::chars::decimal;
use crate::chars::is_digit;
use crate::formula::lemma_decimal;
use crate::tag_text::emit_list;
use crate::tag_text::emit_template_list;
use crate::tag_text::list_of_text;
use crate::tag_text::list_text;
use crate::tag_text::parse_list;
use crate::tag_text::parse_template_list;
use crate::tag_text::template_list_of_text;
use crate::tag_text::template_list_text;
use crate::tag_text::templates_view;
use crate::tag_text::template_text;
use crate::tag_text::lemma_list_roundtrip;
use crate::tag_text::lemma_template_list_roundtrip;
use crate::tag_text::names_unseparated;
use crate::tag_text::LIST_ITEM_SEPARATOR;
use crate::tag_text::TEMPLATE_COMPONENT_SEPARATOR;
use crate::tag_text::TextError;

verus! {

/// Why a text holds no task or templates.
#[derive(Clone, Copy, Debug, PartialEq, Eq, Structural)]
pub enum IcalError {
    /// The text is no calendar.
    NotParsed,
    /// The calendar holds no component.
    NoComponent,
    /// The calendar holds more than one component.
    SeveralComponents,
    /// The calendar's component is not a to-do.
    NotATodo,
    /// The tags property is no list of tag identifiers.
    Tags(TextError),
    /// The templates property is no list of templates.
    Templates(TextError),
}

/// The components of the calendar that the iCalendar text `text`
/// parses to, as `icalendar`'s parser reads it: whether each is a to-do,
/// and for a to-do its summary and the values of the properties named
/// `names`, in order; `None` where the text does not parse.
pub uninterp spec fn ical_components(text: Seq<char>, names: Seq<Seq<char>>) -> Option<
    Seq<(bool, Option<Seq<char>>, Seq<Option<Seq<char>>>)>,
>;

/// An optional string by its characters.
pub open spec fn opt_view(o: Option<String>) -> Option<Seq<char>> {
    match o {
        Some(s) => Some(s@),
        None => None,
    }
}

/// Optional strings by their characters.
pub open spec fn opt_views(v: Seq<Option<String>>) -> Seq<Option<Seq<char>>> {
    v.map_values(|o: Option<String>| opt_view(o))
}

/// Strings by their characters.
pub open spec fn str_views(v: Seq<String>) -> Seq<Seq<char>> {
    v.map_values(|s: String| s@)
}

/// Components as plain values.
pub open spec fn components_view(c: Option<Vec<(bool, Option<String>, Vec<Option<String>>)>>) -> Option<
    Seq<(bool, Option<Seq<char>>, Seq<Option<Seq<char>>>)>,
> {
    match c {
        Some(cs) => Some(
            cs@.map_values(
                |x: (bool, Option<String>, Vec<Option<String>>)| (x.0, opt_view(x.1), opt_views(x.2@)),
            ),
        ),
        None => None,
    }
}

/// Parse an iCalendar text (`icalendar::Calendar::from_str`) and read
/// each component: whether it is a to-do (`CalendarComponent::Todo`),
/// and of a to-do its summary (`Component::get_summary`) and the values
/// of the properties `names` (`Component::property_value`). A to-do has
/// one value per name; another component has none and no summary.
#[verifier::external_body]
fn parse_components(text: &str, names: &Vec<String>) -> (res: Option<Vec<(bool, Option<String>, Vec<Option<String>>)>>)
    ensures
        components_view(res) == ical_components(text@, str_views(names@)),
        res matches Some(cs) ==> forall|i: int|
            0 <= i < cs@.len() ==> if (#[trigger] cs@[i]).0 {
                cs@[i].2@.len() == names@.len()
            } else {
                cs@[i].1 is None && cs@[i].2@.len() == 0
            },
{
    let calendar = text.parse::<icalendar::Calendar>().ok()?;
    Some(calendar.components.iter().map(|component| match component {
        icalendar::CalendarComponent::Todo(todo) => (
            true,
            todo.get_summary().map(String::from),
            names.iter().map(|name| todo.property_value(name).map(String::from)).collect(),
        ),
        _ => (false, None, Vec::new()),
    }).collect())
}

/// Whether a text holds no line break.
pub open spec fn unbroken(s: Seq<char>) -> bool {
    forall|i: int| 0 <= i < s.len() ==> s[i] != '\n' && s[i] != '\r'
}

/// The names of the properties this library keeps in a to-do.
pub open spec fn kept_property(n: Seq<char>) -> bool {
    ||| n == "UID"@
    ||| n == "SUMMARY"@
    ||| n == tags_property()
    ||| n == position_property()
    ||| n == templates_property()
}

/// The kept properties whose values `icalendar` writes as escaped text;
/// it writes the others as they are.
pub open spec fn text_property(n: Seq<char>) -> bool {
    n == "UID"@ || n == "SUMMARY"@
}

/// The value of the property named `n` among `props`: that of the last
/// one so named, as a later property replaces an earlier one of the same
/// name.
pub open spec fn prop_value(props: Seq<(Seq<char>, Seq<char>)>, n: Seq<char>) -> Option<Seq<char>>
    decreases props.len(),
{
    if props.len() == 0 {
        None
    } else if props.last().0 == n {
        Some(props.last().1)
    } else {
        prop_value(props.drop_last(), n)
    }
}

/// Whether the properties `props` come back as they are from the text
/// of a to-do holding them: each is kept, one is the identifier, and
/// each value written as it is holds no line break.
pub open spec fn props_storable(props: Seq<(Seq<char>, Seq<char>)>) -> bool {
    &&& forall|i: int| 0 <= i < props.len() ==> kept_property(#[trigger] props[i].0)
    &&& forall|i: int| 0 <= i < props.len() && !text_property(#[trigger] props[i].0) ==> unbroken(props[i].1)
    &&& prop_value(props, "UID"@) is Some
}

/// Whether the iCalendar text `text` holds a single to-do whose summary
/// and whose properties named `names` are those among `props`.
pub open spec fn holds_todo(text: Seq<char>, names: Seq<Seq<char>>, props: Seq<(Seq<char>, Seq<char>)>) -> bool {
    ical_components(text, names) == Some(
        seq![(true, prop_value(props, "SUMMARY"@), names.map_values(|n: Seq<char>| prop_value(props, n)))],
    )
}

/// The text of a calendar holding a single to-do with the properties
/// `props` (`icalendar::Todo::add_property`, then `Calendar::to_string`).
/// Where the properties are storable, reading the text back
/// (`Calendar::from_str`) gives that single to-do with the summary and
/// the values of all the properties written, whatever the names asked
/// for, but for the time stamp (`DTSTAMP`), which `icalendar` adds with
/// the current time; escaping and line folding are undone on reading.
/// Nothing more is stated of the text itself.
#[verifier::external_body]
fn ical_todo_text(props: &Vec<(String, String)>) -> (res: String)
    ensures
        props_storable(props_view(props@)) ==> forall|names: Seq<Seq<char>>|
            (forall|i: int| 0 <= i < names.len() ==> names[i] != "DTSTAMP"@) ==> #[trigger] holds_todo(
                res@,
                names,
                props_view(props@),
            ),
{
    let mut todo = icalendar::Todo::new();
    for (name, value) in props.iter() {
        todo.add_property(name.as_str(), value.as_str());
    }
    icalendar::Calendar::from([todo]).to_string()
}

/// The summary and the values of the properties of the single to-do of
/// the components `c`, or why there is none.
pub open spec fn single_todo(c: Option<Seq<(bool, Option<Seq<char>>, Seq<Option<Seq<char>>>)>>) -> Result<
    (Option<Seq<char>>, Seq<Option<Seq<char>>>),
    IcalError,
> {
    match c {
        None => Err(IcalError::NotParsed),
        Some(cs) => if cs.len() == 0 {
            Err(IcalError::NoComponent)
        } else if cs.len() > 1 {
            Err(IcalError::SeveralComponents)
        } else if !cs[0].0 {
            Err(IcalError::NotATodo)
        } else {
            Ok((cs[0].1, cs[0].2))
        },
    }
}

/// Read the single to-do of the iCalendar text `text`: its summary and
/// the values of the properties `names`.
fn todo_of(text: &str, names: &Vec<String>) -> (res: Result<(Option<String>, Vec<Option<String>>), IcalError>)
    ensures
        match (res, single_todo(ical_components(text@, str_views(names@)))) {
            (Ok(v), Ok(w)) => opt_view(v.0) == w.0 && opt_views(v.1@) == w.1,
            (Err(e), Err(f)) => e == f,
            _ => false,
        },
        res matches Ok(v) ==> v.1@.len() == names@.len(),
{
    match parse_components(text, names) {
        None => Err(IcalError::NotParsed),
        Some(cs) => {
            let ghost v = cs@;
            if cs.len() == 0 {
                Err(IcalError::NoComponent)
            } else if cs.len() > 1 {
                Err(IcalError::SeveralComponents)
            } else {
                let mut cs = cs;
                let c = cs.pop().unwrap();
                assert(c == v[0]);
                if !c.0 {
                    Err(IcalError::NotATodo)
                } else {
                    Ok((c.1, c.2))
                }
            }
        },
    }
}

/// The name of the property holding a task's tags.
pub open spec fn tags_property() -> Seq<char> {
    "TAGS"@
}

/// The name of the property holding a task's position.
pub open spec fn position_property() -> Seq<char> {
    "POSITION"@
}

/// The name of the property holding the templates.
pub open spec fn templates_property() -> Seq<char> {
    "TEMPLATES"@
}

/// The identifier of the to-do holding the templates.
pub open spec fn meta_uid() -> Seq<char> {
    "00000000-0000-0000-0000-000000000000"@
}

/// A property that is missing or empty.
pub open spec fn blank(o: Option<Seq<char>>) -> bool {
    match o {
        Some(t) => t.len() == 0,
        None => true,
    }
}

/// The task with identifier `id` that the iCalendar text `text` holds,
/// with the text of its position property, or why it holds none: the
/// summary, or an empty one, and the tags that the tags property lists,
/// or none where it is missing or empty.
pub open spec fn spec_task_from_ical(text: Seq<char>, id: u128) -> Result<
    ((u128, Seq<char>, Seq<usize>), Option<Seq<char>>),
    IcalError,
> {
    match single_todo(ical_components(text, seq![tags_property(), position_property()])) {
        Err(e) => Err(e),
        Ok((summary, props)) => {
            let summary = match summary {
                Some(s) => s,
                None => Seq::empty(),
            };
            if blank(props[0]) {
                Ok(((id, summary, Seq::empty()), props[1]))
            } else {
                match list_of_text(props[0]->Some_0) {
                    Ok(tags) => Ok(((id, summary, tags), props[1])),
                    Err(e) => Err(IcalError::Tags(e)),
                }
            }
        },
    }
}

/// The templates that the iCalendar text `text` holds, or why it holds
/// none: those that the templates property lists, or none where it is
/// missing or empty.
pub open spec fn spec_templates_from_ical(text: Seq<char>) -> Result<Seq<(usize, Seq<char>)>, IcalError> {
    match single_todo(ical_components(text, seq![templates_property()])) {
        Err(e) => Err(e),
        Ok((_, props)) => if blank(props[0]) {
            Ok(Seq::empty())
        } else {
            match template_list_of_text(props[0]->Some_0) {
                Ok(ts) => Ok(ts),
                Err(e) => Err(IcalError::Templates(e)),
            }
        },
    }
}

/// Read the task with identifier `id` from the iCalendar text `text`,
/// along with the text of its position, if any.
pub fn task_from_ical(text: &str, id: u128) -> (res: Result<((u128, String, Vec<usize>), Option<String>), IcalError>)
    ensures
        match (res, spec_task_from_ical(text@, id)) {
            (Ok(v), Ok(w)) => v.0.0 == w.0.0 && v.0.1@ == w.0.1 && v.0.2@ == w.0.2 && opt_view(v.1) == w.1,
            (Err(e), Err(f)) => e == f,
            _ => false,
        },
{
    let names = vec!["TAGS".to_owned(), "POSITION".to_owned()];
    proof {
        assert(str_views(names@) =~= seq![tags_property(), position_property()]);
    }
    let (summary, props) = todo_of(text, &names)?;
    let mut props = props;
    let ghost pv = opt_views(props@);
    let position = props.pop().unwrap();
    let tags = props.pop().unwrap();
    proof {
        assert(opt_view(tags) == pv[0]);
        assert(opt_view(position) == pv[1]);
    }
    let summary = match summary {
        Some(s) => s,
        None => String::new(),
    };
    let ids = match tags {
        Some(t) => {
            if t.as_str().is_empty() {
                Vec::new()
            } else {
                match parse_list(t.as_str()) {
                    Ok(ids) => ids,
                    Err(e) => {
                        return Err(IcalError::Tags(e));
                    },
                }
            }
        },
        None => Vec::new(),
    };
    Ok(((id, summary, ids), position))
}

/// Read the templates from the iCalendar text `text`.
pub fn templates_from_ical(text: &str) -> (res: Result<Vec<(usize, String)>, IcalError>)
    ensures
        match (res, spec_templates_from_ical(text@)) {
            (Ok(v), Ok(w)) => templates_view(v@) == w,
            (Err(e), Err(f)) => e == f,
            _ => false,
        },
{
    let names = vec!["TEMPLATES".to_owned()];
    proof {
        assert(str_views(names@) =~= seq![templates_property()]);
    }
    let (_summary, props) = todo_of(text, &names)?;
    let mut props = props;
    let ghost pv = opt_views(props@);
    let templates = props.pop().unwrap();
    proof {
        assert(opt_view(templates) == pv[0]);
    }
    match templates {
        Some(t) => {
            if t.as_str().is_empty() {
                let res: Vec<(usize, String)> = Vec::new();
                proof {
                    assert(templates_view(res@) =~= Seq::<(usize, Seq<char>)>::empty());
                }
                Ok(res)
            } else {
                match parse_template_list(t.as_str()) {
                    Ok(ts) => Ok(ts),
                    Err(e) => Err(IcalError::Templates(e)),
                }
            }
        },
        None => {
            let res: Vec<(usize, String)> = Vec::new();
            proof {
                assert(templates_view(res@) =~= Seq::<(usize, Seq<char>)>::empty());
            }
            Ok(res)
        },
    }
}

/// Properties by their names' and values' characters.
pub open spec fn props_view(props: Seq<(String, String)>) -> Seq<(Seq<char>, Seq<char>)> {
    props.map_values(|p: (String, String)| (p.0@, p.1@))
}

/// The properties of the to-do holding a task: its identifier text
/// `uid`, its summary, its tags where it has any, and its position where
/// it has one.
pub open spec fn task_todo_properties(uid: Seq<char>, summary: Seq<char>, tags: Seq<usize>, position: Option<
    Seq<char>,
>) -> Seq<(Seq<char>, Seq<char>)> {
    let base = seq![("UID"@, uid), ("SUMMARY"@, summary)];
    let with_tags = if tags.len() > 0 {
        base.push((tags_property(), list_text(tags)))
    } else {
        base
    };
    match position {
        Some(p) => with_tags.push((position_property(), p)),
        None => with_tags,
    }
}

/// The properties of the to-do holding the templates: the fixed
/// identifier, and the templates where there are any.
pub open spec fn templates_todo_properties(templates: Seq<(usize, Seq<char>)>) -> Seq<(Seq<char>, Seq<char>)> {
    let base = seq![("UID"@, meta_uid())];
    if templates.len() > 0 {
        base.push((templates_property(), template_list_text(templates)))
    } else {
        base
    }
}

/// The properties of the to-do holding a task.
pub fn task_properties(uid: &str, summary: &str, tags: &Vec<usize>, position: Option<String>) -> (res: Vec<
    (String, String),
>)
    ensures
        props_view(res@) == task_todo_properties(uid@, summary@, tags@, opt_view(position)),
{
    let mut props: Vec<(String, String)> = Vec::new();
    props.push(("UID".to_owned(), uid.to_owned()));
    props.push(("SUMMARY".to_owned(), summary.to_owned()));
    let ghost base = props_view(props@);
    assert(base =~= seq![("UID"@, uid@), ("SUMMARY"@, summary@)]);
    match emit_list(tags) {
        Some(text) => {
            props.push(("TAGS".to_owned(), text));
        },
        None => {},
    }
    let ghost with_tags = props_view(props@);
    assert(with_tags =~= if tags@.len() > 0 {
        base.push((tags_property(), list_text(tags@)))
    } else {
        base
    });
    match position {
        Some(p) => {
            props.push(("POSITION".to_owned(), p));
        },
        None => {},
    }
    assert(props_view(props@) =~= task_todo_properties(uid@, summary@, tags@, opt_view(position)));
    props
}

/// The properties of the to-do holding the templates.
pub fn templates_properties(templates: &Vec<(usize, String)>) -> (res: Vec<(String, String)>)
    ensures
        props_view(res@) == templates_todo_properties(templates_view(templates@)),
{
    let mut props: Vec<(String, String)> = Vec::new();
    props.push(("UID".to_owned(), "00000000-0000-0000-0000-000000000000".to_owned()));
    let ghost base = props_view(props@);
    assert(base =~= seq![("UID"@, meta_uid())]);
    match emit_template_list(templates) {
        Some(text) => {
            props.push(("TEMPLATES".to_owned(), text));
        },
        None => {},
    }
    assert(templates_view(templates@).len() == templates@.len());
    assert(props_view(props@) =~= templates_todo_properties(templates_view(templates@)));
    props
}

/// The property names, told apart by their lengths.
proof fn lemma_property_names()
    ensures
        "UID"@.len() == 3,
        tags_property().len() == 4,
        "SUMMARY"@.len() == 7,
        "DTSTAMP"@.len() == 7,
        position_property().len() == 8,
        templates_property().len() == 9,
{
    reveal_strlit("UID");
    reveal_strlit("TAGS");
    reveal_strlit("SUMMARY");
    reveal_strlit("DTSTAMP");
    reveal_strlit("POSITION");
    reveal_strlit("TEMPLATES");
}

/// A property added last gives the value of its name.
proof fn lemma_prop_value_push(props: Seq<(Seq<char>, Seq<char>)>, p: (Seq<char>, Seq<char>), n: Seq<char>)
    ensures
        prop_value(props.push(p), n) == if p.0 == n {
            Some(p.1)
        } else {
            prop_value(props, n)
        },
{
    assert(props.push(p).drop_last() =~= props);
}

/// The text of a non-empty list of identifiers is non-empty and holds no
/// line break.
proof fn lemma_list_text_unbroken(ids: Seq<usize>)
    requires
        ids.len() > 0,
    ensures
        list_text(ids).len() > 0,
        unbroken(list_text(ids)),
    decreases ids.len(),
{
    lemma_decimal(ids[0] as nat);
    let d = decimal(ids[0] as nat);
    if ids.len() > 1 {
        lemma_list_text_unbroken(ids.drop_first());
        let a = d.push(LIST_ITEM_SEPARATOR);
        let b = list_text(ids.drop_first());
        assert forall|i: int| 0 <= i < (a + b).len() implies (a + b)[i] != '\n' && (a + b)[i] != '\r' by {
            if i < d.len() {
                assert((a + b)[i] == d[i]);
                assert(is_digit(d[i]));
            } else if i == d.len() {
                assert((a + b)[i] == LIST_ITEM_SEPARATOR);
            } else {
                assert((a + b)[i] == b[i - a.len()]);
            }
        }
    } else {
        assert forall|i: int| 0 <= i < d.len() implies d[i] != '\n' && d[i] != '\r' by {
            assert(is_digit(d[i]));
        }
    }
}

/// The text of a non-empty list of templates whose names hold no line
/// break is non-empty and holds no line break.
proof fn lemma_template_list_text_unbroken(ts: Seq<(usize, Seq<char>)>)
    requires
        ts.len() > 0,
        forall|i: int| 0 <= i < ts.len() ==> unbroken(#[trigger] ts[i].1),
    ensures
        template_list_text(ts).len() > 0,
        unbroken(template_list_text(ts)),
    decreases ts.len(),
{
    lemma_decimal(ts[0].0 as nat);
    let d = decimal(ts[0].0 as nat);
    let t = template_text(ts[0].0, ts[0].1);
    assert(unbroken(ts[0].1));
    assert forall|i: int| 0 <= i < t.len() implies t[i] != '\n' && t[i] != '\r' by {
        if i < d.len() {
            assert(t[i] == d[i]);
            assert(is_digit(d[i]));
        } else if i == d.len() {
            assert(t[i] == TEMPLATE_COMPONENT_SEPARATOR);
        } else {
            assert(t[i] == ts[0].1[i - d.len() - 1]);
        }
    }
    if ts.len() > 1 {
        let rest = ts.drop_first();
        assert forall|i: int| 0 <= i < rest.len() implies unbroken(#[trigger] rest[i].1) by {
            assert(rest[i] == ts[i + 1]);
        }
        lemma_template_list_text_unbroken(rest);
        let a = t.push(LIST_ITEM_SEPARATOR);
        let b = template_list_text(rest);
        assert forall|i: int| 0 <= i < (a + b).len() implies (a + b)[i] != '\n' && (a + b)[i] != '\r' by {
            if i < t.len() {
                assert((a + b)[i] == t[i]);
            } else if i == t.len() {
                assert((a + b)[i] == LIST_ITEM_SEPARATOR);
            } else {
                assert((a + b)[i] == b[i - a.len()]);
            }
        }
    }
}

/// Whether tag identifiers can be written and read back: none is zero.
pub open spec fn tags_storable(tags: Seq<usize>) -> bool {
    forall|i: int| 0 <= i < tags.len() ==> #[trigger] tags[i] > 0
}

/// Whether a position text can be written and read back: it holds no
/// line break.
pub open spec fn position_storable(position: Option<Seq<char>>) -> bool {
    position matches Some(p) ==> unbroken(p)
}

/// Whether templates can be written and read back: no identifier is
/// zero, and no name holds a line break or the list separator.
pub open spec fn templates_storable(templates: Seq<(usize, Seq<char>)>) -> bool {
    &&& forall|i: int| 0 <= i < templates.len() ==> #[trigger] templates[i].0 > 0
    &&& forall|i: int| 0 <= i < templates.len() ==> unbroken(#[trigger] templates[i].1)
    &&& names_unseparated(templates)
}

/// A text holding the to-do of a task gives the task back.
proof fn lemma_task_reads_back(
    text: Seq<char>,
    uid: Seq<char>,
    summary: Seq<char>,
    tags: Seq<usize>,
    position: Option<Seq<char>>,
)
    requires
        tags_storable(tags),
        position_storable(position),
        props_storable(task_todo_properties(uid, summary, tags, position)) ==> forall|names: Seq<Seq<char>>|
            (forall|i: int| 0 <= i < names.len() ==> names[i] != "DTSTAMP"@) ==> #[trigger] holds_todo(
                text,
                names,
                task_todo_properties(uid, summary, tags, position),
            ),
    ensures
        forall|id: u128| #[trigger]
            spec_task_from_ical(text, id) == Ok::<((u128, Seq<char>, Seq<usize>), Option<Seq<char>>), IcalError>(
                ((id, summary, tags), position),
            ),
{
    lemma_property_names();
    let pv = task_todo_properties(uid, summary, tags, position);
    let base = seq![("UID"@, uid), ("SUMMARY"@, summary)];
    assert(base == seq![("UID"@, uid)].push(("SUMMARY"@, summary)));
    assert(seq![("UID"@, uid)] == Seq::<(Seq<char>, Seq<char>)>::empty().push(("UID"@, uid)));
    let n = seq![tags_property(), position_property()];
    let tags_value = if tags.len() > 0 {
        Some(list_text(tags))
    } else {
        None
    };
    let with_tags = if tags.len() > 0 {
        base.push((tags_property(), list_text(tags)))
    } else {
        base
    };
    reveal_with_fuel(prop_value, 3);
    if tags.len() > 0 {
        lemma_list_text_unbroken(tags);
        lemma_list_roundtrip(tags);
        lemma_prop_value_push(base, (tags_property(), list_text(tags)), "UID"@);
        lemma_prop_value_push(base, (tags_property(), list_text(tags)), "SUMMARY"@);
        lemma_prop_value_push(base, (tags_property(), list_text(tags)), tags_property());
        lemma_prop_value_push(base, (tags_property(), list_text(tags)), position_property());
    }
    assert(prop_value(with_tags, "UID"@) == Some(uid));
    assert(prop_value(with_tags, "SUMMARY"@) == Some(summary));
    assert(prop_value(with_tags, tags_property()) == tags_value);
    assert(prop_value(with_tags, position_property()) is None);
    match position {
        Some(p) => {
            lemma_prop_value_push(with_tags, (position_property(), p), "UID"@);
            lemma_prop_value_push(with_tags, (position_property(), p), "SUMMARY"@);
            lemma_prop_value_push(with_tags, (position_property(), p), tags_property());
            lemma_prop_value_push(with_tags, (position_property(), p), position_property());
        },
        None => {},
    }
    assert(prop_value(pv, "UID"@) == Some(uid));
    assert(prop_value(pv, "SUMMARY"@) == Some(summary));
    assert(prop_value(pv, tags_property()) == tags_value);
    assert(prop_value(pv, position_property()) == position);
    assert forall|i: int| 0 <= i < pv.len() implies kept_property(#[trigger] pv[i].0) && (!text_property(pv[i].0)
        ==> unbroken(pv[i].1)) by {
        if tags.len() > 0 && i == 2 {
            assert(pv[i] == (tags_property(), list_text(tags)));
        }
    }
    assert(props_storable(pv));
    assert(holds_todo(text, n, pv));
    assert(n.map_values(|m: Seq<char>| prop_value(pv, m)) =~= seq![tags_value, position]);
    assert forall|id: u128| #[trigger]
        spec_task_from_ical(text, id) == Ok::<((u128, Seq<char>, Seq<usize>), Option<Seq<char>>), IcalError>(
            ((id, summary, tags), position),
        ) by {
        if tags.len() == 0 {
            assert(tags =~= Seq::<usize>::empty());
        }
    }
}

/// A text holding the to-do of templates gives the templates back.
proof fn lemma_templates_read_back(text: Seq<char>, templates: Seq<(usize, Seq<char>)>)
    requires
        templates_storable(templates),
        props_storable(templates_todo_properties(templates)) ==> forall|names: Seq<Seq<char>>|
            (forall|i: int| 0 <= i < names.len() ==> names[i] != "DTSTAMP"@) ==> #[trigger] holds_todo(
                text,
                names,
                templates_todo_properties(templates),
            ),
    ensures
        spec_templates_from_ical(text) == Ok::<Seq<(usize, Seq<char>)>, IcalError>(templates),
{
    lemma_property_names();
    let pv = templates_todo_properties(templates);
    let base = seq![("UID"@, meta_uid())];
    assert(base == Seq::<(Seq<char>, Seq<char>)>::empty().push(("UID"@, meta_uid())));
    let n = seq![templates_property()];
    let value = if templates.len() > 0 {
        Some(template_list_text(templates))
    } else {
        None
    };
    reveal_with_fuel(prop_value, 2);
    if templates.len() > 0 {
        lemma_template_list_text_unbroken(templates);
        lemma_template_list_roundtrip(templates);
        lemma_prop_value_push(base, (templates_property(), template_list_text(templates)), "UID"@);
        lemma_prop_value_push(base, (templates_property(), template_list_text(templates)), templates_property());
    }
    assert(prop_value(pv, "UID"@) is Some);
    assert(prop_value(pv, templates_property()) == value);
    assert forall|i: int| 0 <= i < pv.len() implies kept_property(#[trigger] pv[i].0) && (!text_property(pv[i].0)
        ==> unbroken(pv[i].1)) by {
        if i == 1 {
            assert(pv[i] == (templates_property(), template_list_text(templates)));
        }
    }
    assert(props_storable(pv));
    assert(holds_todo(text, n, pv));
    assert(n.map_values(|m: Seq<char>| prop_value(pv, m)) =~= seq![value]);
    if templates.len() == 0 {
        assert(templates =~= Seq::<(usize, Seq<char>)>::empty());
    }
}

/// The iCalendar text of the task with identifier text `uid`, summary
/// `summary`, tags `tags` and position text `position`: a calendar with
/// a single to-do with the properties `task_properties` gives. Where no
/// tag identifier is zero and the position holds no line break, reading
/// it back gives the task, whatever identifier it is read with.
pub fn task_to_ical(uid: &str, summary: &str, tags: &Vec<usize>, position: Option<String>) -> (res: String)
    ensures
        tags_storable(tags@) && position_storable(opt_view(position)) ==> forall|id: u128| #[trigger]
            spec_task_from_ical(res@, id) == Ok::<((u128, Seq<char>, Seq<usize>), Option<Seq<char>>), IcalError>(
                ((id, summary@, tags@), opt_view(position)),
            ),
{
    let ghost pos = opt_view(position);
    let props = task_properties(uid, summary, tags, position);
    let res = ical_todo_text(&props);
    proof {
        if tags_storable(tags@) && position_storable(pos) {
            lemma_task_reads_back(res@, uid@, summary@, tags@, pos);
        }
    }
    res
}

/// The iCalendar text of the templates `templates`: a calendar with a
/// single to-do with the properties `templates_properties` gives. Where
/// no identifier is zero and no name holds a line break or the list
/// separator, reading it back gives the templates.
pub fn templates_to_ical(templates: &Vec<(usize, String)>) -> (res: String)
    ensures
        templates_storable(templates_view(templates@)) ==> spec_templates_from_ical(res@) == Ok::<
            Seq<(usize, Seq<char>)>,
            IcalError,
        >(templates_view(templates@)),
{
    let props = templates_properties(templates);
    let res = ical_todo_text(&props);
    proof {
        if templates_storable(templates_view(templates@)) {
            lemma_templates_read_back(res@, templates_view(templates@));
        }
    }
    res
}

} // verus!
