use std::rc::Rc;

use notnow::tags::Tag;
use notnow::tags::Templates;
use notnow::task_list_box::task_infos;
use notnow::tasks::Tasks;
use notnow::view::formula_to_cnf;
use notnow::view::matches_cnf;
use notnow::view::query_tasks;
use notnow::view::TagLit;
use notnow::formula::Formula;
use notnow::query::Filter;
use notnow::query::Query;
use notnow::query::QueryBuilder;

const COMPLETE_TAG: &str = "complete";
const COMPLETE: usize = 1;
const TAG1: usize = 2;
const TAG2: usize = 3;
const TAG3: usize = 4;
const TAG4: usize = 5;

/// Tasks "1" to `count`; every second one is complete, the later ones
/// carry more tags (tag `x` has the identifier `x + 1`).
fn make_tagged_tasks(count: usize) -> (Tasks, Tag) {
    let (tasks, complete, _) = make_tagged_tasks_and_templates(count);
    (tasks, complete)
}

fn make_tagged_tasks_and_templates(count: usize) -> (Tasks, Tag, Rc<Templates>) {
    let templates = (0..=count / 4)
        .map(|x| {
            if x == 0 {
                (x + 1, COMPLETE_TAG.to_string())
            } else {
                (x + 1, format!("tag{}", x))
            }
        })
        .collect();
    let templates = Rc::new(Templates::with_serde(templates).unwrap());
    let complete = templates.instantiate_from_name(COMPLETE_TAG);
    let tasks: Vec<(u128, String, Vec<usize>)> = (0..count)
        .map(|x| {
            let mut tags = Vec::new();
            if x % 2 == 1 {
                tags.push(1);
            }
            if x >= 4 {
                tags.push(x / 4 + 1);
            }
            if x >= 8 && x % 4 >= 2 {
                tags.extend((1..x / 4).map(|t| t + 1));
            }
            (x as u128 + 1, format!("{}", x + 1), tags)
        })
        .collect();
    (Tasks::with_serde(tasks, templates.clone()).unwrap(), complete, templates)
}

fn untagged_tasks(count: usize) -> (Tasks, Tag) {
    let templates = Rc::new(Templates::with_serde(vec![(COMPLETE, COMPLETE_TAG.to_string())]).unwrap());
    let complete = templates.instantiate_from_name(COMPLETE_TAG);
    let tasks = (0..count).map(|x| (x as u128 + 1, format!("{}", x + 1), Vec::new())).collect();
    (Tasks::with_serde(tasks, templates).unwrap(), complete)
}

/// The summaries of the tasks that satisfy `cnf`, in order.
fn query(tasks: &Tasks, complete: &Tag, cnf: Vec<Vec<TagLit>>) -> Vec<String> {
    let infos = task_infos(tasks, &cnf, Some(complete));
    let keys = query_tasks(tasks, &cnf);
    assert_eq!(infos.iter().map(|info| info.id).collect::<Vec<_>>(), keys);
    infos.into_iter().map(|info| info.summary).collect()
}

fn strings(items: &[&str]) -> Vec<String> {
    items.iter().map(|s| s.to_string()).collect()
}

#[test]
fn is_empty() {
    let (tasks, complete) = untagged_tasks(0);
    assert!(query(&tasks, &complete, Vec::new()).is_empty());
    let (tasks, complete) = untagged_tasks(1);
    assert!(!query(&tasks, &complete, Vec::new()).is_empty());
}

#[test]
fn filter_completions() {
    let (tasks, complete) = make_tagged_tasks(16);
    let cnf = vec![vec![TagLit::Pos(COMPLETE)]];
    let infos = task_infos(&tasks, &cnf, Some(&complete));
    infos.iter().for_each(|info| assert!(info.complete));
    assert_eq!(query(&tasks, &complete, cnf), strings(&["2", "4", "6", "8", "10", "12", "14", "16"]));
}

#[test]
fn filter_no_completions() {
    let (tasks, complete) = make_tagged_tasks(16);
    let cnf = vec![vec![TagLit::Neg(COMPLETE)]];
    let infos = task_infos(&tasks, &cnf, Some(&complete));
    infos.iter().for_each(|info| assert!(!info.complete));
    assert_eq!(query(&tasks, &complete, cnf), strings(&["1", "3", "5", "7", "9", "11", "13", "15"]));
}

#[test]
fn filter_tag1_and_tag2() {
    let (tasks, complete) = make_tagged_tasks(20);
    let cnf = vec![vec![TagLit::Pos(TAG1)], vec![TagLit::Pos(TAG2)]];
    assert_eq!(query(&tasks, &complete, cnf), strings(&["11", "12", "15", "16", "19", "20"]));
}

#[test]
fn filter_tag3_or_tag1() {
    let (tasks, complete) = make_tagged_tasks(20);
    let cnf = vec![vec![TagLit::Pos(TAG3), TagLit::Pos(TAG1)]];
    assert_eq!(
        query(&tasks, &complete, cnf),
        strings(&["5", "6", "7", "8", "11", "12", "13", "14", "15", "16", "19", "20"])
    );
}

#[test]
fn filter_tag1_and_complete_or_tag4() {
    let (tasks, complete) = make_tagged_tasks(20);
    let cnf = vec![vec![TagLit::Pos(TAG1)], vec![TagLit::Pos(COMPLETE), TagLit::Pos(TAG4)]];
    assert_eq!(query(&tasks, &complete, cnf), strings(&["6", "8", "12", "16", "19", "20"]));
}

#[test]
fn filter_tag2_and_not_complete() {
    let (tasks, complete) = make_tagged_tasks(20);
    let cnf = vec![vec![TagLit::Neg(TAG2)], vec![TagLit::Neg(COMPLETE)]];
    assert_eq!(query(&tasks, &complete, cnf), strings(&["1", "3", "5", "7", "13", "17"]));
}

#[test]
fn filter_tag2_or_not_complete_and_tag3() {
    let (tasks, complete) = make_tagged_tasks(20);
    let cnf = vec![vec![TagLit::Neg(TAG2), TagLit::Neg(COMPLETE)], vec![TagLit::Pos(TAG3)]];
    assert_eq!(query(&tasks, &complete, cnf), strings(&["13", "14", "15", "19"]));
}

#[test]
fn literals_match_by_presence() {
    let tags = vec![2, 5];
    assert!(matches_cnf(&Vec::new(), &tags));
    assert!(!matches_cnf(&vec![Vec::new()], &tags));
    assert!(matches_cnf(&vec![vec![TagLit::Pos(5)]], &tags));
    assert!(!matches_cnf(&vec![vec![TagLit::Pos(3)]], &tags));
    assert!(matches_cnf(&vec![vec![TagLit::Neg(3)]], &tags));
    assert!(!matches_cnf(&vec![vec![TagLit::Neg(2)], vec![TagLit::Pos(5)]], &tags));
    assert!(matches_cnf(&vec![vec![TagLit::Neg(2), TagLit::Pos(5)], vec![TagLit::Pos(2)]], &tags));
}

#[test]
fn view_formula_filters_tasks() {
    let (tasks, complete) = make_tagged_tasks(20);
    let formula = Formula::Var(TAG1) & Formula::Var(TAG2);
    let cnf = formula_to_cnf(formula).unwrap();
    assert_eq!(query(&tasks, &complete, cnf), strings(&["11", "12", "15", "16", "19", "20"]));
}

/// The summaries of the tasks that `query` yields.
fn run_query(tasks: &Tasks, complete: &Tag, query: &Query) -> Vec<String> {
    let keys = query.iter(tasks);
    let infos = task_infos(tasks, query.lits(), Some(complete));
    assert_eq!(infos.iter().map(|info| info.id).collect::<Vec<_>>(), keys);
    assert_eq!(query.is_empty(tasks), keys.is_empty());
    infos.into_iter().map(|info| info.summary).collect()
}

#[test]
fn built_queries_filter_tasks() {
    let (tasks, complete, templates) = make_tagged_tasks_and_templates(20);
    let tag1 = templates.instantiate(TAG1).unwrap();
    let tag2 = templates.instantiate(TAG2).unwrap();
    let tag3 = templates.instantiate(TAG3).unwrap();
    let tag4 = templates.instantiate(TAG4).unwrap();

    let query = QueryBuilder::new().and(&tag1).and(&tag2).build("test".to_string());
    assert_eq!(query.name(), "test");
    assert_eq!(run_query(&tasks, &complete, &query), strings(&["11", "12", "15", "16", "19", "20"]));

    let query = QueryBuilder::new().or(&tag3).or(&tag1).build("test".to_string());
    assert_eq!(
        run_query(&tasks, &complete, &query),
        strings(&["5", "6", "7", "8", "11", "12", "13", "14", "15", "16", "19", "20"])
    );

    let query = QueryBuilder::new().and(&tag1).and(&complete).or(&tag4).build("test".to_string());
    assert_eq!(run_query(&tasks, &complete, &query), strings(&["6", "8", "12", "16", "19", "20"]));

    let query = QueryBuilder::new().and_not(&tag2).and_not(&complete).build("test".to_string());
    assert_eq!(run_query(&tasks, &complete, &query), strings(&["1", "3", "5", "7", "13", "17"]));

    let query = QueryBuilder::new().or_not(&tag2).or_not(&complete).and(&tag3).build("test".to_string());
    assert_eq!(run_query(&tasks, &complete, &query), strings(&["13", "14", "15", "19"]));

    let query = QueryBuilder::new().and(&tag4).and_not(&tag4).build("none".to_string());
    assert!(query.is_empty(&tasks));
}

#[test]
fn query_from_literals_checks_tags() {
    let (tasks, complete, templates) = make_tagged_tasks_and_templates(16);
    let query = Query::with_serde("done".to_string(), vec![vec![TagLit::Pos(COMPLETE)]], &templates).unwrap();
    assert_eq!(run_query(&tasks, &complete, &query), strings(&["2", "4", "6", "8", "10", "12", "14", "16"]));

    let lits = vec![vec![TagLit::Pos(COMPLETE)], vec![TagLit::Neg(TAG1), TagLit::Pos(9)], vec![TagLit::Pos(8)]];
    assert_eq!(Query::with_serde("bad".to_string(), lits, &templates).err(), Some(9));
}

#[test]
fn filters_check_literals() {
    let tags = vec![2, 5];
    assert!(Filter::matches(&vec![TagLit::Pos(3), TagLit::Pos(5)], &tags));
    assert!(!Filter::matches(&vec![TagLit::Pos(3), TagLit::Neg(5)], &tags));
    assert!(!Filter::matches(&Vec::new(), &tags));
    let filter = Filter::new(vec![vec![TagLit::Pos(2)], vec![TagLit::Neg(4)]]);
    assert!(filter.matched_by(&tags));
    assert!(!filter.matched_by(&vec![2, 4]));
    assert!(Filter::new(Vec::new()).matched_by(&Vec::new()));
}
