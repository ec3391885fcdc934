use notnow::term_renderer::align_center;
use notnow::term_renderer::clip;
use notnow::term_renderer::sanitize_offset;
use notnow::term_renderer::BBox;

#[test]
fn pad_string() {
    assert_eq!(align_center("", 0), "");
    assert_eq!(align_center("", 1), " ");
    assert_eq!(align_center("", 8), "        ");
    assert_eq!(align_center("a", 1), "a");
    assert_eq!(align_center("a", 2), "a ");
    assert_eq!(align_center("a", 3), " a ");
    assert_eq!(align_center("a", 4), " a  ");
    assert_eq!(align_center("hello", 20), "       hello        ");
}

#[test]
fn crop_string() {
    assert_eq!(align_center("hello", 4), "h...");
    assert_eq!(align_center("hello", 5), "hello");
    assert_eq!(align_center("that's a test", 8), "that'...");
}

#[test]
fn clip_string() {
    let bbox = BBox { x: 0, y: 0, w: 0, h: 0 };
    assert_eq!(clip(0, 0, "hello", bbox), "");
    assert_eq!(clip(1, 0, "foobar", bbox), "");
    assert_eq!(clip(1, 1, "baz?", bbox), "");

    for x in 0..5 {
        for y in 0..3 {
            let bbox = BBox { x, y, w: 5, h: 3 };
            assert_eq!(clip(0, 2, "inside", bbox), "insid");
            assert_eq!(clip(0, 3, "outside", bbox), "");

            assert_eq!(clip(1, 2, "inside", bbox), "insi");
            assert_eq!(clip(2, 0, "inside", bbox), "ins");
            assert_eq!(clip(2, 3, "outside", bbox), "");
        }
    }
}

#[test]
fn offset_sanitizing() {
    assert_eq!(sanitize_offset(5, 3, 4), 3);
    assert_eq!(sanitize_offset(0, 10, 4), 7);
    assert_eq!(sanitize_offset(2, 4, 4), 2);
}

use notnow::term_renderer::displayable_tabs;
use notnow::term_renderer::displayable_tasks;
use notnow::term_renderer::tab_bar_layout;
use notnow::term_renderer::task_list_layout;

#[test]
fn task_list_layout_scrolls_to_selection() {
    let complete = [false, true, false, false, true];
    let (lines, cursor, offset) = task_list_layout(&complete, 4, 0, 2);
    assert_eq!(offset, 3);
    assert_eq!(lines.len(), 2);
    assert_eq!(lines[0].index, 3);
    assert_eq!(lines[0].y, 2);
    assert_eq!(lines[1].index, 4);
    assert_eq!(lines[1].y, 4);
    assert!(lines[1].complete);
    assert!(lines[1].selected);
    assert_eq!(cursor, Some((7, 4)));
}

#[test]
fn tab_bar_layout_centers_titles() {
    let (titles, offset) = tab_bar_layout(&["all", "a rather long name for a tab!"], 1, 0, 2);
    assert_eq!(offset, 0);
    assert_eq!(titles.len(), 2);
    assert_eq!(titles[0].title, format!("{}all{}", " ".repeat(13), " ".repeat(14)));
    assert_eq!(titles[1].title, "  a rather long name for ...  ");
    assert_eq!(titles[1].x, 30);
    assert!(titles[1].selected);
    let bbox = BBox { x: 0, y: 0, w: 95, h: 11 };
    assert_eq!(displayable_tabs(bbox), 3);
    assert_eq!(displayable_tasks(bbox), 4);
}
