//! Task management building blocks: tasks with tags and an undoable
//! record of the operations on them, the text forms of tags, logical
//! formulas over tags, an ordered item database, text editing, and the
//! decisions of the terminal widgets.

pub mod chars;
pub mod formula;
pub mod db;
pub mod text;
pub mod line;
pub mod view;
pub mod query;
pub mod ical;
pub mod named_view;
pub mod selection;
pub mod in_out;
pub mod tab_bar;
pub mod term_renderer;
pub mod task_list_box;
pub mod ops;
pub mod id;
pub mod tags;
pub mod tasks;
pub mod tag_text;
pub mod state;
pub mod term_ui;
