# notnow

A library for terminal based task management, verified with Verus, and a
small program around it.

- `src/` is the library. Its functions carry contracts that Verus
  proves; the calls into outside crates (grapheme segmentation, display
  widths, UUIDs, gap search, the ring buffer of undoable operations,
  iCalendar parsing and printing) and
  a few std functions sit behind small trusted wrappers; their contracts
  state what those crates' sources and documentation show, and name
  what takes pages to state (segmentation, widths, the calendar a text
  parses to), and nothing is proved of them:
  - `tasks`, `ops`, `tags`, `id`, `state`: tasks with tags, the ordered
    and undoable task set, tag templates and identifier allocation;
  - `tag_text`: the text forms of tag identifiers, templates and lists;
  - `ical`: tasks and tag templates read from and written as iCalendar
    text, with the proof that reading back what was written gives it
    back;
  - `formula`, `view`, `named_view`, `query`: logical formulas over
    tags, their parser and printer, their conjunctive normal form, and
    the filtering of tasks by a view's formula;
  - `db`: an ordered database of items with stable identities;
  - `text`, `line`, `chars`: text editing by grapheme clusters;
  - `selection`, `in_out`, `tab_bar`, `task_list_box`, `term_renderer`,
    `term_ui`: the decisions and layouts of the terminal widgets, each
    a function from state and event to the next state and action, and
    the changes to the tasks that the task list asks for.
- `tests/` exercises the library on concrete values.
- `app/` is the program: command line, paths, lock file, reading and
  writing the task files (and the tasks' floating point positions), and
  a line-based front end that hands key presses to the library's
  widgets and prints the screen as the library lays it out.
