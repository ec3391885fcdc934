//! The task state of the program: the tag templates and the tasks.

use std::rc::Rc;

use vstd::prelude::*;

use crate::db::rc_clone;
use crate::view::text_of;
use crate::view::FormulaPair;
use crate::tags::Tag;
use crate::tags::all_ids_ok;
use crate::tags::entries_view;
use crate::tags::ids_of;
use crate::tags::is_first_bad_id;
use crate::tags::templates_of;
use crate::tags::Templates;
use crate::tasks::all_tags_known;
use crate::tasks::entries_plain;
use crate::tasks::is_unknown_tag;
use crate::tasks::tasks_from;
use crate::tasks::Tasks;

verus! {

/// Why a task state cannot be created.
#[derive(Clone, Copy, Debug, PartialEq, Eq, Structural)]
pub enum StateError {
    /// A template identifier is zero or occurs twice.
    DuplicateTagId(usize),
    /// A task has a tag whose identifier names no template.
    InvalidTagId(usize),
}

/// The templates and the tasks of the program.
pub struct TaskState {
    templates: Rc<Templates>,
    tasks: Tasks,
}

impl TaskState {
    /// The templates.
    pub closed spec fn spec_templates(&self) -> Templates {
        *self.templates
    }

    /// The tasks.
    pub closed spec fn spec_tasks(&self) -> Tasks {
        self.tasks
    }

    /// Create the task state from template `(identifier, name)` pairs
    /// and the identifiers, summaries and tag identifiers of the tasks.
    pub fn with_serde(templates: Vec<(usize, String)>, tasks: Vec<(u128, String, Vec<usize>)>) -> (res: Result<Self, StateError>)
        requires
            tasks@.len() + 1 < u32::MAX,
        ensures
            res is Ok <==> all_ids_ok(ids_of(templates@)) && all_tags_known(
                tasks@,
                templates_of(entries_view(templates@)),
            ),
            res matches Err(StateError::DuplicateTagId(id)) ==> !all_ids_ok(ids_of(templates@))
                && is_first_bad_id(ids_of(templates@), id),
            res matches Err(StateError::InvalidTagId(id)) ==> all_ids_ok(ids_of(templates@))
                && is_unknown_tag(tasks@, templates_of(entries_view(templates@)), id),
            res matches Ok(state) ==> state.spec_tasks().wf() && state.spec_tasks().spec_templates()
                == state.spec_templates() && state.spec_templates().wf() && state.spec_templates()@
                == templates_of(entries_view(templates@)) && entries_plain(state.spec_tasks().entries())
                == tasks_from(tasks@),
    {
        let templates = match Templates::with_serde(templates) {
            Ok(templates) => Rc::new(templates),
            Err(id) => {
                return Err(StateError::DuplicateTagId(id));
            },
        };
        match Tasks::with_serde(tasks, rc_clone(&templates)) {
            Ok(tasks) => Ok(TaskState { templates, tasks }),
            Err(id) => Err(StateError::InvalidTagId(id)),
        }
    }

    /// The template `(identifier, name)` pairs, in the order of their
    /// identifiers, and the identifiers, summaries and tag identifiers of
    /// the tasks, in order.
    pub fn to_serde(&self) -> (res: (Vec<(usize, String)>, Vec<(u128, String, Vec<usize>)>))
        requires
            self.spec_templates().wf(),
        ensures
            forall|i: int, j: int| 0 <= i < j < res.0@.len() ==> res.0@[i].0 < res.0@[j].0,
            forall|i: int| 0 <= i < res.0@.len() ==> #[trigger] self.spec_templates()@.contains_key(res.0@[i].0)
                && self.spec_templates()@[res.0@[i].0] == res.0@[i].1@,
            forall|k: usize| #[trigger] self.spec_templates()@.contains_key(k) ==> exists|i: int|
                0 <= i < res.0@.len() && res.0@[i].0 == k,
            res.1@.len() == self.spec_tasks().entries().len(),
            forall|i: int| 0 <= i < res.1@.len() ==> (#[trigger] res.1@[i]).0 == self.spec_tasks().entries()[i].0.spec_value()@.0
                && res.1@[i].1@ == self.spec_tasks().entries()[i].0.spec_value()@.1 && res.1@[i].2@
                == self.spec_tasks().entries()[i].0.spec_value()@.2,
    {
        (self.templates.to_serde(), self.tasks.to_serde())
    }

    /// Retrieve the tasks.
    pub fn tasks(&self) -> (res: &Tasks)
        ensures
            *res == self.spec_tasks(),
    {
        &self.tasks
    }

    /// Retrieve the tasks, for changing them.
    pub fn tasks_mut(&mut self) -> (res: &mut Tasks)
        ensures
            *res == old(self).spec_tasks(),
            final(self).spec_templates() == old(self).spec_templates(),
            final(self).spec_tasks() == *final(res),
    {
        &mut self.tasks
    }
}

/// The name of the view that shows all tasks.
pub open spec fn all_view_name() -> Seq<char> {
    seq!['a', 'l', 'l']
}

/// The configuration of the user interface: the tag to toggle on user
/// request, the views with the index of their selected task each, and
/// the index of the selected view.
pub struct UiConfig {
    pub toggle_tag: Option<Tag>,
    pub views: Vec<(crate::named_view::View, Option<usize>)>,
    pub selected: Option<usize>,
}

impl UiConfig {
    /// Create the configuration from its views, the identifier of the
    /// tag to toggle, instantiated from `templates`, and the selected
    /// view. Where no view is configured, one view named `all` with no
    /// formula shows all tasks. The identifier of a toggle tag that names
    /// no template is the error.
    pub fn with_serde(views: Vec<(crate::named_view::View, Option<usize>)>, toggle_tag: Option<usize>, selected: Option<usize>, templates: &Templates) -> (res: Result<Self, usize>)
        requires
            templates.wf(),
        ensures
            res is Err <==> (toggle_tag matches Some(id) && !templates@.contains_key(id)),
            res matches Err(id) ==> toggle_tag == Some(id),
            res matches Ok(config) ==> {
                &&& views@.len() > 0 ==> config.views@ == views@
                &&& views@.len() == 0 ==> config.views@.len() == 1 && text_of(&config.views@[0].0.name)
                    == all_view_name() && text_of(&config.views@[0].0.formula.string) == Seq::<char>::empty()
                    && config.views@[0].0.formula.formula is None && config.views@[0].1 is None
                &&& toggle_tag is None ==> config.toggle_tag is None
                &&& toggle_tag matches Some(id) ==> (config.toggle_tag matches Some(tag) && tag.id() == id)
                &&& config.selected == selected
            },
    {
        let toggle_tag = match toggle_tag {
            Some(id) => match templates.instantiate(id) {
                Some(tag) => Some(tag),
                None => {
                    return Err(id);
                },
            },
            None => None,
        };
        let mut views = views;
        if views.len() == 0 {
            let name = "all".to_string();
            proof {
                reveal_strlit("all");
                assert("all"@ =~= all_view_name());
            }
            views.push((crate::named_view::View { name, formula: FormulaPair::default() }, None));
        }
        Ok(UiConfig { toggle_tag, views, selected })
    }
}

} // verus!
