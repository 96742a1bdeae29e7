//! The task record and its mathematical model.

use vstd::prelude::*;

verus! {

/// One todo item: a free-text name and a free-text status.
///
/// Neither field is constrained: names need not be unique, and a status
/// loaded from storage may be any text at all.
#[derive(Debug)]
pub struct ToDo {
    pub name: String,
    pub status: String,
}

/// The model of a task: its name and status as character sequences.
#[verifier::ext_equal]
pub ghost struct TaskView {
    pub name: Seq<char>,
    pub status: Seq<char>,
}

impl View for ToDo {
    type V = TaskView;

    open spec fn view(&self) -> TaskView {
        TaskView { name: self.name@, status: self.status@ }
    }
}

/// The models of a sequence of tasks.
pub open spec fn views(l: Seq<ToDo>) -> Seq<TaskView> {
    l.map_values(|t: ToDo| t@)
}

/// The status a task carries when it is first added.
pub open spec fn status_waiting() -> Seq<char> {
    "waiting!"@
}

/// The status set by the `process` action.
pub open spec fn status_progress() -> Seq<char> {
    "progress"@
}

/// The status set by the `pause` action.
pub open spec fn status_pausing() -> Seq<char> {
    "pausing!"@
}

/// The status set by the `done` action.
pub open spec fn status_complete() -> Seq<char> {
    "complete"@
}

} // verus!
