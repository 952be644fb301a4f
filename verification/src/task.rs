//! The task data model: one task, its mathematical value, and the
//! invariants the list of tasks maintains.

use vstd::prelude::*;

verus! {

/// Completion state of a task.  A task starts `Undone` and can only move
/// to `Done`; there is no way back.
#[derive(Clone, Copy, PartialEq, Eq, Structural, Debug)]
pub enum Status {
    Undone,
    Done,
}

/// One task of the list.  `content` and `date` hold UTF-8 text as raw
/// bytes; `id` is assigned once at creation and never reused.
#[derive(Debug)]
pub struct Task {
    pub id: u32,
    pub content: Vec<u8>,
    pub date: Vec<u8>,
    pub status: Status,
}

/// The mathematical value of a task: the same fields with the byte
/// vectors abstracted to sequences.
#[verifier::ext_equal]
pub ghost struct TaskModel {
    pub id: u32,
    pub content: Seq<u8>,
    pub date: Seq<u8>,
    pub status: Status,
}

impl Task {
    /// The task's mathematical value.
    pub open spec fn model(self) -> TaskModel {
        TaskModel {
            id: self.id,
            content: self.content@,
            date: self.date@,
            status: self.status,
        }
    }
}

/// The mathematical value of a whole list, in list order.
pub open spec fn models(s: Seq<Task>) -> Seq<TaskModel> {
    Seq::new(s.len(), |i: int| s[i].model())
}

/// Some task of the list carries this id.
pub open spec fn has_id(s: Seq<TaskModel>, id: u32) -> bool {
    exists|i: int| 0 <= i < s.len() && s[i].id == id
}

/// List invariant: no two tasks share an id.
pub open spec fn unique_ids(s: Seq<TaskModel>) -> bool {
    forall|i: int, j: int| 0 <= i < j < s.len() ==> s[i].id != s[j].id
}

/// Every id of the list is at most `bound`; ties the list to the
/// allocator's last persisted counter value.
pub open spec fn ids_at_most(s: Seq<TaskModel>, bound: u32) -> bool {
    forall|i: int| 0 <= i < s.len() ==> s[i].id <= bound
}

} // verus!
