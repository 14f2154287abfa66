//! Tasks: the pieces an operation is split into along working windows.

use vstd::prelude::*;
use crate::strings::{copy_opt_string, copy_strings, opt_view};
use crate::text::{padded3_text, u32_to_padded3};

verus! {

/// Why a task ends where it ends.
#[derive(Debug, Clone, Copy, PartialEq, Eq, Structural)]
pub enum SplitReason {
    /// Not split: the operation fits in one piece.
    NotSplit,
    /// Split because a break starts.
    BreakStart,
    /// Split because a shift (or the daily work window) ends.
    ShiftEnd,
    /// Split because a holiday starts.
    Holiday,
}

/// A scheduled piece of an operation.
#[derive(Debug, Clone)]
pub struct Task {
    pub id: String,
    pub operation_id: String,
    pub job_id: String,
    pub product_name: Option<String>,
    /// Planned start (epoch ms).
    pub plan_begin_ms: i64,
    /// Planned end (epoch ms).
    pub plan_end_ms: i64,
    /// Setup time carried by this piece.
    pub setup_ms: i64,
    /// Processing time carried by this piece.
    pub process_ms: i64,
    pub is_splittable: bool,
    /// Position of this piece among the pieces of its operation.
    pub split_index: u32,
    /// Number of pieces of its operation.
    pub total_splits: u32,
    pub split_reason: SplitReason,
    /// Equipment the piece runs on.
    pub equipment_id: Option<String>,
    /// Workers assigned to the piece.
    pub worker_ids: Vec<String>,
    /// Number of workers the operation requires.
    pub required_workers: u32,
}

/// The mathematical value of a task.
pub struct TaskView {
    pub id: Seq<char>,
    pub operation_id: Seq<char>,
    pub job_id: Seq<char>,
    pub product_name: Option<Seq<char>>,
    pub plan_begin_ms: int,
    pub plan_end_ms: int,
    pub setup_ms: int,
    pub process_ms: int,
    pub is_splittable: bool,
    pub split_index: nat,
    pub total_splits: nat,
    pub split_reason: SplitReason,
    pub equipment_id: Option<Seq<char>>,
    pub worker_ids: Seq<Seq<char>>,
    pub required_workers: nat,
}

impl View for Task {
    type V = TaskView;

    open spec fn view(&self) -> TaskView {
        TaskView {
            id: self.id@,
            operation_id: self.operation_id@,
            job_id: self.job_id@,
            product_name: opt_view(self.product_name),
            plan_begin_ms: self.plan_begin_ms as int,
            plan_end_ms: self.plan_end_ms as int,
            setup_ms: self.setup_ms as int,
            process_ms: self.process_ms as int,
            is_splittable: self.is_splittable,
            split_index: self.split_index as nat,
            total_splits: self.total_splits as nat,
            split_reason: self.split_reason,
            equipment_id: opt_view(self.equipment_id),
            worker_ids: self.worker_ids@.map_values(|w: String| w@),
            required_workers: self.required_workers as nat,
        }
    }
}

/// The identifier of the `n`-th piece (counted from one) of an operation: `<op>-T<nnn>`.
pub open spec fn task_id_text(operation_id: Seq<char>, n: nat) -> Seq<char> {
    operation_id + seq!['-', 'T'] + padded3_text(n)
}

/// Builds the identifier of the `n`-th piece (counted from one) of an operation.
pub fn task_id_for(operation_id: &str, n: u32) -> (id: String)
    ensures
        id@ == task_id_text(operation_id@, n as nat),
{
    let mut id = String::from_str(operation_id);
    proof { reveal_strlit("-T"); }
    id.append("-T");
    let num = u32_to_padded3(n);
    id.append(num.as_str());
    id
}

impl Task {
    /// A task over `[begin, end)` whose whole length is processing time.
    pub fn new(id: &str, operation_id: &str, job_id: &str, begin_ms: i64, end_ms: i64) -> (t: Task)
        requires
            i64::MIN <= end_ms - begin_ms <= i64::MAX,
        ensures
            t@.id == id@,
            t@.operation_id == operation_id@,
            t@.job_id == job_id@,
            t@.product_name is None,
            t@.plan_begin_ms == begin_ms,
            t@.plan_end_ms == end_ms,
            t@.setup_ms == 0,
            t@.process_ms == end_ms - begin_ms,
            !t@.is_splittable,
            t@.split_index == 0,
            t@.total_splits == 1,
            t@.split_reason == SplitReason::NotSplit,
            t@.equipment_id is None,
            t@.worker_ids.len() == 0,
            t@.required_workers == 0,
    {
        let t = Task {
            id: String::from_str(id),
            operation_id: String::from_str(operation_id),
            job_id: String::from_str(job_id),
            product_name: None,
            plan_begin_ms: begin_ms,
            plan_end_ms: end_ms,
            setup_ms: 0,
            process_ms: end_ms - begin_ms,
            is_splittable: false,
            split_index: 0,
            total_splits: 1,
            split_reason: SplitReason::NotSplit,
            equipment_id: None,
            worker_ids: Vec::new(),
            required_workers: 0,
        };
        assert(t@.worker_ids =~= Seq::<Seq<char>>::empty());
        t
    }

    /// The single task of an operation that is not split: identifier `<op>-T001`,
    /// the setup as given and the rest of `[start, end)` as processing time.
    pub fn from_operation(
        operation_id: &str,
        job_id: &str,
        product_name: Option<&str>,
        start_ms: i64,
        end_ms: i64,
        setup_ms: i64,
        is_splittable: bool,
    ) -> (t: Task)
        requires
            i64::MIN <= end_ms - start_ms <= i64::MAX,
            i64::MIN <= end_ms - start_ms - setup_ms <= i64::MAX,
        ensures
            t@.id == task_id_text(operation_id@, 1),
            t@.operation_id == operation_id@,
            t@.job_id == job_id@,
            t@.product_name == (match product_name { Some(p) => Some(p@), None => None::<Seq<char>> }),
            t@.plan_begin_ms == start_ms,
            t@.plan_end_ms == end_ms,
            t@.setup_ms == setup_ms,
            t@.process_ms == end_ms - start_ms - setup_ms,
            t@.is_splittable == is_splittable,
            t@.split_index == 0,
            t@.total_splits == 1,
            t@.split_reason == SplitReason::NotSplit,
            t@.equipment_id is None,
            t@.worker_ids.len() == 0,
            t@.required_workers == 0,
    {
        let id = task_id_for(operation_id, 1);
        let product = match product_name {
            Some(p) => Some(String::from_str(p)),
            None => None,
        };
        let t = Task {
            id,
            operation_id: String::from_str(operation_id),
            job_id: String::from_str(job_id),
            product_name: product,
            plan_begin_ms: start_ms,
            plan_end_ms: end_ms,
            setup_ms,
            process_ms: end_ms - start_ms - setup_ms,
            is_splittable,
            split_index: 0,
            total_splits: 1,
            split_reason: SplitReason::NotSplit,
            equipment_id: None,
            worker_ids: Vec::new(),
            required_workers: 0,
        };
        assert(t@.worker_ids =~= Seq::<Seq<char>>::empty());
        t
    }

    /// Sets whether the task belongs to a splittable operation.
    pub fn with_splittable(self, splittable: bool) -> (t: Task)
        ensures
            t@ == (TaskView { is_splittable: splittable, ..self@ }),
    {
        Task { is_splittable: splittable, ..self }
    }

    /// Sets the setup time carried by the task.
    pub fn with_setup(self, setup_ms: i64) -> (t: Task)
        ensures
            t@ == (TaskView { setup_ms: setup_ms as int, ..self@ }),
    {
        Task { setup_ms, ..self }
    }

    /// Sets the processing time carried by the task.
    pub fn with_process(self, process_ms: i64) -> (t: Task)
        ensures
            t@ == (TaskView { process_ms: process_ms as int, ..self@ }),
    {
        Task { process_ms, ..self }
    }

    /// Sets the split position, count and reason.
    pub fn with_split_info(self, index: u32, total: u32, reason: SplitReason) -> (t: Task)
        ensures
            t@ == (TaskView {
                split_index: index as nat,
                total_splits: total as nat,
                split_reason: reason,
                ..self@
            }),
    {
        Task { split_index: index, total_splits: total, split_reason: reason, ..self }
    }

    /// Sets the product name.
    pub fn with_product_name(self, name: &str) -> (t: Task)
        ensures
            t@ == (TaskView { product_name: Some(name@), ..self@ }),
    {
        Task { product_name: Some(String::from_str(name)), ..self }
    }

    /// Sets the equipment.
    pub fn with_equipment(self, equipment_id: String) -> (t: Task)
        ensures
            t@ == (TaskView { equipment_id: Some(equipment_id@), ..self@ }),
    {
        Task { equipment_id: Some(equipment_id), ..self }
    }

    /// Sets the assigned workers and the number of workers required.
    pub fn with_workers(self, worker_ids: Vec<String>, required: u32) -> (t: Task)
        ensures
            t@ == (TaskView {
                worker_ids: worker_ids@.map_values(|w: String| w@),
                required_workers: required as nat,
                ..self@
            }),
    {
        Task { worker_ids, required_workers: required, ..self }
    }

    /// Planned length of the task.
    pub fn duration_ms(&self) -> (d: i64)
        requires
            i64::MIN <= self.plan_end_ms - self.plan_begin_ms <= i64::MAX,
        ensures
            d == self.plan_end_ms - self.plan_begin_ms,
    {
        self.plan_end_ms - self.plan_begin_ms
    }

    /// A field-by-field copy.
    pub fn copy(&self) -> (t: Task)
        ensures
            t@ == self@,
    {
        let workers = copy_strings(&self.worker_ids);
        Task {
            id: self.id.clone(),
            operation_id: self.operation_id.clone(),
            job_id: self.job_id.clone(),
            product_name: copy_opt_string(&self.product_name),
            plan_begin_ms: self.plan_begin_ms,
            plan_end_ms: self.plan_end_ms,
            setup_ms: self.setup_ms,
            process_ms: self.process_ms,
            is_splittable: self.is_splittable,
            split_index: self.split_index,
            total_splits: self.total_splits,
            split_reason: self.split_reason,
            equipment_id: copy_opt_string(&self.equipment_id),
            worker_ids: workers,
            required_workers: self.required_workers,
        }
    }
}

} // verus!
