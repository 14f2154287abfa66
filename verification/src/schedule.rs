//! Schedules: the assignments of operations to resources, the tasks they are
//! split into, and the violations found.

use vstd::prelude::*;
use crate::constraint::{Violation, ViolationView};
use crate::strings::{copy_opt_string, opt_view, str_eq};
use crate::task::{Task, TaskView};

verus! {

/// An operation placed on a resource over `[start_ms, end_ms)`.
#[derive(Debug, Clone)]
pub struct Assignment {
    pub operation_id: String,
    pub job_id: String,
    pub resource_id: String,
    /// Start (epoch ms).
    pub start_ms: i64,
    /// End (epoch ms).
    pub end_ms: i64,
    /// Setup time included at the start (ms).
    pub setup_ms: i64,
    /// Site of the resource (multi-site scheduling).
    pub site_id: Option<String>,
}

/// Mathematical value of an assignment.
pub struct AssignmentView {
    pub operation_id: Seq<char>,
    pub job_id: Seq<char>,
    pub resource_id: Seq<char>,
    pub start_ms: int,
    pub end_ms: int,
    pub setup_ms: int,
    pub site_id: Option<Seq<char>>,
}

impl View for Assignment {
    type V = AssignmentView;

    open spec fn view(&self) -> AssignmentView {
        AssignmentView {
            operation_id: self.operation_id@,
            job_id: self.job_id@,
            resource_id: self.resource_id@,
            start_ms: self.start_ms as int,
            end_ms: self.end_ms as int,
            setup_ms: self.setup_ms as int,
            site_id: opt_view(self.site_id),
        }
    }
}

impl Assignment {
    /// An assignment without setup time and without site.
    pub fn new(operation_id: &str, job_id: &str, resource_id: &str, start_ms: i64, end_ms: i64) -> (a: Assignment)
        ensures
            a@ == (AssignmentView {
                operation_id: operation_id@,
                job_id: job_id@,
                resource_id: resource_id@,
                start_ms: start_ms as int,
                end_ms: end_ms as int,
                setup_ms: 0,
                site_id: None,
            }),
    {
        Assignment {
            operation_id: String::from_str(operation_id),
            job_id: String::from_str(job_id),
            resource_id: String::from_str(resource_id),
            start_ms,
            end_ms,
            setup_ms: 0,
            site_id: None,
        }
    }

    /// An assignment with setup time and without site.
    pub fn with_setup(
        operation_id: &str,
        job_id: &str,
        resource_id: &str,
        start_ms: i64,
        end_ms: i64,
        setup_ms: i64,
    ) -> (a: Assignment)
        ensures
            a@ == (AssignmentView {
                operation_id: operation_id@,
                job_id: job_id@,
                resource_id: resource_id@,
                start_ms: start_ms as int,
                end_ms: end_ms as int,
                setup_ms: setup_ms as int,
                site_id: None,
            }),
    {
        Assignment {
            operation_id: String::from_str(operation_id),
            job_id: String::from_str(job_id),
            resource_id: String::from_str(resource_id),
            start_ms,
            end_ms,
            setup_ms,
            site_id: None,
        }
    }

    /// Length of the assignment.
    pub fn duration_ms(&self) -> (d: i64)
        requires
            i64::MIN <= self.end_ms - self.start_ms <= i64::MAX,
        ensures
            d == self.end_ms - self.start_ms,
    {
        self.end_ms - self.start_ms
    }

    /// A field-by-field copy.
    pub fn copy(&self) -> (a: Assignment)
        ensures
            a == *self,
            a@ == self@,
    {
        Assignment {
            operation_id: self.operation_id.clone(),
            job_id: self.job_id.clone(),
            resource_id: self.resource_id.clone(),
            start_ms: self.start_ms,
            end_ms: self.end_ms,
            setup_ms: self.setup_ms,
            site_id: copy_opt_string(&self.site_id),
        }
    }
}

/// Views of a sequence of assignments.
pub open spec fn assignment_views(s: Seq<Assignment>) -> Seq<AssignmentView> {
    s.map_values(|a: Assignment| a@)
}

/// Views of a sequence of tasks.
pub open spec fn task_views(s: Seq<Task>) -> Seq<TaskView> {
    s.map_values(|t: Task| t@)
}

/// Views of a sequence of violations.
pub open spec fn violation_views(s: Seq<Violation>) -> Seq<ViolationView> {
    s.map_values(|v: Violation| v@)
}

/// The latest end among assignments, or 0 when none ends later.
pub open spec fn latest_assignment_end(s: Seq<AssignmentView>) -> int
    decreases s.len(),
{
    if s.len() == 0 {
        0
    } else {
        let rest = latest_assignment_end(s.drop_last());
        if s.last().end_ms > rest { s.last().end_ms } else { rest }
    }
}

/// The latest planned end among tasks, or 0 when none ends later.
pub open spec fn latest_task_end(s: Seq<TaskView>) -> int
    decreases s.len(),
{
    if s.len() == 0 {
        0
    } else {
        let rest = latest_task_end(s.drop_last());
        if s.last().plan_end_ms > rest { s.last().plan_end_ms } else { rest }
    }
}

/// Result of a scheduling run.
#[derive(Debug, Clone)]
pub struct Schedule {
    pub assignments: Vec<Assignment>,
    /// Completion time of the whole schedule (ms).
    pub makespan_ms: i64,
    pub violations: Vec<Violation>,
    /// Tasks: operations split along working windows.
    pub tasks: Vec<Task>,
}

/// Mathematical value of a schedule.
pub struct ScheduleView {
    pub assignments: Seq<AssignmentView>,
    pub makespan_ms: int,
    pub violations: Seq<ViolationView>,
    pub tasks: Seq<TaskView>,
}

impl View for Schedule {
    type V = ScheduleView;

    open spec fn view(&self) -> ScheduleView {
        ScheduleView {
            assignments: assignment_views(self.assignments@),
            makespan_ms: self.makespan_ms as int,
            violations: violation_views(self.violations@),
            tasks: task_views(self.tasks@),
        }
    }
}

impl ScheduleView {
    /// The makespan equals the latest end of any assignment or task (0 for none).
    pub open spec fn makespan_consistent(self) -> bool {
        let a = latest_assignment_end(self.assignments);
        let t = latest_task_end(self.tasks);
        self.makespan_ms == if a > t { a } else { t }
    }
}

/// Copies a vector of assignments.
pub fn copy_assignments(v: &Vec<Assignment>) -> (r: Vec<Assignment>)
    ensures
        r@ == v@,
{
    let mut r: Vec<Assignment> = Vec::new();
    let mut i: usize = 0;
    while i < v.len()
        invariant
            i <= v.len(),
            r@ == v@.subrange(0, i as int),
        decreases v.len() - i,
    {
        r.push(v[i].copy());
        i += 1;
        assert(r@ =~= v@.subrange(0, i as int));
    }
    assert(v@.subrange(0, v.len() as int) =~= v@);
    r
}

/// Copies a vector of violations.
pub fn copy_violations(v: &Vec<Violation>) -> (r: Vec<Violation>)
    ensures
        violation_views(r@) == violation_views(v@),
{
    let mut r: Vec<Violation> = Vec::new();
    let mut i: usize = 0;
    while i < v.len()
        invariant
            i <= v.len(),
            r@.len() == i,
            forall|j: int| 0 <= j < i ==> r@[j]@ == #[trigger] v@[j]@,
        decreases v.len() - i,
    {
        r.push(v[i].copy());
        i += 1;
    }
    assert(violation_views(r@) =~= violation_views(v@));
    r
}

/// Copies a vector of tasks.
pub fn copy_tasks(v: &Vec<Task>) -> (r: Vec<Task>)
    ensures
        task_views(r@) == task_views(v@),
{
    let mut r: Vec<Task> = Vec::new();
    let mut i: usize = 0;
    while i < v.len()
        invariant
            i <= v.len(),
            r@.len() == i,
            forall|j: int| 0 <= j < i ==> r@[j]@ == #[trigger] v@[j]@,
        decreases v.len() - i,
    {
        r.push(v[i].copy());
        i += 1;
    }
    assert(task_views(r@) =~= task_views(v@));
    r
}

impl Schedule {
    /// An empty schedule with makespan 0.
    pub fn new() -> (s: Schedule)
        ensures
            s@.assignments.len() == 0,
            s@.makespan_ms == 0,
            s@.violations.len() == 0,
            s@.tasks.len() == 0,
            s@.makespan_consistent(),
    {
        let s = Schedule { assignments: Vec::new(), makespan_ms: 0, violations: Vec::new(), tasks: Vec::new() };
        assert(s@.assignments =~= Seq::<AssignmentView>::empty());
        assert(s@.tasks =~= Seq::<TaskView>::empty());
        s
    }

    /// A copy of the schedule.
    pub fn copy(&self) -> (s: Schedule)
        ensures
            s@ == self@,
            s.assignments@ == self.assignments@,
    {
        Schedule {
            assignments: copy_assignments(&self.assignments),
            makespan_ms: self.makespan_ms,
            violations: copy_violations(&self.violations),
            tasks: copy_tasks(&self.tasks),
        }
    }

    /// Records a violation.
    pub fn add_violation(&mut self, violation: Violation)
        ensures
            final(self)@ == (ScheduleView { violations: old(self)@.violations.push(violation@), ..old(self)@ }),
    {
        self.violations.push(violation);
        assert(final(self)@.violations =~= old(self)@.violations.push(violation@));
    }

    /// Whether no violation was recorded.
    pub fn is_on_time(&self) -> (b: bool)
        ensures
            b == (self@.violations.len() == 0),
    {
        self.violations.len() == 0
    }

    /// Appends an assignment; the makespan grows to its end when that is later.
    pub fn add_assignment(&mut self, assignment: Assignment)
        ensures
            final(self)@ == (ScheduleView {
                assignments: old(self)@.assignments.push(assignment@),
                makespan_ms: if assignment.end_ms > old(self).makespan_ms { assignment.end_ms as int }
                    else { old(self).makespan_ms as int },
                ..old(self)@
            }),
    {
        if assignment.end_ms > self.makespan_ms {
            self.makespan_ms = assignment.end_ms;
        }
        self.assignments.push(assignment);
        assert(final(self)@.assignments =~= old(self)@.assignments.push(assignment@));
    }

    /// Appends a task; the makespan grows to its end when that is later.
    pub fn add_task(&mut self, task: Task)
        ensures
            final(self)@ == (ScheduleView {
                tasks: old(self)@.tasks.push(task@),
                makespan_ms: if task.plan_end_ms > old(self).makespan_ms { task.plan_end_ms as int }
                    else { old(self).makespan_ms as int },
                ..old(self)@
            }),
    {
        if task.plan_end_ms > self.makespan_ms {
            self.makespan_ms = task.plan_end_ms;
        }
        self.tasks.push(task);
        assert(final(self)@.tasks =~= old(self)@.tasks.push(task@));
    }
}


/// The makespan after adding tasks one by one to a schedule whose makespan is `m`.
pub open spec fn makespan_after_tasks(m: int, s: Seq<TaskView>) -> int
    decreases s.len(),
{
    if s.len() == 0 {
        m
    } else {
        let r = makespan_after_tasks(m, s.drop_last());
        if s.last().plan_end_ms > r { s.last().plan_end_ms } else { r }
    }
}

/// Views behind a sequence of task references.
pub open spec fn task_ref_views(s: Seq<&Task>) -> Seq<TaskView> {
    s.map_values(|t: &Task| t@)
}

/// Views behind a sequence of assignment references.
pub open spec fn assignment_ref_views(s: Seq<&Assignment>) -> Seq<AssignmentView> {
    s.map_values(|a: &Assignment| a@)
}

/// Whether an optional string equals the given characters.
pub open spec fn opt_is(o: Option<Seq<char>>, s: Seq<char>) -> bool {
    o == Some(s)
}

fn opt_string_is(o: &Option<String>, s: &str) -> (b: bool)
    ensures
        b == opt_is(opt_view(*o), s@),
{
    match o {
        Some(v) => str_eq(v.as_str(), s),
        None => false,
    }
}

impl Schedule {
    /// Appends tasks in order, as `add_task` one by one.
    pub fn add_tasks(&mut self, tasks: Vec<Task>)
        ensures
            final(self)@.assignments == old(self)@.assignments,
            final(self)@.violations == old(self)@.violations,
            final(self)@.tasks == old(self)@.tasks + task_views(tasks@),
            final(self)@.makespan_ms == makespan_after_tasks(old(self).makespan_ms as int, task_views(tasks@)),
    {
        let ghost old_tasks = self@.tasks;
        let ghost added = task_views(tasks@);
        let mut i: usize = 0;
        while i < tasks.len()
            invariant
                i <= tasks.len(),
                added == task_views(tasks@),
                self@.assignments == old(self)@.assignments,
                self@.violations == old(self)@.violations,
                self@.tasks == old_tasks + added.take(i as int),
                self.makespan_ms == makespan_after_tasks(old(self).makespan_ms as int, added.take(i as int)),
            decreases tasks.len() - i,
        {
            let t = tasks[i].copy();
            self.add_task(t);
            assert(added.take(i + 1).drop_last() =~= added.take(i as int));
            assert(self@.tasks =~= old_tasks + added.take(i + 1));
            i += 1;
        }
        assert(added.take(tasks.len() as int) =~= added);
    }

    /// The tasks of an operation, in schedule order.
    pub fn tasks_for_operation(&self, operation_id: &str) -> (r: Vec<&Task>)
        ensures
            task_ref_views(r@) == self@.tasks.filter(|t: TaskView| t.operation_id == operation_id@),
    {
        let ghost all = self@.tasks;
        let ghost pred = |t: TaskView| t.operation_id == operation_id@;
        let mut r: Vec<&Task> = Vec::new();
        let mut i: usize = 0;
        while i < self.tasks.len()
            invariant
                i <= self.tasks.len(),
                all == self@.tasks,
                pred == (|t: TaskView| t.operation_id == operation_id@),
                task_ref_views(r@) == all.take(i as int).filter(pred),
            decreases self.tasks.len() - i,
        {
            reveal_with_fuel(Seq::<_>::filter, 1);
            let t = &self.tasks[i];
            assert(all.take(i + 1).drop_last() =~= all.take(i as int));
            if str_eq(t.operation_id.as_str(), operation_id) {
                r.push(t);
            }
            assert(task_ref_views(r@) =~= all.take(i + 1).filter(pred));
            i += 1;
        }
        assert(all.take(self.tasks.len() as int) =~= all);
        r
    }

    /// The tasks running on a piece of equipment, in schedule order.
    pub fn tasks_for_resource(&self, resource_id: &str) -> (r: Vec<&Task>)
        ensures
            task_ref_views(r@) == self@.tasks.filter(|t: TaskView| opt_is(t.equipment_id, resource_id@)),
    {
        let ghost all = self@.tasks;
        let ghost pred = |t: TaskView| opt_is(t.equipment_id, resource_id@);
        let mut r: Vec<&Task> = Vec::new();
        let mut i: usize = 0;
        while i < self.tasks.len()
            invariant
                i <= self.tasks.len(),
                all == self@.tasks,
                pred == (|t: TaskView| opt_is(t.equipment_id, resource_id@)),
                task_ref_views(r@) == all.take(i as int).filter(pred),
            decreases self.tasks.len() - i,
        {
            reveal_with_fuel(Seq::<_>::filter, 1);
            let t = &self.tasks[i];
            assert(all.take(i + 1).drop_last() =~= all.take(i as int));
            if opt_string_is(&t.equipment_id, resource_id) {
                r.push(t);
            }
            assert(task_ref_views(r@) =~= all.take(i + 1).filter(pred));
            i += 1;
        }
        assert(all.take(self.tasks.len() as int) =~= all);
        r
    }

    /// The assignments on a resource, in schedule order.
    pub fn assignments_for_resource(&self, resource_id: &str) -> (r: Vec<&Assignment>)
        ensures
            assignment_ref_views(r@) == self@.assignments.filter(|a: AssignmentView| a.resource_id == resource_id@),
    {
        let ghost all = self@.assignments;
        let ghost pred = |a: AssignmentView| a.resource_id == resource_id@;
        let mut r: Vec<&Assignment> = Vec::new();
        let mut i: usize = 0;
        while i < self.assignments.len()
            invariant
                i <= self.assignments.len(),
                all == self@.assignments,
                pred == (|a: AssignmentView| a.resource_id == resource_id@),
                assignment_ref_views(r@) == all.take(i as int).filter(pred),
            decreases self.assignments.len() - i,
        {
            reveal_with_fuel(Seq::<_>::filter, 1);
            let a = &self.assignments[i];
            assert(all.take(i + 1).drop_last() =~= all.take(i as int));
            if str_eq(a.resource_id.as_str(), resource_id) {
                r.push(a);
            }
            assert(assignment_ref_views(r@) =~= all.take(i + 1).filter(pred));
            i += 1;
        }
        assert(all.take(self.assignments.len() as int) =~= all);
        r
    }

    /// The assignments on resources of a site, in schedule order.
    pub fn assignments_for_site(&self, site_id: &str) -> (r: Vec<&Assignment>)
        ensures
            assignment_ref_views(r@) == self@.assignments.filter(|a: AssignmentView| opt_is(a.site_id, site_id@)),
    {
        let ghost all = self@.assignments;
        let ghost pred = |a: AssignmentView| opt_is(a.site_id, site_id@);
        let mut r: Vec<&Assignment> = Vec::new();
        let mut i: usize = 0;
        while i < self.assignments.len()
            invariant
                i <= self.assignments.len(),
                all == self@.assignments,
                pred == (|a: AssignmentView| opt_is(a.site_id, site_id@)),
                assignment_ref_views(r@) == all.take(i as int).filter(pred),
            decreases self.assignments.len() - i,
        {
            reveal_with_fuel(Seq::<_>::filter, 1);
            let a = &self.assignments[i];
            assert(all.take(i + 1).drop_last() =~= all.take(i as int));
            if opt_string_is(&a.site_id, site_id) {
                r.push(a);
            }
            assert(assignment_ref_views(r@) =~= all.take(i + 1).filter(pred));
            i += 1;
        }
        assert(all.take(self.assignments.len() as int) =~= all);
        r
    }

    /// The first assignment of an operation, if any.
    pub fn assignment_for_operation(&self, operation_id: &str) -> (r: Option<&Assignment>)
        ensures
            match r {
                Some(a) => exists|i: int| 0 <= i < self@.assignments.len()
                    && #[trigger] self@.assignments[i] == a@
                    && self@.assignments[i].operation_id == operation_id@
                    && forall|j: int| 0 <= j < i ==> self@.assignments[j].operation_id != operation_id@,
                None => forall|i: int| 0 <= i < self@.assignments.len()
                    ==> #[trigger] self@.assignments[i].operation_id != operation_id@,
            },
    {
        let mut i: usize = 0;
        while i < self.assignments.len()
            invariant
                i <= self.assignments.len(),
                forall|j: int| 0 <= j < i ==> #[trigger] self@.assignments[j].operation_id != operation_id@,
            decreases self.assignments.len() - i,
        {
            if str_eq(self.assignments[i].operation_id.as_str(), operation_id) {
                assert(self@.assignments[i as int] == self.assignments@[i as int]@);
                return Some(&self.assignments[i]);
            }
            i += 1;
        }
        None
    }
}

/// Adding an assignment or a task to a schedule whose makespan is the latest end
/// of its assignments and tasks keeps it so; an empty schedule starts that way.
pub proof fn law_makespan_tracks_latest_end(s: ScheduleView, a: AssignmentView, t: TaskView)
    requires
        s.makespan_consistent(),
    ensures
        (ScheduleView {
            assignments: s.assignments.push(a),
            makespan_ms: if a.end_ms > s.makespan_ms { a.end_ms } else { s.makespan_ms },
            ..s
        }).makespan_consistent(),
        (ScheduleView {
            tasks: s.tasks.push(t),
            makespan_ms: if t.plan_end_ms > s.makespan_ms { t.plan_end_ms } else { s.makespan_ms },
            ..s
        }).makespan_consistent(),
{
    assert(s.assignments.push(a).drop_last() =~= s.assignments);
    assert(s.tasks.push(t).drop_last() =~= s.tasks);
}

} // verus!
