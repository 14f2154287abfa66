//! Validation of scheduling input: identifiers, references, times.

use vstd::prelude::*;
use crate::error::{ErrorCode, UapsError, UapsErrorView};
use crate::job::{Job, JobView, Operation, OperationView, Resource, ResourceView};
use crate::strings::str_eq;
use crate::text::{i64_to_text, int_text, nat_text};

verus! {

/// Errors and warnings found by validation.
#[derive(Debug, Clone)]
pub struct ValidationResult {
    pub errors: Vec<UapsError>,
    pub warnings: Vec<String>,
}

/// Views of a sequence of errors.
pub open spec fn error_views(s: Seq<UapsError>) -> Seq<UapsErrorView> {
    s.map_values(|e: UapsError| e@)
}

/// Views of a sequence of strings.
pub open spec fn string_views(s: Seq<String>) -> Seq<Seq<char>> {
    s.map_values(|w: String| w@)
}

/// Mathematical value of a validation result.
pub struct ValidationResultView {
    pub errors: Seq<UapsErrorView>,
    pub warnings: Seq<Seq<char>>,
}

impl View for ValidationResult {
    type V = ValidationResultView;

    open spec fn view(&self) -> ValidationResultView {
        ValidationResultView { errors: error_views(self.errors@), warnings: string_views(self.warnings@) }
    }
}

impl ValidationResult {
    /// No errors, no warnings.
    pub fn new() -> (r: ValidationResult)
        ensures
            r@.errors.len() == 0,
            r@.warnings.len() == 0,
    {
        ValidationResult { errors: Vec::new(), warnings: Vec::new() }
    }

    /// Valid when no error was found (warnings do not count).
    pub fn is_valid(&self) -> (b: bool)
        ensures
            b == (self@.errors.len() == 0),
    {
        self.errors.len() == 0
    }

    /// Records an error.
    pub fn add_error(&mut self, error: UapsError)
        ensures
            final(self)@ == (ValidationResultView { errors: old(self)@.errors.push(error@), ..old(self)@ }),
    {
        self.errors.push(error);
        assert(final(self)@.errors =~= old(self)@.errors.push(error@));
    }

    /// Records a warning.
    pub fn add_warning(&mut self, warning: String)
        ensures
            final(self)@ == (ValidationResultView { warnings: old(self)@.warnings.push(warning@), ..old(self)@ }),
    {
        self.warnings.push(warning);
        assert(final(self)@.warnings =~= old(self)@.warnings.push(warning@));
    }

    /// `Ok` when valid, otherwise the first error.
    pub fn into_result(self) -> (r: Result<(), UapsError>)
        ensures
            match r {
                Ok(_) => self@.errors.len() == 0,
                Err(e) => self@.errors.len() > 0 && e@ == self@.errors[0],
            },
    {
        if self.errors.len() == 0 {
            Ok(())
        } else {
            Err(self.errors[0].copy())
        }
    }
}

/// An error about an entity.
pub open spec fn entity_error(code: ErrorCode, message: Seq<char>, entity: Seq<char>) -> UapsErrorView {
    UapsErrorView { code, message, entity_id: Some(entity) }
}

/// Whether an earlier job has the same identifier.
pub open spec fn job_id_seen(prefix: Seq<JobView>, id: Seq<char>) -> bool {
    exists|k: int| 0 <= k < prefix.len() && (#[trigger] prefix[k]).id == id
}

/// The errors found for one job, given the jobs before it.
pub open spec fn job_errors(prefix: Seq<JobView>, j: JobView) -> Seq<UapsErrorView> {
    let dup = if job_id_seen(prefix, j.id) {
        seq![entity_error(ErrorCode::DuplicateId, "Duplicate Job ID: "@ + j.id, j.id)]
    } else { Seq::empty() };
    let empty = if j.id.len() == 0 {
        seq![UapsErrorView { code: ErrorCode::MissingRequiredField, message: "Job ID cannot be empty"@, entity_id: None }]
    } else { Seq::empty() };
    let due = match j.due_date {
        Some(d) => if d < 0 {
            seq![entity_error(ErrorCode::InvalidTimeRange, "Job "@ + j.id + " has negative due date"@, j.id)]
        } else { Seq::empty() },
        None => Seq::empty(),
    };
    let earliest = match j.earliest_start {
        Some(d) => if d < 0 {
            seq![entity_error(ErrorCode::InvalidTimeRange, "Job "@ + j.id + " has negative earliest start"@, j.id)]
        } else { Seq::empty() },
        None => Seq::empty(),
    };
    dup + empty + due + earliest
}

/// The warnings found for one job.
pub open spec fn job_warnings(j: JobView) -> Seq<Seq<char>> {
    if j.priority < 0 {
        seq!["Job "@ + j.id + " has negative priority: "@ + int_text(j.priority)]
    } else {
        Seq::empty()
    }
}

/// The errors found for a list of jobs, job by job.
pub open spec fn jobs_errors(jobs: Seq<JobView>) -> Seq<UapsErrorView>
    decreases jobs.len(),
{
    if jobs.len() == 0 { Seq::empty() } else { jobs_errors(jobs.drop_last()) + job_errors(jobs.drop_last(), jobs.last()) }
}

/// The warnings found for a list of jobs, job by job.
pub open spec fn jobs_warnings(jobs: Seq<JobView>) -> Seq<Seq<char>>
    decreases jobs.len(),
{
    if jobs.len() == 0 { Seq::empty() } else { jobs_warnings(jobs.drop_last()) + job_warnings(jobs.last()) }
}

/// Views of a slice of jobs.
pub open spec fn job_views(s: Seq<Job>) -> Seq<JobView> {
    s.map_values(|j: Job| j@)
}

/// Views of a slice of operations.
pub open spec fn operation_views(s: Seq<Operation>) -> Seq<OperationView> {
    s.map_values(|o: Operation| o@)
}

/// Views of a slice of resources.
pub open spec fn resource_views(s: Seq<Resource>) -> Seq<ResourceView> {
    s.map_values(|r: Resource| r@)
}

fn job_seen_before(jobs: &[Job], i: usize) -> (b: bool)
    requires
        i <= jobs@.len(),
    ensures
        i < jobs@.len() ==> b == job_id_seen(job_views(jobs@).take(i as int), jobs@[i as int].id@),
{
    if i >= jobs.len() {
        return false;
    }
    let mut k: usize = 0;
    while k < i
        invariant
            k <= i < jobs@.len(),
            forall|m: int| 0 <= m < k ==> jobs@[m].id@ != jobs@[i as int].id@,
        decreases i - k,
    {
        if str_eq(jobs[k].id.as_str(), jobs[i].id.as_str()) {
            assert(job_views(jobs@).take(i as int)[k as int].id == jobs@[i as int].id@);
            return true;
        }
        k += 1;
    }
    assert forall|m: int| 0 <= m < i implies #[trigger] job_views(jobs@).take(i as int)[m].id != jobs@[i as int].id@ by {}
    false
}

fn message2(a: &str, b: &str) -> (s: String)
    ensures
        s@ == a@ + b@,
{
    let mut s = String::from_str(a);
    s.append(b);
    s
}

fn message3(a: &str, b: &str, c: &str) -> (s: String)
    ensures
        s@ == a@ + b@ + c@,
{
    let mut s = String::from_str(a);
    s.append(b);
    s.append(c);
    s
}

fn message4(a: &str, b: &str, c: &str, d: &str) -> (s: String)
    ensures
        s@ == a@ + b@ + c@ + d@,
{
    let mut s = String::from_str(a);
    s.append(b);
    s.append(c);
    s.append(d);
    s
}

/// Whether an earlier operation has the same identifier.
pub open spec fn op_id_seen(prefix: Seq<OperationView>, id: Seq<char>) -> bool {
    exists|k: int| 0 <= k < prefix.len() && (#[trigger] prefix[k]).id == id
}

/// Whether some job has the identifier.
pub open spec fn job_exists(jobs: Seq<JobView>, id: Seq<char>) -> bool {
    exists|k: int| 0 <= k < jobs.len() && (#[trigger] jobs[k]).id == id
}

/// An error about an operation, with message `Operation <id><tail>`.
pub open spec fn op_error(code: ErrorCode, o: OperationView, tail: Seq<char>) -> UapsErrorView {
    entity_error(code, "Operation "@ + o.id + tail, o.id)
}

/// An error about an operation, with message `Operation <id><mid><last>`.
pub open spec fn op_error2(code: ErrorCode, o: OperationView, mid: Seq<char>, last: Seq<char>) -> UapsErrorView {
    entity_error(code, "Operation "@ + o.id + mid + last, o.id)
}

/// The errors found for one operation, given the operations before it and the jobs.
pub open spec fn operation_errors(prefix: Seq<OperationView>, jobs: Seq<JobView>, o: OperationView) -> Seq<UapsErrorView> {
    let dup = if op_id_seen(prefix, o.id) {
        seq![entity_error(ErrorCode::DuplicateId, "Duplicate Operation ID: "@ + o.id, o.id)]
    } else { Seq::empty() };
    let job_ref = if !job_exists(jobs, o.job_id) {
        seq![op_error2(ErrorCode::InvalidReference, o, " references unknown Job: "@, o.job_id)]
    } else { Seq::empty() };
    let process = if o.time.process_ms < 0 {
        seq![op_error(ErrorCode::InvalidTimeRange, o, " has negative process time"@)]
    } else { Seq::empty() };
    let setup = if o.time.setup_ms < 0 {
        seq![op_error(ErrorCode::InvalidTimeRange, o, " has negative setup time"@)]
    } else { Seq::empty() };
    let sequence = if o.sequence < 0 {
        seq![op_error(ErrorCode::InvalidInput, o, " has negative sequence"@)]
    } else { Seq::empty() };
    let split = if o.is_splittable && (o.split_config matches Some(c) && c.min_split_size_ms <= 0) {
        seq![op_error(ErrorCode::InvalidInput, o, " has invalid split config"@)]
    } else { Seq::empty() };
    dup + job_ref + process + setup + sequence + split
}

/// The warnings found for one operation.
pub open spec fn operation_warnings(o: OperationView) -> Seq<Seq<char>> {
    if o.required_resources.len() == 0 {
        seq!["Operation "@ + o.id + " has no resource requirements"@]
    } else {
        Seq::empty()
    }
}

/// The errors found for a list of operations, operation by operation.
pub open spec fn operations_errors(ops: Seq<OperationView>, jobs: Seq<JobView>) -> Seq<UapsErrorView>
    decreases ops.len(),
{
    if ops.len() == 0 {
        Seq::empty()
    } else {
        operations_errors(ops.drop_last(), jobs) + operation_errors(ops.drop_last(), jobs, ops.last())
    }
}

/// The warnings found for a list of operations, operation by operation.
pub open spec fn operations_warnings(ops: Seq<OperationView>) -> Seq<Seq<char>>
    decreases ops.len(),
{
    if ops.len() == 0 { Seq::empty() } else { operations_warnings(ops.drop_last()) + operation_warnings(ops.last()) }
}

/// Whether an earlier resource has the same identifier.
pub open spec fn resource_id_seen(prefix: Seq<ResourceView>, id: Seq<char>) -> bool {
    exists|k: int| 0 <= k < prefix.len() && (#[trigger] prefix[k]).id == id
}

/// A positive amount in thousandths written with two decimals, rounded half up.
pub open spec fn milli_two_decimals_text(m: nat) -> Seq<char> {
    let h = (m + 5) / 10;
    let frac = h % 100;
    nat_text(h / 100) + "."@ + (if frac < 10 { "0"@ + nat_text(frac) } else { nat_text(frac) })
}

/// The errors found for one resource, given the resources before it.
pub open spec fn resource_errors(prefix: Seq<ResourceView>, r: ResourceView) -> Seq<UapsErrorView> {
    let dup = if resource_id_seen(prefix, r.id) {
        seq![entity_error(ErrorCode::DuplicateId, "Duplicate Resource ID: "@ + r.id, r.id)]
    } else { Seq::empty() };
    let eff = if r.efficiency_milli <= 0 {
        seq![entity_error(ErrorCode::InvalidInput, "Resource "@ + r.id + " has non-positive efficiency"@, r.id)]
    } else { Seq::empty() };
    dup + eff
}

/// The warnings found for one resource: an efficiency above 2 is unusual.
pub open spec fn resource_warnings(r: ResourceView) -> Seq<Seq<char>> {
    if r.efficiency_milli > 2000 {
        seq!["Resource "@ + r.id + " has unusually high efficiency: "@ + milli_two_decimals_text(r.efficiency_milli as nat)]
    } else {
        Seq::empty()
    }
}

/// The errors found for a list of resources, resource by resource.
pub open spec fn resources_errors(rs: Seq<ResourceView>) -> Seq<UapsErrorView>
    decreases rs.len(),
{
    if rs.len() == 0 { Seq::empty() } else { resources_errors(rs.drop_last()) + resource_errors(rs.drop_last(), rs.last()) }
}

/// The warnings found for a list of resources, resource by resource.
pub open spec fn resources_warnings(rs: Seq<ResourceView>) -> Seq<Seq<char>>
    decreases rs.len(),
{
    if rs.len() == 0 { Seq::empty() } else { resources_warnings(rs.drop_last()) + resource_warnings(rs.last()) }
}

/// Whether some resource has the identifier.
pub open spec fn resource_exists(rs: Seq<ResourceView>, id: Seq<char>) -> bool {
    exists|k: int| 0 <= k < rs.len() && (#[trigger] rs[k]).id == id
}

/// Errors for the unknown candidates in a list, in order.
pub open spec fn unknown_candidate_errors(o: OperationView, cands: Seq<Seq<char>>, rs: Seq<ResourceView>) -> Seq<UapsErrorView>
    decreases cands.len(),
{
    if cands.len() == 0 {
        Seq::empty()
    } else {
        unknown_candidate_errors(o, cands.drop_last(), rs) + (if resource_exists(rs, cands.last()) {
            Seq::empty()
        } else {
            seq![op_error2(ErrorCode::InvalidReference, o, " references unknown resource: "@, cands.last())]
        })
    }
}

/// Errors for the unknown candidates of the first `n` requirements of an operation.
pub open spec fn requirement_errors(o: OperationView, n: int, rs: Seq<ResourceView>) -> Seq<UapsErrorView>
    decreases n,
{
    if n <= 0 {
        Seq::empty()
    } else {
        requirement_errors(o, n - 1, rs) + unknown_candidate_errors(o, o.required_resources[n - 1].candidates, rs)
    }
}

/// Errors for the unknown resources referenced by a list of operations, in order.
pub open spec fn references_errors(ops: Seq<OperationView>, rs: Seq<ResourceView>) -> Seq<UapsErrorView>
    decreases ops.len(),
{
    if ops.len() == 0 {
        Seq::empty()
    } else {
        references_errors(ops.drop_last(), rs) + requirement_errors(ops.last(), ops.last().required_resources.len() as int, rs)
    }
}

/// Result of checking that `start..end` is a valid time range.
pub open spec fn time_range_error(start: int, end: int) -> Option<UapsErrorView> {
    if start < 0 || end < 0 {
        Some(UapsErrorView { code: ErrorCode::InvalidTimeRange, message: "Time values cannot be negative"@, entity_id: None })
    } else if start > end {
        Some(UapsErrorView {
            code: ErrorCode::InvalidTimeRange,
            message: "Start time ("@ + int_text(start) + ") is after end time ("@ + int_text(end) + ")"@,
            entity_id: None,
        })
    } else {
        None
    }
}

fn op_seen_before(ops: &[Operation], i: usize) -> (b: bool)
    requires
        i < ops@.len(),
    ensures
        b == op_id_seen(operation_views(ops@).take(i as int), ops@[i as int].id@),
{
    let mut k: usize = 0;
    while k < i
        invariant
            k <= i < ops@.len(),
            forall|m: int| 0 <= m < k ==> ops@[m].id@ != ops@[i as int].id@,
        decreases i - k,
    {
        if str_eq(ops[k].id.as_str(), ops[i].id.as_str()) {
            assert(operation_views(ops@).take(i as int)[k as int].id == ops@[i as int].id@);
            return true;
        }
        k += 1;
    }
    assert forall|m: int| 0 <= m < i implies #[trigger] operation_views(ops@).take(i as int)[m].id != ops@[i as int].id@ by {}
    false
}

fn job_with_id(jobs: &[Job], id: &str) -> (b: bool)
    ensures
        b == job_exists(job_views(jobs@), id@),
{
    let mut k: usize = 0;
    while k < jobs.len()
        invariant
            k <= jobs@.len(),
            forall|m: int| 0 <= m < k ==> jobs@[m].id@ != id@,
        decreases jobs.len() - k,
    {
        if str_eq(jobs[k].id.as_str(), id) {
            assert(job_views(jobs@)[k as int].id == id@);
            return true;
        }
        k += 1;
    }
    assert forall|m: int| 0 <= m < jobs@.len() implies #[trigger] job_views(jobs@)[m].id != id@ by {}
    false
}

fn resource_seen_before(rs: &[Resource], i: usize) -> (b: bool)
    requires
        i < rs@.len(),
    ensures
        b == resource_id_seen(resource_views(rs@).take(i as int), rs@[i as int].id@),
{
    let mut k: usize = 0;
    while k < i
        invariant
            k <= i < rs@.len(),
            forall|m: int| 0 <= m < k ==> rs@[m].id@ != rs@[i as int].id@,
        decreases i - k,
    {
        if str_eq(rs[k].id.as_str(), rs[i].id.as_str()) {
            assert(resource_views(rs@).take(i as int)[k as int].id == rs@[i as int].id@);
            return true;
        }
        k += 1;
    }
    assert forall|m: int| 0 <= m < i implies #[trigger] resource_views(rs@).take(i as int)[m].id != rs@[i as int].id@ by {}
    false
}

fn resource_with_id(rs: &[Resource], id: &str) -> (b: bool)
    ensures
        b == resource_exists(resource_views(rs@), id@),
{
    let mut k: usize = 0;
    while k < rs.len()
        invariant
            k <= rs@.len(),
            forall|m: int| 0 <= m < k ==> rs@[m].id@ != id@,
        decreases rs.len() - k,
    {
        if str_eq(rs[k].id.as_str(), id) {
            assert(resource_views(rs@)[k as int].id == id@);
            return true;
        }
        k += 1;
    }
    assert forall|m: int| 0 <= m < rs@.len() implies #[trigger] resource_views(rs@)[m].id != id@ by {}
    false
}

fn milli_two_decimals(m: i64) -> (s: String)
    requires
        m > 0,
    ensures
        s@ == milli_two_decimals_text(m as nat),
{
    let h = (m as u64 + 5) / 10;
    let frac = h % 100;
    let mut s = crate::text::u64_to_text(h / 100);
    s.append(".");
    if frac < 10 {
        s.append("0");
    }
    let f = crate::text::u64_to_text(frac);
    s.append(f.as_str());
    s
}

/// Input validator.
pub struct Validator;

impl Validator {
    fn check_job(jobs: &[Job], i: usize, result: &mut ValidationResult)
        requires
            i < jobs@.len(),
        ensures
            final(result)@.errors == old(result)@.errors + job_errors(job_views(jobs@).take(i as int), jobs@[i as int]@),
            final(result)@.warnings == old(result)@.warnings + job_warnings(jobs@[i as int]@),
    {
        let job = &jobs[i];
        let ghost j = job@;
        let ghost e0 = result@.errors;
        let ghost w0 = result@.warnings;
        let ghost e1 = e0;
        if job_seen_before(jobs, i) {
            result.add_error(
                UapsError::new(ErrorCode::DuplicateId, message2("Duplicate Job ID: ", job.id.as_str()))
                    .with_entity(job.id.as_str()),
            );
        }
        let ghost e1 = result@.errors;
        if job.id.as_str().is_empty() {
            proof { reveal_strlit("Job ID cannot be empty"); }
            result.add_error(UapsError::new(ErrorCode::MissingRequiredField, String::from_str("Job ID cannot be empty")));
        }
        let ghost e2 = result@.errors;
        if job.priority < 0 {
            let p = i64_to_text(job.priority as i64);
            result.add_warning(message4("Job ", job.id.as_str(), " has negative priority: ", p.as_str()));
        }
        match job.due_date {
            Some(d) => {
                if d < 0 {
                    result.add_error(
                        UapsError::new(ErrorCode::InvalidTimeRange, message3("Job ", job.id.as_str(), " has negative due date"))
                            .with_entity(job.id.as_str()),
                    );
                }
            }
            None => {}
        }
        let ghost e3 = result@.errors;
        match job.earliest_start {
            Some(d) => {
                if d < 0 {
                    result.add_error(
                        UapsError::new(ErrorCode::InvalidTimeRange, message3("Job ", job.id.as_str(), " has negative earliest start"))
                            .with_entity(job.id.as_str()),
                    );
                }
            }
            None => {}
        }
        assert(result@.errors =~= e0 + job_errors(job_views(jobs@).take(i as int), j));
        assert(result@.warnings =~= w0 + job_warnings(j));
    }

    /// Checks jobs: duplicate identifiers, empty identifiers, negative due dates and
    /// earliest starts are errors, negative priorities warnings; findings are
    /// appended job by job.
    pub fn validate_jobs(jobs: &[Job], result: &mut ValidationResult)
        ensures
            final(result)@.errors == old(result)@.errors + jobs_errors(job_views(jobs@)),
            final(result)@.warnings == old(result)@.warnings + jobs_warnings(job_views(jobs@)),
    {
        let ghost jv = job_views(jobs@);
        let mut i: usize = 0;
        while i < jobs.len()
            invariant
                i <= jobs@.len(),
                jv == job_views(jobs@),
                result@.errors == old(result)@.errors + jobs_errors(jv.take(i as int)),
                result@.warnings == old(result)@.warnings + jobs_warnings(jv.take(i as int)),
            decreases jobs.len() - i,
        {
            Self::check_job(jobs, i, result);
            assert(jv.take(i + 1).drop_last() =~= jv.take(i as int));
            assert(jv.take(i + 1).last() == jobs@[i as int]@);
            assert(result@.errors =~= old(result)@.errors + jobs_errors(jv.take(i + 1)));
            assert(result@.warnings =~= old(result)@.warnings + jobs_warnings(jv.take(i + 1)));
            i += 1;
        }
        assert(jv.take(jobs@.len() as int) =~= jv);
    }

    fn check_operation_fields(ops: &[Operation], jobs: &[Job], i: usize, result: &mut ValidationResult)
        requires
            i < ops@.len(),
        ensures
            final(result)@.warnings == old(result)@.warnings,
            final(result)@.errors == old(result)@.errors + {
                let o = ops@[i as int]@;
                let prefix = operation_views(ops@).take(i as int);
                (if op_id_seen(prefix, o.id) {
                    seq![entity_error(ErrorCode::DuplicateId, "Duplicate Operation ID: "@ + o.id, o.id)]
                } else { Seq::empty() }) + (if !job_exists(job_views(jobs@), o.job_id) {
                    seq![op_error2(ErrorCode::InvalidReference, o, " references unknown Job: "@, o.job_id)]
                } else { Seq::empty() }) + (if o.time.process_ms < 0 {
                    seq![op_error(ErrorCode::InvalidTimeRange, o, " has negative process time"@)]
                } else { Seq::empty() })
            },
    {
        let op = &ops[i];
        let ghost o = op@;
        let ghost e0 = result@.errors;
        let id = op.id.as_str();
        if op_seen_before(ops, i) {
            result.add_error(UapsError::new(ErrorCode::DuplicateId, message2("Duplicate Operation ID: ", id)).with_entity(id));
        }
        let ghost e1 = result@.errors;
        if !job_with_id(jobs, op.job_id.as_str()) {
            result.add_error(
                UapsError::new(ErrorCode::InvalidReference, message4("Operation ", id, " references unknown Job: ", op.job_id.as_str()))
                    .with_entity(id),
            );
        }
        let ghost e2 = result@.errors;
        if op.time.process_ms < 0 {
            result.add_error(
                UapsError::new(ErrorCode::InvalidTimeRange, message3("Operation ", id, " has negative process time")).with_entity(id),
            );
        }
        let ghost e3 = result@.errors;
        let ghost prefix = operation_views(ops@).take(i as int);
        assert(e1 =~= e0 + (if op_id_seen(prefix, o.id) {
            seq![entity_error(ErrorCode::DuplicateId, "Duplicate Operation ID: "@ + o.id, o.id)]
        } else { Seq::empty() }));
        assert(e2 =~= e1 + (if !job_exists(job_views(jobs@), o.job_id) {
            seq![op_error2(ErrorCode::InvalidReference, o, " references unknown Job: "@, o.job_id)]
        } else { Seq::empty() }));
        assert(e3 =~= e2 + (if o.time.process_ms < 0 {
            seq![op_error(ErrorCode::InvalidTimeRange, o, " has negative process time"@)]
        } else { Seq::empty() }));
        assert(result@.errors =~= e0 + (if op_id_seen(prefix, o.id) {
                    seq![entity_error(ErrorCode::DuplicateId, "Duplicate Operation ID: "@ + o.id, o.id)]
                } else { Seq::empty() }) + (if !job_exists(job_views(jobs@), o.job_id) {
                    seq![op_error2(ErrorCode::InvalidReference, o, " references unknown Job: "@, o.job_id)]
                } else { Seq::empty() }) + (if o.time.process_ms < 0 {
                    seq![op_error(ErrorCode::InvalidTimeRange, o, " has negative process time"@)]
                } else { Seq::empty() }));
    }

    fn check_operation(ops: &[Operation], jobs: &[Job], i: usize, result: &mut ValidationResult)
        requires
            i < ops@.len(),
        ensures
            final(result)@.errors == old(result)@.errors
                + operation_errors(operation_views(ops@).take(i as int), job_views(jobs@), ops@[i as int]@),
            final(result)@.warnings == old(result)@.warnings + operation_warnings(ops@[i as int]@),
    {
        let ghost e0 = result@.errors;
        let ghost w0 = result@.warnings;
        Self::check_operation_fields(ops, jobs, i, result);
        let op = &ops[i];
        let ghost o = op@;
        let id = op.id.as_str();
        let ghost e3 = result@.errors;
        if op.time.setup_ms < 0 {
            result.add_error(
                UapsError::new(ErrorCode::InvalidTimeRange, message3("Operation ", id, " has negative setup time")).with_entity(id),
            );
        }
        let ghost e4 = result@.errors;
        if op.sequence < 0 {
            result.add_error(
                UapsError::new(ErrorCode::InvalidInput, message3("Operation ", id, " has negative sequence")).with_entity(id),
            );
        }
        let ghost e5 = result@.errors;
        if op.required_resources.len() == 0 {
            result.add_warning(message3("Operation ", id, " has no resource requirements"));
        }
        if op.is_splittable {
            match op.split_config {
                Some(config) => {
                    if config.min_split_size_ms <= 0 {
                        result.add_error(
                            UapsError::new(ErrorCode::InvalidInput, message3("Operation ", id, " has invalid split config")).with_entity(id),
                        );
                    }
                }
                None => {}
            }
        }
        assert(e4 =~= e3 + (if o.time.setup_ms < 0 {
            seq![op_error(ErrorCode::InvalidTimeRange, o, " has negative setup time"@)]
        } else { Seq::empty() }));
        assert(e5 =~= e4 + (if o.sequence < 0 {
            seq![op_error(ErrorCode::InvalidInput, o, " has negative sequence"@)]
        } else { Seq::empty() }));
        assert(result@.errors =~= e5 + (if o.is_splittable && (o.split_config matches Some(c) && c.min_split_size_ms <= 0) {
            seq![op_error(ErrorCode::InvalidInput, o, " has invalid split config"@)]
        } else { Seq::empty() }));
        assert(result@.errors =~= e0 + operation_errors(operation_views(ops@).take(i as int), job_views(jobs@), o));
        assert(result@.warnings =~= w0 + operation_warnings(o));
    }

    /// Checks operations: duplicate identifiers, unknown jobs, negative times and
    /// sequence numbers, invalid split settings are errors; operations without
    /// resource requirements give warnings; findings are appended operation by operation.
    #[verifier::rlimit(40)]
    pub fn validate_operations(operations: &[Operation], jobs: &[Job], result: &mut ValidationResult)
        ensures
            final(result)@.errors == old(result)@.errors + operations_errors(operation_views(operations@), job_views(jobs@)),
            final(result)@.warnings == old(result)@.warnings + operations_warnings(operation_views(operations@)),
    {
        let ghost ov = operation_views(operations@);
        let mut i: usize = 0;
        while i < operations.len()
            invariant
                i <= operations@.len(),
                ov == operation_views(operations@),
                result@.errors == old(result)@.errors + operations_errors(ov.take(i as int), job_views(jobs@)),
                result@.warnings == old(result)@.warnings + operations_warnings(ov.take(i as int)),
            decreases operations.len() - i,
        {
            Self::check_operation(operations, jobs, i, result);
            assert(ov.take(i + 1).drop_last() =~= ov.take(i as int));
            assert(ov.take(i + 1).last() == operations@[i as int]@);
            assert(result@.errors =~= old(result)@.errors + operations_errors(ov.take(i + 1), job_views(jobs@)));
            assert(result@.warnings =~= old(result)@.warnings + operations_warnings(ov.take(i + 1)));
            i += 1;
        }
        assert(ov.take(operations@.len() as int) =~= ov);
    }

    fn check_resource(resources: &[Resource], i: usize, result: &mut ValidationResult)
        requires
            i < resources@.len(),
        ensures
            final(result)@.errors == old(result)@.errors
                + resource_errors(resource_views(resources@).take(i as int), resources@[i as int]@),
            final(result)@.warnings == old(result)@.warnings + resource_warnings(resources@[i as int]@),
    {
        let r = &resources[i];
        let ghost rv = r@;
        let ghost e0 = result@.errors;
        let ghost w0 = result@.warnings;
        let id = r.id.as_str();
        if resource_seen_before(resources, i) {
            result.add_error(UapsError::new(ErrorCode::DuplicateId, message2("Duplicate Resource ID: ", id)).with_entity(id));
        }
        if r.efficiency_milli <= 0 {
            result.add_error(
                UapsError::new(ErrorCode::InvalidInput, message3("Resource ", id, " has non-positive efficiency")).with_entity(id),
            );
        }
        if r.efficiency_milli > 2000 {
            let e = milli_two_decimals(r.efficiency_milli);
            result.add_warning(message4("Resource ", id, " has unusually high efficiency: ", e.as_str()));
        }
        assert(result@.errors =~= e0 + resource_errors(resource_views(resources@).take(i as int), rv));
        assert(result@.warnings =~= w0 + resource_warnings(rv));
    }

    /// Checks resources: duplicate identifiers and non-positive efficiencies are
    /// errors, efficiencies above 2 give warnings; findings are appended resource by resource.
    pub fn validate_resources(resources: &[Resource], result: &mut ValidationResult)
        ensures
            final(result)@.errors == old(result)@.errors + resources_errors(resource_views(resources@)),
            final(result)@.warnings == old(result)@.warnings + resources_warnings(resource_views(resources@)),
    {
        let ghost rv = resource_views(resources@);
        let mut i: usize = 0;
        while i < resources.len()
            invariant
                i <= resources@.len(),
                rv == resource_views(resources@),
                result@.errors == old(result)@.errors + resources_errors(rv.take(i as int)),
                result@.warnings == old(result)@.warnings + resources_warnings(rv.take(i as int)),
            decreases resources.len() - i,
        {
            Self::check_resource(resources, i, result);
            assert(rv.take(i + 1).drop_last() =~= rv.take(i as int));
            assert(rv.take(i + 1).last() == resources@[i as int]@);
            assert(result@.errors =~= old(result)@.errors + resources_errors(rv.take(i + 1)));
            assert(result@.warnings =~= old(result)@.warnings + resources_warnings(rv.take(i + 1)));
            i += 1;
        }
        assert(rv.take(resources@.len() as int) =~= rv);
    }

    fn check_candidates(op: &Operation, k: usize, resources: &[Resource], result: &mut ValidationResult)
        requires
            k < op@.required_resources.len(),
        ensures
            final(result)@.errors == old(result)@.errors
                + unknown_candidate_errors(op@, op@.required_resources[k as int].candidates, resource_views(resources@)),
            final(result)@.warnings == old(result)@.warnings,
    {
        let req = &op.required_resources[k];
        let ghost cv = req@.candidates;
        assert(op@.required_resources[k as int] == req@);
        let mut c: usize = 0;
        while c < req.candidates.len()
            invariant
                c <= req.candidates@.len(),
                cv == req@.candidates,
                cv.len() == req.candidates@.len(),
                result@.errors == old(result)@.errors + unknown_candidate_errors(op@, cv.take(c as int), resource_views(resources@)),
                result@.warnings == old(result)@.warnings,
            decreases req.candidates.len() - c,
        {
            let cand = req.candidates[c].as_str();
            assert(cv[c as int] == req.candidates@[c as int]@);
            assert(cand@ == cv[c as int]);
            let ghost e0 = result@.errors;
            if !resource_with_id(resources, cand) {
                result.add_error(
                    UapsError::new(ErrorCode::InvalidReference, message4("Operation ", op.id.as_str(), " references unknown resource: ", cand))
                        .with_entity(op.id.as_str()),
                );
            }
            assert(cv.take(c + 1).drop_last() =~= cv.take(c as int));
            assert(cv.take(c + 1).last() == cv[c as int]);
            assert(unknown_candidate_errors(op@, cv.take(c + 1), resource_views(resources@))
                == unknown_candidate_errors(op@, cv.take(c as int), resource_views(resources@)) + (if resource_exists(resource_views(resources@), cand@) {
                    Seq::empty()
                } else {
                    seq![op_error2(ErrorCode::InvalidReference, op@, " references unknown resource: "@, cand@)]
                }));
            assert(result@.errors =~= old(result)@.errors + unknown_candidate_errors(op@, cv.take(c + 1), resource_views(resources@)));
            c += 1;
        }
        assert(cv.take(cv.len() as int) =~= cv);
    }

    /// Checks that every candidate resource of every requirement of every operation
    /// exists; each unknown candidate is an error, in order.
    pub fn validate_references(_jobs: &[Job], operations: &[Operation], resources: &[Resource], result: &mut ValidationResult)
        ensures
            final(result)@.errors == old(result)@.errors + references_errors(operation_views(operations@), resource_views(resources@)),
            final(result)@.warnings == old(result)@.warnings,
    {
        let ghost ov = operation_views(operations@);
        let ghost rv = resource_views(resources@);
        let mut i: usize = 0;
        while i < operations.len()
            invariant
                i <= operations@.len(),
                ov == operation_views(operations@),
                rv == resource_views(resources@),
                result@.errors == old(result)@.errors + references_errors(ov.take(i as int), rv),
                result@.warnings == old(result)@.warnings,
            decreases operations.len() - i,
        {
            let op = &operations[i];
            let ghost e_before = result@.errors;
            let mut k: usize = 0;
            while k < op.required_resources.len()
                invariant
                    k <= op@.required_resources.len(),
                    op@.required_resources.len() == op.required_resources@.len(),
                    rv == resource_views(resources@),
                    result@.errors == e_before + requirement_errors(op@, k as int, rv),
                    result@.warnings == old(result)@.warnings,
                decreases op.required_resources.len() - k,
            {
                Self::check_candidates(op, k, resources, result);
                k += 1;
            }
            assert(ov.take(i + 1).drop_last() =~= ov.take(i as int));
            assert(ov.take(i + 1).last() == op@);
            assert(result@.errors =~= old(result)@.errors + references_errors(ov.take(i + 1), rv));
            i += 1;
        }
        assert(ov.take(operations@.len() as int) =~= ov);
    }

    /// Validates a whole request: jobs, then operations, then resources, then the
    /// resource references of the operations.
    pub fn validate_schedule_request(jobs: &[Job], operations: &[Operation], resources: &[Resource]) -> (r: ValidationResult)
        ensures
            r@.errors == jobs_errors(job_views(jobs@))
                + operations_errors(operation_views(operations@), job_views(jobs@))
                + resources_errors(resource_views(resources@))
                + references_errors(operation_views(operations@), resource_views(resources@)),
            r@.warnings == jobs_warnings(job_views(jobs@))
                + operations_warnings(operation_views(operations@))
                + resources_warnings(resource_views(resources@)),
    {
        let mut result = ValidationResult::new();
        assert(result@.errors =~= Seq::<UapsErrorView>::empty());
        assert(result@.warnings =~= Seq::<Seq<char>>::empty());
        Self::validate_jobs(jobs, &mut result);
        Self::validate_operations(operations, jobs, &mut result);
        Self::validate_resources(resources, &mut result);
        Self::validate_references(jobs, operations, resources, &mut result);
        assert(result@.errors =~= jobs_errors(job_views(jobs@))
                + operations_errors(operation_views(operations@), job_views(jobs@))
                + resources_errors(resource_views(resources@))
                + references_errors(operation_views(operations@), resource_views(resources@)));
        assert(result@.warnings =~= jobs_warnings(job_views(jobs@))
                + operations_warnings(operation_views(operations@))
                + resources_warnings(resource_views(resources@)));
        result
    }
}

/// Checks a time range: both ends non-negative, start not after end.
pub fn validate_time_range(start: i64, end: i64) -> (r: Result<(), UapsError>)
    ensures
        match r {
            Ok(_) => time_range_error(start as int, end as int) is None,
            Err(e) => time_range_error(start as int, end as int) == Some(e@),
        },
{
    if start < 0 || end < 0 {
        proof { reveal_strlit("Time values cannot be negative"); }
        return Err(UapsError::new(ErrorCode::InvalidTimeRange, String::from_str("Time values cannot be negative")));
    }
    if start > end {
        let a = i64_to_text(start);
        let b = i64_to_text(end);
        let mut m = String::from_str("Start time (");
        m.append(a.as_str());
        m.append(") is after end time (");
        m.append(b.as_str());
        m.append(")");
        return Err(UapsError::new(ErrorCode::InvalidTimeRange, m));
    }
    Ok(())
}

proof fn lemma_jobs_errors_prefix(s: Seq<JobView>, n: int)
    requires
        0 <= n <= s.len(),
    ensures
        jobs_errors(s.take(n)).len() <= jobs_errors(s).len(),
        forall|k: int| 0 <= k < jobs_errors(s.take(n)).len() ==> #[trigger] jobs_errors(s)[k] == jobs_errors(s.take(n))[k],
    decreases s.len(),
{
    if n < s.len() {
        lemma_jobs_errors_prefix(s.drop_last(), n);
        assert(s.drop_last().take(n) =~= s.take(n));
    } else {
        assert(s.take(n) =~= s);
    }
}

proof fn lemma_operations_errors_prefix(s: Seq<OperationView>, jobs: Seq<JobView>, n: int)
    requires
        0 <= n <= s.len(),
    ensures
        operations_errors(s.take(n), jobs).len() <= operations_errors(s, jobs).len(),
        forall|k: int| 0 <= k < operations_errors(s.take(n), jobs).len()
            ==> #[trigger] operations_errors(s, jobs)[k] == operations_errors(s.take(n), jobs)[k],
    decreases s.len(),
{
    if n < s.len() {
        lemma_operations_errors_prefix(s.drop_last(), jobs, n);
        assert(s.drop_last().take(n) =~= s.take(n));
    } else {
        assert(s.take(n) =~= s);
    }
}

proof fn lemma_resources_errors_prefix(s: Seq<ResourceView>, n: int)
    requires
        0 <= n <= s.len(),
    ensures
        resources_errors(s.take(n)).len() <= resources_errors(s).len(),
        forall|k: int| 0 <= k < resources_errors(s.take(n)).len() ==> #[trigger] resources_errors(s)[k] == resources_errors(s.take(n))[k],
    decreases s.len(),
{
    if n < s.len() {
        lemma_resources_errors_prefix(s.drop_last(), n);
        assert(s.drop_last().take(n) =~= s.take(n));
    } else {
        assert(s.take(n) =~= s);
    }
}

proof fn lemma_duplicate_job_reported(jobs: Seq<JobView>, i: int, j: int)
    requires
        0 <= i < j < jobs.len(),
        jobs[i].id == jobs[j].id,
    ensures
        exists|k: int| 0 <= k < jobs_errors(jobs).len()
            && #[trigger] jobs_errors(jobs)[k] == entity_error(ErrorCode::DuplicateId, "Duplicate Job ID: "@ + jobs[j].id, jobs[j].id),
{
    let p = jobs.take(j + 1);
    assert(p.drop_last() =~= jobs.take(j));
    assert(jobs.take(j)[i].id == jobs[j].id);
    lemma_jobs_errors_prefix(jobs, j + 1);
    let k = jobs_errors(jobs.take(j)).len() as int;
    assert(jobs_errors(p)[k] == entity_error(ErrorCode::DuplicateId, "Duplicate Job ID: "@ + jobs[j].id, jobs[j].id));
    assert(jobs_errors(jobs)[k] == jobs_errors(p)[k]);
}

proof fn lemma_duplicate_operation_reported(ops: Seq<OperationView>, jobs: Seq<JobView>, i: int, j: int)
    requires
        0 <= i < j < ops.len(),
        ops[i].id == ops[j].id,
    ensures
        exists|k: int| 0 <= k < operations_errors(ops, jobs).len()
            && #[trigger] operations_errors(ops, jobs)[k] == entity_error(ErrorCode::DuplicateId, "Duplicate Operation ID: "@ + ops[j].id, ops[j].id),
{
    let p = ops.take(j + 1);
    assert(p.drop_last() =~= ops.take(j));
    assert(ops.take(j)[i].id == ops[j].id);
    lemma_operations_errors_prefix(ops, jobs, j + 1);
    let k = operations_errors(ops.take(j), jobs).len() as int;
    assert(operations_errors(p, jobs)[k] == entity_error(ErrorCode::DuplicateId, "Duplicate Operation ID: "@ + ops[j].id, ops[j].id));
    assert(operations_errors(ops, jobs)[k] == operations_errors(p, jobs)[k]);
}

proof fn lemma_duplicate_resource_reported(rs: Seq<ResourceView>, i: int, j: int)
    requires
        0 <= i < j < rs.len(),
        rs[i].id == rs[j].id,
    ensures
        exists|k: int| 0 <= k < resources_errors(rs).len()
            && #[trigger] resources_errors(rs)[k] == entity_error(ErrorCode::DuplicateId, "Duplicate Resource ID: "@ + rs[j].id, rs[j].id),
{
    let p = rs.take(j + 1);
    assert(p.drop_last() =~= rs.take(j));
    assert(rs.take(j)[i].id == rs[j].id);
    lemma_resources_errors_prefix(rs, j + 1);
    let k = resources_errors(rs.take(j)).len() as int;
    assert(resources_errors(p)[k] == entity_error(ErrorCode::DuplicateId, "Duplicate Resource ID: "@ + rs[j].id, rs[j].id));
    assert(resources_errors(rs)[k] == resources_errors(p)[k]);
}

/// Every repeated identifier is reported: when two jobs, two operations or two
/// resources share an identifier, validation reports a duplicate-id error for the
/// later one.
pub proof fn law_duplicate_ids_reported(
    jobs: Seq<JobView>,
    ops: Seq<OperationView>,
    rs: Seq<ResourceView>,
    i: int,
    j: int,
)
    requires
        0 <= i < j,
    ensures
        j < jobs.len() && jobs[i].id == jobs[j].id ==> exists|k: int| 0 <= k < jobs_errors(jobs).len()
            && #[trigger] jobs_errors(jobs)[k] == entity_error(ErrorCode::DuplicateId, "Duplicate Job ID: "@ + jobs[j].id, jobs[j].id),
        j < ops.len() && ops[i].id == ops[j].id ==> exists|k: int| 0 <= k < operations_errors(ops, jobs).len()
            && #[trigger] operations_errors(ops, jobs)[k] == entity_error(ErrorCode::DuplicateId, "Duplicate Operation ID: "@ + ops[j].id, ops[j].id),
        j < rs.len() && rs[i].id == rs[j].id ==> exists|k: int| 0 <= k < resources_errors(rs).len()
            && #[trigger] resources_errors(rs)[k] == entity_error(ErrorCode::DuplicateId, "Duplicate Resource ID: "@ + rs[j].id, rs[j].id),
{
    if j < jobs.len() && jobs[i].id == jobs[j].id {
        lemma_duplicate_job_reported(jobs, i, j);
    }
    if j < ops.len() && ops[i].id == ops[j].id {
        lemma_duplicate_operation_reported(ops, jobs, i, j);
    }
    if j < rs.len() && rs[i].id == rs[j].id {
        lemma_duplicate_resource_reported(rs, i, j);
    }
}


/// The error reported for a candidate that names no resource.
pub open spec fn unknown_reference_error(o: OperationView, candidate: Seq<char>) -> UapsErrorView {
    entity_error(ErrorCode::InvalidReference, "Operation "@ + o.id + " references unknown resource: "@ + candidate, o.id)
}

proof fn lemma_contains_left(a: Seq<UapsErrorView>, b: Seq<UapsErrorView>, x: UapsErrorView)
    requires
        a.contains(x),
    ensures
        (a + b).contains(x),
{
    let i = choose|i: int| 0 <= i < a.len() && a[i] == x;
    assert((a + b)[i] == x);
}

proof fn lemma_unknown_candidate_reported(o: OperationView, cands: Seq<Seq<char>>, rs: Seq<ResourceView>, c: int)
    requires
        0 <= c < cands.len(),
        !resource_exists(rs, cands[c]),
    ensures
        unknown_candidate_errors(o, cands, rs).contains(unknown_reference_error(o, cands[c])),
    decreases cands.len(),
{
    let d = cands.drop_last();
    if c == cands.len() - 1 {
        let prev = unknown_candidate_errors(o, d, rs);
        let all = unknown_candidate_errors(o, cands, rs);
        assert(all[prev.len() as int] == unknown_reference_error(o, cands[c]));
    } else {
        assert(d[c] == cands[c]);
        lemma_unknown_candidate_reported(o, d, rs, c);
        lemma_contains_left(unknown_candidate_errors(o, d, rs), if resource_exists(rs, cands.last()) {
            Seq::empty()
        } else {
            seq![op_error2(ErrorCode::InvalidReference, o, " references unknown resource: "@, cands.last())]
        }, unknown_reference_error(o, cands[c]));
    }
}

proof fn lemma_requirement_reported(o: OperationView, n: int, rs: Seq<ResourceView>, q: int, c: int)
    requires
        0 <= q < n <= o.required_resources.len(),
        0 <= c < o.required_resources[q].candidates.len(),
        !resource_exists(rs, o.required_resources[q].candidates[c]),
    ensures
        requirement_errors(o, n, rs).contains(unknown_reference_error(o, o.required_resources[q].candidates[c])),
    decreases n,
{
    let x = unknown_reference_error(o, o.required_resources[q].candidates[c]);
    if q == n - 1 {
        lemma_unknown_candidate_reported(o, o.required_resources[q].candidates, rs, c);
        let a = requirement_errors(o, n - 1, rs);
        let b = unknown_candidate_errors(o, o.required_resources[q].candidates, rs);
        let i = choose|i: int| 0 <= i < b.len() && b[i] == x;
        assert((a + b)[a.len() + i] == x);
    } else {
        lemma_requirement_reported(o, n - 1, rs, q, c);
        lemma_contains_left(requirement_errors(o, n - 1, rs),
            unknown_candidate_errors(o, o.required_resources[n - 1].candidates, rs), x);
    }
}

/// Every candidate of every requirement of every operation that names no
/// resource is reported as an invalid reference of that operation.
pub proof fn law_unknown_references_reported(ops: Seq<OperationView>, rs: Seq<ResourceView>, p: int, q: int, c: int)
    requires
        0 <= p < ops.len(),
        0 <= q < ops[p].required_resources.len(),
        0 <= c < ops[p].required_resources[q].candidates.len(),
        !resource_exists(rs, ops[p].required_resources[q].candidates[c]),
    ensures
        references_errors(ops, rs).contains(unknown_reference_error(ops[p], ops[p].required_resources[q].candidates[c])),
    decreases ops.len(),
{
    let o = ops[p];
    let x = unknown_reference_error(o, o.required_resources[q].candidates[c]);
    let d = ops.drop_last();
    if p == ops.len() - 1 {
        lemma_requirement_reported(o, o.required_resources.len() as int, rs, q, c);
        let a = references_errors(d, rs);
        let b = requirement_errors(o, o.required_resources.len() as int, rs);
        let i = choose|i: int| 0 <= i < b.len() && b[i] == x;
        assert((a + b)[a.len() + i] == x);
    } else {
        assert(d[p] == ops[p]);
        law_unknown_references_reported(d, rs, p, q, c);
        lemma_contains_left(references_errors(d, rs),
            requirement_errors(ops.last(), ops.last().required_resources.len() as int, rs), x);
    }
}


/// Whether an error is the one for an unknown candidate of a requirement of an
/// operation.
pub open spec fn is_unknown_reference(ops: Seq<OperationView>, rs: Seq<ResourceView>, x: UapsErrorView) -> bool {
    exists|p: int, q: int, c: int| 0 <= p < ops.len() && 0 <= q < ops[p].required_resources.len()
        && 0 <= c < ops[p].required_resources[q].candidates.len()
        && !resource_exists(rs, ops[p].required_resources[q].candidates[c])
        && x == #[trigger] unknown_reference_error(ops[p], ops[p].required_resources[q].candidates[c])
}

proof fn lemma_candidate_errors_sound(o: OperationView, cands: Seq<Seq<char>>, rs: Seq<ResourceView>)
    ensures
        forall|x: int| 0 <= x < unknown_candidate_errors(o, cands, rs).len() ==> exists|c: int| 0 <= c < cands.len()
            && !resource_exists(rs, cands[c])
            && #[trigger] unknown_candidate_errors(o, cands, rs)[x] == unknown_reference_error(o, cands[c]),
    decreases cands.len(),
{
    if cands.len() > 0 {
        let d = cands.drop_last();
        lemma_candidate_errors_sound(o, d, rs);
        let a = unknown_candidate_errors(o, d, rs);
        let all = unknown_candidate_errors(o, cands, rs);
        assert forall|x: int| 0 <= x < all.len() implies exists|c: int| 0 <= c < cands.len()
            && !resource_exists(rs, cands[c]) && #[trigger] all[x] == unknown_reference_error(o, cands[c]) by {
            if x < a.len() {
                let c = choose|c: int| 0 <= c < d.len() && !resource_exists(rs, d[c]) && #[trigger] a[x] == unknown_reference_error(o, d[c]);
                assert(d[c] == cands[c]);
                assert(all[x] == a[x]);
            } else {
                assert(all[x] == unknown_reference_error(o, cands[cands.len() - 1]));
            }
        }
    }
}

proof fn lemma_requirement_errors_sound(o: OperationView, n: int, rs: Seq<ResourceView>)
    requires
        n <= o.required_resources.len(),
    ensures
        forall|x: int| 0 <= x < requirement_errors(o, n, rs).len() ==> exists|q: int, c: int| 0 <= q < n
            && 0 <= c < o.required_resources[q].candidates.len()
            && !resource_exists(rs, o.required_resources[q].candidates[c])
            && #[trigger] requirement_errors(o, n, rs)[x] == unknown_reference_error(o, o.required_resources[q].candidates[c]),
    decreases n,
{
    if n > 0 {
        lemma_requirement_errors_sound(o, n - 1, rs);
        let a = requirement_errors(o, n - 1, rs);
        let cands = o.required_resources[n - 1].candidates;
        let b = unknown_candidate_errors(o, cands, rs);
        lemma_candidate_errors_sound(o, cands, rs);
        let all = requirement_errors(o, n, rs);
        assert forall|x: int| 0 <= x < all.len() implies exists|q: int, c: int| 0 <= q < n
            && 0 <= c < o.required_resources[q].candidates.len()
            && !resource_exists(rs, o.required_resources[q].candidates[c])
            && #[trigger] all[x] == unknown_reference_error(o, o.required_resources[q].candidates[c]) by {
            if x < a.len() {
                assert(all[x] == a[x]);
                let (q, c) = choose|q: int, c: int| 0 <= q < n - 1
                    && 0 <= c < o.required_resources[q].candidates.len()
                    && !resource_exists(rs, o.required_resources[q].candidates[c])
                    && #[trigger] a[x] == unknown_reference_error(o, o.required_resources[q].candidates[c]);
            } else {
                assert(all[x] == b[x - a.len()]);
                let c = choose|c: int| 0 <= c < cands.len() && !resource_exists(rs, cands[c])
                    && #[trigger] b[x - a.len()] == unknown_reference_error(o, cands[c]);
                assert(all[x] == unknown_reference_error(o, o.required_resources[n - 1].candidates[c]));
            }
        }
    }
}

/// Reference validation reports nothing but unknown candidates: every error it
/// gives is the one for a candidate of a requirement of one of the operations
/// that names no resource.
pub proof fn law_only_unknown_references_reported(ops: Seq<OperationView>, rs: Seq<ResourceView>, x: int)
    requires
        0 <= x < references_errors(ops, rs).len(),
    ensures
        is_unknown_reference(ops, rs, references_errors(ops, rs)[x]),
    decreases ops.len(),
{
    let d = ops.drop_last();
    let o = ops.last();
    let a = references_errors(d, rs);
    let b = requirement_errors(o, o.required_resources.len() as int, rs);
    let all = references_errors(ops, rs);
    if x < a.len() {
        law_only_unknown_references_reported(d, rs, x);
        assert(all[x] == a[x]);
        let (p, q, c) = choose|p: int, q: int, c: int| 0 <= p < d.len() && 0 <= q < d[p].required_resources.len()
            && 0 <= c < d[p].required_resources[q].candidates.len()
            && !resource_exists(rs, d[p].required_resources[q].candidates[c])
            && a[x] == #[trigger] unknown_reference_error(d[p], d[p].required_resources[q].candidates[c]);
        assert(d[p] == ops[p]);
        assert(all[x] == unknown_reference_error(ops[p], ops[p].required_resources[q].candidates[c]));
    } else {
        lemma_requirement_errors_sound(o, o.required_resources.len() as int, rs);
        assert(all[x] == b[x - a.len()]);
        let (q, c) = choose|q: int, c: int| 0 <= q < o.required_resources.len()
            && 0 <= c < o.required_resources[q].candidates.len()
            && !resource_exists(rs, o.required_resources[q].candidates[c])
            && #[trigger] b[x - a.len()] == unknown_reference_error(o, o.required_resources[q].candidates[c]);
        let p = ops.len() - 1;
        assert(ops[p] == o);
        assert(all[x] == unknown_reference_error(ops[p], ops[p].required_resources[q].candidates[c]));
    }
}

} // verus!
