//! Jobs, operations and resources: the input of scheduling.

use vstd::prelude::*;
use crate::calendar::DailyWorkWindow;
use crate::strings::opt_view;

verus! {

/// Kind of resource an operation requires.
#[derive(Debug, Clone, Copy, PartialEq, Eq, Structural)]
pub enum ResourceType {
    Equipment,
    Worker,
}

/// Kind of a resource.
#[derive(Debug, Clone, Copy, PartialEq, Eq, Structural)]
pub enum ResourceKind {
    Equipment,
    Worker,
}

/// Times of an operation (ms).
#[derive(Debug, Clone, Copy, PartialEq, Eq, Structural)]
pub struct OperationTime {
    pub setup_ms: i64,
    pub process_ms: i64,
    pub wait_ms: i64,
}

/// How an operation may be split.
#[derive(Debug, Clone, Copy, PartialEq, Eq, Structural)]
pub struct SplitConfig {
    /// Smallest piece (ms).
    pub min_split_size_ms: i64,
}

/// A resource an operation requires: one of the candidates, `quantity` of them.
#[derive(Debug, Clone)]
pub struct ResourceRequirement {
    pub resource_type: ResourceType,
    pub candidates: Vec<String>,
    pub quantity: u32,
}

/// A step of a job.
#[derive(Debug, Clone)]
pub struct Operation {
    pub id: String,
    pub job_id: String,
    pub sequence: i32,
    pub operation_type: Option<String>,
    pub time: OperationTime,
    pub required_resources: Vec<ResourceRequirement>,
    pub is_splittable: bool,
    pub split_config: Option<SplitConfig>,
    pub requires_operator: bool,
    pub crew_id: Option<String>,
    pub daily_work_window: Option<DailyWorkWindow>,
}

/// An order to produce: a sequence of operations.
#[derive(Debug, Clone)]
pub struct Job {
    pub id: String,
    pub product_name: Option<String>,
    /// Lower value = more urgent.
    pub priority: i32,
    /// Due date (epoch ms).
    pub due_date: Option<i64>,
    /// Earliest start (epoch ms).
    pub earliest_start: Option<i64>,
    pub quantity: i64,
    pub operations: Vec<Operation>,
    pub target_site_id: Option<String>,
}

/// A machine or a worker.
#[derive(Debug, Clone)]
pub struct Resource {
    pub id: String,
    pub name: String,
    pub kind: ResourceKind,
    /// Speed relative to nominal, in thousandths (1000 = nominal).
    pub efficiency_milli: i64,
    pub calendar_id: Option<String>,
    pub site_id: Option<String>,
    pub linked_resource_id: Option<String>,
}

/// Mathematical value of a requirement.
pub struct ResourceRequirementView {
    pub resource_type: ResourceType,
    pub candidates: Seq<Seq<char>>,
    pub quantity: nat,
}

impl View for ResourceRequirement {
    type V = ResourceRequirementView;

    open spec fn view(&self) -> ResourceRequirementView {
        ResourceRequirementView {
            resource_type: self.resource_type,
            candidates: self.candidates@.map_values(|c: String| c@),
            quantity: self.quantity as nat,
        }
    }
}

/// Mathematical value of an operation.
pub struct OperationView {
    pub id: Seq<char>,
    pub job_id: Seq<char>,
    pub sequence: int,
    pub operation_type: Option<Seq<char>>,
    pub time: OperationTime,
    pub required_resources: Seq<ResourceRequirementView>,
    pub is_splittable: bool,
    pub split_config: Option<SplitConfig>,
    pub requires_operator: bool,
    pub crew_id: Option<Seq<char>>,
    pub daily_work_window: Option<DailyWorkWindow>,
}

impl View for Operation {
    type V = OperationView;

    open spec fn view(&self) -> OperationView {
        OperationView {
            id: self.id@,
            job_id: self.job_id@,
            sequence: self.sequence as int,
            operation_type: opt_view(self.operation_type),
            time: self.time,
            required_resources: self.required_resources@.map_values(|r: ResourceRequirement| r@),
            is_splittable: self.is_splittable,
            split_config: self.split_config,
            requires_operator: self.requires_operator,
            crew_id: opt_view(self.crew_id),
            daily_work_window: self.daily_work_window,
        }
    }
}

/// Mathematical value of a job.
pub struct JobView {
    pub id: Seq<char>,
    pub product_name: Option<Seq<char>>,
    pub priority: int,
    pub due_date: Option<int>,
    pub earliest_start: Option<int>,
    pub quantity: int,
    pub operations: Seq<OperationView>,
    pub target_site_id: Option<Seq<char>>,
}

impl View for Job {
    type V = JobView;

    open spec fn view(&self) -> JobView {
        JobView {
            id: self.id@,
            product_name: opt_view(self.product_name),
            priority: self.priority as int,
            due_date: match self.due_date { Some(d) => Some(d as int), None => None },
            earliest_start: match self.earliest_start { Some(d) => Some(d as int), None => None },
            quantity: self.quantity as int,
            operations: self.operations@.map_values(|o: Operation| o@),
            target_site_id: opt_view(self.target_site_id),
        }
    }
}

/// Mathematical value of a resource.
pub struct ResourceView {
    pub id: Seq<char>,
    pub name: Seq<char>,
    pub kind: ResourceKind,
    pub efficiency_milli: int,
    pub calendar_id: Option<Seq<char>>,
    pub site_id: Option<Seq<char>>,
    pub linked_resource_id: Option<Seq<char>>,
}

impl View for Resource {
    type V = ResourceView;

    open spec fn view(&self) -> ResourceView {
        ResourceView {
            id: self.id@,
            name: self.name@,
            kind: self.kind,
            efficiency_milli: self.efficiency_milli as int,
            calendar_id: opt_view(self.calendar_id),
            site_id: opt_view(self.site_id),
            linked_resource_id: opt_view(self.linked_resource_id),
        }
    }
}

impl Job {
    /// A job with priority 0, quantity 1 and no operations.
    pub fn new(id: &str) -> (j: Job)
        ensures
            j@.id == id@,
            j@.priority == 0,
            j@.due_date is None,
            j@.earliest_start is None,
            j@.product_name is None,
            j@.quantity == 1,
            j@.operations.len() == 0,
            j@.target_site_id is None,
    {
        let j = Job {
            id: String::from_str(id),
            product_name: None,
            priority: 0,
            due_date: None,
            earliest_start: None,
            quantity: 1,
            operations: Vec::new(),
            target_site_id: None,
        };
        assert(j@.operations =~= Seq::<OperationView>::empty());
        j
    }

    /// Sets the priority.
    pub fn with_priority(self, priority: i32) -> (j: Job)
        ensures
            j@ == (JobView { priority: priority as int, ..self@ }),
    {
        Job { priority, ..self }
    }

    /// Sets the product.
    pub fn with_product(self, product: &str) -> (j: Job)
        ensures
            j@ == (JobView { product_name: Some(product@), ..self@ }),
    {
        Job { product_name: Some(String::from_str(product)), ..self }
    }

    /// Sets the due date (epoch ms).
    pub fn with_due_date(self, due_ms: i64) -> (j: Job)
        ensures
            j@ == (JobView { due_date: Some(due_ms as int), ..self@ }),
    {
        Job { due_date: Some(due_ms), ..self }
    }

    /// Sets the earliest start (epoch ms).
    pub fn with_earliest_start(self, start_ms: i64) -> (j: Job)
        ensures
            j@ == (JobView { earliest_start: Some(start_ms as int), ..self@ }),
    {
        Job { earliest_start: Some(start_ms), ..self }
    }

    /// Sets the site the job must be made at.
    pub fn with_site(self, site_id: &str) -> (j: Job)
        ensures
            j@ == (JobView { target_site_id: Some(site_id@), ..self@ }),
    {
        Job { target_site_id: Some(String::from_str(site_id)), ..self }
    }

    /// Appends an operation.
    pub fn with_operation(self, op: Operation) -> (j: Job)
        ensures
            j@ == (JobView { operations: self@.operations.push(op@), ..self@ }),
    {
        let mut j = self;
        j.operations.push(op);
        assert(j@.operations =~= self@.operations.push(op@));
        j
    }
}

impl Operation {
    /// An operation of a job at a position, with no time, no resources, needing an operator.
    pub fn new(id: &str, job_id: &str, sequence: i32) -> (o: Operation)
        ensures
            o@.id == id@,
            o@.job_id == job_id@,
            o@.sequence == sequence,
            o@.time == (OperationTime { setup_ms: 0, process_ms: 0, wait_ms: 0 }),
            o@.required_resources.len() == 0,
            !o@.is_splittable,
            o@.split_config is None,
            o@.requires_operator,
            o@.operation_type is None,
            o@.crew_id is None,
            o@.daily_work_window is None,
    {
        let o = Operation {
            id: String::from_str(id),
            job_id: String::from_str(job_id),
            sequence,
            operation_type: None,
            time: OperationTime { setup_ms: 0, process_ms: 0, wait_ms: 0 },
            required_resources: Vec::new(),
            is_splittable: false,
            split_config: None,
            requires_operator: true,
            crew_id: None,
            daily_work_window: None,
        };
        assert(o@.required_resources =~= Seq::<ResourceRequirementView>::empty());
        o
    }

    /// Sets setup, processing and waiting times.
    pub fn with_time(self, setup_ms: i64, process_ms: i64, wait_ms: i64) -> (o: Operation)
        ensures
            o@ == (OperationView { time: OperationTime { setup_ms, process_ms, wait_ms }, ..self@ }),
    {
        Operation { time: OperationTime { setup_ms, process_ms, wait_ms }, ..self }
    }

    /// Requires one piece of equipment among the candidates.
    pub fn with_equipment(self, candidates: Vec<String>) -> (o: Operation)
        ensures
            o@.required_resources == self@.required_resources.push(ResourceRequirementView {
                resource_type: ResourceType::Equipment,
                candidates: candidates@.map_values(|c: String| c@),
                quantity: 1,
            }),
            o@.id == self@.id,
            o@.job_id == self@.job_id,
            o@.time == self@.time,
            o@.sequence == self@.sequence,
            o@.is_splittable == self@.is_splittable,
            o@.split_config == self@.split_config,
    {
        let req = ResourceRequirement { resource_type: ResourceType::Equipment, candidates, quantity: 1 };
        let mut o = self;
        o.required_resources.push(req);
        assert(o@.required_resources =~= self@.required_resources.push(req@));
        o
    }

    /// Requires `count` workers (any worker).
    pub fn with_workers(self, count: u32) -> (o: Operation)
        ensures
            o@.required_resources == self@.required_resources.push(ResourceRequirementView {
                resource_type: ResourceType::Worker,
                candidates: Seq::empty(),
                quantity: count as nat,
            }),
            o@.id == self@.id,
            o@.job_id == self@.job_id,
            o@.time == self@.time,
    {
        let req = ResourceRequirement { resource_type: ResourceType::Worker, candidates: Vec::new(), quantity: count };
        let mut o = self;
        o.required_resources.push(req);
        assert(req@.candidates =~= Seq::<Seq<char>>::empty());
        assert(o@.required_resources =~= self@.required_resources.push(req@));
        o
    }

    /// Sets the operation type.
    pub fn with_operation_type(self, op_type: &str) -> (o: Operation)
        ensures
            o@ == (OperationView { operation_type: Some(op_type@), ..self@ }),
    {
        Operation { operation_type: Some(String::from_str(op_type)), ..self }
    }

    /// Marks the operation as splittable with a smallest piece.
    pub fn with_split(self, min_split_size_ms: i64) -> (o: Operation)
        ensures
            o@ == (OperationView {
                is_splittable: true,
                split_config: Some(SplitConfig { min_split_size_ms }),
                ..self@
            }),
    {
        Operation { is_splittable: true, split_config: Some(SplitConfig { min_split_size_ms }), ..self }
    }

    /// Marks the operation as running without an operator.
    pub fn unmanned(self) -> (o: Operation)
        ensures
            o@ == (OperationView { requires_operator: false, ..self@ }),
    {
        Operation { requires_operator: false, ..self }
    }

    /// Marks the operation as splittable or not.
    pub fn with_splittable(self, splittable: bool) -> (o: Operation)
        ensures
            o@ == (OperationView { is_splittable: splittable, ..self@ }),
    {
        Operation { is_splittable: splittable, ..self }
    }

    /// Sets the daily work window.
    pub fn with_daily_work_window(self, window: DailyWorkWindow) -> (o: Operation)
        ensures
            o@ == (OperationView { daily_work_window: Some(window), ..self@ }),
    {
        Operation { daily_work_window: Some(window), ..self }
    }
}

impl Resource {
    /// A piece of equipment with nominal efficiency.
    pub fn equipment(id: &str) -> (r: Resource)
        ensures
            r@ == (ResourceView {
                id: id@,
                name: id@,
                kind: ResourceKind::Equipment,
                efficiency_milli: 1000,
                calendar_id: None,
                site_id: None,
                linked_resource_id: None,
            }),
    {
        Resource {
            id: String::from_str(id),
            name: String::from_str(id),
            kind: ResourceKind::Equipment,
            efficiency_milli: 1000,
            calendar_id: None,
            site_id: None,
            linked_resource_id: None,
        }
    }

    /// A worker with nominal efficiency.
    pub fn worker(id: &str) -> (r: Resource)
        ensures
            r@ == (ResourceView {
                id: id@,
                name: id@,
                kind: ResourceKind::Worker,
                efficiency_milli: 1000,
                calendar_id: None,
                site_id: None,
                linked_resource_id: None,
            }),
    {
        Resource {
            id: String::from_str(id),
            name: String::from_str(id),
            kind: ResourceKind::Worker,
            efficiency_milli: 1000,
            calendar_id: None,
            site_id: None,
            linked_resource_id: None,
        }
    }

    /// Sets the efficiency, in thousandths.
    pub fn with_efficiency_milli(self, efficiency_milli: i64) -> (r: Resource)
        ensures
            r@ == (ResourceView { efficiency_milli: efficiency_milli as int, ..self@ }),
    {
        Resource { efficiency_milli, ..self }
    }

    /// Sets the calendar.
    pub fn with_calendar(self, calendar_id: &str) -> (r: Resource)
        ensures
            r@ == (ResourceView { calendar_id: Some(calendar_id@), ..self@ }),
    {
        Resource { calendar_id: Some(String::from_str(calendar_id)), ..self }
    }

    /// Sets the site.
    pub fn with_site(self, site_id: &str) -> (r: Resource)
        ensures
            r@ == (ResourceView { site_id: Some(site_id@), ..self@ }),
    {
        Resource { site_id: Some(String::from_str(site_id)), ..self }
    }

    /// Sets the resource occupied together with this one.
    pub fn with_linked_resource(self, linked_id: &str) -> (r: Resource)
        ensures
            r@ == (ResourceView { linked_resource_id: Some(linked_id@), ..self@ }),
    {
        Resource { linked_resource_id: Some(String::from_str(linked_id)), ..self }
    }
}

} // verus!
