//! Campaigns: runs of jobs of one product scheduled back to back, so that the
//! machines change product, and pay its setup time, less often.

use vstd::prelude::*;
use crate::job::{Job, JobView};
use crate::rescheduler::{in_bound, TIME_BOUND};
use crate::setup::{collection_setup, matrix_views, SetupMatrixCollection, SetupMatrixView};
use crate::strings::str_eq;
use crate::text::{nat_text, u64_to_text};
use crate::validation::job_views;

verus! {

/// Settings of campaign planning.
#[derive(Debug, Clone, Copy)]
pub struct CampaignConfig {
    /// Fewest jobs in a campaign.
    pub min_campaign_size: usize,
    /// Most jobs in a campaign.
    pub max_campaign_size: usize,
    /// Setup saving above which a campaign is worth forming (ms).
    pub setup_saving_threshold_ms: i64,
    /// Weight of due dates, in thousandths (0 to 1000).
    pub due_date_weight_milli: i64,
}

impl Default for CampaignConfig {
    /// Campaigns of 2 to 10 jobs, a 5 s saving threshold, due-date weight 0.5.
    fn default() -> (c: CampaignConfig)
        ensures
            c.min_campaign_size == 2,
            c.max_campaign_size == 10,
            c.setup_saving_threshold_ms == 5000,
            c.due_date_weight_milli == 500,
    {
        CampaignConfig {
            min_campaign_size: 2,
            max_campaign_size: 10,
            setup_saving_threshold_ms: 5000,
            due_date_weight_milli: 500,
        }
    }
}

/// Jobs of one product to be run back to back.
#[derive(Debug, Clone)]
pub struct Campaign {
    pub id: String,
    pub product_name: String,
    /// The jobs, earliest due date first.
    pub job_ids: Vec<String>,
    /// Setup time the campaign is expected to save (ms).
    pub estimated_setup_saving_ms: i64,
    /// The most urgent priority of its jobs (lower = more urgent).
    pub priority: i32,
    /// The earliest due date of its jobs (epoch ms).
    pub earliest_due_date: Option<i64>,
}

/// Mathematical value of a campaign.
pub struct CampaignView {
    pub id: Seq<char>,
    pub product_name: Seq<char>,
    pub job_ids: Seq<Seq<char>>,
    pub estimated_setup_saving_ms: int,
    pub priority: int,
    pub earliest_due_date: Option<int>,
}

impl View for Campaign {
    type V = CampaignView;

    open spec fn view(&self) -> CampaignView {
        CampaignView {
            id: self.id@,
            product_name: self.product_name@,
            job_ids: self.job_ids@.map_values(|s: String| s@),
            estimated_setup_saving_ms: self.estimated_setup_saving_ms as int,
            priority: self.priority as int,
            earliest_due_date: match self.earliest_due_date { Some(d) => Some(d as int), None => None },
        }
    }
}

/// Views of a sequence of campaigns.
pub open spec fn campaign_views(s: Seq<Campaign>) -> Seq<CampaignView> {
    s.map_values(|c: Campaign| c@)
}

/// The product a job is grouped by: its product name, or its own id without one.
pub open spec fn product_key(j: JobView) -> Seq<char> {
    match j.product_name {
        Some(p) => p,
        None => j.id,
    }
}

/// The products of the jobs, in order of first appearance.
pub open spec fn products(js: Seq<JobView>) -> Seq<Seq<char>>
    decreases js.len(),
{
    if js.len() == 0 {
        Seq::empty()
    } else {
        let before = products(js.drop_last());
        if before.contains(product_key(js.last())) { before } else { before.push(product_key(js.last())) }
    }
}

/// The jobs of a product, in input order.
pub open spec fn jobs_of(js: Seq<JobView>, p: Seq<char>) -> Seq<JobView>
    decreases js.len(),
{
    if js.len() == 0 {
        Seq::empty()
    } else {
        let before = jobs_of(js.drop_last(), p);
        if product_key(js.last()) == p { before.push(js.last()) } else { before }
    }
}

/// The due date a job is ordered by; jobs without one come last.
pub open spec fn due_key(j: JobView) -> int {
    match j.due_date {
        Some(d) => d,
        None => i64::MAX as int,
    }
}

/// A job inserted into a sequence after every job due no later.
pub open spec fn insert_by_due(s: Seq<JobView>, j: JobView) -> Seq<JobView>
    decreases s.len(),
{
    if s.len() == 0 {
        seq![j]
    } else if due_key(s.last()) <= due_key(j) {
        s.push(j)
    } else {
        insert_by_due(s.drop_last(), j).push(s.last())
    }
}

/// The jobs in due-date order, jobs due together keeping their order (a stable sort).
pub open spec fn sort_by_due(s: Seq<JobView>) -> Seq<JobView>
    decreases s.len(),
{
    if s.len() == 0 {
        Seq::empty()
    } else {
        insert_by_due(sort_by_due(s.drop_last()), s.last())
    }
}

/// The jobs at the given indices.
pub open spec fn jobs_at(js: Seq<JobView>, idx: Seq<usize>) -> Seq<JobView> {
    idx.map_values(|i: usize| js[i as int])
}

/// Whether every index points into the jobs.
pub open spec fn indices_valid(js: Seq<JobView>, idx: Seq<usize>) -> bool {
    forall|k: int| 0 <= k < idx.len() ==> #[trigger] idx[k] < js.len()
}

/// The product key of a job.
fn job_product_key(job: &Job) -> (k: &str)
    ensures
        k@ == product_key(job@),
{
    match &job.product_name {
        Some(p) => p.as_str(),
        None => job.id.as_str(),
    }
}

/// Whether a list of strings holds a string.
fn holds(v: &Vec<String>, s: &str) -> (b: bool)
    ensures
        b == v@.map_values(|x: String| x@).contains(s@),
{
    let ghost vs = v@.map_values(|x: String| x@);
    let mut i: usize = 0;
    while i < v.len()
        invariant
            i <= v.len(),
            vs == v@.map_values(|x: String| x@),
            forall|k: int| 0 <= k < i ==> vs[k] != s@,
        decreases v.len() - i,
    {
        if str_eq(v[i].as_str(), s) {
            assert(vs[i as int] == s@);
            return true;
        }
        i += 1;
    }
    false
}

/// The products of the jobs, in order of first appearance.
fn collect_products(jobs: &[Job]) -> (r: Vec<String>)
    ensures
        r@.map_values(|x: String| x@) == products(job_views(jobs@)),
{
    let ghost js = job_views(jobs@);
    let mut r: Vec<String> = Vec::new();
    let mut i: usize = 0;
    while i < jobs.len()
        invariant
            i <= jobs.len(),
            js == job_views(jobs@),
            r@.map_values(|x: String| x@) == products(js.take(i as int)),
        decreases jobs.len() - i,
    {
        assert(js.take(i + 1).drop_last() =~= js.take(i as int));
        assert(jobs[i as int]@ == js[i as int]);
        let key = job_product_key(&jobs[i]);
        let ghost before = r@.map_values(|x: String| x@);
        if !holds(&r, key) {
            r.push(String::from_str(key));
            assert(r@.map_values(|x: String| x@) =~= before.push(key@));
        }
        i += 1;
    }
    assert(js.take(jobs.len() as int) =~= js);
    r
}

/// The indices of the jobs of a product, in input order.
fn collect_group(jobs: &[Job], product: &str) -> (r: Vec<usize>)
    ensures
        r.len() <= jobs.len(),
        indices_valid(job_views(jobs@), r@),
        jobs_at(job_views(jobs@), r@) == jobs_of(job_views(jobs@), product@),
{
    let ghost js = job_views(jobs@);
    let mut r: Vec<usize> = Vec::new();
    let mut i: usize = 0;
    while i < jobs.len()
        invariant
            i <= jobs.len(),
            js == job_views(jobs@),
            r.len() <= i,
            indices_valid(js, r@),
            jobs_at(js, r@) == jobs_of(js.take(i as int), product@),
        decreases jobs.len() - i,
    {
        assert(js.take(i + 1).drop_last() =~= js.take(i as int));
        assert(jobs[i as int]@ == js[i as int]);
        let key = job_product_key(&jobs[i]);
        let ghost before = jobs_at(js, r@);
        if str_eq(key, product) {
            r.push(i);
            assert(jobs_at(js, r@) =~= before.push(js[i as int]));
        }
        i += 1;
    }
    assert(js.take(jobs.len() as int) =~= js);
    r
}

/// The due key of a job, computed.
fn job_due_key(job: &Job) -> (k: i64)
    ensures
        k as int == due_key(job@),
{
    match job.due_date {
        Some(d) => d,
        None => i64::MAX,
    }
}

/// Sorts the indices of a group by the due dates of their jobs, stably.
fn sort_group_by_due(jobs: &[Job], group: &Vec<usize>) -> (r: Vec<usize>)
    requires
        indices_valid(job_views(jobs@), group@),
    ensures
        r.len() == group.len(),
        indices_valid(job_views(jobs@), r@),
        jobs_at(job_views(jobs@), r@) == sort_by_due(jobs_at(job_views(jobs@), group@)),
{
    let ghost js = job_views(jobs@);
    let ghost g = jobs_at(js, group@);
    let mut r: Vec<usize> = Vec::new();
    let mut i: usize = 0;
    while i < group.len()
        invariant
            i <= group.len(),
            js == job_views(jobs@),
            g == jobs_at(js, group@),
            indices_valid(js, group@),
            r.len() == i,
            indices_valid(js, r@),
            jobs_at(js, r@) == sort_by_due(g.take(i as int)),
        decreases group.len() - i,
    {
        assert(g.take(i + 1).drop_last() =~= g.take(i as int));
        let x = group[i];
        assert(x < js.len());
        let kx = job_due_key(&jobs[x]);
        assert(jobs[x as int]@ == js[x as int]);
        let ghost jx = js[x as int];
        assert(g[i as int] == jx);
        let ghost sorted = jobs_at(js, r@);
        let mut q: usize = r.len();
        assert(sorted.take(q as int) =~= sorted);
        assert(sorted.skip(q as int) =~= Seq::<JobView>::empty());
        while q > 0 && job_due_key(&jobs[r[q - 1]]) > kx
            invariant
                q <= r.len(),
                js == job_views(jobs@),
                indices_valid(js, r@),
                sorted == jobs_at(js, r@),
                x < js.len(),
                jx == js[x as int],
                kx as int == due_key(jx),
                insert_by_due(sorted, jx) == insert_by_due(sorted.take(q as int), jx) + sorted.skip(q as int),
            decreases q,
        {
            assert(r[q - 1] < js.len());
            assert(jobs[r[q - 1] as int]@ == sorted[q - 1]);
            assert(sorted.take(q as int).drop_last() =~= sorted.take(q - 1));
            assert(sorted.take(q as int).last() == sorted[q - 1]);
            assert(sorted.skip(q - 1) =~= seq![sorted[q - 1]] + sorted.skip(q as int));
            assert(insert_by_due(sorted.take(q - 1), jx).push(sorted[q - 1]) + sorted.skip(q as int)
                =~= insert_by_due(sorted.take(q - 1), jx) + sorted.skip(q - 1));
            q -= 1;
        }
        proof {
            if q > 0 {
                assert(r[q - 1] < js.len());
                assert(jobs[r[q - 1] as int]@ == sorted[q - 1]);
                assert(sorted.take(q as int).last() == sorted[q - 1]);
            }
        }
        r.insert(q, x);
        assert(jobs_at(js, r@) =~= insert_by_due(sorted, jx));
        i += 1;
    }
    assert(g.take(group.len() as int) =~= g);
    r
}

/// The most urgent priority of the jobs (100 for none).
pub open spec fn min_priority(c: Seq<JobView>) -> int
    decreases c.len(),
{
    if c.len() == 0 {
        100
    } else if c.len() == 1 {
        c[0].priority
    } else {
        let rest = min_priority(c.drop_last());
        if c.last().priority < rest { c.last().priority } else { rest }
    }
}

/// The earliest due date of the jobs, if any has one.
pub open spec fn earliest_due(c: Seq<JobView>) -> Option<int>
    decreases c.len(),
{
    if c.len() == 0 {
        None
    } else {
        let rest = earliest_due(c.drop_last());
        match c.last().due_date {
            None => rest,
            Some(d) => match rest {
                None => Some(d),
                Some(e) => Some(if d < e { d } else { e }),
            },
        }
    }
}

/// Setup time of a change of product assumed when no matrix says otherwise (ms).
pub const DEFAULT_CHANGEOVER_MS: i64 = 10_000;

/// Setup time a campaign of `n` jobs of product `p` saves: each of its `n - 1`
/// changes between equal products costs the setup between them (on the default
/// machine, the one of empty id) instead of the default changeover; never negative.
pub open spec fn campaign_saving(ms: Seq<SetupMatrixView>, p: Seq<char>, n: int) -> int {
    if n <= 1 {
        0
    } else {
        let per = DEFAULT_CHANGEOVER_MS - collection_setup(ms, Seq::empty(), Some(p), p);
        (if per > 0 { per } else { 0 }) * (n - 1)
    }
}

/// The campaign formed by a run of jobs of a product (without its id).
pub open spec fn draft(ms: Seq<SetupMatrixView>, p: Seq<char>, c: Seq<JobView>) -> CampaignView {
    CampaignView {
        id: Seq::empty(),
        product_name: p,
        job_ids: c.map_values(|j: JobView| j.id),
        estimated_setup_saving_ms: campaign_saving(ms, p, c.len() as int),
        priority: min_priority(c),
        earliest_due_date: earliest_due(c),
    }
}

/// The campaigns of a product's sorted jobs: cut into runs of `size` jobs (the
/// last run may be shorter), keeping the runs of at least `min` jobs.
pub open spec fn chunk_drafts(ms: Seq<SetupMatrixView>, p: Seq<char>, s: Seq<JobView>, size: int, min: int) -> Seq<CampaignView>
    decreases s.len(),
{
    if s.len() == 0 || size <= 0 {
        Seq::empty()
    } else if s.len() <= size {
        if s.len() >= min { seq![draft(ms, p, s)] } else { Seq::empty() }
    } else {
        (if size >= min { seq![draft(ms, p, s.take(size))] } else { Seq::<CampaignView>::empty() })
            + chunk_drafts(ms, p, s.skip(size), size, min)
    }
}

/// The campaigns of a product: none when it has fewer jobs than a campaign
/// needs, else those of its jobs sorted by due date.
pub open spec fn product_drafts(ms: Seq<SetupMatrixView>, cfg: CampaignConfig, js: Seq<JobView>, p: Seq<char>) -> Seq<CampaignView> {
    let g = sort_by_due(jobs_of(js, p));
    if g.len() < cfg.min_campaign_size {
        Seq::empty()
    } else {
        chunk_drafts(ms, p, g, cfg.max_campaign_size as int, cfg.min_campaign_size as int)
    }
}

/// The campaigns of the given products, product after product.
pub open spec fn drafts_for(ms: Seq<SetupMatrixView>, cfg: CampaignConfig, js: Seq<JobView>, prods: Seq<Seq<char>>) -> Seq<CampaignView>
    decreases prods.len(),
{
    if prods.len() == 0 {
        Seq::empty()
    } else {
        drafts_for(ms, cfg, js, prods.drop_last()) + product_drafts(ms, cfg, js, prods.last())
    }
}

/// The id of the campaign formed n-th.
pub open spec fn campaign_id(n: nat) -> Seq<char> {
    "CAMPAIGN-"@ + nat_text(n)
}

/// The campaigns with their ids, numbered in the order they were formed.
pub open spec fn numbered(d: Seq<CampaignView>) -> Seq<CampaignView> {
    Seq::new(d.len(), |i: int| CampaignView { id: campaign_id(i as nat), ..d[i] })
}

/// Whether every setup time of the matrices lies within the time bound.
pub open spec fn setup_times_bounded(ms: Seq<SetupMatrixView>) -> bool {
    forall|i: int| 0 <= i < ms.len() ==> {
        &&& in_bound(#[trigger] ms[i].default_setup_ms)
        &&& forall|k: int| 0 <= k < ms[i].transitions.len() ==> in_bound(#[trigger] ms[i].transitions[k].2)
    }
}

/// Bound on the number of jobs a campaign plan accepts.
pub const MAX_PLANNED_JOBS: usize = 262_144;

/// A listed setup time of bounded matrices is bounded.
proof fn lemma_listed_bounded(t: Seq<(Seq<char>, Seq<char>, int)>, from: Seq<char>, to: Seq<char>)
    requires
        forall|k: int| 0 <= k < t.len() ==> in_bound(#[trigger] t[k].2),
    ensures
        match crate::setup::listed_setup(t, from, to) {
            Some(v) => in_bound(v),
            None => true,
        },
    decreases t.len(),
{
    if t.len() > 0 {
        assert(in_bound(t[t.len() - 1].2));
        let d = t.drop_last();
        assert forall|k: int| 0 <= k < d.len() implies in_bound(#[trigger] d[k].2) by {
            assert(d[k] == t[k]);
        }
        lemma_listed_bounded(d, from, to);
    }
}

/// The matrix found for a machine is one of the matrices.
proof fn lemma_matrix_for_member(ms: Seq<SetupMatrixView>, r: Seq<char>)
    ensures
        match crate::setup::matrix_for(ms, r) {
            Some(m) => exists|i: int| 0 <= i < ms.len() && ms[i] == m,
            None => true,
        },
    decreases ms.len(),
{
    if ms.len() > 0 {
        if ms.last().id == r {
            assert(ms[ms.len() - 1] == ms.last());
        } else {
            lemma_matrix_for_member(ms.drop_last(), r);
            match crate::setup::matrix_for(ms.drop_last(), r) {
                Some(m) => {
                    let i = choose|i: int| 0 <= i < ms.drop_last().len() && ms.drop_last()[i] == m;
                    assert(ms[i] == m);
                },
                None => {},
            }
        }
    }
}

/// Setup times of bounded matrices are bounded.
pub(crate) proof fn lemma_setup_bounded(ms: Seq<SetupMatrixView>, r: Seq<char>, from: Option<Seq<char>>, to: Seq<char>)
    requires
        setup_times_bounded(ms),
    ensures
        in_bound(collection_setup(ms, r, from, to)),
{
    lemma_matrix_for_member(ms, r);
    match crate::setup::matrix_for(ms, r) {
        Some(m) => {
            let i = choose|i: int| 0 <= i < ms.len() && ms[i] == m;
            assert(in_bound(ms[i].default_setup_ms));
            match from {
                Some(f) => lemma_listed_bounded(m.transitions, f, to),
                None => {},
            }
        },
        None => {},
    }
}

/// The saving of a campaign of `n` jobs, computed.
fn saving_for(matrices: &SetupMatrixCollection, product: &str, n: usize) -> (s: i64)
    requires
        setup_times_bounded(matrix_views(matrices.matrices@)),
        n <= MAX_PLANNED_JOBS,
    ensures
        s as int == campaign_saving(matrix_views(matrices.matrices@), product@, n as int),
{
    if n <= 1 {
        return 0;
    }
    proof {
        reveal_strlit("");
        lemma_setup_bounded(matrix_views(matrices.matrices@), ""@, Some(product@), product@);
    }
    let same = matrices.get_setup_time("", Some(product), product);
    assert(""@ =~= Seq::<char>::empty());
    let per: i64 = DEFAULT_CHANGEOVER_MS - same;
    let per_pos: i64 = if per > 0 { per } else { 0 };
    let transitions: i64 = (n - 1) as i64;
    assert(0 <= per_pos <= DEFAULT_CHANGEOVER_MS + TIME_BOUND);
    assert(per_pos * transitions <= (DEFAULT_CHANGEOVER_MS + TIME_BOUND) * MAX_PLANNED_JOBS) by (nonlinear_arith)
        requires
            0 <= per_pos <= DEFAULT_CHANGEOVER_MS + TIME_BOUND,
            0 <= transitions <= MAX_PLANNED_JOBS,
    ;
    assert(per_pos * transitions >= 0) by (nonlinear_arith)
        requires
            0 <= per_pos,
            0 <= transitions,
    ;
    per_pos * transitions
}

/// The id of the campaign formed n-th, computed.
fn campaign_id_text(n: usize) -> (s: String)
    ensures
        s@ == campaign_id(n as nat),
{
    proof { reveal_strlit("CAMPAIGN-"); }
    let mut s = String::from_str("CAMPAIGN-");
    let digits = u64_to_text(n as u64);
    s.append(digits.as_str());
    s
}

/// The campaign formed n-th from the jobs at `sorted[lo..hi]`.
fn make_campaign(
    jobs: &[Job],
    sorted: &Vec<usize>,
    lo: usize,
    hi: usize,
    product: &str,
    n: usize,
    matrices: &SetupMatrixCollection,
) -> (c: Campaign)
    requires
        indices_valid(job_views(jobs@), sorted@),
        lo < hi <= sorted.len(),
        hi - lo <= MAX_PLANNED_JOBS,
        setup_times_bounded(matrix_views(matrices.matrices@)),
    ensures
        c@ == (CampaignView {
            id: campaign_id(n as nat),
            ..draft(matrix_views(matrices.matrices@), product@, jobs_at(job_views(jobs@), sorted@).subrange(lo as int, hi as int))
        }),
{
    let ghost js = job_views(jobs@);
    let ghost all = jobs_at(js, sorted@);
    let mut ids: Vec<String> = Vec::new();
    let mut priority: i32 = 100;
    let mut due: Option<i64> = None;
    let mut k: usize = lo;
    while k < hi
        invariant
            lo <= k <= hi,
            hi <= sorted.len(),
            js == job_views(jobs@),
            all == jobs_at(js, sorted@),
            indices_valid(js, sorted@),
            ids@.map_values(|x: String| x@) == all.subrange(lo as int, k as int).map_values(|j: JobView| j.id),
            priority as int == min_priority(all.subrange(lo as int, k as int)),
            match due { Some(d) => Some(d as int), None => None } == earliest_due(all.subrange(lo as int, k as int)),
        decreases hi - k,
    {
        let ghost before = all.subrange(lo as int, k as int);
        let ghost after = all.subrange(lo as int, k + 1);
        assert(after.drop_last() =~= before);
        let x = sorted[k];
        assert(x < js.len());
        let job = &jobs[x];
        assert(job@ == js[x as int]);
        assert(all[k as int] == js[x as int]);
        assert(after.last() == job@);
        let ghost ids_before = ids@.map_values(|y: String| y@);
        let idc = job.id.clone();
        assert(idc@ == job@.id);
        ids.push(idc);
        assert(ids@.map_values(|y: String| y@) =~= ids_before.push(job@.id));
        assert(after.map_values(|j: JobView| j.id) =~= before.map_values(|j: JobView| j.id).push(job@.id));
        if k == lo || job.priority < priority {
            priority = job.priority;
        }
        match job.due_date {
            Some(d) => {
                match due {
                    Some(e) => {
                        if d < e {
                            due = Some(d);
                        }
                    },
                    None => {
                        due = Some(d);
                    },
                }
            },
            None => {},
        }
        k += 1;
    }
    let id = campaign_id_text(n);
    let saving = saving_for(matrices, product, hi - lo);
    Campaign {
        id,
        product_name: String::from_str(product),
        job_ids: ids,
        estimated_setup_saving_ms: saving,
        priority,
        earliest_due_date: due,
    }
}

/// Forms the campaigns of one product, numbering them after the `done` ones.
fn plan_product(
    cfg: &CampaignConfig,
    matrices: &SetupMatrixCollection,
    jobs: &[Job],
    product: &str,
    campaigns: &mut Vec<Campaign>,
    Ghost(done): Ghost<Seq<CampaignView>>,
)
    requires
        cfg.max_campaign_size > 0,
        jobs.len() <= MAX_PLANNED_JOBS,
        setup_times_bounded(matrix_views(matrices.matrices@)),
        campaign_views(old(campaigns)@) == numbered(done),
    ensures
        campaign_views(final(campaigns)@)
            == numbered(done + product_drafts(matrix_views(matrices.matrices@), *cfg, job_views(jobs@), product@)),
{
    let ghost ms = matrix_views(matrices.matrices@);
    let ghost js = job_views(jobs@);
    let group = collect_group(jobs, product);
    let sorted = sort_group_by_due(jobs, &group);
    let ghost g = jobs_at(js, sorted@);
    assert(g == sort_by_due(jobs_of(js, product@)));
    if sorted.len() < cfg.min_campaign_size {
        assert(done + Seq::<CampaignView>::empty() =~= done);
        return;
    }
    let size = cfg.max_campaign_size;
    let min = cfg.min_campaign_size;
    let mut pos: usize = 0;
    let ghost mut d_done: Seq<CampaignView> = Seq::empty();
    assert(g.skip(0) =~= g);
    assert(d_done + chunk_drafts(ms, product@, g.skip(0), size as int, min as int) =~= chunk_drafts(ms, product@, g, size as int, min as int));
    while pos < sorted.len()
        invariant
            pos <= sorted.len(),
            size == cfg.max_campaign_size,
            min == cfg.min_campaign_size,
            size > 0,
            ms == matrix_views(matrices.matrices@),
            js == job_views(jobs@),
            g == jobs_at(js, sorted@),
            g.len() == sorted.len(),
            sorted.len() <= jobs.len(),
            jobs.len() <= MAX_PLANNED_JOBS,
            indices_valid(js, sorted@),
            setup_times_bounded(ms),
            d_done + chunk_drafts(ms, product@, g.skip(pos as int), size as int, min as int)
                == chunk_drafts(ms, product@, g, size as int, min as int),
            campaign_views(campaigns@) == numbered(done + d_done),
        decreases sorted.len() - pos,
    {
        let remaining = sorted.len() - pos;
        let hi = if remaining <= size { sorted.len() } else { pos + size };
        let ghost rest = g.skip(pos as int);
        let ghost chunk = g.subrange(pos as int, hi as int);
        if remaining <= size {
            assert(rest =~= chunk);
            assert(g.skip(hi as int).len() == 0);
            assert(chunk_drafts(ms, product@, g.skip(hi as int), size as int, min as int) =~= Seq::<CampaignView>::empty());
        } else {
            assert(rest.take(size as int) =~= chunk);
            assert(rest.skip(size as int) =~= g.skip(hi as int));
        }
        if hi - pos >= min {
            let n = campaigns.len();
            let ghost before = campaign_views(campaigns@);
            assert(before.len() == (done + d_done).len());
            let c = make_campaign(jobs, &sorted, pos, hi, product, n, matrices);
            campaigns.push(c);
            let ghost dr = draft(ms, product@, chunk);
            assert(campaign_views(campaigns@) =~= before.push(c@));
            assert(numbered(done + d_done.push(dr)) =~= numbered(done + d_done).push(CampaignView { id: campaign_id(n as nat), ..dr }));
            assert(done + d_done.push(dr) =~= (done + d_done).push(dr));
            proof {
                d_done = d_done.push(dr);
            }
            if remaining <= size {
                assert(d_done + chunk_drafts(ms, product@, g.skip(hi as int), size as int, min as int) =~= d_done);
            } else {
                assert(d_done + chunk_drafts(ms, product@, g.skip(hi as int), size as int, min as int)
                    =~= d_done.drop_last() + (seq![dr] + chunk_drafts(ms, product@, g.skip(hi as int), size as int, min as int)));
            }
        } else {
            if remaining <= size {
                assert(d_done + chunk_drafts(ms, product@, g.skip(hi as int), size as int, min as int) =~= d_done);
            } else {
                assert(Seq::<CampaignView>::empty() + chunk_drafts(ms, product@, g.skip(hi as int), size as int, min as int)
                    =~= chunk_drafts(ms, product@, g.skip(hi as int), size as int, min as int));
            }
        }
        pos = hi;
    }
    assert(g.skip(pos as int).len() == 0);
    assert(d_done + chunk_drafts(ms, product@, g.skip(pos as int), size as int, min as int) =~= d_done);
}

/// Order of optional due dates: none first, then the earlier.
pub open spec fn due_le(a: Option<int>, b: Option<int>) -> bool {
    match (a, b) {
        (None, _) => true,
        (Some(_), None) => false,
        (Some(x), Some(y)) => x <= y,
    }
}

/// Order of campaigns: by priority, then by earliest due date.
pub open spec fn campaign_le(a: CampaignView, b: CampaignView) -> bool {
    a.priority < b.priority || (a.priority == b.priority && due_le(a.earliest_due_date, b.earliest_due_date))
}

/// A campaign inserted after every campaign ordered no later.
pub open spec fn insert_campaign(s: Seq<CampaignView>, c: CampaignView) -> Seq<CampaignView>
    decreases s.len(),
{
    if s.len() == 0 {
        seq![c]
    } else if campaign_le(s.last(), c) {
        s.push(c)
    } else {
        insert_campaign(s.drop_last(), c).push(s.last())
    }
}

/// The campaigns by priority, then earliest due date, ties keeping their order
/// (a stable sort).
pub open spec fn sort_campaigns(s: Seq<CampaignView>) -> Seq<CampaignView>
    decreases s.len(),
{
    if s.len() == 0 {
        Seq::empty()
    } else {
        insert_campaign(sort_campaigns(s.drop_last()), s.last())
    }
}

/// The campaigns planned for some jobs: those of each product in order of first
/// appearance, numbered as formed, then ordered by priority and earliest due date.
pub open spec fn planned_campaigns(ms: Seq<SetupMatrixView>, cfg: CampaignConfig, js: Seq<JobView>) -> Seq<CampaignView> {
    sort_campaigns(numbered(drafts_for(ms, cfg, js, products(js))))
}

/// Whether campaign `a` is ordered no later than `b`, computed.
fn campaign_le_exec(a: &Campaign, b: &Campaign) -> (r: bool)
    ensures
        r == campaign_le(a@, b@),
{
    if a.priority < b.priority {
        true
    } else if a.priority == b.priority {
        match (a.earliest_due_date, b.earliest_due_date) {
            (None, _) => true,
            (Some(_), None) => false,
            (Some(x), Some(y)) => x <= y,
        }
    } else {
        false
    }
}

/// Sorts campaigns by priority, then earliest due date, stably.
fn sort_campaign_list(campaigns: Vec<Campaign>) -> (r: Vec<Campaign>)
    ensures
        campaign_views(r@) == sort_campaigns(campaign_views(campaigns@)),
{
    let ghost all = campaign_views(campaigns@);
    let mut src = campaigns;
    let mut r: Vec<Campaign> = Vec::new();
    let ghost mut consumed: int = 0;
    assert(all.skip(0) =~= all);
    while src.len() > 0
        invariant
            0 <= consumed <= all.len(),
            src.len() + consumed == all.len(),
            campaign_views(src@) == all.skip(consumed),
            campaign_views(r@) == sort_campaigns(all.take(consumed)),
        decreases src.len(),
    {
        let ghost sv = campaign_views(src@);
        let ghost old_src = src@;
        assert(sv[0] == all[consumed]);
        assert(old_src[0]@ == sv[0]);
        let c = src.remove(0);
        assert(c@ == all[consumed]);
        assert(src@ =~= old_src.subrange(1, old_src.len() as int));
        assert(campaign_views(src@) =~= sv.subrange(1, sv.len() as int));
        assert(sv.subrange(1, sv.len() as int) =~= all.skip(consumed + 1));
        assert(campaign_views(src@) =~= all.skip(consumed + 1));
        assert(all.take(consumed + 1).drop_last() =~= all.take(consumed));
        let ghost sorted = campaign_views(r@);
        let mut q: usize = r.len();
        assert(sorted.take(q as int) =~= sorted);
        assert(sorted.skip(q as int) =~= Seq::<CampaignView>::empty());
        while q > 0 && !campaign_le_exec(&r[q - 1], &c)
            invariant
                q <= r.len(),
                sorted == campaign_views(r@),
                insert_campaign(sorted, c@) == insert_campaign(sorted.take(q as int), c@) + sorted.skip(q as int),
            decreases q,
        {
            assert(r[q - 1]@ == sorted[q - 1]);
            assert(sorted.take(q as int).drop_last() =~= sorted.take(q - 1));
            assert(sorted.take(q as int).last() == sorted[q - 1]);
            assert(sorted.skip(q - 1) =~= seq![sorted[q - 1]] + sorted.skip(q as int));
            assert(insert_campaign(sorted.take(q - 1), c@).push(sorted[q - 1]) + sorted.skip(q as int)
                =~= insert_campaign(sorted.take(q - 1), c@) + sorted.skip(q - 1));
            q -= 1;
        }
        proof {
            if q > 0 {
                assert(r[q - 1]@ == sorted[q - 1]);
                assert(sorted.take(q as int).last() == sorted[q - 1]);
            }
        }
        let ghost cv = c@;
        r.insert(q, c);
        assert(campaign_views(r@) =~= insert_campaign(sorted, cv));
        proof {
            consumed = consumed + 1;
        }
    }
    assert(all.take(consumed) =~= all);
    r
}

/// The job ids of the campaigns, campaign after campaign.
pub open spec fn campaign_job_ids(cs: Seq<CampaignView>) -> Seq<Seq<char>>
    decreases cs.len(),
{
    if cs.len() == 0 {
        Seq::empty()
    } else {
        campaign_job_ids(cs.drop_last()) + cs.last().job_ids
    }
}

/// The ids without repeats, each at its first place.
pub open spec fn first_occurrences(s: Seq<Seq<char>>) -> Seq<Seq<char>>
    decreases s.len(),
{
    if s.len() == 0 {
        Seq::empty()
    } else {
        let before = first_occurrences(s.drop_last());
        if before.contains(s.last()) { before } else { before.push(s.last()) }
    }
}

/// The ids of the jobs that are not among `taken`, in order.
pub open spec fn ids_not_in(js: Seq<JobView>, taken: Seq<Seq<char>>) -> Seq<Seq<char>>
    decreases js.len(),
{
    if js.len() == 0 {
        Seq::empty()
    } else {
        let before = ids_not_in(js.drop_last(), taken);
        if taken.contains(js.last().id) { before } else { before.push(js.last().id) }
    }
}

/// The order jobs are scheduled in: the jobs of the campaigns, in campaign
/// order and each once, then the other jobs in their order.
pub open spec fn job_sequence(cs: Seq<CampaignView>, js: Seq<JobView>) -> Seq<Seq<char>> {
    let first = first_occurrences(campaign_job_ids(cs));
    first + ids_not_in(js, first)
}

/// The number of jobs in the campaigns.
pub open spec fn total_job_count(cs: Seq<CampaignView>) -> int
    decreases cs.len(),
{
    if cs.len() == 0 { 0 } else { total_job_count(cs.drop_last()) + cs.last().job_ids.len() }
}

/// The setup time the campaigns are expected to save (ms).
pub open spec fn total_saving(cs: Seq<CampaignView>) -> int
    decreases cs.len(),
{
    if cs.len() == 0 { 0 } else { total_saving(cs.drop_last()) + cs.last().estimated_setup_saving_ms }
}

/// Summary of a set of campaigns.
#[derive(Debug, Clone, Copy, PartialEq, Eq, Structural)]
pub struct CampaignStats {
    pub total_campaigns: usize,
    pub total_jobs_in_campaigns: usize,
    /// Average number of jobs per campaign, in thousandths (rounded down; 0 without campaigns).
    pub avg_campaign_size_milli: u64,
    /// Total expected setup saving (ms).
    pub total_estimated_setup_saving_ms: i64,
}

/// The job count of a prefix of the campaigns is at most the total.
proof fn lemma_total_jobs_prefix(cs: Seq<CampaignView>, i: int)
    requires
        0 <= i <= cs.len(),
    ensures
        0 <= total_job_count(cs.take(i)) <= total_job_count(cs),
    decreases cs.len() - i,
{
    if i < cs.len() {
        lemma_total_jobs_prefix(cs, i + 1);
        assert(cs.take(i + 1).drop_last() =~= cs.take(i));
        lemma_total_jobs_nonneg(cs.take(i));
    } else {
        assert(cs.take(i) =~= cs);
        lemma_total_jobs_nonneg(cs);
    }
}

/// Job counts are never negative.
proof fn lemma_total_jobs_nonneg(cs: Seq<CampaignView>)
    ensures
        total_job_count(cs) >= 0,
    decreases cs.len(),
{
    if cs.len() > 0 {
        lemma_total_jobs_nonneg(cs.drop_last());
    }
}

/// Plans campaigns: groups jobs by product, keeps products with enough jobs,
/// cuts their jobs (by due date) into runs, and orders the runs.
#[derive(Debug, Clone)]
pub struct CampaignPlanner {
    config: CampaignConfig,
    setup_matrices: SetupMatrixCollection,
}

impl CampaignPlanner {
    /// The planner's settings.
    pub closed spec fn config(self) -> CampaignConfig {
        self.config
    }

    /// The setup matrices the planner estimates savings with.
    pub closed spec fn matrices(self) -> Seq<SetupMatrixView> {
        matrix_views(self.setup_matrices.matrices@)
    }

    /// A planner with the given settings and no setup matrix.
    pub fn new(config: CampaignConfig) -> (p: CampaignPlanner)
        ensures
            p.config() == config,
            p.matrices().len() == 0,
    {
        CampaignPlanner { config, setup_matrices: SetupMatrixCollection::new() }
    }

    /// The same planner with the given setup matrices.
    pub fn with_setup_matrices(self, matrices: SetupMatrixCollection) -> (p: CampaignPlanner)
        ensures
            p.config() == self.config(),
            p.matrices() == matrix_views(matrices.matrices@),
    {
        CampaignPlanner { config: self.config, setup_matrices: matrices }
    }

    /// The campaigns of the jobs: for each product (in order of first appearance)
    /// with at least the minimum number of jobs, its jobs by due date cut into
    /// runs of the maximum size, the runs of at least the minimum size becoming
    /// campaigns numbered as formed; then ordered by priority and earliest due date.
    pub fn create_campaigns(&self, jobs: &[Job]) -> (r: Vec<Campaign>)
        requires
            self.config().max_campaign_size > 0,
            jobs.len() <= MAX_PLANNED_JOBS,
            setup_times_bounded(self.matrices()),
        ensures
            campaign_views(r@) == planned_campaigns(self.matrices(), self.config(), job_views(jobs@)),
    {
        let ghost ms = self.matrices();
        let ghost js = job_views(jobs@);
        let prods = collect_products(jobs);
        let ghost pv = prods@.map_values(|x: String| x@);
        let mut campaigns: Vec<Campaign> = Vec::new();
        let mut k: usize = 0;
        assert(campaign_views(campaigns@) =~= numbered(drafts_for(ms, self.config, js, pv.take(0))));
        while k < prods.len()
            invariant
                k <= prods.len(),
                ms == self.matrices(),
                js == job_views(jobs@),
                pv == prods@.map_values(|x: String| x@),
                pv == products(js),
                self.config.max_campaign_size > 0,
                jobs.len() <= MAX_PLANNED_JOBS,
                setup_times_bounded(ms),
                campaign_views(campaigns@) == numbered(drafts_for(ms, self.config, js, pv.take(k as int))),
            decreases prods.len() - k,
        {
            assert(pv.take(k + 1).drop_last() =~= pv.take(k as int));
            assert(pv.take(k + 1).last() == prods[k as int]@);
            plan_product(&self.config, &self.setup_matrices, jobs, prods[k].as_str(), &mut campaigns,
                Ghost(drafts_for(ms, self.config, js, pv.take(k as int))));
            k += 1;
        }
        assert(pv.take(k as int) =~= pv);
        sort_campaign_list(campaigns)
    }

    /// Setup time a campaign of `job_count` jobs of a product saves.
    pub fn estimate_setup_saving(&self, product_name: &str, job_count: usize) -> (s: i64)
        requires
            setup_times_bounded(self.matrices()),
            job_count <= MAX_PLANNED_JOBS,
        ensures
            s as int == campaign_saving(self.matrices(), product_name@, job_count as int),
    {
        saving_for(&self.setup_matrices, product_name, job_count)
    }
    /// The order to schedule jobs in: the jobs of the campaigns, in campaign
    /// order and each once, then the remaining jobs that no campaign holds.
    pub fn get_job_sequence(&self, campaigns: &[Campaign], remaining_jobs: &[Job]) -> (r: Vec<String>)
        ensures
            r@.map_values(|x: String| x@) == job_sequence(campaign_views(campaigns@), job_views(remaining_jobs@)),
    {
        let ghost cs = campaign_views(campaigns@);
        let ghost js = job_views(remaining_jobs@);
        let mut sequence: Vec<String> = Vec::new();
        let ghost mut flat: Seq<Seq<char>> = Seq::empty();
        let mut c: usize = 0;
        while c < campaigns.len()
            invariant
                c <= campaigns.len(),
                cs == campaign_views(campaigns@),
                flat == campaign_job_ids(cs.take(c as int)),
                sequence@.map_values(|x: String| x@) == first_occurrences(flat),
            decreases campaigns.len() - c,
        {
            let ids = &campaigns[c].job_ids;
            let ghost idv = ids@.map_values(|x: String| x@);
            assert(idv == cs[c as int].job_ids);
            let ghost base = flat;
            let mut j: usize = 0;
            assert(idv.take(0) =~= Seq::<Seq<char>>::empty());
            assert(base + idv.take(0) =~= base);
            while j < ids.len()
                invariant
                    j <= ids.len(),
                    idv == ids@.map_values(|x: String| x@),
                    flat == base + idv.take(j as int),
                    sequence@.map_values(|x: String| x@) == first_occurrences(flat),
                decreases ids.len() - j,
            {
                let id = ids[j].as_str();
                assert(id@ == idv[j as int]);
                let ghost prev = flat;
                let ghost sv = sequence@.map_values(|x: String| x@);
                proof {
                    flat = flat.push(id@);
                }
                assert(flat.drop_last() =~= prev);
                if !holds(&sequence, id) {
                    sequence.push(String::from_str(id));
                    assert(sequence@.map_values(|x: String| x@) =~= sv.push(id@));
                }
                j += 1;
                assert(base + idv.take(j as int) =~= flat);
            }
            assert(idv.take(j as int) =~= idv);
            assert(cs.take(c + 1).drop_last() =~= cs.take(c as int));
            c += 1;
        }
        assert(cs.take(c as int) =~= cs);
        let scheduled = crate::strings::copy_strings(&sequence);
        let ghost first = first_occurrences(flat);
        let mut i: usize = 0;
        assert(first + ids_not_in(js.take(0), first) =~= first);
        while i < remaining_jobs.len()
            invariant
                i <= remaining_jobs.len(),
                js == job_views(remaining_jobs@),
                scheduled@.map_values(|x: String| x@) == first,
                sequence@.map_values(|x: String| x@) == first + ids_not_in(js.take(i as int), first),
            decreases remaining_jobs.len() - i,
        {
            assert(js.take(i + 1).drop_last() =~= js.take(i as int));
            assert(remaining_jobs[i as int]@ == js[i as int]);
            let id = remaining_jobs[i].id.as_str();
            let ghost sv = sequence@.map_values(|x: String| x@);
            if !holds(&scheduled, id) {
                sequence.push(String::from_str(id));
                assert(sequence@.map_values(|x: String| x@) =~= sv.push(id@));
            }
            i += 1;
        }
        assert(js.take(i as int) =~= js);
        sequence
    }

    /// Counts of the campaigns: how many, their jobs, the average size and the
    /// total expected saving.
    pub fn calculate_stats(&self, campaigns: &[Campaign]) -> (st: CampaignStats)
        requires
            total_job_count(campaign_views(campaigns@)) * 1000 <= u64::MAX,
            total_job_count(campaign_views(campaigns@)) <= usize::MAX,
            forall|i: int| 0 <= i <= campaigns.len() ==>
                i64::MIN <= #[trigger] total_saving(campaign_views(campaigns@).take(i)) <= i64::MAX,
        ensures
            st.total_campaigns == campaigns.len(),
            st.total_jobs_in_campaigns == total_job_count(campaign_views(campaigns@)),
            st.avg_campaign_size_milli == if campaigns.len() > 0 {
                total_job_count(campaign_views(campaigns@)) * 1000 / (campaigns.len() as int)
            } else {
                0
            },
            st.total_estimated_setup_saving_ms == total_saving(campaign_views(campaigns@)),
    {
        let ghost cs = campaign_views(campaigns@);
        let mut jobs_total: usize = 0;
        let mut saving_total: i64 = 0;
        let mut i: usize = 0;
        while i < campaigns.len()
            invariant
                i <= campaigns.len(),
                cs == campaign_views(campaigns@),
                jobs_total == total_job_count(cs.take(i as int)),
                saving_total == total_saving(cs.take(i as int)),
                total_job_count(cs) <= usize::MAX,
                forall|k: int| 0 <= k <= campaigns.len() ==>
                    i64::MIN <= #[trigger] total_saving(cs.take(k)) <= i64::MAX,
            decreases campaigns.len() - i,
        {
            assert(cs.take(i + 1).drop_last() =~= cs.take(i as int));
            assert(campaigns[i as int]@ == cs[i as int]);
            proof {
                lemma_total_jobs_prefix(cs, i + 1);
            }
            assert(i64::MIN <= total_saving(cs.take(i + 1)) <= i64::MAX);
            jobs_total = jobs_total + campaigns[i].job_ids.len();
            saving_total = saving_total + campaigns[i].estimated_setup_saving_ms;
            i += 1;
        }
        assert(cs.take(i as int) =~= cs);
        let avg: u64 = if campaigns.len() > 0 {
            (jobs_total as u64) * 1000 / (campaigns.len() as u64)
        } else {
            0
        };
        CampaignStats {
            total_campaigns: campaigns.len(),
            total_jobs_in_campaigns: jobs_total,
            avg_campaign_size_milli: avg,
            total_estimated_setup_saving_ms: saving_total,
        }
    }
}

/// Whether the campaigns are in order: each ordered no later than every one after it.
pub open spec fn campaigns_in_order(s: Seq<CampaignView>) -> bool {
    forall|i: int, j: int| 0 <= i < j < s.len() ==> campaign_le(#[trigger] s[i], #[trigger] s[j])
}

/// Inserting a campaign adds it and keeps the others.
proof fn lemma_insert_campaign_contents(s: Seq<CampaignView>, c: CampaignView)
    ensures
        insert_campaign(s, c).len() == s.len() + 1,
        forall|x: CampaignView| #[trigger] insert_campaign(s, c).contains(x) <==> (s.contains(x) || x == c),
    decreases s.len(),
{
    if s.len() == 0 {
        assert(insert_campaign(s, c) =~= seq![c]);
        assert forall|x: CampaignView| #[trigger] insert_campaign(s, c).contains(x) <==> (s.contains(x) || x == c) by {
            if insert_campaign(s, c).contains(x) {
                let k = choose|k: int| 0 <= k < insert_campaign(s, c).len() && insert_campaign(s, c)[k] == x;
                assert(k == 0);
            }
            if x == c {
                assert(insert_campaign(s, c)[0] == x);
            }
        }
    } else if campaign_le(s.last(), c) {
        let r = s.push(c);
        assert forall|x: CampaignView| #[trigger] r.contains(x) <==> (s.contains(x) || x == c) by {
            if r.contains(x) {
                let k = choose|k: int| 0 <= k < r.len() && r[k] == x;
                if k < s.len() {
                    assert(s[k] == x);
                }
            }
            if s.contains(x) {
                let k = choose|k: int| 0 <= k < s.len() && s[k] == x;
                assert(r[k] == x);
            }
            if x == c {
                assert(r[s.len() as int] == x);
            }
        }
    } else {
        let d = s.drop_last();
        lemma_insert_campaign_contents(d, c);
        let m = insert_campaign(d, c);
        let r = m.push(s.last());
        assert(insert_campaign(s, c) == r);
        assert forall|x: CampaignView| #[trigger] r.contains(x) <==> (s.contains(x) || x == c) by {
            if r.contains(x) {
                let k = choose|k: int| 0 <= k < r.len() && r[k] == x;
                if k < m.len() {
                    assert(m[k] == x);
                    assert(m.contains(x));
                    if d.contains(x) {
                        let q = choose|q: int| 0 <= q < d.len() && d[q] == x;
                        assert(s[q] == x);
                    }
                } else {
                    assert(s[s.len() - 1] == x);
                }
            }
            if s.contains(x) {
                let k = choose|k: int| 0 <= k < s.len() && s[k] == x;
                if k < d.len() {
                    assert(d[k] == x);
                    assert(m.contains(x));
                    let q = choose|q: int| 0 <= q < m.len() && m[q] == x;
                    assert(r[q] == x);
                } else {
                    assert(r[r.len() - 1] == x);
                }
            }
            if x == c {
                assert(m.contains(x));
                let q = choose|q: int| 0 <= q < m.len() && m[q] == x;
                assert(r[q] == x);
            }
        }
    }
}

/// Sorting keeps exactly the campaigns it is given.
proof fn lemma_sort_campaigns_contents(s: Seq<CampaignView>)
    ensures
        sort_campaigns(s).len() == s.len(),
        forall|x: CampaignView| #[trigger] sort_campaigns(s).contains(x) <==> s.contains(x),
    decreases s.len(),
{
    if s.len() > 0 {
        let d = s.drop_last();
        lemma_sort_campaigns_contents(d);
        lemma_insert_campaign_contents(sort_campaigns(d), s.last());
        assert forall|x: CampaignView| #[trigger] sort_campaigns(s).contains(x) <==> s.contains(x) by {
            if s.contains(x) {
                let k = choose|k: int| 0 <= k < s.len() && s[k] == x;
                if k < d.len() {
                    assert(d[k] == x);
                    assert(d.contains(x));
                }
            }
            if d.contains(x) {
                let k = choose|k: int| 0 <= k < d.len() && d[k] == x;
                assert(s[k] == x);
            }
        }
    }
}

/// Inserting into campaigns in order keeps them in order.
proof fn lemma_insert_campaign_in_order(s: Seq<CampaignView>, c: CampaignView)
    requires
        campaigns_in_order(s),
    ensures
        campaigns_in_order(insert_campaign(s, c)),
    decreases s.len(),
{
    lemma_insert_campaign_contents(s, c);
    if s.len() == 0 {
    } else if campaign_le(s.last(), c) {
        let r = s.push(c);
        assert forall|i: int, j: int| 0 <= i < j < r.len() implies campaign_le(#[trigger] r[i], #[trigger] r[j]) by {
            if j == s.len() {
                if i < s.len() - 1 {
                    assert(campaign_le(s[i], s[s.len() - 1]));
                }
            } else {
                assert(campaign_le(s[i], s[j]));
            }
        }
    } else {
        let d = s.drop_last();
        assert(campaigns_in_order(d)) by {
            assert forall|i: int, j: int| 0 <= i < j < d.len() implies campaign_le(#[trigger] d[i], #[trigger] d[j]) by {
                assert(campaign_le(s[i], s[j]));
            }
        }
        lemma_insert_campaign_in_order(d, c);
        lemma_insert_campaign_contents(d, c);
        let m = insert_campaign(d, c);
        let r = m.push(s.last());
        assert forall|i: int, j: int| 0 <= i < j < r.len() implies campaign_le(#[trigger] r[i], #[trigger] r[j]) by {
            if j == m.len() {
                let x = m[i];
                assert(m.contains(x));
                if x == c {
                } else {
                    assert(d.contains(x));
                    let q = choose|q: int| 0 <= q < d.len() && d[q] == x;
                    assert(campaign_le(s[q], s[s.len() - 1]));
                }
            } else {
                assert(campaign_le(m[i], m[j]));
            }
        }
    }
}

/// Sorted campaigns are in order.
proof fn lemma_sort_campaigns_in_order(s: Seq<CampaignView>)
    ensures
        campaigns_in_order(sort_campaigns(s)),
    decreases s.len(),
{
    if s.len() > 0 {
        lemma_sort_campaigns_in_order(s.drop_last());
        lemma_insert_campaign_in_order(sort_campaigns(s.drop_last()), s.last());
    }
}

/// Planned campaigns come by priority, then by earliest due date.
pub proof fn law_campaigns_in_order(ms: Seq<SetupMatrixView>, cfg: CampaignConfig, js: Seq<JobView>)
    ensures
        campaigns_in_order(planned_campaigns(ms, cfg, js)),
{
    lemma_sort_campaigns_in_order(numbered(drafts_for(ms, cfg, js, products(js))));
}

/// Whether a campaign's size lies between the configured bounds.
pub open spec fn size_in_range(cfg: CampaignConfig, c: CampaignView) -> bool {
    cfg.min_campaign_size <= c.job_ids.len() <= cfg.max_campaign_size
}

/// The campaigns cut from a run of jobs all have sizes within the bounds.
proof fn lemma_chunk_sizes(ms: Seq<SetupMatrixView>, p: Seq<char>, s: Seq<JobView>, cfg: CampaignConfig)
    ensures
        forall|k: int| 0 <= k < chunk_drafts(ms, p, s, cfg.max_campaign_size as int, cfg.min_campaign_size as int).len()
            ==> size_in_range(cfg, #[trigger] chunk_drafts(ms, p, s, cfg.max_campaign_size as int, cfg.min_campaign_size as int)[k]),
    decreases s.len(),
{
    let size = cfg.max_campaign_size as int;
    let min = cfg.min_campaign_size as int;
    if s.len() == 0 || size <= 0 {
    } else if s.len() <= size {
    } else {
        lemma_chunk_sizes(ms, p, s.skip(size), cfg);
        let head = if size >= min { seq![draft(ms, p, s.take(size))] } else { Seq::<CampaignView>::empty() };
        let tail = chunk_drafts(ms, p, s.skip(size), size, min);
        assert(chunk_drafts(ms, p, s, size, min) == head + tail);
        assert forall|k: int| 0 <= k < (head + tail).len() implies size_in_range(cfg, #[trigger] (head + tail)[k]) by {
            if k < head.len() {
                assert(s.take(size).len() == size);
            } else {
                assert((head + tail)[k] == tail[k - head.len()]);
            }
        }
    }
}

/// The campaigns of the given products all have sizes within the bounds.
proof fn lemma_drafts_sizes(ms: Seq<SetupMatrixView>, cfg: CampaignConfig, js: Seq<JobView>, prods: Seq<Seq<char>>)
    ensures
        forall|k: int| 0 <= k < drafts_for(ms, cfg, js, prods).len()
            ==> size_in_range(cfg, #[trigger] drafts_for(ms, cfg, js, prods)[k]),
    decreases prods.len(),
{
    if prods.len() > 0 {
        lemma_drafts_sizes(ms, cfg, js, prods.drop_last());
        let a = drafts_for(ms, cfg, js, prods.drop_last());
        let b = product_drafts(ms, cfg, js, prods.last());
        let g = sort_by_due(jobs_of(js, prods.last()));
        lemma_chunk_sizes(ms, prods.last(), g, cfg);
        assert forall|k: int| 0 <= k < (a + b).len() implies size_in_range(cfg, #[trigger] (a + b)[k]) by {
            if k < a.len() {
                assert((a + b)[k] == a[k]);
            } else {
                assert((a + b)[k] == b[k - a.len()]);
            }
        }
    }
}

/// Every planned campaign holds at least the minimum and at most the maximum
/// number of jobs.
pub proof fn law_campaign_sizes(ms: Seq<SetupMatrixView>, cfg: CampaignConfig, js: Seq<JobView>, k: int)
    requires
        0 <= k < planned_campaigns(ms, cfg, js).len(),
    ensures
        cfg.min_campaign_size <= planned_campaigns(ms, cfg, js)[k].job_ids.len() <= cfg.max_campaign_size,
{
    let d = drafts_for(ms, cfg, js, products(js));
    let n = numbered(d);
    lemma_drafts_sizes(ms, cfg, js, products(js));
    lemma_sort_campaigns_contents(n);
    let x = planned_campaigns(ms, cfg, js)[k];
    assert(sort_campaigns(n).contains(x));
    assert(n.contains(x));
    let q = choose|q: int| 0 <= q < n.len() && n[q] == x;
    assert(size_in_range(cfg, d[q]));
}

/// The ids kept at their first place include every id of the sequence.
proof fn lemma_first_occurrences_cover(s: Seq<Seq<char>>)
    ensures
        forall|x: Seq<char>| s.contains(x) ==> #[trigger] first_occurrences(s).contains(x),
    decreases s.len(),
{
    if s.len() > 0 {
        let d = s.drop_last();
        lemma_first_occurrences_cover(d);
        assert forall|x: Seq<char>| s.contains(x) implies #[trigger] first_occurrences(s).contains(x) by {
            let k = choose|k: int| 0 <= k < s.len() && s[k] == x;
            let before = first_occurrences(d);
            if k < d.len() {
                assert(d[k] == x);
                assert(before.contains(x));
                if !before.contains(s.last()) {
                    let q = choose|q: int| 0 <= q < before.len() && before[q] == x;
                    assert(before.push(s.last())[q] == x);
                }
            } else {
                if !before.contains(s.last()) {
                    assert(before.push(s.last())[before.len() as int] == x);
                }
            }
        }
    }
}

/// The jobs left out of `taken` all appear among the remaining ids.
proof fn lemma_ids_not_in_cover(js: Seq<JobView>, taken: Seq<Seq<char>>)
    ensures
        forall|k: int| 0 <= k < js.len() && !taken.contains(#[trigger] js[k].id) ==> ids_not_in(js, taken).contains(js[k].id),
    decreases js.len(),
{
    if js.len() > 0 {
        let d = js.drop_last();
        lemma_ids_not_in_cover(d, taken);
        assert forall|k: int| 0 <= k < js.len() && !taken.contains(#[trigger] js[k].id) implies ids_not_in(js, taken).contains(js[k].id) by {
            let before = ids_not_in(d, taken);
            let r = before.push(js.last().id);
            if k < d.len() {
                assert(d[k] == js[k]);
                assert(before.contains(js[k].id));
                let q = choose|q: int| 0 <= q < before.len() && before[q] == js[k].id;
                assert(r[q] == js[k].id);
            } else {
                assert(r[before.len() as int] == js[k].id);
            }
        }
    }
}

/// The job sequence lists every job of the campaigns and every remaining job.
pub proof fn law_sequence_covers_jobs(cs: Seq<CampaignView>, js: Seq<JobView>)
    ensures
        forall|x: Seq<char>| campaign_job_ids(cs).contains(x) ==> #[trigger] job_sequence(cs, js).contains(x),
        forall|k: int| 0 <= k < js.len() ==> job_sequence(cs, js).contains(#[trigger] js[k].id),
{
    let first = first_occurrences(campaign_job_ids(cs));
    let rest = ids_not_in(js, first);
    lemma_first_occurrences_cover(campaign_job_ids(cs));
    lemma_ids_not_in_cover(js, first);
    assert forall|x: Seq<char>| first.contains(x) implies #[trigger] (first + rest).contains(x) by {
        let q = choose|q: int| 0 <= q < first.len() && first[q] == x;
        assert((first + rest)[q] == x);
    }
    assert forall|x: Seq<char>| rest.contains(x) implies #[trigger] (first + rest).contains(x) by {
        let q = choose|q: int| 0 <= q < rest.len() && rest[q] == x;
        assert((first + rest)[first.len() + q] == x);
    }
    assert forall|k: int| 0 <= k < js.len() implies job_sequence(cs, js).contains(#[trigger] js[k].id) by {
        if first.contains(js[k].id) {
            assert((first + rest).contains(js[k].id));
        } else {
            assert(rest.contains(js[k].id));
            assert((first + rest).contains(js[k].id));
        }
    }
}

/// Whether every job id of a campaign is that of one of the jobs, of the
/// campaign's product.
pub open spec fn jobs_of_product(js: Seq<JobView>, c: CampaignView) -> bool {
    forall|i: int| 0 <= i < c.job_ids.len() ==> job_of_product(js, #[trigger] c.job_ids[i], c.product_name)
}

/// Whether one of the jobs has the given id and product.
pub open spec fn job_of_product(js: Seq<JobView>, id: Seq<char>, p: Seq<char>) -> bool {
    exists|k: int| 0 <= k < js.len() && #[trigger] js[k].id == id && product_key(js[k]) == p
}

/// Inserting a job by due date adds it and keeps the others.
proof fn lemma_insert_by_due_contents(s: Seq<JobView>, j: JobView)
    ensures
        forall|x: JobView| #[trigger] insert_by_due(s, j).contains(x) ==> (s.contains(x) || x == j),
    decreases s.len(),
{
    if s.len() == 0 {
        assert forall|x: JobView| #[trigger] insert_by_due(s, j).contains(x) implies (s.contains(x) || x == j) by {
            let k = choose|k: int| 0 <= k < insert_by_due(s, j).len() && insert_by_due(s, j)[k] == x;
            assert(k == 0);
        }
    } else if due_key(s.last()) <= due_key(j) {
        let r = s.push(j);
        assert forall|x: JobView| #[trigger] r.contains(x) implies (s.contains(x) || x == j) by {
            let k = choose|k: int| 0 <= k < r.len() && r[k] == x;
            if k < s.len() {
                assert(s[k] == x);
            }
        }
    } else {
        let d = s.drop_last();
        lemma_insert_by_due_contents(d, j);
        let m = insert_by_due(d, j);
        let r = m.push(s.last());
        assert forall|x: JobView| #[trigger] r.contains(x) implies (s.contains(x) || x == j) by {
            let k = choose|k: int| 0 <= k < r.len() && r[k] == x;
            if k < m.len() {
                assert(m[k] == x);
                assert(m.contains(x));
                if d.contains(x) {
                    let q = choose|q: int| 0 <= q < d.len() && d[q] == x;
                    assert(s[q] == x);
                }
            } else {
                assert(s[s.len() - 1] == x);
            }
        }
    }
}

/// Sorting by due date keeps only the jobs it is given.
proof fn lemma_sort_by_due_contents(s: Seq<JobView>)
    ensures
        forall|x: JobView| #[trigger] sort_by_due(s).contains(x) ==> s.contains(x),
    decreases s.len(),
{
    if s.len() > 0 {
        let d = s.drop_last();
        lemma_sort_by_due_contents(d);
        lemma_insert_by_due_contents(sort_by_due(d), s.last());
        assert forall|x: JobView| #[trigger] sort_by_due(s).contains(x) implies s.contains(x) by {
            if sort_by_due(d).contains(x) {
                assert(d.contains(x));
                let k = choose|k: int| 0 <= k < d.len() && d[k] == x;
                assert(s[k] == x);
            } else {
                assert(s[s.len() - 1] == x);
            }
        }
    }
}

/// The jobs of a product are jobs of the list, of that product.
proof fn lemma_jobs_of_members(js: Seq<JobView>, p: Seq<char>)
    ensures
        forall|x: JobView| #[trigger] jobs_of(js, p).contains(x) ==> js.contains(x) && product_key(x) == p,
    decreases js.len(),
{
    if js.len() > 0 {
        let d = js.drop_last();
        lemma_jobs_of_members(d, p);
        assert forall|x: JobView| #[trigger] jobs_of(js, p).contains(x) implies js.contains(x) && product_key(x) == p by {
            let before = jobs_of(d, p);
            if product_key(js.last()) == p {
                let r = before.push(js.last());
                let k = choose|k: int| 0 <= k < r.len() && r[k] == x;
                if k < before.len() {
                    assert(before[k] == x);
                    assert(before.contains(x));
                    let q = choose|q: int| 0 <= q < d.len() && d[q] == x;
                    assert(js[q] == x);
                } else {
                    assert(js[js.len() - 1] == x);
                }
            } else {
                assert(before.contains(x));
                let q = choose|q: int| 0 <= q < d.len() && d[q] == x;
                assert(js[q] == x);
            }
        }
    }
}

/// The campaign of a run of jobs of one product names only jobs of the run.
proof fn lemma_draft_members(ms: Seq<SetupMatrixView>, p: Seq<char>, s: Seq<JobView>, c: Seq<JobView>)
    requires
        forall|x: JobView| #[trigger] c.contains(x) ==> s.contains(x) && product_key(x) == p,
    ensures
        jobs_of_product(s, draft(ms, p, c)),
{
    let dr = draft(ms, p, c);
    assert forall|i: int| 0 <= i < dr.job_ids.len() implies job_of_product(s, #[trigger] dr.job_ids[i], dr.product_name) by {
        assert(dr.job_ids[i] == c[i].id);
        assert(c.contains(c[i]));
        let k = choose|k: int| 0 <= k < s.len() && s[k] == c[i];
        assert(s[k].id == dr.job_ids[i]);
    }
}

/// The campaigns cut from a run of jobs of one product name only jobs of the run.
proof fn lemma_chunk_members(ms: Seq<SetupMatrixView>, p: Seq<char>, s: Seq<JobView>, size: int, min: int, all: Seq<JobView>)
    requires
        forall|x: JobView| #[trigger] s.contains(x) ==> all.contains(x) && product_key(x) == p,
    ensures
        forall|k: int| 0 <= k < chunk_drafts(ms, p, s, size, min).len()
            ==> jobs_of_product(all, #[trigger] chunk_drafts(ms, p, s, size, min)[k]),
    decreases s.len(),
{
    if s.len() == 0 || size <= 0 {
    } else if s.len() <= size {
        lemma_draft_members(ms, p, all, s);
    } else {
        let t = s.take(size);
        assert forall|x: JobView| #[trigger] t.contains(x) implies all.contains(x) && product_key(x) == p by {
            let k = choose|k: int| 0 <= k < t.len() && t[k] == x;
            assert(s[k] == x);
            assert(s.contains(x));
        }
        lemma_draft_members(ms, p, all, t);
        let rest = s.skip(size);
        assert forall|x: JobView| #[trigger] rest.contains(x) implies all.contains(x) && product_key(x) == p by {
            let k = choose|k: int| 0 <= k < rest.len() && rest[k] == x;
            assert(s[k + size] == x);
            assert(s.contains(x));
        }
        lemma_chunk_members(ms, p, rest, size, min, all);
        let head = if size >= min { seq![draft(ms, p, t)] } else { Seq::<CampaignView>::empty() };
        let tail = chunk_drafts(ms, p, rest, size, min);
        assert(chunk_drafts(ms, p, s, size, min) == head + tail);
        assert forall|k: int| 0 <= k < (head + tail).len() implies jobs_of_product(all, #[trigger] (head + tail)[k]) by {
            if k < head.len() {
                assert((head + tail)[k] == draft(ms, p, t));
            } else {
                assert((head + tail)[k] == tail[k - head.len()]);
            }
        }
    }
}

/// The campaigns of the given products name only jobs of their product.
proof fn lemma_drafts_members(ms: Seq<SetupMatrixView>, cfg: CampaignConfig, js: Seq<JobView>, prods: Seq<Seq<char>>)
    ensures
        forall|k: int| 0 <= k < drafts_for(ms, cfg, js, prods).len()
            ==> jobs_of_product(js, #[trigger] drafts_for(ms, cfg, js, prods)[k]),
    decreases prods.len(),
{
    if prods.len() > 0 {
        lemma_drafts_members(ms, cfg, js, prods.drop_last());
        let p = prods.last();
        let a = drafts_for(ms, cfg, js, prods.drop_last());
        let b = product_drafts(ms, cfg, js, p);
        let g = sort_by_due(jobs_of(js, p));
        lemma_sort_by_due_contents(jobs_of(js, p));
        lemma_jobs_of_members(js, p);
        assert forall|x: JobView| #[trigger] g.contains(x) implies js.contains(x) && product_key(x) == p by {
            assert(jobs_of(js, p).contains(x));
        }
        lemma_chunk_members(ms, p, g, cfg.max_campaign_size as int, cfg.min_campaign_size as int, js);
        assert forall|k: int| 0 <= k < (a + b).len() implies jobs_of_product(js, #[trigger] (a + b)[k]) by {
            if k < a.len() {
                assert((a + b)[k] == a[k]);
            } else {
                assert((a + b)[k] == b[k - a.len()]);
            }
        }
    }
}

/// Every job a planned campaign names is one of the planned jobs, of the
/// campaign's product.
pub proof fn law_campaign_jobs_share_product(ms: Seq<SetupMatrixView>, cfg: CampaignConfig, js: Seq<JobView>, k: int)
    requires
        0 <= k < planned_campaigns(ms, cfg, js).len(),
    ensures
        jobs_of_product(js, planned_campaigns(ms, cfg, js)[k]),
{
    let d = drafts_for(ms, cfg, js, products(js));
    let n = numbered(d);
    lemma_drafts_members(ms, cfg, js, products(js));
    lemma_sort_campaigns_contents(n);
    let x = planned_campaigns(ms, cfg, js)[k];
    assert(sort_campaigns(n).contains(x));
    assert(n.contains(x));
    let q = choose|q: int| 0 <= q < n.len() && n[q] == x;
    assert(jobs_of_product(js, d[q]));
    assert(x.job_ids == d[q].job_ids && x.product_name == d[q].product_name);
}


/// Whether a campaign was formed from a non-empty run of the jobs: it names
/// them in order, and carries their most urgent priority and earliest due date.
pub open spec fn formed_from(js: Seq<JobView>, x: CampaignView, c: Seq<JobView>) -> bool {
    &&& c.len() > 0
    &&& x.job_ids == c.map_values(|j: JobView| j.id)
    &&& forall|i: int| 0 <= i < c.len() ==> js.contains(#[trigger] c[i])
    &&& x.priority == min_priority(c)
    &&& x.earliest_due_date == earliest_due(c)
}

/// Whether a campaign was formed from some non-empty run of the jobs.
pub open spec fn formed_from_run(js: Seq<JobView>, x: CampaignView) -> bool {
    exists|c: Seq<JobView>| #[trigger] formed_from(js, x, c)
}

/// The most urgent priority of a non-empty run is that of one of its jobs, and
/// none of its jobs is more urgent.
pub proof fn lemma_min_priority_facts(c: Seq<JobView>)
    requires
        c.len() > 0,
    ensures
        forall|i: int| 0 <= i < c.len() ==> min_priority(c) <= (#[trigger] c[i]).priority,
        exists|i: int| 0 <= i < c.len() && min_priority(c) == (#[trigger] c[i]).priority,
    decreases c.len(),
{
    if c.len() == 1 {
        assert(min_priority(c) == c[0].priority);
    } else {
        let d = c.drop_last();
        lemma_min_priority_facts(d);
        assert forall|i: int| 0 <= i < c.len() implies min_priority(c) <= (#[trigger] c[i]).priority by {
            if i < d.len() {
                assert(d[i] == c[i]);
            }
        }
        if c.last().priority < min_priority(d) {
            assert(min_priority(c) == c[c.len() - 1].priority);
        } else {
            let i = choose|i: int| 0 <= i < d.len() && min_priority(d) == (#[trigger] d[i]).priority;
            assert(d[i] == c[i]);
        }
    }
}

/// The earliest due date of a run is that of one of its jobs and no job of the
/// run is due earlier; there is none only when no job has a due date.
pub proof fn lemma_earliest_due_facts(c: Seq<JobView>)
    ensures
        match earliest_due(c) {
            Some(e) => (forall|i: int| 0 <= i < c.len() && (#[trigger] c[i]).due_date is Some ==> e <= c[i].due_date.unwrap())
                && exists|i: int| 0 <= i < c.len() && (#[trigger] c[i]).due_date == Some(e),
            None => forall|i: int| 0 <= i < c.len() ==> (#[trigger] c[i]).due_date is None,
        },
    decreases c.len(),
{
    if c.len() > 0 {
        let d = c.drop_last();
        lemma_earliest_due_facts(d);
        assert forall|i: int| 0 <= i < d.len() implies d[i] == #[trigger] c[i] by {}
        match earliest_due(c) {
            Some(e) => {
                if c.last().due_date == Some(e) {
                    assert(c[c.len() - 1].due_date == Some(e));
                } else {
                    let i = choose|i: int| 0 <= i < d.len() && (#[trigger] d[i]).due_date == Some(e);
                    assert(c[i].due_date == Some(e));
                }
            },
            None => {},
        }
    }
}

/// The campaigns cut from a run of jobs are each formed from a run of its jobs.
proof fn lemma_chunk_formed(ms: Seq<SetupMatrixView>, p: Seq<char>, s: Seq<JobView>, size: int, min: int, all: Seq<JobView>)
    requires
        forall|x: JobView| #[trigger] s.contains(x) ==> all.contains(x),
    ensures
        forall|k: int| 0 <= k < chunk_drafts(ms, p, s, size, min).len()
            ==> formed_from_run(all, #[trigger] chunk_drafts(ms, p, s, size, min)[k]),
    decreases s.len(),
{
    if s.len() == 0 || size <= 0 {
    } else if s.len() <= size {
        assert forall|i: int| 0 <= i < s.len() implies all.contains(#[trigger] s[i]) by {
            assert(s.contains(s[i]));
        }
        if s.len() >= min {
            assert(formed_from(all, draft(ms, p, s), s));
            assert(formed_from_run(all, draft(ms, p, s)));
        }
    } else {
        let t = s.take(size);
        assert forall|i: int| 0 <= i < t.len() implies all.contains(#[trigger] t[i]) by {
            assert(t[i] == s[i]);
            assert(s.contains(s[i]));
        }
        assert(formed_from(all, draft(ms, p, t), t));
        assert(formed_from_run(all, draft(ms, p, t)));
        let rest = s.skip(size);
        assert forall|x: JobView| #[trigger] rest.contains(x) implies all.contains(x) by {
            let k = choose|k: int| 0 <= k < rest.len() && rest[k] == x;
            assert(s[k + size] == x);
            assert(s.contains(x));
        }
        lemma_chunk_formed(ms, p, rest, size, min, all);
        let head = if size >= min { seq![draft(ms, p, t)] } else { Seq::<CampaignView>::empty() };
        let tail = chunk_drafts(ms, p, rest, size, min);
        assert(chunk_drafts(ms, p, s, size, min) == head + tail);
        assert forall|k: int| 0 <= k < (head + tail).len() implies formed_from_run(all, #[trigger] (head + tail)[k]) by {
            if k < head.len() {
                assert((head + tail)[k] == draft(ms, p, t));
            } else {
                assert((head + tail)[k] == tail[k - head.len()]);
            }
        }
    }
}

/// The campaigns of the given products are each formed from a run of the jobs.
proof fn lemma_drafts_formed(ms: Seq<SetupMatrixView>, cfg: CampaignConfig, js: Seq<JobView>, prods: Seq<Seq<char>>)
    ensures
        forall|k: int| 0 <= k < drafts_for(ms, cfg, js, prods).len()
            ==> formed_from_run(js, #[trigger] drafts_for(ms, cfg, js, prods)[k]),
    decreases prods.len(),
{
    if prods.len() > 0 {
        lemma_drafts_formed(ms, cfg, js, prods.drop_last());
        let p = prods.last();
        let a = drafts_for(ms, cfg, js, prods.drop_last());
        let b = product_drafts(ms, cfg, js, p);
        let g = sort_by_due(jobs_of(js, p));
        lemma_sort_by_due_contents(jobs_of(js, p));
        lemma_jobs_of_members(js, p);
        assert forall|x: JobView| #[trigger] g.contains(x) implies js.contains(x) by {
            assert(jobs_of(js, p).contains(x));
        }
        lemma_chunk_formed(ms, p, g, cfg.max_campaign_size as int, cfg.min_campaign_size as int, js);
        assert forall|k: int| 0 <= k < (a + b).len() implies formed_from_run(js, #[trigger] (a + b)[k]) by {
            if k < a.len() {
                assert((a + b)[k] == a[k]);
            } else {
                assert((a + b)[k] == b[k - a.len()]);
            }
        }
    }
}

/// Every planned campaign is formed from a non-empty run of the planned jobs:
/// it carries their most urgent priority and their earliest due date.
pub proof fn law_campaign_priority_and_due(ms: Seq<SetupMatrixView>, cfg: CampaignConfig, js: Seq<JobView>, k: int)
    requires
        0 <= k < planned_campaigns(ms, cfg, js).len(),
    ensures
        formed_from_run(js, planned_campaigns(ms, cfg, js)[k]),
{
    let d = drafts_for(ms, cfg, js, products(js));
    let n = numbered(d);
    lemma_drafts_formed(ms, cfg, js, products(js));
    lemma_sort_campaigns_contents(n);
    let x = planned_campaigns(ms, cfg, js)[k];
    assert(sort_campaigns(n).contains(x));
    assert(n.contains(x));
    let q = choose|q: int| 0 <= q < n.len() && n[q] == x;
    assert(formed_from_run(js, d[q]));
    let c = choose|c: Seq<JobView>| formed_from(js, d[q], c);
    assert(formed_from(js, x, c));
}

} // verus!
