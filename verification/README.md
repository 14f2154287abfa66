# uaps_engine

A production scheduling engine whose core is written in Verus: every function
in `src/` carries a contract that Verus proves.

## Layout

- `src/` — the verified library.
  - `schedule`, `task`, `constraint`, `job`, `error`: the data model and its
    mathematical views.
  - `time_fence`: frozen, slushy and liquid zones and the changes they forbid.
  - `calendar`, `task_splitter`: working calendars and daily work windows, and
    the splitting of operations into tasks along them.
  - `validation`: checks of jobs, operations and resources.
  - `reschedule`, `rescheduler`: disruption events and the repair strategies
    (right shift, rescheduling of the affected operations, regeneration).
  - `dynamic`: routing of repair requests, fence checks of changes, and
    holding work back until its material arrives.
  - `setup`, `campaign`: setup times between products, and campaigns of jobs
    of one product run back to back.
  - `simple`: the list scheduler. Jobs are taken by priority (or in an order
    given), their operations by sequence number; each operation goes on the
    equipment that is ready first after its setup, with the workers it needs
    and the resources linked to them, inside its daily window and the working
    time of its resource's calendar; missed due dates are recorded. Proved:
    no two operations overlap on a resource, the operations of a job follow
    one another, and the violations are exactly the missed due dates.
  - `dispatching`, `engine`, `kpi`, `pegging`: dispatching rules (FIFO, SPT,
    LPT, EDD, SLACK, CR, PRIORITY, LWKR, MWKR, MOPNR, RANDOM and more) and
    their configurations, algorithm choice, integer indicators.
  - `text`, `strings`: decimal text of integers and string helpers.
- `tests/` — tests run against the compiled library.
- `app/` — ordinary Rust around the library: the u-schedule rule engine (and
  scheduling in the order it gives),
  indicators and checks with floating-point values, material pegging and
  capable-to-promise checks, and serde forms of library types.

Fractional values of the data model (quantities, efficiencies, utilizations,
rule weights) are kept in thousandths in the library.
