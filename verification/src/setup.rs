//! Setup times between products on a machine.

use vstd::prelude::*;
use crate::strings::str_eq;

verus! {

/// Setup times of one machine: a time for each listed change of product, and a
/// default for the other changes and for the first product the machine runs.
#[derive(Debug, Clone)]
pub struct SetupMatrix {
    /// The machine the matrix belongs to.
    pub id: String,
    /// Setup time of unlisted changes and of a first product (ms).
    pub default_setup_ms: i64,
    /// Listed changes: from product, to product, setup time (ms).
    pub transitions: Vec<(String, String, i64)>,
}

/// Mathematical value of a setup matrix.
pub struct SetupMatrixView {
    pub id: Seq<char>,
    pub default_setup_ms: int,
    pub transitions: Seq<(Seq<char>, Seq<char>, int)>,
}

impl View for SetupMatrix {
    type V = SetupMatrixView;

    open spec fn view(&self) -> SetupMatrixView {
        SetupMatrixView {
            id: self.id@,
            default_setup_ms: self.default_setup_ms as int,
            transitions: self.transitions@.map_values(|t: (String, String, i64)| (t.0@, t.1@, t.2 as int)),
        }
    }
}

/// The time listed for a change of product, the latest listing winning.
pub open spec fn listed_setup(t: Seq<(Seq<char>, Seq<char>, int)>, from: Seq<char>, to: Seq<char>) -> Option<int>
    decreases t.len(),
{
    if t.len() == 0 {
        None
    } else if t.last().0 == from && t.last().1 == to {
        Some(t.last().2)
    } else {
        listed_setup(t.drop_last(), from, to)
    }
}

/// Setup time on a machine before `to`, after `from` (None: nothing ran
/// before): the listed time; else none between equal products; else the default.
pub open spec fn matrix_setup(m: SetupMatrixView, from: Option<Seq<char>>, to: Seq<char>) -> int {
    match from {
        None => m.default_setup_ms,
        Some(f) => match listed_setup(m.transitions, f, to) {
            Some(t) => t,
            None => if f == to { 0 } else { m.default_setup_ms },
        },
    }
}

/// The character view of an optional string slice.
pub open spec fn opt_str_view(o: Option<&str>) -> Option<Seq<char>> {
    match o {
        Some(s) => Some(s@),
        None => None,
    }
}

impl SetupMatrix {
    /// A matrix for a machine with no setup by default and no listed change.
    pub fn new(id: &str) -> (m: SetupMatrix)
        ensures
            m@.id == id@,
            m@.default_setup_ms == 0,
            m@.transitions.len() == 0,
    {
        let m = SetupMatrix { id: String::from_str(id), default_setup_ms: 0, transitions: Vec::new() };
        assert(m@.transitions =~= Seq::<(Seq<char>, Seq<char>, int)>::empty());
        m
    }

    /// The same matrix with another default setup time.
    pub fn with_default_setup(self, setup_ms: i64) -> (m: SetupMatrix)
        ensures
            m@ == (SetupMatrixView { default_setup_ms: setup_ms as int, ..self@ }),
    {
        SetupMatrix { default_setup_ms: setup_ms, ..self }
    }

    /// The same matrix listing the setup time of a change from `from` to `to`.
    pub fn with_setup(self, from: &str, to: &str, setup_ms: i64) -> (m: SetupMatrix)
        ensures
            m@ == (SetupMatrixView { transitions: self@.transitions.push((from@, to@, setup_ms as int)), ..self@ }),
    {
        let mut m = self;
        let ghost before = m@.transitions;
        m.transitions.push((String::from_str(from), String::from_str(to), setup_ms));
        assert(m@.transitions =~= before.push((from@, to@, setup_ms as int)));
        m
    }

    /// Setup time before `to` after `from` (None: nothing ran before).
    pub fn get_setup_time(&self, from: Option<&str>, to: &str) -> (t: i64)
        ensures
            t == matrix_setup(self@, opt_str_view(from), to@),
    {
        match from {
            None => self.default_setup_ms,
            Some(f) => {
                let ghost listed = self@.transitions;
                let mut i: usize = self.transitions.len();
                assert(listed.take(i as int) =~= listed);
                while i > 0
                    invariant
                        i <= self.transitions.len(),
                        listed == self@.transitions,
                        from == Some(f),
                        listed_setup(listed, f@, to@) == listed_setup(listed.take(i as int), f@, to@),
                    decreases i,
                {
                    assert(listed.take(i as int).drop_last() =~= listed.take(i - 1));
                    let entry = &self.transitions[i - 1];
                    assert(listed[i - 1] == (entry.0@, entry.1@, entry.2 as int));
                    assert(listed.take(i as int).last() == listed[i - 1]);
                    if str_eq(entry.0.as_str(), f) && str_eq(entry.1.as_str(), to) {
                        return entry.2;
                    }
                    i -= 1;
                }
                if str_eq(f, to) { 0 } else { self.default_setup_ms }
            },
        }
    }
}

/// Setup matrices of several machines.
#[derive(Debug, Clone)]
pub struct SetupMatrixCollection {
    pub matrices: Vec<SetupMatrix>,
}

/// Views of a sequence of setup matrices.
pub open spec fn matrix_views(s: Seq<SetupMatrix>) -> Seq<SetupMatrixView> {
    s.map_values(|m: SetupMatrix| m@)
}

/// The matrix of a machine, the latest added winning.
pub open spec fn matrix_for(s: Seq<SetupMatrixView>, resource: Seq<char>) -> Option<SetupMatrixView>
    decreases s.len(),
{
    if s.len() == 0 {
        None
    } else if s.last().id == resource {
        Some(s.last())
    } else {
        matrix_for(s.drop_last(), resource)
    }
}

/// Setup time on a machine: that of its matrix, none for a machine without one.
pub open spec fn collection_setup(s: Seq<SetupMatrixView>, resource: Seq<char>, from: Option<Seq<char>>, to: Seq<char>) -> int {
    match matrix_for(s, resource) {
        Some(m) => matrix_setup(m, from, to),
        None => 0,
    }
}

impl SetupMatrixCollection {
    /// A collection without matrices.
    pub fn new() -> (c: SetupMatrixCollection)
        ensures
            matrix_views(c.matrices@).len() == 0,
    {
        SetupMatrixCollection { matrices: Vec::new() }
    }

    /// The same collection with a matrix added.
    pub fn with_matrix(self, matrix: SetupMatrix) -> (c: SetupMatrixCollection)
        ensures
            matrix_views(c.matrices@) == matrix_views(self.matrices@).push(matrix@),
    {
        let mut c = self;
        let ghost before = matrix_views(c.matrices@);
        let ghost mv = matrix@;
        c.matrices.push(matrix);
        assert(matrix_views(c.matrices@) =~= before.push(mv));
        c
    }

    /// Setup time on `resource_id` before `to` after `from` (None: nothing ran
    /// before); none for a machine without a matrix.
    pub fn get_setup_time(&self, resource_id: &str, from: Option<&str>, to: &str) -> (t: i64)
        ensures
            t == collection_setup(matrix_views(self.matrices@), resource_id@, opt_str_view(from), to@),
    {
        let ghost s = matrix_views(self.matrices@);
        let mut i: usize = self.matrices.len();
        assert(s.take(i as int) =~= s);
        while i > 0
            invariant
                i <= self.matrices.len(),
                s == matrix_views(self.matrices@),
                matrix_for(s, resource_id@) == matrix_for(s.take(i as int), resource_id@),
            decreases i,
        {
            assert(s.take(i as int).drop_last() =~= s.take(i - 1));
            if str_eq(self.matrices[i - 1].id.as_str(), resource_id) {
                return self.matrices[i - 1].get_setup_time(from, to);
            }
            i -= 1;
        }
        0
    }
}

} // verus!
