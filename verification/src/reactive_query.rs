use vstd::prelude::*;

use crate::iter::{has_sorted_intersection, share_value, sorted, sorted_insert};
use crate::page::{strictly_increasing, PageIdx};
use crate::storage::StorageChange;
use vstd::string::StringExecFns;

verus! {

/// Where a reactive query stands.
#[derive(Debug)]
pub enum QueryState {
    // The query is pending refresh
    Dirty,
    // The query has been executed and the root pages have been fetched
    // The query is monitoring for changes to the root pages
    Monitoring { root_pages_sorted: Vec<PageIdx> },
    // The query failed last time it was run, we will only rerun the query if
    // the storage changes
    Error,
}

/// A query that knows which tables (by their root pages) it reads, so that it
/// is run again only when one of them changes.
#[derive(Debug)]
pub struct ReactiveQuery<P> {
    sql: String,
    explain_sql: String,
    params: Vec<P>,
    state: QueryState,
}

/// `EXPLAIN` followed by `sql`.
fn explain_of(sql: &String) -> (r: String)
    ensures
        r@ == "EXPLAIN "@ + sql@,
{
    let mut r = "EXPLAIN ".to_owned();
    r.append(sql.as_str());
    r
}

/// The root pages that a query plan opens for reading: the `p2` operand of
/// its `OpenRead` rows, in row order. A plan row is its opcode and its `p2`.
pub open spec fn plan_root_pages(plan: Seq<(Seq<char>, i64)>) -> Seq<PageIdx>
    decreases plan.len(),
{
    if plan.len() == 0 {
        Seq::empty()
    } else {
        let rest = plan_root_pages(plan.drop_last());
        if plan.last().0 == "OpenRead"@ {
            rest.push(plan.last().1 as PageIdx)
        } else {
            rest
        }
    }
}

/// A plan's rows with their opcodes as text.
pub open spec fn plan_view(plan: Seq<(String, i64)>) -> Seq<(Seq<char>, i64)> {
    plan.map_values(|row: (String, i64)| (row.0@, row.1))
}

/// An `OpenRead` row of the plan whose `p2` is no page index.
pub open spec fn bad_open_read(plan: Seq<(Seq<char>, i64)>, i: int) -> bool {
    0 <= i < plan.len() && plan[i].0 == "OpenRead"@ && !(0 <= plan[i].1 <= u32::MAX)
}

/// Reads a query plan's root pages (see `plan_root_pages`); an `OpenRead`
/// row whose `p2` is no page index is an error, which carries that value (the
/// first such row's).
pub fn root_pages_of_plan(plan: &Vec<(String, i64)>) -> (r: Result<Vec<PageIdx>, i64>)
    ensures
        match r {
            Ok(pages) => (forall|i: int| !#[trigger] bad_open_read(plan_view(plan@), i))
                && pages@ == plan_root_pages(plan_view(plan@)),
            Err(v) => exists|i: int| #[trigger] bad_open_read(plan_view(plan@), i) && plan@[i].1 == v,
        },
{
    let ghost rows = plan_view(plan@);
    let open_read = "OpenRead".to_owned();
    let mut pages: Vec<PageIdx> = Vec::new();
    let mut i: usize = 0;
    while i < plan.len()
        invariant
            0 <= i <= plan@.len(),
            rows == plan_view(plan@),
            open_read@ == "OpenRead"@,
            forall|j: int| 0 <= j < i ==> !#[trigger] bad_open_read(rows, j),
            pages@ == plan_root_pages(rows.subrange(0, i as int)),
        decreases plan@.len() - i,
    {
        let row = &plan[i];
        proof {
            assert(rows.subrange(0, i + 1).drop_last() =~= rows.subrange(0, i as int));
            assert(rows[i as int] == (row.0@, row.1));
        }
        if row.0 == open_read {
            if row.1 < 0 || row.1 > 0xffff_ffff {
                proof {
                    assert(bad_open_read(rows, i as int));
                }
                return Err(row.1);
            }
            pages.push(row.1 as PageIdx);
        }
        i = i + 1;
    }
    proof {
        assert(rows.subrange(0, plan@.len() as int) =~= rows);
    }
    Ok(pages)
}

/// What `handle_storage_change` leaves a query monitoring `root_pages` in:
/// dirty when the whole storage changed or one of its tables did.
pub open spec fn monitoring_dirty(root_pages: Seq<PageIdx>, change: StorageChange) -> bool {
    match change {
        StorageChange::Full => true,
        StorageChange::Tables { root_pages_sorted } => share_value(root_pages, root_pages_sorted@),
    }
}

impl<P> ReactiveQuery<P> {
    /// A monitored query's root pages are in increasing order, each once.
    #[verifier::type_invariant]
    closed spec fn inv(self) -> bool {
        match self.state {
            QueryState::Monitoring { root_pages_sorted } => strictly_increasing(root_pages_sorted@),
            _ => true,
        }
    }

    pub closed spec fn spec_sql(self) -> Seq<char> {
        self.sql@
    }

    pub closed spec fn spec_explain_sql(self) -> Seq<char> {
        self.explain_sql@
    }

    pub closed spec fn spec_params(self) -> Seq<P> {
        self.params@
    }

    pub closed spec fn dirty(self) -> bool {
        self.state is Dirty
    }

    pub closed spec fn failed(self) -> bool {
        self.state is Error
    }

    /// The root pages of the tables the query reads, while it is monitored.
    pub closed spec fn monitored(self) -> Option<Seq<PageIdx>> {
        match self.state {
            QueryState::Monitoring { root_pages_sorted } => Some(root_pages_sorted@),
            _ => None,
        }
    }

    pub fn new(sql: String, params: Vec<P>) -> (q: Self)
        ensures
            q.spec_sql() == sql@,
            q.spec_explain_sql() == "EXPLAIN "@ + sql@,
            q.spec_params() == params@,
            q.dirty(),
    {
        let explain_sql = explain_of(&sql);
        Self { sql, explain_sql, params, state: QueryState::Dirty }
    }

    pub fn sql(&self) -> (r: &String)
        ensures
            r@ == self.spec_sql(),
    {
        &self.sql
    }

    pub fn explain_sql(&self) -> (r: &String)
        ensures
            r@ == self.spec_explain_sql(),
    {
        &self.explain_sql
    }

    pub fn params(&self) -> (r: &Vec<P>)
        ensures
            r@ == self.spec_params(),
    {
        &self.params
    }

    // handle_storage_change checks if the storage change affects this query
    // sets the state to dirty if it does
    // returns self.is_dirty()
    pub fn handle_storage_change(&mut self, change: &StorageChange) -> (r: bool)
        ensures
            final(self).spec_sql() == old(self).spec_sql(),
            final(self).spec_explain_sql() == old(self).spec_explain_sql(),
            final(self).spec_params() == old(self).spec_params(),
            r == final(self).dirty(),
            old(self).dirty() || old(self).failed() ==> final(self).dirty(),
            old(self).monitored() is Some ==> {
                let root_pages = old(self).monitored()->0;
                &&& final(self).dirty() ==> monitoring_dirty(root_pages, *change)
                &&& !final(self).dirty() ==> final(self).monitored() == old(self).monitored()
                &&& (match *change {
                    StorageChange::Tables { root_pages_sorted } => sorted(root_pages_sorted@),
                    StorageChange::Full => true,
                }) ==> (final(self).dirty() <==> monitoring_dirty(root_pages, *change))
            },
    {
        proof {
            use_type_invariant(&*self);
        }
        let dirty = match &self.state {
            QueryState::Dirty => true,
            QueryState::Monitoring { root_pages_sorted: root_pages } => {
                match change {
                    StorageChange::Full => true,
                    StorageChange::Tables { root_pages_sorted: changed_root_pages } => {
                        has_sorted_intersection(root_pages.as_slice(), changed_root_pages.as_slice())
                    },
                }
            },
            QueryState::Error => true,
        };
        if dirty {
            self.state = QueryState::Dirty;
        }
        self.is_dirty()
    }

    pub fn is_dirty(&self) -> (r: bool)
        ensures
            r == self.dirty(),
    {
        match self.state {
            QueryState::Dirty => true,
            _ => false,
        }
    }

    pub fn mark_dirty(&mut self)
        ensures
            final(self).spec_sql() == old(self).spec_sql(),
            final(self).spec_explain_sql() == old(self).spec_explain_sql(),
            final(self).spec_params() == old(self).spec_params(),
            final(self).dirty(),
    {
        self.state = QueryState::Dirty;
    }

    pub fn mark_error(&mut self)
        ensures
            final(self).spec_sql() == old(self).spec_sql(),
            final(self).spec_explain_sql() == old(self).spec_explain_sql(),
            final(self).spec_params() == old(self).spec_params(),
            final(self).failed(),
    {
        self.state = QueryState::Error;
    }

    /// Starts monitoring the tables whose root pages the query's plan opens
    /// for reading (`root_pages`, in any order, possibly repeated): they are
    /// kept sorted, each once.
    pub fn monitor(&mut self, root_pages: Vec<PageIdx>)
        ensures
            final(self).spec_sql() == old(self).spec_sql(),
            final(self).spec_explain_sql() == old(self).spec_explain_sql(),
            final(self).spec_params() == old(self).spec_params(),
            final(self).monitored() is Some,
            strictly_increasing(final(self).monitored()->0),
            final(self).monitored()->0.to_set() == root_pages@.to_set(),
    {
        let mut root_pages_sorted: Vec<PageIdx> = Vec::new();
        let mut i: usize = 0;
        while i < root_pages.len()
            invariant
                0 <= i <= root_pages@.len(),
                strictly_increasing(root_pages_sorted@),
                root_pages_sorted@.to_set() == root_pages@.subrange(0, i as int).to_set(),
            decreases root_pages@.len() - i,
        {
            sorted_insert(&mut root_pages_sorted, root_pages[i]);
            i = i + 1;
            proof {
                assert(root_pages@.subrange(0, i as int) =~= root_pages@.subrange(0, i - 1).push(
                    root_pages@[i - 1],
                ));
                broadcast use vstd::seq_lib::group_seq_properties;
            }
        }
        proof {
            assert(root_pages@.subrange(0, root_pages@.len() as int) =~= root_pages@);
        }
        self.state = QueryState::Monitoring { root_pages_sorted };
    }
}

} // verus!
