//! Plans: what the planner hands to the executor.
//!
//! A plan describes one scan of one table: the field columns to project,
//! the filters each row has to pass, and the range its timestamp has to lie
//! in. The projection always ends with the timestamp column.
use vstd::prelude::*;
use crate::catalog::columns_view;
use crate::predicate::{exprs_view, passes, Expr, ExprView, RowFacts, TimestampRange};
use crate::schema::{FieldColumn, FieldColumnView};

verus! {

/// The name of the timestamp column that every scan projects.
pub open spec fn time_column() -> Seq<char> {
    "time"@
}

/// The scan of one table.
#[derive(Clone, Debug, PartialEq, Eq)]
pub struct ScanPlan {
    /// The table to scan.
    pub table_name: String,
    /// The field columns to project, ascending by name.
    pub fields: Vec<FieldColumn>,
    /// The filters each row has to pass.
    pub filters: Vec<Expr>,
    /// The range in which each row's timestamp has to lie, if any.
    pub range: Option<TimestampRange>,
}

/// The mathematical value of a [`ScanPlan`].
pub struct ScanPlanView {
    pub table_name: Seq<char>,
    pub fields: Seq<FieldColumnView>,
    pub filters: Seq<ExprView>,
    pub range: Option<TimestampRange>,
}

impl View for ScanPlan {
    type V = ScanPlanView;

    open spec fn view(&self) -> ScanPlanView {
        ScanPlanView {
            table_name: self.table_name@,
            fields: columns_view(self.fields@),
            filters: exprs_view(self.filters@),
            range: self.range,
        }
    }
}

/// The scan admits the row: the row passes every filter of the scan and its
/// timestamp lies in the scan's range.
pub open spec fn admits(plan: ScanPlanView, row: RowFacts) -> bool {
    &&& forall|f: int| 0 <= f < plan.filters.len() ==> passes(#[trigger] plan.filters[f], row)
    &&& plan.range matches Some(range) ==> range.includes(row.time)
}

/// The names that a plan projects: those of its field columns in their
/// order, then the timestamp column.
pub open spec fn projection_of(plan: ScanPlanView) -> Seq<Seq<char>> {
    Seq::new(plan.fields.len(), |i: int| plan.fields[i].name).push(time_column())
}

/// The views of some names.
pub open spec fn names_view(names: Seq<String>) -> Seq<Seq<char>> {
    Seq::new(names.len(), |i: int| names[i]@)
}

impl ScanPlan {
    /// The names of the columns that the scan yields, in their order: the
    /// field columns, then the timestamp column.
    pub fn projection(&self) -> (names: Vec<String>)
        ensures
            names_view(names@) == projection_of(self@),
    {
        let mut names: Vec<String> = Vec::new();
        let mut i: usize = 0;
        while i < self.fields.len()
            invariant
                i <= self.fields@.len(),
                names@.len() == i,
                forall|j: int| 0 <= j < i ==> (#[trigger] names@[j])@ == self.fields@[j].name@,
            decreases self.fields@.len() - i,
        {
            names.push(self.fields[i].name.clone());
            i += 1;
        }
        names.push("time".to_owned());
        assert(names_view(names@) =~= projection_of(self@));
        names
    }
}

/// The plans of one request: one scan for each table that has to be read,
/// in the order in which the catalog lists the tables.
#[derive(Clone, Debug, PartialEq, Eq)]
pub struct FieldListPlan {
    pub plans: Vec<ScanPlan>,
}

impl View for FieldListPlan {
    type V = Seq<ScanPlanView>;

    open spec fn view(&self) -> Seq<ScanPlanView> {
        Seq::new(self.plans@.len(), |i: int| self.plans@[i]@)
    }
}

impl FieldListPlan {
    /// The plan that scans nothing.
    pub fn new() -> (plan: Self)
        ensures
            plan@ == Seq::<ScanPlanView>::empty(),
    {
        let plan = FieldListPlan { plans: Vec::new() };
        assert(plan@ =~= Seq::<ScanPlanView>::empty());
        plan
    }

    /// Adds one scan after those already there.
    pub fn append(&mut self, scan: ScanPlan)
        ensures
            final(self)@ == old(self)@.push(scan@),
    {
        self.plans.push(scan);
        assert(self@ =~= old(self)@.push(scan@));
    }
}

} // verus!
