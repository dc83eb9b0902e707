//! What a scan hands back: batches of rows under one schema.
//!
//! The aggregator reads of a row only its time and, for each field column,
//! whether the row holds a value there. The values themselves never matter
//! to it, so a row keeps one flag for each column in their place.
use vstd::prelude::*;
use crate::schema::{FieldColumn, FieldColumnView};

verus! {

/// One row of a scan's output.
#[derive(Clone, Debug, PartialEq, Eq)]
pub struct Row {
    /// The row's timestamp, in nanoseconds since the epoch.
    pub time: i64,
    /// For each field column of the schema, in its order, whether the row
    /// holds a value there. A column past the end of the flags counts as
    /// holding none.
    pub valid: Vec<bool>,
}

/// The mathematical value of a [`Row`].
pub struct RowView {
    pub time: int,
    pub valid: Seq<bool>,
}

impl View for Row {
    type V = RowView;

    open spec fn view(&self) -> RowView {
        RowView { time: self.time as int, valid: self.valid@ }
    }
}

/// Some rows, as a scan produced them together.
#[derive(Clone, Debug, PartialEq, Eq)]
pub struct RecordBatch {
    pub rows: Vec<Row>,
}

impl View for RecordBatch {
    type V = Seq<RowView>;

    open spec fn view(&self) -> Seq<RowView> {
        Seq::new(self.rows@.len(), |r: int| self.rows@[r]@)
    }
}

/// All that running one plan produced: the field columns of its schema and
/// the batches of rows, in the order in which they came.
#[derive(Clone, Debug, PartialEq, Eq)]
pub struct PlanOutput {
    pub columns: Vec<FieldColumn>,
    pub batches: Vec<RecordBatch>,
}

/// The mathematical value of a [`PlanOutput`].
pub struct PlanOutputView {
    pub columns: Seq<FieldColumnView>,
    pub batches: Seq<Seq<RowView>>,
}

impl View for PlanOutput {
    type V = PlanOutputView;

    open spec fn view(&self) -> PlanOutputView {
        PlanOutputView {
            columns: Seq::new(self.columns@.len(), |c: int| self.columns@[c]@),
            batches: Seq::new(self.batches@.len(), |b: int| self.batches@[b]@),
        }
    }
}

/// The row holds a value in column `c`.
pub open spec fn holds(row: RowView, c: int) -> bool {
    0 <= c < row.valid.len() && row.valid[c]
}

/// Row `r` of batch `b` exists and holds a value in column `c`.
pub open spec fn cell(o: PlanOutputView, c: int, b: int, r: int) -> bool {
    0 <= b < o.batches.len() && 0 <= r < o.batches[b].len() && holds(o.batches[b][r], c)
}

/// Column `c` holds a value in some row whose time is `t`.
pub open spec fn observed(o: PlanOutputView, c: int, t: int) -> bool {
    exists|b: int, r: int| #[trigger] cell(o, c, b, r) && o.batches[b][r].time == t
}

/// Column `c` holds a value in some row.
pub open spec fn populated(o: PlanOutputView, c: int) -> bool {
    exists|t: int| observed(o, c, t)
}

/// `t` is the latest time at which column `c` holds a value.
pub open spec fn is_latest(o: PlanOutputView, c: int, t: int) -> bool {
    observed(o, c, t) && forall|u: int| #[trigger] observed(o, c, u) ==> u <= t
}

} // verus!
