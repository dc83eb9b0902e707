//! The planner: from a predicate and a catalog snapshot to the scans that
//! find the fields.
use vstd::prelude::*;
use crate::catalog::{
    columns_view, declarations, is_merged_schema, merge_field_schemas, schema_conflict, Database,
    TableView,
};
use crate::name_order::{compare_names, NameOrder};
use crate::plan::{FieldListPlan, ScanPlan, ScanPlanView};
use crate::predicate::{
    measurement_of, row_filters_of, table_name_of, time_range_of, well_formed, Predicate, TermView,
};
use crate::schema::{DataType, FieldColumnView};

verus! {

/// Why no plan could be made.
#[derive(Clone, Debug, PartialEq, Eq)]
pub enum PlanningError {
    /// The predicate holds two terms of a kind of which it may hold one, or
    /// a filter on the reserved measurement column.
    MalformedPredicate,
    /// Two chunks of a table declare a field under different types.
    SchemaConflict {
        /// The table whose chunks disagree.
        table: String,
        /// The field declared twice.
        column: String,
        /// The type of the declaration met first.
        existing: DataType,
        /// The type of the declaration that contradicts it.
        incoming: DataType,
    },
}

/// The table that the predicate is about, if it names one: its exact table
/// name where it has one, else the measurement it asks for.
pub open spec fn target_of(predicate: Seq<TermView>) -> Option<Seq<char>> {
    match table_name_of(predicate) {
        Some(name) => Some(name),
        None => measurement_of(predicate),
    }
}

/// The predicate admits rows of the table named `table`.
pub open spec fn selects(predicate: Seq<TermView>, table: Seq<char>) -> bool {
    match target_of(predicate) {
        Some(name) => name == table,
        None => true,
    }
}

/// Some surviving chunk of the table declares a field.
pub open spec fn has_fields(table: TableView) -> bool {
    exists|f: FieldColumnView| #[trigger] declarations(table).contains(f)
}

/// The table at place `i` of the catalog gets a plan: the predicate selects
/// it and it has a field to project.
pub open spec fn gets_plan(db: Seq<TableView>, predicate: Seq<TermView>, i: int) -> bool {
    0 <= i < db.len() && selects(predicate, db[i].name) && has_fields(db[i])
}

/// How many of the first `n` tables of the catalog get a plan.
pub open spec fn plans_before(db: Seq<TableView>, predicate: Seq<TermView>, n: int) -> int
    decreases n,
{
    if n <= 0 {
        0
    } else {
        plans_before(db, predicate, n - 1) + if gets_plan(db, predicate, n - 1) {
            1int
        } else {
            0int
        }
    }
}

/// The predicate selects the table at place `i`, and its surviving chunks
/// declare some field under two types.
pub open spec fn conflict_at(db: Seq<TableView>, predicate: Seq<TermView>, i: int) -> bool {
    0 <= i < db.len() && selects(predicate, db[i].name) && schema_conflict(declarations(db[i]))
}

/// `plan` is the scan of `table` under the predicate: it names the table,
/// projects the table's merged field schema, and carries the predicate's
/// filters and time range as they are.
pub open spec fn is_plan_for(plan: ScanPlanView, table: TableView, predicate: Seq<TermView>) -> bool {
    &&& plan.table_name == table.name
    &&& is_merged_schema(plan.fields, declarations(table))
    &&& plan.filters == row_filters_of(predicate)
    &&& plan.range == time_range_of(predicate)
}

/// `plans` are the scans of the request: one for each table that gets a
/// plan, in the order of the catalog, and no other.
pub open spec fn is_plan_list(
    plans: Seq<ScanPlanView>,
    db: Seq<TableView>,
    predicate: Seq<TermView>,
) -> bool {
    &&& plans.len() == plans_before(db, predicate, db.len() as int)
    &&& forall|i: int| #[trigger]
        gets_plan(db, predicate, i) ==> {
            &&& 0 <= plans_before(db, predicate, i) < plans.len()
            &&& is_plan_for(plans[plans_before(db, predicate, i)], db[i], predicate)
        }
}

/// The count of plans never falls as more tables are counted, and rises
/// with every table that gets one.
pub proof fn lemma_plans_before_grows(
    db: Seq<TableView>,
    predicate: Seq<TermView>,
    a: int,
    b: int,
)
    requires
        0 <= a <= b,
    ensures
        0 <= plans_before(db, predicate, a) <= plans_before(db, predicate, b),
        a < b && gets_plan(db, predicate, a) ==> plans_before(db, predicate, a) < plans_before(
            db,
            predicate,
            b,
        ),
    decreases b - a,
{
    lemma_plans_before_nonnegative(db, predicate, a);
    if a < b {
        lemma_plans_before_grows(db, predicate, a, b - 1);
    }
}

proof fn lemma_plans_before_nonnegative(db: Seq<TableView>, predicate: Seq<TermView>, n: int)
    ensures
        0 <= plans_before(db, predicate, n),
    decreases n,
{
    if n > 0 {
        lemma_plans_before_nonnegative(db, predicate, n - 1);
    }
}

/// Plans the discovery of field columns.
#[derive(Clone, Copy, Debug)]
pub struct InfluxRpcPlanner {}

impl InfluxRpcPlanner {
    /// A planner. It holds no state.
    pub fn new() -> Self {
        InfluxRpcPlanner {}
    }

    /// The scans that find the field columns that `predicate` is about.
    ///
    /// A table is scanned when the predicate selects it and some surviving
    /// chunk of it declares a field. The predicate selects the table it
    /// names exactly; where it names none, the table of the measurement it
    /// asks for; where it asks for none, every table. Beside an exact table
    /// name a measurement equality is not consulted. Each scan projects the
    /// merged field schema of its table and carries the predicate's filters
    /// and time range; the measurement equality is resolved here and is
    /// carried by no scan.
    ///
    /// A predicate whose shape is unsound is refused before any table is
    /// looked at. A table that the predicate selects and whose surviving
    /// chunks declare a field under two types is refused when its turn
    /// comes; what other tables declare does not matter.
    pub fn field_columns(&self, database: &Database, predicate: Predicate) -> (r: Result<
        FieldListPlan,
        PlanningError,
    >)
        ensures
            r is Ok <==> well_formed(predicate@) && forall|i: int|
                !conflict_at(database@, predicate@, i),
            r matches Ok(plan) ==> is_plan_list(plan@, database@, predicate@),
            (r matches Err(PlanningError::MalformedPredicate)) <==> !well_formed(predicate@),
            r matches Err(PlanningError::SchemaConflict { table, column, existing, incoming })
                ==> exists|i: int|
                {
                    &&& #[trigger] conflict_at(database@, predicate@, i)
                    &&& forall|j: int| 0 <= j < i ==> !conflict_at(database@, predicate@, j)
                    &&& table@ == database@[i].name
                    &&& existing != incoming
                    &&& declarations(database@[i]).contains(
                        FieldColumnView { name: column@, data_type: existing },
                    )
                    &&& declarations(database@[i]).contains(
                        FieldColumnView { name: column@, data_type: incoming },
                    )
                },
    {
        if !predicate.is_well_formed() {
            return Err(PlanningError::MalformedPredicate);
        }
        let ghost db = database@;
        let ghost pred = predicate@;
        let target: Option<&str> = match predicate.table_name() {
            Some(name) => Some(name),
            None => predicate.measurement_equality(),
        };
        let range = predicate.timestamp_range();
        let mut plan = FieldListPlan::new();
        let mut i: usize = 0;
        while i < database.tables.len()
            invariant
                db == database@,
                pred == predicate@,
                well_formed(pred),
                i <= database.tables@.len(),
                target is Some <==> target_of(pred) is Some,
                target matches Some(name) ==> target_of(pred) == Some(name@),
                range == time_range_of(pred),
                plan@.len() == plans_before(db, pred, i as int),
                forall|j: int|
                    j < i && #[trigger] gets_plan(db, pred, j) ==> {
                        &&& 0 <= plans_before(db, pred, j) < plan@.len()
                        &&& is_plan_for(plan@[plans_before(db, pred, j)], db[j], pred)
                    },
                forall|j: int| 0 <= j < i ==> !conflict_at(db, pred, j),
            decreases database.tables@.len() - i,
        {
            let table = &database.tables[i];
            assert(db[i as int] == table@);
            let selected = match target {
                Some(name) => match compare_names(name, table.name.as_str()) {
                    NameOrder::Same => true,
                    _ => false,
                },
                None => true,
            };
            assert(selected == selects(pred, table@.name));
            let ghost before = plan@;
            if selected {
                match merge_field_schemas(table) {
                    Err(e) => {
                        assert(conflict_at(db, pred, i as int));
                        return Err(
                            PlanningError::SchemaConflict {
                                table: table.name.clone(),
                                column: e.column,
                                existing: e.existing,
                                incoming: e.incoming,
                            },
                        );
                    },
                    Ok(fields) => {
                        proof {
                            let cols = columns_view(fields@);
                            if cols.len() > 0 {
                                assert(declarations(table@).contains(cols[0]));
                            }
                            if has_fields(table@) {
                                let f = choose|f: FieldColumnView| #[trigger]
                                    declarations(table@).contains(f);
                                assert(declarations(table@).contains(f));
                            }
                            assert(cols.len() > 0 <==> has_fields(table@));
                        }
                        if fields.len() > 0 {
                            plan.append(
                                ScanPlan {
                                    table_name: table.name.clone(),
                                    fields,
                                    filters: predicate.row_filter_terms(),
                                    range,
                                },
                            );
                        }
                    },
                }
            }
            proof {
                assert forall|j: int| j < i + 1 && #[trigger] gets_plan(db, pred, j) implies {
                    &&& 0 <= plans_before(db, pred, j) < plan@.len()
                    &&& is_plan_for(plan@[plans_before(db, pred, j)], db[j], pred)
                } by {
                    lemma_plans_before_grows(db, pred, j, i as int);
                    if j < i {
                        assert(plan@[plans_before(db, pred, j)] == before[plans_before(
                            db,
                            pred,
                            j,
                        )]);
                    }
                }
            }
            i += 1;
        }
        proof {
            assert forall|j: int| !conflict_at(db, pred, j) by {
                if conflict_at(db, pred, j) {
                    assert(0 <= j < i);
                }
            }
        }
        Ok(plan)
    }
}

} // verus!
