//! The planner on catalog snapshots written out by hand.
use field_columns::catalog::{
    merge_field_schemas, Chunk, Column, ColumnKind, Database, PredicateMatch, SchemaConflict, Table,
};
use field_columns::plan::{FieldListPlan, ScanPlan};
use field_columns::planner::{InfluxRpcPlanner, PlanningError};
use field_columns::predicate::{Expr, PredicateBuilder, TimestampRange};
use field_columns::schema::{DataType, FieldColumn};

fn tag(name: &str) -> Column {
    Column { name: name.to_string(), kind: ColumnKind::Tag }
}

fn field(name: &str, data_type: DataType) -> Column {
    Column { name: name.to_string(), kind: ColumnKind::Field(data_type) }
}

fn time() -> Column {
    Column { name: "time".to_string(), kind: ColumnKind::Timestamp }
}

fn chunk(columns: Vec<Column>) -> Chunk {
    Chunk { columns, verdict: PredicateMatch::Unknown }
}

fn projected(name: &str, data_type: DataType) -> FieldColumn {
    FieldColumn { name: name.to_string(), data_type }
}

/// Two tables: `h2o` in two chunks, `o2` in one.
fn two_tables() -> Database {
    Database {
        tables: vec![
            Table {
                name: "h2o".to_string(),
                chunks: vec![
                    chunk(vec![
                        tag("city"),
                        tag("state"),
                        field("temp", DataType::Float),
                        field("other_temp", DataType::Float),
                        time(),
                    ]),
                    chunk(vec![
                        tag("city"),
                        tag("state"),
                        field("temp", DataType::Float),
                        field("moisture", DataType::Float),
                        time(),
                    ]),
                ],
            },
            Table {
                name: "o2".to_string(),
                chunks: vec![chunk(vec![
                    tag("city"),
                    tag("state"),
                    field("temp", DataType::Float),
                    field("reading", DataType::Integer),
                    time(),
                ])],
            },
        ],
    }
}

fn h2o_fields() -> Vec<FieldColumn> {
    vec![
        projected("moisture", DataType::Float),
        projected("other_temp", DataType::Float),
        projected("temp", DataType::Float),
    ]
}

fn o2_fields() -> Vec<FieldColumn> {
    vec![projected("reading", DataType::Integer), projected("temp", DataType::Float)]
}

#[test]
fn test_plan_for_every_table_without_a_table_term() {
    let predicate = PredicateBuilder::default().build();
    let plan = InfluxRpcPlanner::new().field_columns(&two_tables(), predicate).unwrap();
    assert_eq!(
        plan,
        FieldListPlan {
            plans: vec![
                ScanPlan {
                    table_name: "h2o".to_string(),
                    fields: h2o_fields(),
                    filters: vec![],
                    range: None,
                },
                ScanPlan {
                    table_name: "o2".to_string(),
                    fields: o2_fields(),
                    filters: vec![],
                    range: None,
                },
            ]
        }
    );
}

#[test]
fn test_plan_carries_filters_and_range_unchanged() {
    let predicate = PredicateBuilder::default()
        .add_expr(Expr::equals("state", "MA"))
        .table("o2")
        .timestamp_range(200, 300)
        .add_expr(Expr::equals("city", "Boston"))
        .build();
    let plan = InfluxRpcPlanner::new().field_columns(&two_tables(), predicate).unwrap();
    assert_eq!(
        plan.plans,
        vec![ScanPlan {
            table_name: "o2".to_string(),
            fields: o2_fields(),
            filters: vec![Expr::equals("state", "MA"), Expr::equals("city", "Boston")],
            range: Some(TimestampRange { start: 200, end: 300 }),
        }]
    );
}

#[test]
fn test_measurement_equality_plans_like_table_name() {
    let by_measurement = PredicateBuilder::default()
        .add_expr(Expr::equals("_measurement", "h2o"))
        .add_expr(Expr::equals("state", "MA"))
        .build();
    let by_table =
        PredicateBuilder::default().table("h2o").add_expr(Expr::equals("state", "MA")).build();
    let planner = InfluxRpcPlanner::new();
    let first = planner.field_columns(&two_tables(), by_measurement).unwrap();
    let second = planner.field_columns(&two_tables(), by_table).unwrap();
    assert_eq!(first, second);
    assert_eq!(first.plans.len(), 1);
    assert_eq!(first.plans[0].table_name, "h2o");
    assert_eq!(first.plans[0].fields, h2o_fields());
    // the equality is resolved: no scan carries it
    assert_eq!(first.plans[0].filters, vec![Expr::equals("state", "MA")]);
    assert!(first.plans.iter().all(|p| p.filters.iter().all(|f| f.column != "_measurement")));
}

#[test]
fn test_table_name_wins_over_measurement_equality() {
    let predicate = PredicateBuilder::default()
        .add_expr(Expr::equals("_measurement", "o2"))
        .table("h2o")
        .build();
    let plan = InfluxRpcPlanner::new().field_columns(&two_tables(), predicate).unwrap();
    assert_eq!(plan.plans.len(), 1);
    assert_eq!(plan.plans[0].table_name, "h2o");
    assert!(plan.plans[0].filters.is_empty());
}

#[test]
fn test_filter_on_a_column_that_no_table_has_is_handed_on() {
    let predicate = PredicateBuilder::default()
        .table("h2o")
        .add_expr(Expr::equals("no_such_column", "x"))
        .build();
    let plan = InfluxRpcPlanner::new().field_columns(&two_tables(), predicate).unwrap();
    assert_eq!(plan.plans.len(), 1);
    assert_eq!(plan.plans[0].filters, vec![Expr::equals("no_such_column", "x")]);
    assert_eq!(plan.plans[0].fields, h2o_fields());
}

#[test]
fn test_unknown_table_gives_empty_plan() {
    let predicate = PredicateBuilder::default().table("NoSuchTable").build();
    let plan = InfluxRpcPlanner::new().field_columns(&two_tables(), predicate).unwrap();
    assert_eq!(plan, FieldListPlan { plans: vec![] });
}

#[test]
fn test_unknown_measurement_gives_empty_plan() {
    let predicate =
        PredicateBuilder::default().add_expr(Expr::equals("_measurement", "NoSuchTable")).build();
    let plan = InfluxRpcPlanner::new().field_columns(&two_tables(), predicate).unwrap();
    assert!(plan.plans.is_empty());
}

#[test]
fn test_empty_database_gives_empty_plan() {
    let predicate = PredicateBuilder::default().table("h2o").build();
    let plan =
        InfluxRpcPlanner::new().field_columns(&Database { tables: vec![] }, predicate).unwrap();
    assert!(plan.plans.is_empty());
    assert_eq!(FieldListPlan::new(), plan);
}

#[test]
fn test_table_without_field_columns_is_skipped() {
    let db = Database {
        tables: vec![
            Table { name: "tags_only".to_string(), chunks: vec![chunk(vec![tag("state"), time()])] },
            Table { name: "no_chunks".to_string(), chunks: vec![] },
            Table {
                name: "with_field".to_string(),
                chunks: vec![chunk(vec![tag("state"), field("temp", DataType::Float), time()])],
            },
        ],
    };
    let plan =
        InfluxRpcPlanner::new().field_columns(&db, PredicateBuilder::default().build()).unwrap();
    assert_eq!(plan.plans.len(), 1);
    assert_eq!(plan.plans[0].table_name, "with_field");
}

#[test]
fn test_excluded_chunk_adds_nothing_to_the_schema() {
    let mut db = two_tables();
    db.tables[0].chunks[1].verdict = PredicateMatch::Zero;
    let predicate = PredicateBuilder::default().table("h2o").build();
    let plan = InfluxRpcPlanner::new().field_columns(&db, predicate).unwrap();
    assert_eq!(
        plan.plans[0].fields,
        vec![projected("other_temp", DataType::Float), projected("temp", DataType::Float)]
    );
}

#[test]
fn test_table_with_every_chunk_excluded_is_skipped() {
    let mut db = two_tables();
    db.tables[0].chunks[0].verdict = PredicateMatch::Zero;
    db.tables[0].chunks[1].verdict = PredicateMatch::Zero;
    let plan =
        InfluxRpcPlanner::new().field_columns(&db, PredicateBuilder::default().build()).unwrap();
    assert_eq!(plan.plans.len(), 1);
    assert_eq!(plan.plans[0].table_name, "o2");
}

#[test]
fn test_chunk_that_matches_or_cannot_tell_stays_in() {
    let mut db = two_tables();
    db.tables[0].chunks[0].verdict = PredicateMatch::AtLeastOne;
    db.tables[0].chunks[1].verdict = PredicateMatch::Unknown;
    let predicate = PredicateBuilder::default().table("h2o").build();
    let plan = InfluxRpcPlanner::new().field_columns(&db, predicate).unwrap();
    assert_eq!(plan.plans[0].fields, h2o_fields());
}

#[test]
fn test_schema_conflict_between_chunks_is_an_error() {
    let mut db = two_tables();
    db.tables[0].chunks[1].columns[2] = field("temp", DataType::Integer);
    let predicate = PredicateBuilder::default().build();
    let err = InfluxRpcPlanner::new().field_columns(&db, predicate).unwrap_err();
    assert_eq!(
        err,
        PlanningError::SchemaConflict {
            table: "h2o".to_string(),
            column: "temp".to_string(),
            existing: DataType::Float,
            incoming: DataType::Integer,
        }
    );
}

#[test]
fn test_schema_conflict_in_a_table_not_selected_is_no_error() {
    let mut db = two_tables();
    db.tables[0].chunks[1].columns[2] = field("temp", DataType::Integer);
    let predicate = PredicateBuilder::default().table("o2").build();
    let plan = InfluxRpcPlanner::new().field_columns(&db, predicate).unwrap();
    assert_eq!(plan.plans.len(), 1);
    assert_eq!(plan.plans[0].table_name, "o2");
}

#[test]
fn test_schema_conflict_with_an_excluded_chunk_is_no_error() {
    let mut db = two_tables();
    db.tables[0].chunks[1].columns[2] = field("temp", DataType::Integer);
    db.tables[0].chunks[1].verdict = PredicateMatch::Zero;
    let predicate = PredicateBuilder::default().table("h2o").build();
    assert!(InfluxRpcPlanner::new().field_columns(&db, predicate).is_ok());
}

#[test]
fn test_same_name_as_tag_and_field_is_no_conflict() {
    let db = Database {
        tables: vec![Table {
            name: "t".to_string(),
            chunks: vec![
                chunk(vec![tag("x"), time()]),
                chunk(vec![field("x", DataType::Boolean), time()]),
            ],
        }],
    };
    let plan =
        InfluxRpcPlanner::new().field_columns(&db, PredicateBuilder::default().build()).unwrap();
    assert_eq!(plan.plans[0].fields, vec![projected("x", DataType::Boolean)]);
}

#[test]
fn test_malformed_predicate_is_an_error() {
    let predicate = PredicateBuilder::default().table("h2o").table("h2o").build();
    let err = InfluxRpcPlanner::new().field_columns(&two_tables(), predicate).unwrap_err();
    assert_eq!(err, PlanningError::MalformedPredicate);
}

#[test]
fn test_malformed_predicate_is_reported_before_schema_conflict() {
    let mut db = two_tables();
    db.tables[0].chunks[1].columns[2] = field("temp", DataType::Integer);
    let predicate = PredicateBuilder::default().timestamp_range(0, 1).timestamp_range(0, 1).build();
    let err = InfluxRpcPlanner::new().field_columns(&db, predicate).unwrap_err();
    assert_eq!(err, PlanningError::MalformedPredicate);
}

#[test]
fn test_merge_field_schemas_is_the_sorted_union() {
    let db = two_tables();
    assert_eq!(merge_field_schemas(&db.tables[0]), Ok(h2o_fields()));
    assert_eq!(merge_field_schemas(&db.tables[1]), Ok(o2_fields()));
    assert_eq!(merge_field_schemas(&Table { name: "none".to_string(), chunks: vec![] }), Ok(vec![]));
}

#[test]
fn test_merge_field_schemas_reports_the_conflict() {
    let table = Table {
        name: "t".to_string(),
        chunks: vec![
            chunk(vec![field("a", DataType::String), field("b", DataType::UInteger)]),
            chunk(vec![field("a", DataType::String), field("b", DataType::Boolean)]),
        ],
    };
    assert_eq!(
        merge_field_schemas(&table),
        Err(SchemaConflict {
            column: "b".to_string(),
            existing: DataType::UInteger,
            incoming: DataType::Boolean,
        })
    );
}

#[test]
fn test_projection_ends_with_time() {
    let scan = ScanPlan {
        table_name: "h2o".to_string(),
        fields: h2o_fields(),
        filters: vec![],
        range: None,
    };
    assert_eq!(scan.projection(), vec!["moisture", "other_temp", "temp", "time"]);
    let bare = ScanPlan { table_name: "h2o".to_string(), fields: vec![], filters: vec![], range: None };
    assert_eq!(bare.projection(), vec!["time"]);
}

#[test]
fn test_append_adds_a_scan_at_the_end() {
    let mut plan = FieldListPlan::new();
    for name in ["o2", "h2o"] {
        plan.append(ScanPlan {
            table_name: name.to_string(),
            fields: vec![],
            filters: vec![],
            range: None,
        });
    }
    let names: Vec<&str> = plan.plans.iter().map(|p| p.table_name.as_str()).collect();
    assert_eq!(names, vec!["o2", "h2o"]);
}

#[test]
fn test_tables_are_planned_in_catalog_order() {
    let mut db = two_tables();
    db.tables.reverse();
    let plan =
        InfluxRpcPlanner::new().field_columns(&db, PredicateBuilder::default().build()).unwrap();
    let names: Vec<&str> = plan.plans.iter().map(|p| p.table_name.as_str()).collect();
    assert_eq!(names, vec!["o2", "h2o"]);
}
