//! The general properties of planning and aggregation, on chosen values.
use field_columns::aggregate::to_field_list;
use field_columns::batch::{PlanOutput, RecordBatch, Row};
use field_columns::catalog::{Chunk, Column, ColumnKind, Database, PredicateMatch, Table};
use field_columns::fieldlist::{merge_field_lists, Field, FieldList};
use field_columns::name_order::{compare_names, NameOrder};
use field_columns::planner::InfluxRpcPlanner;
use field_columns::predicate::{Expr, PredicateBuilder, TimestampRange};
use field_columns::schema::{DataType, FieldColumn};

fn column(name: &str, data_type: DataType) -> FieldColumn {
    FieldColumn { name: name.to_string(), data_type }
}

fn field(name: &str, data_type: DataType, last_timestamp: i64) -> Field {
    Field { name: name.to_string(), data_type, last_timestamp }
}

fn row(time: i64, valid: &[bool]) -> Row {
    Row { time, valid: valid.to_vec() }
}

/// Three columns over rows at scattered times.
fn scattered() -> PlanOutput {
    PlanOutput {
        columns: vec![
            column("temp", DataType::Float),
            column("moisture", DataType::Float),
            column("other_temp", DataType::Float),
        ],
        batches: vec![
            RecordBatch {
                rows: vec![
                    row(50, &[true, false, false]),
                    row(250, &[false, false, true]),
                    row(350, &[false, false, true]),
                ],
            },
            RecordBatch { rows: vec![row(100000, &[true, true, false]), row(10, &[true, true, true])] },
        ],
    }
}

/// The output as a scan held to `range` would give it.
fn held_to(output: &PlanOutput, range: TimestampRange) -> PlanOutput {
    PlanOutput {
        columns: output.columns.clone(),
        batches: output
            .batches
            .iter()
            .map(|b| RecordBatch {
                rows: b.rows.iter().filter(|r| range.contains(r.time)).cloned().collect(),
            })
            .collect(),
    }
}

fn assert_strictly_ascending(list: &FieldList) {
    for pair in list.fields.windows(2) {
        assert_eq!(compare_names(&pair[0].name, &pair[1].name), NameOrder::Before);
    }
}

#[test]
fn test_no_candidate_table_gives_no_plans_and_no_fields() {
    let db = Database {
        tables: vec![Table {
            name: "h2o".to_string(),
            chunks: vec![Chunk {
                columns: vec![Column {
                    name: "temp".to_string(),
                    kind: ColumnKind::Field(DataType::Float),
                }],
                verdict: PredicateMatch::Unknown,
            }],
        }],
    };
    let predicate = PredicateBuilder::default().table("o2").build();
    let plan = InfluxRpcPlanner::new().field_columns(&db, predicate).unwrap();
    assert!(plan.plans.is_empty());
    let outputs: Vec<PlanOutput> = plan.plans.iter().map(|_| scattered()).collect();
    assert_eq!(to_field_list(&outputs), Ok(FieldList::default()));
}

#[test]
fn test_field_list_is_strictly_ascending_without_duplicates() {
    let mut repeated = scattered();
    repeated.columns.push(column("temp", DataType::Float));
    repeated.columns.push(column("Temp", DataType::Float));
    for b in repeated.batches.iter_mut() {
        for r in b.rows.iter_mut() {
            r.valid.push(true);
            r.valid.push(true);
        }
    }
    let list = to_field_list(&vec![scattered(), repeated, scattered()]).unwrap();
    assert_strictly_ascending(&list);
    let names: Vec<&str> = list.fields.iter().map(|f| f.name.as_str()).collect();
    assert_eq!(names, vec!["Temp", "moisture", "other_temp", "temp"]);
}

#[test]
fn test_last_timestamp_is_the_maximum_of_the_non_null_rows() {
    let output = scattered();
    let list = to_field_list(&vec![output.clone()]).unwrap();
    for f in &list.fields {
        let c = output.columns.iter().position(|col| col.name == f.name).unwrap();
        let expected = output
            .batches
            .iter()
            .flat_map(|b| b.rows.iter())
            .filter(|r| r.valid[c])
            .map(|r| r.time)
            .max();
        assert_eq!(Some(f.last_timestamp), expected);
    }
    assert_eq!(
        list.fields,
        vec![
            field("moisture", DataType::Float, 100000),
            field("other_temp", DataType::Float, 350),
            field("temp", DataType::Float, 100000),
        ]
    );
}

#[test]
fn test_all_null_field_never_appears() {
    let output = PlanOutput {
        columns: vec![column("field1", DataType::Float), column("field4", DataType::Boolean)],
        batches: vec![RecordBatch { rows: vec![row(100, &[true, false])] }],
    };
    let list = to_field_list(&vec![output]).unwrap();
    assert_eq!(list.fields, vec![field("field1", DataType::Float, 100)]);
}

#[test]
fn test_narrowing_the_range_is_monotonic() {
    let output = scattered();
    let ranges = [
        TimestampRange::new(i64::MIN, i64::MAX),
        TimestampRange::new(0, 100001),
        TimestampRange::new(0, 100000),
        TimestampRange::new(40, 351),
        TimestampRange::new(200, 300),
        TimestampRange::new(251, 300),
        TimestampRange::new(300, 200),
    ];
    for wide in ranges {
        let wide_list = to_field_list(&vec![held_to(&output, wide)]).unwrap();
        for narrow in ranges {
            if !(wide.start <= narrow.start && narrow.end <= wide.end) {
                continue;
            }
            let narrow_list = to_field_list(&vec![held_to(&output, narrow)]).unwrap();
            for f in &narrow_list.fields {
                let g = wide_list
                    .fields
                    .iter()
                    .find(|g| g.name == f.name)
                    .expect("narrowing introduced a field");
                assert_eq!(g.data_type, f.data_type);
                assert!(f.last_timestamp <= g.last_timestamp);
            }
        }
    }
    assert_eq!(
        to_field_list(&vec![held_to(&output, TimestampRange::new(200, 300))]),
        Ok(FieldList { fields: vec![field("other_temp", DataType::Float, 250)] })
    );
    assert_eq!(
        to_field_list(&vec![held_to(&output, TimestampRange::new(251, 300))]),
        Ok(FieldList::default())
    );
}

#[test]
fn test_merge_of_disjoint_lists_is_their_union() {
    let a = FieldList {
        fields: vec![field("a", DataType::Float, 5), field("c", DataType::String, 1)],
    };
    let b = FieldList {
        fields: vec![field("b", DataType::Boolean, 9), field("d", DataType::Integer, -3)],
    };
    assert_eq!(
        merge_field_lists(&vec![a, b]),
        Ok(FieldList {
            fields: vec![
                field("a", DataType::Float, 5),
                field("b", DataType::Boolean, 9),
                field("c", DataType::String, 1),
                field("d", DataType::Integer, -3),
            ]
        })
    );
}

#[test]
fn test_merge_of_shared_name_keeps_one_entry_with_the_latest_time() {
    let a = FieldList { fields: vec![field("temp", DataType::Float, 50)] };
    let b = FieldList { fields: vec![field("temp", DataType::Float, 100000)] };
    let expected = Ok(FieldList { fields: vec![field("temp", DataType::Float, 100000)] });
    assert_eq!(merge_field_lists(&vec![a.clone(), b.clone()]), expected);
    assert_eq!(merge_field_lists(&vec![b, a]), expected);
}

#[test]
fn test_merge_of_mismatched_types_fails() {
    let a = FieldList { fields: vec![field("temp", DataType::Float, 50)] };
    let b = FieldList { fields: vec![field("temp", DataType::String, 50)] };
    assert!(merge_field_lists(&vec![a.clone(), b.clone()]).is_err());
    assert!(merge_field_lists(&vec![b, a]).is_err());
}

#[test]
fn test_plan_order_does_not_change_the_field_list() {
    let first = scattered();
    let second = PlanOutput {
        columns: vec![column("reading", DataType::Integer), column("temp", DataType::Float)],
        batches: vec![RecordBatch { rows: vec![row(200000, &[false, true]), row(3, &[true, false])] }],
    };
    let third = PlanOutput { columns: vec![column("zz", DataType::Boolean)], batches: vec![] };
    let orders = [[0, 1, 2], [0, 2, 1], [1, 0, 2], [1, 2, 0], [2, 0, 1], [2, 1, 0]];
    let outputs = [first, second, third];
    let expected = FieldList {
        fields: vec![
            field("moisture", DataType::Float, 100000),
            field("other_temp", DataType::Float, 350),
            field("reading", DataType::Integer, 3),
            field("temp", DataType::Float, 200000),
        ],
    };
    for order in orders {
        let results: Vec<PlanOutput> = order.iter().map(|i| outputs[*i].clone()).collect();
        assert_eq!(to_field_list(&results), Ok(expected.clone()));
    }
}

#[test]
fn test_batch_and_row_order_do_not_change_the_field_list() {
    let output = scattered();
    let expected = to_field_list(&vec![output.clone()]).unwrap();
    let mut reversed = output.clone();
    reversed.batches.reverse();
    for b in reversed.batches.iter_mut() {
        b.rows.reverse();
    }
    assert_eq!(to_field_list(&vec![reversed]), Ok(expected.clone()));
    let flat = PlanOutput {
        columns: output.columns.clone(),
        batches: vec![RecordBatch {
            rows: output.batches.iter().flat_map(|b| b.rows.iter().cloned()).collect(),
        }],
    };
    assert_eq!(to_field_list(&vec![flat]), Ok(expected));
}

#[test]
fn test_measurement_equality_and_table_name_give_identical_plans() {
    let db = Database {
        tables: ["h2o", "o2"]
            .iter()
            .map(|name| Table {
                name: name.to_string(),
                chunks: vec![Chunk {
                    columns: vec![
                        Column { name: "state".to_string(), kind: ColumnKind::Tag },
                        Column {
                            name: "temp".to_string(),
                            kind: ColumnKind::Field(DataType::Float),
                        },
                    ],
                    verdict: PredicateMatch::AtLeastOne,
                }],
            })
            .collect(),
    };
    let planner = InfluxRpcPlanner::new();
    for name in ["h2o", "o2", "NoSuchTable"] {
        let by_measurement = PredicateBuilder::default()
            .timestamp_range(1, 2)
            .add_expr(Expr::equals("_measurement", name))
            .build();
        let by_table = PredicateBuilder::default().timestamp_range(1, 2).table(name).build();
        assert_eq!(planner.field_columns(&db, by_measurement), planner.field_columns(&db, by_table));
    }
}
