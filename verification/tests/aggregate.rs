//! The aggregator on plan outputs written out by hand.
use field_columns::aggregate::{latest_in_column, populated_fields, to_field_list};
use field_columns::batch::{PlanOutput, RecordBatch, Row};
use field_columns::fieldlist::{
    merge_field_lists, AggregationError, Field, FieldAccumulator, FieldList,
};
use field_columns::schema::{DataType, FieldColumn};

fn column(name: &str, data_type: DataType) -> FieldColumn {
    FieldColumn { name: name.to_string(), data_type }
}

fn row(time: i64, valid: &[bool]) -> Row {
    Row { time, valid: valid.to_vec() }
}

fn batch(rows: Vec<Row>) -> RecordBatch {
    RecordBatch { rows }
}

fn field(name: &str, data_type: DataType, last_timestamp: i64) -> Field {
    Field { name: name.to_string(), data_type, last_timestamp }
}

fn list(fields: Vec<Field>) -> FieldList {
    FieldList { fields }
}

/// `h2o` under `state = MA`: schema moisture, other_temp, temp; two batches.
fn h2o_output() -> PlanOutput {
    PlanOutput {
        columns: vec![
            column("moisture", DataType::Float),
            column("other_temp", DataType::Float),
            column("temp", DataType::Float),
        ],
        batches: vec![
            batch(vec![row(50, &[false, false, true]), row(250, &[false, true, false])]),
            batch(vec![row(100000, &[true, false, true])]),
        ],
    }
}

#[test]
fn test_latest_in_column_is_the_maximum_over_all_batches() {
    let output = h2o_output();
    assert_eq!(latest_in_column(&output, 0), Some(100000));
    assert_eq!(latest_in_column(&output, 1), Some(250));
    assert_eq!(latest_in_column(&output, 2), Some(100000));
}

#[test]
fn test_latest_in_column_does_not_depend_on_row_order() {
    let output = PlanOutput {
        columns: vec![column("temp", DataType::Float)],
        batches: vec![
            batch(vec![row(900, &[true]), row(-5, &[true])]),
            batch(vec![]),
            batch(vec![row(17, &[true]), row(2000, &[false]), row(900, &[true])]),
        ],
    };
    assert_eq!(latest_in_column(&output, 0), Some(900));
}

#[test]
fn test_latest_in_column_none_when_all_null() {
    let output = PlanOutput {
        columns: vec![column("a", DataType::Float), column("b", DataType::Float)],
        batches: vec![batch(vec![row(1, &[true, false]), row(2, &[true, false])])],
    };
    assert_eq!(latest_in_column(&output, 1), None);
}

#[test]
fn test_latest_in_column_none_without_rows_or_past_the_flags() {
    let empty = PlanOutput { columns: vec![column("a", DataType::Float)], batches: vec![] };
    assert_eq!(latest_in_column(&empty, 0), None);
    let short = PlanOutput {
        columns: vec![column("a", DataType::Float), column("b", DataType::Float)],
        batches: vec![batch(vec![row(7, &[true])])],
    };
    assert_eq!(latest_in_column(&short, 0), Some(7));
    assert_eq!(latest_in_column(&short, 1), None);
    assert_eq!(latest_in_column(&short, 5), None);
}

#[test]
fn test_latest_in_column_handles_the_ends_of_the_range() {
    let output = PlanOutput {
        columns: vec![column("a", DataType::Integer)],
        batches: vec![batch(vec![row(i64::MIN, &[true])]), batch(vec![row(i64::MAX, &[true])])],
    };
    assert_eq!(latest_in_column(&output, 0), Some(i64::MAX));
    let lowest = PlanOutput {
        columns: vec![column("a", DataType::Integer)],
        batches: vec![batch(vec![row(i64::MIN, &[true])])],
    };
    assert_eq!(latest_in_column(&lowest, 0), Some(i64::MIN));
}

#[test]
fn test_populated_fields_keeps_schema_order_and_drops_empty_columns() {
    let output = PlanOutput {
        columns: vec![
            column("temp", DataType::Float),
            column("field4", DataType::Boolean),
            column("moisture", DataType::Integer),
        ],
        batches: vec![batch(vec![row(10, &[true, false, true]), row(20, &[true, false, false])])],
    };
    assert_eq!(
        populated_fields(&output),
        list(vec![field("temp", DataType::Float, 20), field("moisture", DataType::Integer, 10)])
    );
}

#[test]
fn test_to_field_list_of_one_output() {
    let fields = to_field_list(&vec![h2o_output()]).unwrap();
    assert_eq!(
        fields,
        list(vec![
            field("moisture", DataType::Float, 100000),
            field("other_temp", DataType::Float, 250),
            field("temp", DataType::Float, 100000),
        ])
    );
}

#[test]
fn test_to_field_list_sorts_whatever_the_schema_order() {
    let output = PlanOutput {
        columns: vec![
            column("zeta", DataType::Float),
            column("Alpha", DataType::String),
            column("alpha", DataType::UInteger),
            column("beta", DataType::Boolean),
        ],
        batches: vec![batch(vec![row(3, &[true, true, true, true])])],
    };
    let names: Vec<String> =
        to_field_list(&vec![output]).unwrap().fields.into_iter().map(|f| f.name).collect();
    assert_eq!(names, vec!["Alpha", "alpha", "beta", "zeta"]);
}

#[test]
fn test_to_field_list_merges_across_outputs() {
    let o2 = PlanOutput {
        columns: vec![column("reading", DataType::Float), column("temp", DataType::Float)],
        batches: vec![batch(vec![row(50, &[true, true]), row(300, &[false, true])])],
    };
    let fields = to_field_list(&vec![h2o_output(), o2]).unwrap();
    assert_eq!(
        fields,
        list(vec![
            field("moisture", DataType::Float, 100000),
            field("other_temp", DataType::Float, 250),
            field("reading", DataType::Float, 50),
            field("temp", DataType::Float, 100000),
        ])
    );
}

#[test]
fn test_to_field_list_empty_inputs() {
    assert_eq!(to_field_list(&vec![]), Ok(FieldList::default()));
    let no_rows = PlanOutput { columns: vec![column("a", DataType::Float)], batches: vec![] };
    assert_eq!(to_field_list(&vec![no_rows]), Ok(FieldList::default()));
    let no_columns = PlanOutput { columns: vec![], batches: vec![batch(vec![row(1, &[])])] };
    assert_eq!(to_field_list(&vec![no_columns]), Ok(FieldList::default()));
}

#[test]
fn test_to_field_list_type_disagreement_is_an_error() {
    let first = PlanOutput {
        columns: vec![column("temp", DataType::Float)],
        batches: vec![batch(vec![row(1, &[true])])],
    };
    let second = PlanOutput {
        columns: vec![column("temp", DataType::Integer)],
        batches: vec![batch(vec![row(2, &[true])])],
    };
    assert_eq!(
        to_field_list(&vec![first, second]),
        Err(AggregationError {
            field_name: "temp".to_string(),
            existing: DataType::Float,
            incoming: DataType::Integer,
        })
    );
}

#[test]
fn test_to_field_list_disagreement_with_an_empty_column_is_no_error() {
    let first = PlanOutput {
        columns: vec![column("temp", DataType::Float)],
        batches: vec![batch(vec![row(1, &[true])])],
    };
    let second = PlanOutput {
        columns: vec![column("temp", DataType::Integer)],
        batches: vec![batch(vec![row(2, &[false])])],
    };
    assert_eq!(
        to_field_list(&vec![first, second]),
        Ok(list(vec![field("temp", DataType::Float, 1)]))
    );
}

#[test]
fn test_merge_field_lists_takes_the_latest_time() {
    let merged = merge_field_lists(&vec![
        list(vec![field("temp", DataType::Float, 50), field("a", DataType::String, 9)]),
        list(vec![field("temp", DataType::Float, 100000)]),
        list(vec![field("temp", DataType::Float, 70)]),
    ]);
    assert_eq!(
        merged,
        Ok(list(vec![field("a", DataType::String, 9), field("temp", DataType::Float, 100000)]))
    );
}

#[test]
fn test_merge_field_lists_of_nothing() {
    assert_eq!(merge_field_lists(&vec![]), Ok(FieldList::default()));
    assert_eq!(
        merge_field_lists(&vec![FieldList::default(), FieldList::default()]),
        Ok(FieldList::default())
    );
}

#[test]
fn test_merge_field_lists_reports_the_conflict() {
    let merged = merge_field_lists(&vec![
        list(vec![field("b", DataType::Boolean, 1)]),
        list(vec![field("a", DataType::Float, 2), field("b", DataType::String, 3)]),
    ]);
    assert_eq!(
        merged,
        Err(AggregationError {
            field_name: "b".to_string(),
            existing: DataType::Boolean,
            incoming: DataType::String,
        })
    );
}

#[test]
fn test_accumulator_absorbs_and_finishes() {
    let mut acc = FieldAccumulator::new();
    assert_eq!(acc.absorb(&field("temp", DataType::Float, 50)), Ok(()));
    assert_eq!(acc.absorb(&field("moisture", DataType::Float, 7)), Ok(()));
    assert_eq!(acc.absorb(&field("temp", DataType::Float, 20)), Ok(()));
    assert_eq!(
        acc.finish(),
        list(vec![field("moisture", DataType::Float, 7), field("temp", DataType::Float, 50)])
    );
}

#[test]
fn test_accumulator_is_unchanged_by_a_clash() {
    let mut acc = FieldAccumulator::new();
    acc.absorb(&field("temp", DataType::Float, 50)).unwrap();
    let err = acc.absorb(&field("temp", DataType::UInteger, 900)).unwrap_err();
    assert_eq!(
        err,
        AggregationError {
            field_name: "temp".to_string(),
            existing: DataType::Float,
            incoming: DataType::UInteger,
        }
    );
    assert_eq!(acc.finish(), list(vec![field("temp", DataType::Float, 50)]));
}

#[test]
fn test_triples_carry_name_type_tag_and_time() {
    let fields = list(vec![
        field("a", DataType::Float, 1),
        field("b", DataType::Integer, -2),
        field("c", DataType::UInteger, 3),
        field("d", DataType::String, 4),
        field("e", DataType::Boolean, 5),
    ]);
    assert_eq!(
        fields.triples(),
        vec![
            ("a".to_string(), "float", 1),
            ("b".to_string(), "integer", -2),
            ("c".to_string(), "unsigned", 3),
            ("d".to_string(), "string", 4),
            ("e".to_string(), "boolean", 5),
        ]
    );
    assert!(FieldList::default().triples().is_empty());
}

#[test]
fn test_type_tags() {
    assert_eq!(DataType::Float.type_tag(), "float");
    assert_eq!(DataType::Integer.type_tag(), "integer");
    assert_eq!(DataType::UInteger.type_tag(), "unsigned");
    assert_eq!(DataType::String.type_tag(), "string");
    assert_eq!(DataType::Boolean.type_tag(), "boolean");
}
