//! What holds of the planner and the aggregator, whatever they are given.
//!
//! Each law is stated over the same relations as the contracts of the
//! functions it is about, so it holds of every result those functions can
//! return.
use vstd::prelude::*;
use crate::aggregate::{column_sightings, sightings, sights};
use crate::batch::{cell, observed, PlanOutputView, RowView};
use crate::catalog::{column_names, declarations, is_merged_schema, TableView};
use crate::fieldlist::{conflicting, field_names, is_field_list_of, is_sorted, listed, FieldView};
use crate::name_order::{lemma_ascending_distinct, lemma_ascending_unique};
use crate::plan::{admits, ScanPlanView};
use crate::planner::{gets_plan, is_plan_for, is_plan_list, plans_before, selects, target_of};
use crate::predicate::{
    measurement_column, measurement_from, measurement_of, passes, row_filters_before,
    row_filters_of, row_matches, same_single_kind, table_name_from, table_name_of, term_holds,
    time_range_from, time_range_of, well_formed, RowFacts, TermView, TimestampRange,
};
use crate::schema::FieldColumnView;

verus! {

/// A field list that is ascending by name holds no name twice.
pub proof fn law_field_names_are_distinct(list: Seq<FieldView>, i: int, j: int)
    requires
        is_sorted(list),
        0 <= i < list.len(),
        0 <= j < list.len(),
        list[i].name == list[j].name,
    ensures
        i == j,
{
    assert(field_names(list)[i] == field_names(list)[j]);
    lemma_ascending_distinct(field_names(list), i, j);
}

/// Sightings have one field list and no other: the result of aggregation is
/// decided by what was sighted, not by the order in which it was sighted.
pub proof fn law_field_list_is_unique(
    seen: Set<FieldView>,
    first: Seq<FieldView>,
    second: Seq<FieldView>,
)
    requires
        is_field_list_of(first, seen),
        is_field_list_of(second, seen),
    ensures
        first == second,
{
    let a = field_names(first);
    let b = field_names(second);
    assert forall|n: Seq<char>| a.contains(n) <==> b.contains(n) by {
        if a.contains(n) {
            let i = choose|i: int| 0 <= i < a.len() && a[i] == n;
            assert(seen.contains(first[i]));
            let j = choose|j: int|
                0 <= j < second.len() && (#[trigger] second[j]).name == first[i].name
                    && second[j].data_type == first[i].data_type && first[i].last_timestamp
                    <= second[j].last_timestamp;
            assert(b[j] == n);
        }
        if b.contains(n) {
            let j = choose|j: int| 0 <= j < b.len() && b[j] == n;
            assert(seen.contains(second[j]));
            let i = choose|i: int|
                0 <= i < first.len() && (#[trigger] first[i]).name == second[j].name
                    && first[i].data_type == second[j].data_type && second[j].last_timestamp
                    <= first[i].last_timestamp;
            assert(a[i] == n);
        }
    }
    lemma_ascending_unique(a, b);
    assert(first.len() == a.len() && second.len() == b.len());
    assert forall|i: int| 0 <= i < first.len() implies first[i] == second[i] by {
        assert(a[i] == b[i]);
        assert(seen.contains(first[i]));
        let j = choose|j: int|
            0 <= j < second.len() && (#[trigger] second[j]).name == first[i].name
                && second[j].data_type == first[i].data_type && first[i].last_timestamp
                <= second[j].last_timestamp;
        assert(b[j] == b[i]);
        lemma_ascending_distinct(b, i, j);
        assert(seen.contains(second[i]));
        let k = choose|k: int|
            0 <= k < first.len() && (#[trigger] first[k]).name == second[i].name
                && first[k].data_type == second[i].data_type && second[i].last_timestamp
                <= first[k].last_timestamp;
        assert(a[k] == a[i]);
        lemma_ascending_distinct(a, i, k);
    }
    assert(first =~= second);
}

/// The time of every entry of a field list is the latest at which its field
/// was sighted: it was sighted then, and never later.
pub proof fn law_last_timestamp_is_latest(
    results: Seq<PlanOutputView>,
    list: Seq<FieldView>,
    i: int,
    f: FieldView,
)
    requires
        is_field_list_of(list, sightings(results)),
        0 <= i < list.len(),
        sightings(results).contains(f),
        f.name == list[i].name,
    ensures
        sightings(results).contains(list[i]),
        f.data_type == list[i].data_type,
        f.last_timestamp <= list[i].last_timestamp,
{
    let seen = sightings(results);
    assert(seen.contains(list[i]));
    let j = choose|j: int|
        0 <= j < list.len() && (#[trigger] list[j]).name == f.name && list[j].data_type
            == f.data_type && f.last_timestamp <= list[j].last_timestamp;
    law_field_names_are_distinct(list, i, j);
}

/// A field that holds no value in any row appears in no field list.
pub proof fn law_unsighted_field_is_absent(
    results: Seq<PlanOutputView>,
    list: Seq<FieldView>,
    name: Seq<char>,
    i: int,
)
    requires
        is_field_list_of(list, sightings(results)),
        forall|f: FieldView| #[trigger] sightings(results).contains(f) ==> f.name != name,
        0 <= i < list.len(),
    ensures
        list[i].name != name,
{
    assert(sightings(results).contains(list[i]));
}

/// No outputs give no sightings, so their field list is empty and nothing
/// conflicts.
pub proof fn law_no_plans_no_fields(list: Seq<FieldView>)
    requires
        is_field_list_of(list, sightings(Seq::<PlanOutputView>::empty())),
    ensures
        list.len() == 0,
        !conflicting(sightings(Seq::<PlanOutputView>::empty())),
{
    let seen = sightings(Seq::<PlanOutputView>::empty());
    assert forall|f: FieldView| !seen.contains(f) by {}
    if list.len() > 0 {
        assert(seen.contains(list[0]));
    }
}

/// Where no table gets a plan, because the predicate selects none or
/// because none that it selects has a field, the plan list is empty.
pub proof fn law_no_candidate_no_plans(
    db: Seq<TableView>,
    predicate: Seq<TermView>,
    plans: Seq<ScanPlanView>,
)
    requires
        is_plan_list(plans, db, predicate),
        forall|i: int| !gets_plan(db, predicate, i),
    ensures
        plans.len() == 0,
{
    lemma_no_plans_before(db, predicate, db.len() as int);
}

proof fn lemma_no_plans_before(db: Seq<TableView>, predicate: Seq<TermView>, n: int)
    requires
        forall|i: int| !gets_plan(db, predicate, i),
    ensures
        plans_before(db, predicate, n) == 0,
    decreases n,
{
    if n > 0 {
        lemma_no_plans_before(db, predicate, n - 1);
    }
}

/// A predicate that names a table which the catalog does not list gets an
/// empty plan list.
pub proof fn law_unknown_table_no_plans(
    db: Seq<TableView>,
    predicate: Seq<TermView>,
    plans: Seq<ScanPlanView>,
)
    requires
        is_plan_list(plans, db, predicate),
        target_of(predicate) is Some,
        forall|i: int| 0 <= i < db.len() ==> (#[trigger] db[i]).name != target_of(predicate)->0,
    ensures
        plans.len() == 0,
{
    law_no_candidate_no_plans(db, predicate, plans);
}

/// The sightings `part` are those of `whole` whose time lies in `range`:
/// what the scans report when they are held to that range.
pub open spec fn held_to_range(
    part: Set<FieldView>,
    whole: Set<FieldView>,
    range: TimestampRange,
) -> bool {
    forall|f: FieldView|
        part.contains(f) <==> whole.contains(f) && range.includes(f.last_timestamp)
}

/// Narrowing the time range never adds a field and never moves a time
/// forward: every entry of the list under the narrow range has an entry of
/// its name and type under the wide range, whose time is no earlier. Nor
/// does narrowing ever bring a conflict about.
pub proof fn law_narrowing_is_monotonic(
    whole: Seq<PlanOutputView>,
    under_narrow: Seq<PlanOutputView>,
    under_wide: Seq<PlanOutputView>,
    narrow: TimestampRange,
    wide: TimestampRange,
    narrow_list: Seq<FieldView>,
    wide_list: Seq<FieldView>,
)
    requires
        wide.start <= narrow.start,
        narrow.end <= wide.end,
        held_to_range(sightings(under_narrow), sightings(whole), narrow),
        held_to_range(sightings(under_wide), sightings(whole), wide),
        is_field_list_of(narrow_list, sightings(under_narrow)),
        is_field_list_of(wide_list, sightings(under_wide)),
    ensures
        forall|i: int|
            0 <= i < narrow_list.len() ==> exists|j: int|
                0 <= j < wide_list.len() && (#[trigger] wide_list[j]).name == (
                #[trigger] narrow_list[i]).name && wide_list[j].data_type
                    == narrow_list[i].data_type && narrow_list[i].last_timestamp
                    <= wide_list[j].last_timestamp,
{
    let few = sightings(under_narrow);
    let many = sightings(under_wide);
    assert forall|i: int| 0 <= i < narrow_list.len() implies exists|j: int|
        0 <= j < wide_list.len() && (#[trigger] wide_list[j]).name == (
        #[trigger] narrow_list[i]).name && wide_list[j].data_type == narrow_list[i].data_type
            && narrow_list[i].last_timestamp <= wide_list[j].last_timestamp by {
        let f = narrow_list[i];
        assert(few.contains(f));
        assert(sightings(whole).contains(f) && narrow.includes(f.last_timestamp));
        assert(wide.includes(f.last_timestamp));
        assert(many.contains(f));
        let j = choose|j: int|
            0 <= j < wide_list.len() && (#[trigger] wide_list[j]).name == f.name
                && wide_list[j].data_type == f.data_type && f.last_timestamp
                <= wide_list[j].last_timestamp;
        assert(wide_list[j].name == narrow_list[i].name);
    }
}

/// What conflicts under a narrow range conflicts under a wide one.
pub proof fn law_narrowing_brings_no_conflict(
    whole: Seq<PlanOutputView>,
    under_narrow: Seq<PlanOutputView>,
    under_wide: Seq<PlanOutputView>,
    narrow: TimestampRange,
    wide: TimestampRange,
)
    requires
        wide.start <= narrow.start,
        narrow.end <= wide.end,
        held_to_range(sightings(under_narrow), sightings(whole), narrow),
        held_to_range(sightings(under_wide), sightings(whole), wide),
        conflicting(sightings(under_narrow)),
    ensures
        conflicting(sightings(under_wide)),
{
    let few = sightings(under_narrow);
    let many = sightings(under_wide);
    let (f, g) = choose|f: FieldView, g: FieldView|
        #![trigger few.contains(f), few.contains(g)]
        few.contains(f) && few.contains(g) && f.name == g.name && f.data_type != g.data_type;
    assert(sightings(whole).contains(f) && narrow.includes(f.last_timestamp));
    assert(sightings(whole).contains(g) && narrow.includes(g.last_timestamp));
    assert(wide.includes(f.last_timestamp) && wide.includes(g.last_timestamp));
    assert(many.contains(f) && many.contains(g));
}

/// Merging two field lists that share no name yields their union: every
/// field of either, unchanged, and nothing else.
pub proof fn law_merge_of_disjoint_lists_is_their_union(
    a: Seq<FieldView>,
    b: Seq<FieldView>,
    merged: Seq<FieldView>,
)
    requires
        is_sorted(a),
        is_sorted(b),
        forall|i: int, j: int|
            0 <= i < a.len() && 0 <= j < b.len() ==> (#[trigger] a[i]).name != (#[trigger] b[j]).name,
        is_field_list_of(merged, listed(seq![a, b])),
    ensures
        forall|f: FieldView| merged.contains(f) <==> a.contains(f) || b.contains(f),
{
    let lists = seq![a, b];
    let seen = listed(lists);
    assert forall|f: FieldView| merged.contains(f) <==> a.contains(f) || b.contains(f) by {
        if merged.contains(f) {
            let k = choose|k: int| 0 <= k < merged.len() && merged[k] == f;
            assert(seen.contains(merged[k]));
            let (l, i) = choose|l: int, i: int|
                0 <= l < lists.len() && 0 <= i < lists[l].len() && #[trigger] lists[l][i] == f;
            if l == 0 {
                assert(a[i] == f);
            } else {
                assert(b[i] == f);
            }
        }
        if a.contains(f) || b.contains(f) {
            if a.contains(f) {
                let i = choose|i: int| 0 <= i < a.len() && a[i] == f;
                assert(lists[0][i] == f);
            } else {
                let i = choose|i: int| 0 <= i < b.len() && b[i] == f;
                assert(lists[1][i] == f);
            }
            assert(seen.contains(f));
            let k = choose|k: int|
                0 <= k < merged.len() && (#[trigger] merged[k]).name == f.name
                    && merged[k].data_type == f.data_type && f.last_timestamp
                    <= merged[k].last_timestamp;
            assert(seen.contains(merged[k]));
            let (l, i) = choose|l: int, i: int|
                0 <= l < lists.len() && 0 <= i < lists[l].len() && #[trigger] lists[l][i]
                    == merged[k];
            if a.contains(f) {
                let x = choose|x: int| 0 <= x < a.len() && a[x] == f;
                if l == 0 {
                    assert(a[i].name == a[x].name);
                    law_field_names_are_distinct(a, i, x);
                } else {
                    assert(a[x].name == b[i].name);
                }
            } else {
                let x = choose|x: int| 0 <= x < b.len() && b[x] == f;
                if l == 1 {
                    assert(b[i].name == b[x].name);
                    law_field_names_are_distinct(b, i, x);
                } else {
                    assert(a[i].name == b[x].name);
                }
            }
            assert(merged[k] == f);
        }
    }
}

/// Where two field lists share a name under one type, merging them yields
/// one entry of that name, with that type and the later of the two times.
pub proof fn law_merge_of_shared_name_keeps_latest(
    a: Seq<FieldView>,
    b: Seq<FieldView>,
    merged: Seq<FieldView>,
    i: int,
    j: int,
) -> (k: int)
    requires
        is_sorted(a),
        is_sorted(b),
        0 <= i < a.len(),
        0 <= j < b.len(),
        a[i].name == b[j].name,
        is_field_list_of(merged, listed(seq![a, b])),
    ensures
        a[i].data_type == b[j].data_type,
        0 <= k < merged.len(),
        merged[k].name == a[i].name,
        merged[k].data_type == a[i].data_type,
        merged[k].last_timestamp == if a[i].last_timestamp >= b[j].last_timestamp {
            a[i].last_timestamp
        } else {
            b[j].last_timestamp
        },
        forall|other: int|
            0 <= other < merged.len() && (#[trigger] merged[other]).name == a[i].name ==> other
                == k,
{
    let lists = seq![a, b];
    let seen = listed(lists);
    assert(lists[0][i] == a[i]);
    assert(lists[1][j] == b[j]);
    assert(seen.contains(a[i]));
    assert(seen.contains(b[j]));
    let k = choose|k: int|
        0 <= k < merged.len() && (#[trigger] merged[k]).name == a[i].name && merged[k].data_type
            == a[i].data_type && a[i].last_timestamp <= merged[k].last_timestamp;
    let k2 = choose|k2: int|
        0 <= k2 < merged.len() && (#[trigger] merged[k2]).name == b[j].name
            && merged[k2].data_type == b[j].data_type && b[j].last_timestamp
            <= merged[k2].last_timestamp;
    law_field_names_are_distinct(merged, k, k2);
    assert(seen.contains(merged[k]));
    let (l, x) = choose|l: int, x: int|
        0 <= l < lists.len() && 0 <= x < lists[l].len() && #[trigger] lists[l][x] == merged[k];
    if l == 0 {
        assert(a[x].name == a[i].name);
        law_field_names_are_distinct(a, x, i);
    } else {
        assert(b[x].name == b[j].name);
        law_field_names_are_distinct(b, x, j);
    }
    assert forall|other: int|
        0 <= other < merged.len() && (#[trigger] merged[other]).name == a[i].name implies other
        == k by {
        law_field_names_are_distinct(merged, other, k);
    }
    k
}

/// Where two field lists give one name two types, their fields conflict,
/// so merging them fails.
pub proof fn law_merge_of_mismatched_types_conflicts(
    a: Seq<FieldView>,
    b: Seq<FieldView>,
    i: int,
    j: int,
)
    requires
        0 <= i < a.len(),
        0 <= j < b.len(),
        a[i].name == b[j].name,
        a[i].data_type != b[j].data_type,
    ensures
        conflicting(listed(seq![a, b])),
{
    let lists = seq![a, b];
    let seen = listed(lists);
    assert(lists[0][i] == a[i]);
    assert(lists[1][j] == b[j]);
    assert(seen.contains(a[i]) && seen.contains(b[j]));
}

/// Outputs that hold the same plan results, in whatever order and however
/// often, give the same sightings, and so the same field list.
pub proof fn law_plan_order_is_irrelevant(
    first: Seq<PlanOutputView>,
    second: Seq<PlanOutputView>,
)
    requires
        forall|p: int| 0 <= p < first.len() ==> second.contains(#[trigger] first[p]),
        forall|p: int| 0 <= p < second.len() ==> first.contains(#[trigger] second[p]),
    ensures
        sightings(first) == sightings(second),
{
    let a = sightings(first);
    let b = sightings(second);
    assert forall|f: FieldView| a.contains(f) <==> b.contains(f) by {
        if a.contains(f) {
            let p = choose|p: int|
                0 <= p < first.len() && (#[trigger] column_sightings(
                    first[p],
                )).contains(f);
            assert(second.contains(first[p]));
            let q = choose|q: int| 0 <= q < second.len() && second[q] == first[p];
            assert(column_sightings(second[q]).contains(f));
        }
        if b.contains(f) {
            let p = choose|p: int|
                0 <= p < second.len() && (#[trigger] column_sightings(
                    second[p],
                )).contains(f);
            assert(first.contains(second[p]));
            let q = choose|q: int| 0 <= q < first.len() && first[q] == second[p];
            assert(column_sightings(first[q]).contains(f));
        }
    }
    assert(a =~= b);
}

/// Some batch of the output holds the row.
pub open spec fn has_row(o: PlanOutputView, row: RowView) -> bool {
    exists|b: int, r: int|
        0 <= b < o.batches.len() && 0 <= r < o.batches[b].len() && #[trigger] o.batches[b][r]
            == row
}

/// Two outputs under one schema that hold the same rows, in whatever order
/// and however split into batches, give the same sightings.
pub proof fn law_batch_order_is_irrelevant(first: PlanOutputView, second: PlanOutputView)
    requires
        first.columns == second.columns,
        forall|row: RowView| has_row(first, row) <==> has_row(second, row),
    ensures
        column_sightings(first) == column_sightings(second),
{
    let a = column_sightings(first);
    let b = column_sightings(second);
    assert forall|f: FieldView| a.contains(f) <==> b.contains(f) by {
        if a.contains(f) {
            let c = choose|c: int| #[trigger] sights(first, c, f);
            lemma_same_rows_same_times(first, second, c, f.last_timestamp);
            assert(sights(second, c, f));
        }
        if b.contains(f) {
            let c = choose|c: int| #[trigger] sights(second, c, f);
            lemma_same_rows_same_times(second, first, c, f.last_timestamp);
            assert(sights(first, c, f));
        }
    }
    assert(a =~= b);
}

proof fn lemma_same_rows_same_times(from: PlanOutputView, to: PlanOutputView, c: int, t: int)
    requires
        forall|row: RowView| has_row(from, row) <==> has_row(to, row),
        observed(from, c, t),
    ensures
        observed(to, c, t),
{
    let (b, r) = choose|b: int, r: int| #[trigger] cell(from, c, b, r) && from.batches[b][r].time == t;
    let row = from.batches[b][r];
    assert(has_row(from, row));
    assert(has_row(to, row));
    let (b2, r2) = choose|b2: int, r2: int|
        0 <= b2 < to.batches.len() && 0 <= r2 < to.batches[b2].len() && #[trigger] to.batches[b2][r2]
            == row;
    assert(cell(to, c, b2, r2));
}

/// A merged schema is decided by the declarations alone.
pub proof fn law_merged_schema_is_unique(
    decls: Set<FieldColumnView>,
    first: Seq<FieldColumnView>,
    second: Seq<FieldColumnView>,
)
    requires
        is_merged_schema(first, decls),
        is_merged_schema(second, decls),
    ensures
        first == second,
{
    let a = column_names(first);
    let b = column_names(second);
    assert forall|n: Seq<char>| a.contains(n) <==> b.contains(n) by {
        if a.contains(n) {
            let i = choose|i: int| 0 <= i < a.len() && a[i] == n;
            assert(decls.contains(first[i]));
            let j = choose|j: int| 0 <= j < second.len() && #[trigger] second[j] == first[i];
            assert(b[j] == n);
        }
        if b.contains(n) {
            let j = choose|j: int| 0 <= j < b.len() && b[j] == n;
            assert(decls.contains(second[j]));
            let i = choose|i: int| 0 <= i < first.len() && #[trigger] first[i] == second[j];
            assert(a[i] == n);
        }
    }
    lemma_ascending_unique(a, b);
    assert(first.len() == a.len() && second.len() == b.len());
    assert forall|i: int| 0 <= i < first.len() implies first[i] == second[i] by {
        assert(a[i] == b[i]);
        assert(decls.contains(first[i]));
        let j = choose|j: int| 0 <= j < second.len() && #[trigger] second[j] == first[i];
        assert(b[j] == b[i]);
        lemma_ascending_distinct(b, i, j);
    }
    assert(first =~= second);
}

/// The plans are decided by the table the predicate is about, its filters
/// and its time range: two predicates that agree on these get the same
/// plans.
pub proof fn law_plans_are_decided_by_target_filters_and_range(
    db: Seq<TableView>,
    p: Seq<TermView>,
    q: Seq<TermView>,
    first: Seq<ScanPlanView>,
    second: Seq<ScanPlanView>,
)
    requires
        target_of(p) == target_of(q),
        row_filters_of(p) == row_filters_of(q),
        time_range_of(p) == time_range_of(q),
        is_plan_list(first, db, p),
        is_plan_list(second, db, q),
    ensures
        first == second,
{
    assert forall|name: Seq<char>| selects(p, name) == selects(q, name) by {}
    lemma_same_selection_same_count(db, p, q, db.len() as int);
    assert forall|k: int| 0 <= k < first.len() implies first[k] == second[k] by {
        let i = lemma_plan_has_table(db, p, db.len() as int, k);
        lemma_same_selection_same_count(db, p, q, i);
        assert(gets_plan(db, p, i));
        assert(gets_plan(db, q, i));
        assert(is_plan_for(first[k], db[i], p));
        assert(is_plan_for(second[k], db[i], q));
        law_merged_schema_is_unique(declarations(db[i]), first[k].fields, second[k].fields);
    }
    assert(first =~= second);
}

/// A measurement equality without a table name resolves to the very plans
/// of that name given as the table name, the other terms being the same.
pub proof fn law_measurement_resolves_like_table_name(
    db: Seq<TableView>,
    by_measurement: Seq<TermView>,
    by_table: Seq<TermView>,
    first: Seq<ScanPlanView>,
    second: Seq<ScanPlanView>,
)
    requires
        table_name_of(by_measurement) is None,
        measurement_of(by_measurement) is Some,
        table_name_of(by_table) == measurement_of(by_measurement),
        row_filters_of(by_table) == row_filters_of(by_measurement),
        time_range_of(by_table) == time_range_of(by_measurement),
        is_plan_list(first, db, by_measurement),
        is_plan_list(second, db, by_table),
    ensures
        first == second,
{
    law_plans_are_decided_by_target_filters_and_range(db, by_measurement, by_table, first, second);
}

proof fn lemma_same_selection_same_count(
    db: Seq<TableView>,
    p: Seq<TermView>,
    q: Seq<TermView>,
    n: int,
)
    requires
        forall|name: Seq<char>| selects(p, name) == selects(q, name),
    ensures
        plans_before(db, p, n) == plans_before(db, q, n),
        forall|i: int| gets_plan(db, p, i) == gets_plan(db, q, i),
    decreases n,
{
    assert forall|i: int| gets_plan(db, p, i) == gets_plan(db, q, i) by {
        if 0 <= i < db.len() {
            assert(selects(p, db[i].name) == selects(q, db[i].name));
        }
    }
    if n > 0 {
        lemma_same_selection_same_count(db, p, q, n - 1);
    }
}

/// Every place below the count of plans belongs to a table that gets one.
proof fn lemma_plan_has_table(db: Seq<TableView>, predicate: Seq<TermView>, n: int, k: int) -> (i:
    int)
    requires
        0 <= k < plans_before(db, predicate, n),
    ensures
        0 <= i < n,
        gets_plan(db, predicate, i),
        plans_before(db, predicate, i) == k,
    decreases n,
{
    if k < plans_before(db, predicate, n - 1) {
        lemma_plan_has_table(db, predicate, n - 1, k)
    } else {
        n - 1
    }
}

/// No scan of a well-formed predicate carries a filter on the reserved
/// measurement column: the equality is resolved by the planner and is not
/// handed on.
pub proof fn law_plans_carry_no_measurement_filter(
    db: Seq<TableView>,
    predicate: Seq<TermView>,
    plans: Seq<ScanPlanView>,
    k: int,
    f: int,
)
    requires
        well_formed(predicate),
        is_plan_list(plans, db, predicate),
        0 <= k < plans.len(),
        0 <= f < plans[k].filters.len(),
    ensures
        plans[k].filters[f].column != measurement_column(),
{
    let i = lemma_plan_has_table(db, predicate, db.len() as int, k);
    assert(gets_plan(db, predicate, i));
    assert(is_plan_for(plans[k], db[i], predicate));
    lemma_filters_are_terms(predicate, predicate.len() as int, f);
}

proof fn lemma_filters_are_terms(terms: Seq<TermView>, n: int, f: int)
    requires
        0 <= n <= terms.len(),
        0 <= f < row_filters_before(terms, n).len(),
    ensures
        exists|i: int|
            0 <= i < n && #[trigger] terms[i] == TermView::TagExpr(row_filters_before(terms, n)[f]),
    decreases n,
{
    if n > 0 {
        let rest = row_filters_before(terms, n - 1);
        if terms[n - 1] is TagExpr && f == rest.len() {
            assert(terms[n - 1] == TermView::TagExpr(row_filters_before(terms, n)[f]));
        } else {
            lemma_filters_are_terms(terms, n - 1, f);
            let i = choose|i: int|
                0 <= i < n - 1 && #[trigger] terms[i] == TermView::TagExpr(rest[f]);
            assert(terms[i] == TermView::TagExpr(row_filters_before(terms, n)[f]));
        }
    }
}

/// Where a table term stands in a well-formed predicate, it is the one the
/// predicate's table name is read from; so for a measurement term and for a
/// range term.
proof fn lemma_single_terms_are_read(terms: Seq<TermView>, k: int, from: int)
    requires
        well_formed(terms),
        0 <= from <= k < terms.len(),
        forall|j: int| from <= j < k ==> !same_single_kind(#[trigger] terms[j], terms[k]),
    ensures
        terms[k] matches TermView::TableEquals(name) ==> table_name_from(terms, from) == Some(
            name,
        ),
        terms[k] matches TermView::MeasurementEquals(name) ==> measurement_from(terms, from)
            == Some(name),
        terms[k] matches TermView::TimeRange(range) ==> time_range_from(terms, from) == Some(
            range,
        ),
    decreases k - from,
{
    if from < k {
        assert(!same_single_kind(terms[from], terms[k]));
        lemma_single_terms_are_read(terms, k, from + 1);
    }
}

/// What is read from a predicate stands in it as a term.
proof fn lemma_read_terms_stand(terms: Seq<TermView>, from: int)
    requires
        0 <= from,
    ensures
        table_name_from(terms, from) matches Some(name) ==> exists|k: int|
            from <= k < terms.len() && #[trigger] terms[k] == TermView::TableEquals(name),
        measurement_from(terms, from) matches Some(name) ==> exists|k: int|
            from <= k < terms.len() && #[trigger] terms[k] == TermView::MeasurementEquals(name),
        time_range_from(terms, from) matches Some(range) ==> exists|k: int|
            from <= k < terms.len() && #[trigger] terms[k] == TermView::TimeRange(range),
    decreases terms.len() - from,
{
    if from < terms.len() {
        lemma_read_terms_stand(terms, from + 1);
        if table_name_from(terms, from) is Some {
            let name = table_name_from(terms, from)->0;
            if terms[from] is TableEquals {
                assert(terms[from] == TermView::TableEquals(name));
            } else {
                let k = choose|k: int|
                    from + 1 <= k < terms.len() && #[trigger] terms[k] == TermView::TableEquals(
                        name,
                    );
                assert(terms[k] == TermView::TableEquals(name));
            }
        }
        if measurement_from(terms, from) is Some {
            let name = measurement_from(terms, from)->0;
            if terms[from] is MeasurementEquals {
                assert(terms[from] == TermView::MeasurementEquals(name));
            } else {
                let k = choose|k: int|
                    from + 1 <= k < terms.len() && #[trigger] terms[k]
                        == TermView::MeasurementEquals(name);
                assert(terms[k] == TermView::MeasurementEquals(name));
            }
        }
        if time_range_from(terms, from) is Some {
            let range = time_range_from(terms, from)->0;
            if terms[from] is TimeRange {
                assert(terms[from] == TermView::TimeRange(range));
            } else {
                let k = choose|k: int|
                    from + 1 <= k < terms.len() && #[trigger] terms[k] == TermView::TimeRange(
                        range,
                    );
                assert(terms[k] == TermView::TimeRange(range));
            }
        }
    }
}

/// Every filter term among the first `n` terms is among their filters.
proof fn lemma_terms_are_filters(terms: Seq<TermView>, n: int, k: int)
    requires
        0 <= k < n <= terms.len(),
        terms[k] is TagExpr,
    ensures
        exists|f: int|
            0 <= f < row_filters_before(terms, n).len() && #[trigger] row_filters_before(
                terms,
                n,
            )[f] == terms[k]->TagExpr_0,
    decreases n,
{
    let filters = row_filters_before(terms, n);
    if k == n - 1 {
        assert(filters[filters.len() - 1] == terms[k]->TagExpr_0);
    } else {
        lemma_terms_are_filters(terms, n - 1, k);
        let rest = row_filters_before(terms, n - 1);
        let f = choose|f: int| 0 <= f < rest.len() && #[trigger] rest[f] == terms[k]->TagExpr_0;
        assert(filters[f] == terms[k]->TagExpr_0);
    }
}

/// The predicate names one table exactly and asks for another as the
/// measurement. The table name decides the plans, so the measurement is not
/// consulted, though no row can satisfy both.
pub open spec fn names_two_tables(predicate: Seq<TermView>) -> bool {
    table_name_of(predicate) is Some && measurement_of(predicate) is Some && table_name_of(
        predicate,
    ) != measurement_of(predicate)
}

/// The scan of a table admits exactly the rows of that table which match
/// the predicate, unless the predicate names two tables.
pub proof fn law_scan_admits_the_matching_rows(
    db: Seq<TableView>,
    predicate: Seq<TermView>,
    plans: Seq<ScanPlanView>,
    i: int,
    row: RowFacts,
)
    requires
        well_formed(predicate),
        !names_two_tables(predicate),
        is_plan_list(plans, db, predicate),
        gets_plan(db, predicate, i),
    ensures
        admits(plans[plans_before(db, predicate, i)], row) <==> row_matches(
            predicate,
            db[i].name,
            row,
        ),
{
    let plan = plans[plans_before(db, predicate, i)];
    let table = db[i].name;
    assert(is_plan_for(plan, db[i], predicate));
    lemma_read_terms_stand(predicate, 0);
    if row_matches(predicate, table, row) {
        assert forall|f: int| 0 <= f < plan.filters.len() implies passes(
            #[trigger] plan.filters[f],
            row,
        ) by {
            lemma_filters_are_terms(predicate, predicate.len() as int, f);
            let k = choose|k: int|
                0 <= k < predicate.len() && #[trigger] predicate[k] == TermView::TagExpr(
                    row_filters_before(predicate, predicate.len() as int)[f],
                );
            assert(term_holds(predicate[k], table, row));
        }
        if plan.range is Some {
            let range = plan.range->0;
            let k = choose|k: int|
                0 <= k < predicate.len() && #[trigger] predicate[k] == TermView::TimeRange(range);
            assert(term_holds(predicate[k], table, row));
        }
    }
    if admits(plan, row) {
        assert forall|k: int| 0 <= k < predicate.len() implies term_holds(
            #[trigger] predicate[k],
            table,
            row,
        ) by {
            lemma_first_of_its_kind(predicate, k);
            lemma_single_terms_are_read(predicate, k, 0);
            if predicate[k] is TagExpr {
                lemma_terms_are_filters(predicate, predicate.len() as int, k);
                let f = choose|f: int|
                    0 <= f < plan.filters.len() && #[trigger] plan.filters[f]
                        == predicate[k]->TagExpr_0;
                assert(passes(plan.filters[f], row));
            }
        }
    }
}

/// In a well-formed predicate no term of a single kind has one of its kind
/// before it.
proof fn lemma_first_of_its_kind(terms: Seq<TermView>, k: int)
    requires
        well_formed(terms),
        0 <= k < terms.len(),
    ensures
        forall|j: int| 0 <= j < k ==> !same_single_kind(#[trigger] terms[j], terms[k]),
{
}

/// No row of a table that the predicate does not select matches it.
pub proof fn law_unselected_table_holds_no_match(
    predicate: Seq<TermView>,
    table: Seq<char>,
    row: RowFacts,
)
    requires
        !selects(predicate, table),
    ensures
        !row_matches(predicate, table, row),
{
    lemma_read_terms_stand(predicate, 0);
    if table_name_of(predicate) is Some {
        let name = table_name_of(predicate)->0;
        let k = choose|k: int|
            0 <= k < predicate.len() && #[trigger] predicate[k] == TermView::TableEquals(name);
        assert(!term_holds(predicate[k], table, row));
    } else {
        let name = measurement_of(predicate)->0;
        let k = choose|k: int|
            0 <= k < predicate.len() && #[trigger] predicate[k] == TermView::MeasurementEquals(
                name,
            );
        assert(!term_holds(predicate[k], table, row));
    }
}

/// `narrow` is `wide` but for its time ranges, each of which lies within
/// the range at its place in `wide`.
pub open spec fn narrows(narrow: Seq<TermView>, wide: Seq<TermView>) -> bool {
    &&& narrow.len() == wide.len()
    &&& forall|i: int|
        0 <= i < narrow.len() ==> (#[trigger] narrow[i]) == wide[i] || (narrow[i] is TimeRange
            && wide[i] is TimeRange && wide[i]->TimeRange_0.start <= narrow[i]->TimeRange_0.start
            && narrow[i]->TimeRange_0.end <= wide[i]->TimeRange_0.end)
}

/// Narrowing the time range of a predicate never makes a row match that
/// did not match before.
pub proof fn law_narrowing_matches_no_more_rows(
    narrow: Seq<TermView>,
    wide: Seq<TermView>,
    table: Seq<char>,
    row: RowFacts,
)
    requires
        narrows(narrow, wide),
        row_matches(narrow, table, row),
    ensures
        row_matches(wide, table, row),
{
    assert forall|i: int| 0 <= i < wide.len() implies term_holds(#[trigger] wide[i], table, row) by {
        assert(term_holds(narrow[i], table, row));
    }
}

/// A row as it is stored: what a predicate asks of it, and the names of the
/// fields in which it holds a value.
pub struct StoredRow {
    pub facts: RowFacts,
    pub fields: Set<Seq<char>>,
}

/// `output` is what a faithful run of the scan over the rows of its table
/// yields: it has the columns of the scan, and a column holds a value at a
/// time exactly when some row that the scan admits holds the column's field
/// at that time.
pub open spec fn runs_faithfully(
    output: PlanOutputView,
    plan: ScanPlanView,
    rows: Seq<StoredRow>,
) -> bool {
    &&& output.columns == plan.fields
    &&& forall|c: int, t: int|
        0 <= c < plan.fields.len() ==> (#[trigger] observed(output, c, t) <==> holds_at(
            plan,
            rows,
            c,
            t,
        ))
}

/// Some row that the scan admits holds the field of column `c` at time `t`.
pub open spec fn holds_at(plan: ScanPlanView, rows: Seq<StoredRow>, c: int, t: int) -> bool {
    exists|r: int|
        0 <= r < rows.len() && admits(plan, (#[trigger] rows[r]).facts) && rows[r].fields.contains(
            plan.fields[c].name,
        ) && rows[r].facts.time == t
}

/// Every scan was run faithfully over the rows of its table.
pub open spec fn all_run_faithfully(
    db: Seq<TableView>,
    stored: Seq<Seq<StoredRow>>,
    predicate: Seq<TermView>,
    plans: Seq<ScanPlanView>,
    outputs: Seq<PlanOutputView>,
) -> bool {
    &&& stored.len() == db.len()
    &&& outputs.len() == plans.len()
    &&& forall|i: int| #[trigger]
        gets_plan(db, predicate, i) ==> runs_faithfully(
            outputs[plans_before(db, predicate, i)],
            plans[plans_before(db, predicate, i)],
            stored[i],
        )
}

/// From request to answer, nothing that matches is lost: where the scans
/// are run faithfully, every row that matches the predicate and holds a
/// value in a field that its table declares is covered by the entry of that
/// field, whose time is no earlier than the row's. The predicate must not
/// name two tables.
pub proof fn law_matching_rows_are_covered(
    db: Seq<TableView>,
    stored: Seq<Seq<StoredRow>>,
    predicate: Seq<TermView>,
    plans: Seq<ScanPlanView>,
    outputs: Seq<PlanOutputView>,
    list: Seq<FieldView>,
    i: int,
    r: int,
    field: FieldColumnView,
) -> (k: int)
    requires
        well_formed(predicate),
        !names_two_tables(predicate),
        is_plan_list(plans, db, predicate),
        all_run_faithfully(db, stored, predicate, plans, outputs),
        is_field_list_of(list, sightings(outputs)),
        0 <= i < db.len(),
        0 <= r < stored[i].len(),
        row_matches(predicate, db[i].name, stored[i][r].facts),
        declarations(db[i]).contains(field),
        stored[i][r].fields.contains(field.name),
    ensures
        0 <= k < list.len(),
        list[k].name == field.name,
        list[k].data_type == field.data_type,
        stored[i][r].facts.time <= list[k].last_timestamp,
{
    let row = stored[i][r];
    if !selects(predicate, db[i].name) {
        law_unselected_table_holds_no_match(predicate, db[i].name, row.facts);
    }
    assert(gets_plan(db, predicate, i));
    let p = plans_before(db, predicate, i);
    let plan = plans[p];
    let output = outputs[p];
    assert(is_plan_for(plan, db[i], predicate));
    assert(runs_faithfully(output, plan, stored[i]));
    law_scan_admits_the_matching_rows(db, predicate, plans, i, row.facts);
    let c = choose|c: int| 0 <= c < plan.fields.len() && #[trigger] plan.fields[c] == field;
    assert(holds_at(plan, stored[i], c, row.facts.time));
    assert(observed(output, c, row.facts.time));
    let sighting = FieldView {
        name: field.name,
        data_type: field.data_type,
        last_timestamp: row.facts.time,
    };
    assert(sights(output, c, sighting));
    assert(column_sightings(outputs[p]).contains(sighting));
    assert(sightings(outputs).contains(sighting));
    let k = choose|k: int|
        0 <= k < list.len() && (#[trigger] list[k]).name == sighting.name && list[k].data_type
            == sighting.data_type && sighting.last_timestamp <= list[k].last_timestamp;
    k
}

/// From request to answer, nothing is made up: where the scans are run
/// faithfully, every entry of the field list comes from a row that matches
/// the predicate and holds a value in the entry's field at the entry's
/// time. So a field that holds no value in any matching row has no entry.
/// The predicate must not name two tables.
pub proof fn law_entries_come_from_matching_rows(
    db: Seq<TableView>,
    stored: Seq<Seq<StoredRow>>,
    predicate: Seq<TermView>,
    plans: Seq<ScanPlanView>,
    outputs: Seq<PlanOutputView>,
    list: Seq<FieldView>,
    k: int,
) -> (at: (int, int))
    requires
        well_formed(predicate),
        !names_two_tables(predicate),
        is_plan_list(plans, db, predicate),
        all_run_faithfully(db, stored, predicate, plans, outputs),
        is_field_list_of(list, sightings(outputs)),
        0 <= k < list.len(),
    ensures
        0 <= at.0 < db.len(),
        0 <= at.1 < stored[at.0].len(),
        row_matches(predicate, db[at.0].name, stored[at.0][at.1].facts),
        stored[at.0][at.1].fields.contains(list[k].name),
        stored[at.0][at.1].facts.time == list[k].last_timestamp,
        declarations(db[at.0]).contains(
            FieldColumnView { name: list[k].name, data_type: list[k].data_type },
        ),
{
    let entry = list[k];
    assert(sightings(outputs).contains(entry));
    let p = choose|p: int|
        0 <= p < outputs.len() && (#[trigger] column_sightings(outputs[p])).contains(entry);
    let c = choose|c: int| #[trigger] sights(outputs[p], c, entry);
    let i = lemma_plan_has_table(db, predicate, db.len() as int, p);
    let plan = plans[p];
    assert(gets_plan(db, predicate, i));
    assert(is_plan_for(plan, db[i], predicate));
    assert(runs_faithfully(outputs[p], plan, stored[i]));
    assert(observed(outputs[p], c, entry.last_timestamp));
    assert(holds_at(plan, stored[i], c, entry.last_timestamp));
    let r = choose|r: int|
        0 <= r < stored[i].len() && admits(plan, (#[trigger] stored[i][r]).facts)
            && stored[i][r].fields.contains(plan.fields[c].name) && stored[i][r].facts.time
            == entry.last_timestamp;
    law_scan_admits_the_matching_rows(db, predicate, plans, i, stored[i][r].facts);
    assert(declarations(db[i]).contains(plan.fields[c]));
    (i, r)
}

} // verus!
