//! From the rows that the plans produced to one field list.
//!
//! Each non-null cell of a field column is a sighting of that field at the
//! row's time. The field list of some plan outputs is the summary of all
//! their sightings. It is computed in two steps: every output is reduced to
//! the fields its columns contribute, each with the column's latest time;
//! the contributions are then merged by name.
use vstd::prelude::*;
use crate::batch::{cell, is_latest, observed, populated, PlanOutput, PlanOutputView};
use crate::fieldlist::{
    conflicting, covers, is_field_list_of, listed, merge_field_lists, views_of, AggregationError,
    Field, FieldList, FieldView,
};

verus! {

/// The sightings that column `c` of an output gives: the column's name and
/// type, at each time at which it holds a value.
pub open spec fn sights(o: PlanOutputView, c: int, f: FieldView) -> bool {
    &&& 0 <= c < o.columns.len()
    &&& o.columns[c].name == f.name
    &&& o.columns[c].data_type == f.data_type
    &&& observed(o, c, f.last_timestamp)
}

/// The sightings that the first `n` columns of an output give.
pub open spec fn column_sightings_before(o: PlanOutputView, n: int) -> Set<FieldView> {
    Set::new(|f: FieldView| exists|c: int| c < n && #[trigger] sights(o, c, f))
}

/// All the sightings that an output gives.
pub open spec fn column_sightings(o: PlanOutputView) -> Set<FieldView> {
    Set::new(|f: FieldView| exists|c: int| #[trigger] sights(o, c, f))
}

/// The views of several outputs.
pub open spec fn outputs_of(results: Seq<PlanOutput>) -> Seq<PlanOutputView> {
    Seq::new(results.len(), |p: int| results[p]@)
}

/// All the sightings that some outputs give.
pub open spec fn sightings(results: Seq<PlanOutputView>) -> Set<FieldView> {
    Set::new(
        |f: FieldView|
            exists|p: int|
                0 <= p < results.len() && (#[trigger] column_sightings(results[p])).contains(f),
    )
}

/// `list` is what the first `n` columns of an output contribute: in the
/// order of the columns, one field for each column that holds a value in
/// some row, with the column's name and type and the latest time at which
/// it holds one. A column that holds no value contributes nothing.
pub open spec fn is_contribution(o: PlanOutputView, n: int, list: Seq<FieldView>) -> bool
    decreases n,
{
    if n <= 0 {
        list.len() == 0
    } else if populated(o, n - 1) {
        &&& list.len() > 0
        &&& list.last().name == o.columns[n - 1].name
        &&& list.last().data_type == o.columns[n - 1].data_type
        &&& is_latest(o, n - 1, list.last().last_timestamp)
        &&& is_contribution(o, n - 1, list.drop_last())
    } else {
        is_contribution(o, n - 1, list)
    }
}

/// What the columns contribute covers the sightings they give.
pub proof fn lemma_contribution_covers(o: PlanOutputView, n: int, list: Seq<FieldView>)
    requires
        0 <= n <= o.columns.len(),
        is_contribution(o, n, list),
    ensures
        covers(list, column_sightings_before(o, n)),
    decreases n,
{
    let seen = column_sightings_before(o, n);
    if n > 0 {
        let c = n - 1;
        let less = column_sightings_before(o, c);
        if populated(o, c) {
            let rest = list.drop_last();
            lemma_contribution_covers(o, c, rest);
            assert forall|i: int| 0 <= i < list.len() implies #[trigger] seen.contains(list[i]) by {
                if i < rest.len() {
                    assert(list[i] == rest[i]);
                    assert(less.contains(rest[i]));
                    let k = choose|k: int| k < c && #[trigger] sights(o, k, rest[i]);
                    assert(sights(o, k, list[i]));
                } else {
                    assert(sights(o, c, list[i]));
                }
            }
            assert forall|f: FieldView| #[trigger] seen.contains(f) implies exists|i: int|
                0 <= i < list.len() && (#[trigger] list[i]).name == f.name && list[i].data_type
                    == f.data_type && f.last_timestamp <= list[i].last_timestamp by {
                let k = choose|k: int| k < n && #[trigger] sights(o, k, f);
                if k < c {
                    assert(less.contains(f));
                    let i = choose|i: int|
                        0 <= i < rest.len() && (#[trigger] rest[i]).name == f.name
                            && rest[i].data_type == f.data_type && f.last_timestamp
                            <= rest[i].last_timestamp;
                    assert(list[i] == rest[i]);
                } else {
                    assert(list[list.len() - 1] == list.last());
                }
            }
        } else {
            lemma_contribution_covers(o, c, list);
            assert forall|i: int| 0 <= i < list.len() implies #[trigger] seen.contains(list[i]) by {
                assert(less.contains(list[i]));
                let k = choose|k: int| k < c && #[trigger] sights(o, k, list[i]);
                assert(sights(o, k, list[i]));
            }
            assert forall|f: FieldView| #[trigger] seen.contains(f) implies exists|i: int|
                0 <= i < list.len() && (#[trigger] list[i]).name == f.name && list[i].data_type
                    == f.data_type && f.last_timestamp <= list[i].last_timestamp by {
                let k = choose|k: int| k < n && #[trigger] sights(o, k, f);
                assert(k < c);
                assert(less.contains(f));
            }
        }
    } else {
        assert forall|f: FieldView| !(#[trigger] seen.contains(f)) by {
            if seen.contains(f) {
                let k = choose|k: int| k < n && #[trigger] sights(o, k, f);
            }
        }
    }
}

/// Each list covers the sightings of the output at its place.
pub open spec fn stand_for(lists: Seq<Seq<FieldView>>, results: Seq<PlanOutputView>) -> bool {
    &&& lists.len() == results.len()
    &&& forall|p: int|
        0 <= p < lists.len() ==> covers(#[trigger] lists[p], column_sightings(results[p]))
}

/// A field listed for an output is a sighting of the outputs.
proof fn lemma_listed_is_sighted(
    lists: Seq<Seq<FieldView>>,
    results: Seq<PlanOutputView>,
    f: FieldView,
)
    requires
        stand_for(lists, results),
        listed(lists).contains(f),
    ensures
        sightings(results).contains(f),
{
    let (l, i) = choose|l: int, i: int|
        0 <= l < lists.len() && 0 <= i < lists[l].len() && #[trigger] lists[l][i] == f;
    assert(covers(lists[l], column_sightings(results[l])));
    assert(column_sightings(results[l]).contains(lists[l][i]));
}

/// A sighting of the outputs is matched by a listed field of its name and
/// type, whose time is no earlier.
proof fn lemma_sighted_is_listed(
    lists: Seq<Seq<FieldView>>,
    results: Seq<PlanOutputView>,
    f: FieldView,
) -> (g: FieldView)
    requires
        stand_for(lists, results),
        sightings(results).contains(f),
    ensures
        listed(lists).contains(g),
        g.name == f.name,
        g.data_type == f.data_type,
        f.last_timestamp <= g.last_timestamp,
{
    let p = choose|p: int|
        0 <= p < results.len() && (#[trigger] column_sightings(results[p])).contains(f);
    assert(covers(lists[p], column_sightings(results[p])));
    let i = choose|i: int|
        0 <= i < lists[p].len() && (#[trigger] lists[p][i]).name == f.name && lists[p][i].data_type
            == f.data_type && f.last_timestamp <= lists[p][i].last_timestamp;
    assert(listed(lists).contains(lists[p][i]));
    lists[p][i]
}

/// The fields listed and the sightings of the outputs conflict together or
/// not at all.
proof fn lemma_conflicts_agree(lists: Seq<Seq<FieldView>>, results: Seq<PlanOutputView>)
    requires
        stand_for(lists, results),
    ensures
        conflicting(listed(lists)) <==> conflicting(sightings(results)),
{
    let some = listed(lists);
    let all = sightings(results);
    if conflicting(all) {
        let (f, g) = choose|f: FieldView, g: FieldView|
            #![trigger all.contains(f), all.contains(g)]
            all.contains(f) && all.contains(g) && f.name == g.name && f.data_type != g.data_type;
        let f2 = lemma_sighted_is_listed(lists, results, f);
        let g2 = lemma_sighted_is_listed(lists, results, g);
        assert(some.contains(f2) && some.contains(g2));
    }
    if conflicting(some) {
        let (f, g) = choose|f: FieldView, g: FieldView|
            #![trigger some.contains(f), some.contains(g)]
            some.contains(f) && some.contains(g) && f.name == g.name && f.data_type != g.data_type;
        lemma_listed_is_sighted(lists, results, f);
        lemma_listed_is_sighted(lists, results, g);
        assert(all.contains(f) && all.contains(g));
    }
}

/// A field list of the fields listed is a field list of the sightings of
/// the outputs.
proof fn lemma_field_list_transfers(
    lists: Seq<Seq<FieldView>>,
    results: Seq<PlanOutputView>,
    list: Seq<FieldView>,
)
    requires
        stand_for(lists, results),
        is_field_list_of(list, listed(lists)),
    ensures
        is_field_list_of(list, sightings(results)),
{
    let some = listed(lists);
    let all = sightings(results);
    assert forall|i: int| 0 <= i < list.len() implies #[trigger] all.contains(list[i]) by {
        assert(some.contains(list[i]));
        lemma_listed_is_sighted(lists, results, list[i]);
    }
    assert forall|f: FieldView| #[trigger] all.contains(f) implies exists|i: int|
        0 <= i < list.len() && (#[trigger] list[i]).name == f.name && list[i].data_type
            == f.data_type && f.last_timestamp <= list[i].last_timestamp by {
        let g = lemma_sighted_is_listed(lists, results, f);
        let i = choose|i: int|
            0 <= i < list.len() && (#[trigger] list[i]).name == g.name && list[i].data_type
                == g.data_type && g.last_timestamp <= list[i].last_timestamp;
        assert(list[i].name == f.name);
    }
}

/// An error that names a conflict among the fields listed names one among
/// the sightings of the outputs.
proof fn lemma_witness_transfers(
    lists: Seq<Seq<FieldView>>,
    results: Seq<PlanOutputView>,
    e: AggregationError,
)
    requires
        stand_for(lists, results),
        e.witnesses(listed(lists)),
    ensures
        e.witnesses(sightings(results)),
{
    let some = listed(lists);
    let t1 = choose|t: int| #[trigger]
        some.contains(
            FieldView { name: e.field_name@, data_type: e.existing, last_timestamp: t },
        );
    let t2 = choose|t: int| #[trigger]
        some.contains(
            FieldView { name: e.field_name@, data_type: e.incoming, last_timestamp: t },
        );
    lemma_listed_is_sighted(
        lists,
        results,
        FieldView { name: e.field_name@, data_type: e.existing, last_timestamp: t1 },
    );
    lemma_listed_is_sighted(
        lists,
        results,
        FieldView { name: e.field_name@, data_type: e.incoming, last_timestamp: t2 },
    );
}

/// The latest time at which column `c` holds a value, in one pass over the
/// batches in their order; `None` where it holds none in any row.
pub fn latest_in_column(output: &PlanOutput, c: usize) -> (r: Option<i64>)
    ensures
        r is None <==> forall|t: int| !observed(output@, c as int, t),
        r matches Some(t) ==> is_latest(output@, c as int, t as int),
{
    let ghost o = output@;
    let mut best: Option<i64> = None;
    let mut b: usize = 0;
    while b < output.batches.len()
        invariant
            o == output@,
            b <= output.batches@.len(),
            best matches Some(m) ==> observed(o, c as int, m as int),
            forall|x: int, y: int|
                x < b && #[trigger] cell(o, c as int, x, y) ==> best is Some && o.batches[x][y].time
                    <= best->0,
        decreases output.batches@.len() - b,
    {
        let batch = &output.batches[b];
        let mut r: usize = 0;
        while r < batch.rows.len()
            invariant
                o == output@,
                b < output.batches@.len(),
                *batch == output.batches@[b as int],
                r <= batch.rows@.len(),
                best matches Some(m) ==> observed(o, c as int, m as int),
                forall|x: int, y: int|
                    (x < b || (x == b && y < r)) && #[trigger] cell(o, c as int, x, y) ==> best
                        is Some && o.batches[x][y].time <= best->0,
            decreases batch.rows@.len() - r,
        {
            let row = &batch.rows[r];
            assert(o.batches[b as int][r as int] == row@);
            if c < row.valid.len() && row.valid[c] {
                assert(cell(o, c as int, b as int, r as int));
                let later = match best {
                    Some(m) => m < row.time,
                    None => true,
                };
                if later {
                    best = Some(row.time);
                }
            }
            r += 1;
        }
        b += 1;
    }
    proof {
        if best is None {
            assert forall|t: int| !observed(o, c as int, t) by {
                if observed(o, c as int, t) {
                    let (x, y) = choose|x: int, y: int|
                        #[trigger] cell(o, c as int, x, y) && o.batches[x][y].time == t;
                    assert(cell(o, c as int, x, y));
                }
            }
        } else {
            assert forall|u: int| #[trigger] observed(o, c as int, u) implies u <= best->0 by {
                let (x, y) = choose|x: int, y: int|
                    #[trigger] cell(o, c as int, x, y) && o.batches[x][y].time == u;
                assert(cell(o, c as int, x, y));
            }
        }
    }
    best
}

/// The fields that one output contributes: for each column that holds a
/// value in some row, in the order of the columns, the column's name and
/// type with the latest time at which it holds one.
pub fn populated_fields(output: &PlanOutput) -> (list: FieldList)
    ensures
        is_contribution(output@, output@.columns.len() as int, list@),
        covers(list@, column_sightings(output@)),
{
    let ghost o = output@;
    let mut fields: Vec<Field> = Vec::new();
    let mut c: usize = 0;
    while c < output.columns.len()
        invariant
            o == output@,
            c <= output.columns@.len(),
            is_contribution(o, c as int, Seq::new(fields@.len(), |i: int| fields@[i]@)),
        decreases output.columns@.len() - c,
    {
        let ghost before = Seq::new(fields@.len(), |i: int| fields@[i]@);
        match latest_in_column(output, c) {
            Some(t) => {
                let column = &output.columns[c];
                fields.push(
                    Field { name: column.name.clone(), data_type: column.data_type, last_timestamp: t },
                );
                proof {
                    let after = Seq::new(fields@.len(), |i: int| fields@[i]@);
                    assert(after.drop_last() =~= before);
                    assert(observed(o, c as int, t as int));
                    assert(o.columns[c as int] == column@);
                }
            },
            None => {},
        }
        c += 1;
    }
    let list = FieldList { fields };
    proof {
        assert(list@ =~= Seq::new(fields@.len(), |i: int| fields@[i]@));
        lemma_contribution_covers(o, o.columns.len() as int, list@);
        assert(column_sightings_before(o, o.columns.len() as int) =~= column_sightings(o));
    }
    list
}

/// The field list of what the plans produced: one entry for each field that
/// holds a value in some row of some output, with the latest time at which
/// it holds one, ascending by name. A field that holds no value in any row
/// is left out. One name under two types, in columns that both hold a
/// value, is an error.
pub fn to_field_list(results: &Vec<PlanOutput>) -> (r: Result<FieldList, AggregationError>)
    ensures
        r is Err <==> conflicting(sightings(outputs_of(results@))),
        r matches Ok(list) ==> is_field_list_of(list@, sightings(outputs_of(results@))),
        r matches Err(e) ==> e.witnesses(sightings(outputs_of(results@))),
{
    let mut lists: Vec<FieldList> = Vec::new();
    let mut p: usize = 0;
    while p < results.len()
        invariant
            p <= results@.len(),
            lists@.len() == p,
            forall|q: int|
                0 <= q < p ==> covers((#[trigger] lists@[q])@, column_sightings(results@[q]@)),
        decreases results@.len() - p,
    {
        lists.push(populated_fields(&results[p]));
        p += 1;
    }
    let r = merge_field_lists(&lists);
    proof {
        let ghost ls = views_of(lists@);
        let ghost rs = outputs_of(results@);
        assert(stand_for(ls, rs)) by {
            assert forall|q: int| 0 <= q < ls.len() implies covers(
                #[trigger] ls[q],
                column_sightings(rs[q]),
            ) by {
                assert(covers(lists@[q]@, column_sightings(results@[q]@)));
            }
        }
        lemma_conflicts_agree(ls, rs);
        if r is Ok {
            lemma_field_list_transfers(ls, rs, r->Ok_0@);
        } else {
            lemma_witness_transfers(ls, rs, r->Err_0);
        }
    }
    r
}

} // verus!
