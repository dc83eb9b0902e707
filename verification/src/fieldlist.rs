//! Fields, field lists, and the reduction of many sightings of a field to
//! one entry of a list.
//!
//! A *sighting* is one piece of evidence that a field exists: its name, its
//! declared type, and a time at which it held a value. A field list
//! summarises a set of sightings: one entry per name, with the latest time
//! sighted, in ascending order of the names. Sightings of one name under two
//! types cannot be summarised; they are reported as an error.
use vstd::prelude::*;
use crate::name_map::{index_of, lemma_binding, NameMap};
use crate::name_order::{name_lt, strictly_ascending};
use crate::schema::{type_tag_of, DataType};

verus! {

/// A field: its name, its type, and the latest time at which it held a value.
#[derive(Clone, Debug, PartialEq, Eq)]
pub struct Field {
    pub name: String,
    pub data_type: DataType,
    pub last_timestamp: i64,
}

/// The mathematical value of a [`Field`]; also the shape of a sighting.
pub struct FieldView {
    pub name: Seq<char>,
    pub data_type: DataType,
    pub last_timestamp: int,
}

impl View for Field {
    type V = FieldView;

    open spec fn view(&self) -> FieldView {
        FieldView {
            name: self.name@,
            data_type: self.data_type,
            last_timestamp: self.last_timestamp as int,
        }
    }
}

/// A list of fields. Lists produced by this crate are ascending by name.
#[derive(Clone, Debug, PartialEq, Eq)]
pub struct FieldList {
    pub fields: Vec<Field>,
}

impl View for FieldList {
    type V = Seq<FieldView>;

    open spec fn view(&self) -> Seq<FieldView> {
        Seq::new(self.fields@.len(), |i: int| self.fields@[i]@)
    }
}

impl Default for FieldList {
    /// The empty list.
    fn default() -> (list: FieldList)
        ensures
            list@ == Seq::<FieldView>::empty(),
    {
        let list = FieldList { fields: Vec::new() };
        assert(list@ =~= Seq::<FieldView>::empty());
        list
    }
}

/// A field as it travels on the wire: its name, the tag of its type, and its
/// latest time.
pub open spec fn triple_of(field: FieldView) -> (Seq<char>, Seq<char>, int) {
    (field.name, type_tag_of(field.data_type), field.last_timestamp)
}

impl FieldList {
    /// The list as it travels on the wire: for each field, in the order of
    /// the list, its name, the tag of its type, and its latest time.
    pub fn triples(&self) -> (wire: Vec<(String, &'static str, i64)>)
        ensures
            wire@.len() == self@.len(),
            forall|i: int|
                0 <= i < wire@.len() ==> ((#[trigger] wire@[i]).0@, wire@[i].1@, wire@[i].2 as int)
                    == triple_of(self@[i]),
    {
        let mut wire: Vec<(String, &'static str, i64)> = Vec::new();
        let mut i: usize = 0;
        while i < self.fields.len()
            invariant
                i <= self.fields@.len(),
                wire@.len() == i,
                forall|k: int|
                    0 <= k < i ==> ((#[trigger] wire@[k]).0@, wire@[k].1@, wire@[k].2 as int)
                        == triple_of(self@[k]),
            decreases self.fields@.len() - i,
        {
            let field = &self.fields[i];
            wire.push((field.name.clone(), field.data_type.type_tag(), field.last_timestamp));
            i += 1;
        }
        wire
    }
}

/// The names of a list, in its order.
pub open spec fn field_names(list: Seq<FieldView>) -> Seq<Seq<char>> {
    Seq::new(list.len(), |i: int| list[i].name)
}

/// The list is strictly ascending by name, so it names no field twice.
pub open spec fn is_sorted(list: Seq<FieldView>) -> bool {
    strictly_ascending(field_names(list))
}

/// Two sightings in the set give one name two types.
pub open spec fn conflicting(seen: Set<FieldView>) -> bool {
    exists|f: FieldView, g: FieldView|
        #![trigger seen.contains(f), seen.contains(g)]
        seen.contains(f) && seen.contains(g) && f.name == g.name && f.data_type != g.data_type
}

/// `list` covers the sightings `seen`: each entry is itself a sighting, and
/// each sighting is matched by an entry of its name and type whose time is
/// no earlier than its own.
pub open spec fn covers(list: Seq<FieldView>, seen: Set<FieldView>) -> bool {
    &&& forall|i: int| 0 <= i < list.len() ==> #[trigger] seen.contains(list[i])
    &&& forall|f: FieldView| #[trigger]
        seen.contains(f) ==> exists|i: int|
            0 <= i < list.len() && (#[trigger] list[i]).name == f.name && list[i].data_type
                == f.data_type && f.last_timestamp <= list[i].last_timestamp
}

/// `list` is the field list of the sightings `seen`: it covers them and is
/// strictly ascending by name. So it holds one entry for each name sighted,
/// with the type sighted and the latest time sighted, and nothing else.
pub open spec fn is_field_list_of(list: Seq<FieldView>, seen: Set<FieldView>) -> bool {
    is_sorted(list) && covers(list, seen)
}

/// What an accumulator keeps of a name: its type and the latest time sighted.
#[derive(Clone, Copy, Debug, PartialEq, Eq, Structural)]
pub struct Slot {
    pub data_type: DataType,
    pub last_timestamp: i64,
}

/// The slots `m` summarise the sightings `seen`.
pub open spec fn summarizes(m: Map<Seq<char>, Slot>, seen: Set<FieldView>) -> bool {
    &&& forall|f: FieldView| #[trigger]
        seen.contains(f) ==> m.dom().contains(f.name) && m[f.name].data_type == f.data_type
            && f.last_timestamp <= m[f.name].last_timestamp
    &&& forall|n: Seq<char>| #[trigger]
        m.dom().contains(n) ==> seen.contains(
            FieldView {
                name: n,
                data_type: m[n].data_type,
                last_timestamp: m[n].last_timestamp as int,
            },
        )
}

/// The slots already hold the field's name under another type.
pub open spec fn clashes(m: Map<Seq<char>, Slot>, field: FieldView) -> bool {
    m.dom().contains(field.name) && m[field.name].data_type != field.data_type
}

/// The later of the time already kept for `name`, if any, and `t`.
pub open spec fn later_of(m: Map<Seq<char>, Slot>, name: Seq<char>, t: i64) -> i64 {
    if m.dom().contains(name) && m[name].last_timestamp > t {
        m[name].last_timestamp
    } else {
        t
    }
}

/// The slots after taking in one more field.
pub open spec fn absorbed(m: Map<Seq<char>, Slot>, field: Field) -> Map<Seq<char>, Slot> {
    m.insert(
        field.name@,
        Slot {
            data_type: field.data_type,
            last_timestamp: later_of(m, field.name@, field.last_timestamp),
        },
    )
}

/// Taking in a field that dominates all the new sightings keeps the slots a
/// summary; a clash shows that the sightings conflict.
pub proof fn lemma_absorb(
    m: Map<Seq<char>, Slot>,
    seen: Set<FieldView>,
    more: Set<FieldView>,
    field: Field,
)
    requires
        summarizes(m, seen),
        seen.subset_of(more),
        more.contains(field@),
        forall|f: FieldView| #[trigger]
            more.contains(f) ==> seen.contains(f) || (f.name == field@.name && f.data_type
                == field@.data_type && f.last_timestamp <= field@.last_timestamp),
    ensures
        clashes(m, field@) ==> conflicting(more),
        !clashes(m, field@) ==> summarizes(absorbed(m, field), more),
{
    if clashes(m, field@) {
        let g = FieldView {
            name: field@.name,
            data_type: m[field@.name].data_type,
            last_timestamp: m[field@.name].last_timestamp as int,
        };
        assert(seen.contains(g));
        assert(more.contains(g) && more.contains(field@));
    } else {
        let m2 = absorbed(m, field);
        assert forall|n: Seq<char>| #[trigger] m2.dom().contains(n) implies more.contains(
            FieldView {
                name: n,
                data_type: m2[n].data_type,
                last_timestamp: m2[n].last_timestamp as int,
            },
        ) by {
            if n == field@.name {
                if m.dom().contains(n) && m[n].last_timestamp > field.last_timestamp {
                    assert(seen.contains(
                        FieldView {
                            name: n,
                            data_type: m[n].data_type,
                            last_timestamp: m[n].last_timestamp as int,
                        },
                    ));
                }
            } else {
                assert(m.dom().contains(n));
            }
        }
    }
}

/// A summary exists only of sightings that do not conflict.
pub proof fn lemma_summary_excludes_conflict(m: Map<Seq<char>, Slot>, seen: Set<FieldView>)
    requires
        summarizes(m, seen),
    ensures
        !conflicting(seen),
{
}

/// A type disagreement met while merging: one name sighted under two types.
#[derive(Clone, Debug, PartialEq, Eq)]
pub struct AggregationError {
    /// The name sighted under two types.
    pub field_name: String,
    /// The type under which the name was held.
    pub existing: DataType,
    /// The type under which it was then sighted.
    pub incoming: DataType,
}

impl AggregationError {
    /// The error names a conflict among the sightings `seen`.
    pub open spec fn witnesses(&self, seen: Set<FieldView>) -> bool {
        &&& self.existing != self.incoming
        &&& exists|t: int| #[trigger]
            seen.contains(
                FieldView { name: self.field_name@, data_type: self.existing, last_timestamp: t },
            )
        &&& exists|t: int| #[trigger]
            seen.contains(
                FieldView { name: self.field_name@, data_type: self.incoming, last_timestamp: t },
            )
    }
}

/// Reduces fields, one at a time, to one slot per name.
pub struct FieldAccumulator {
    slots: NameMap<Slot>,
}

impl View for FieldAccumulator {
    type V = Map<Seq<char>, Slot>;

    closed spec fn view(&self) -> Map<Seq<char>, Slot> {
        self.slots@
    }
}

impl FieldAccumulator {
    /// An accumulator that has taken in nothing.
    pub fn new() -> (acc: Self)
        ensures
            acc@ == Map::<Seq<char>, Slot>::empty(),
    {
        FieldAccumulator { slots: NameMap::new() }
    }

    /// Takes in one field. A name not yet held gets a slot; a name held
    /// under the same type keeps the later time; a name held under another
    /// type is an error, and the accumulator stays as it was.
    pub fn absorb(&mut self, field: &Field) -> (r: Result<(), AggregationError>)
        ensures
            r is Ok <==> !clashes(old(self)@, field@),
            r is Ok ==> final(self)@ == absorbed(old(self)@, *field),
            r matches Err(e) ==> {
                &&& final(self)@ == old(self)@
                &&& e.field_name@ == field.name@
                &&& e.existing == old(self)@[field.name@].data_type
                &&& e.incoming == field.data_type
            },
    {
        let mut last: i64 = field.last_timestamp;
        match self.slots.get(field.name.as_str()) {
            Some(slot) => {
                if slot.data_type != field.data_type {
                    return Err(
                        AggregationError {
                            field_name: field.name.clone(),
                            existing: slot.data_type,
                            incoming: field.data_type,
                        },
                    );
                }
                if slot.last_timestamp > last {
                    last = slot.last_timestamp;
                }
            },
            None => {},
        }
        self.slots.insert(
            field.name.clone(),
            Slot { data_type: field.data_type, last_timestamp: last },
        );
        Ok(())
    }

    /// The list of what was taken in: one field per name, ascending by name.
    pub fn finish(self) -> (list: FieldList)
        ensures
            is_sorted(list@),
            forall|i: int|
                0 <= i < list@.len() ==> self@.dom().contains((#[trigger] list@[i]).name)
                    && self@[list@[i].name].data_type == list@[i].data_type
                    && self@[list@[i].name].last_timestamp == list@[i].last_timestamp,
            forall|n: Seq<char>| #[trigger]
                self@.dom().contains(n) ==> exists|i: int|
                    0 <= i < list@.len() && (#[trigger] list@[i]).name == n,
    {
        let entries = self.slots.into_entries();
        let mut fields: Vec<Field> = Vec::new();
        let mut i: usize = 0;
        while i < entries.len()
            invariant
                i <= entries@.len(),
                fields@.len() == i,
                forall|k: int|
                    0 <= k < i ==> (#[trigger] fields@[k])@ == (FieldView {
                        name: entries@[k].name@,
                        data_type: entries@[k].value.data_type,
                        last_timestamp: entries@[k].value.last_timestamp as int,
                    }),
            decreases entries@.len() - i,
        {
            fields.push(
                Field {
                    name: entries[i].name.clone(),
                    data_type: entries[i].value.data_type,
                    last_timestamp: entries[i].value.last_timestamp,
                },
            );
            i += 1;
        }
        let list = FieldList { fields };
        proof {
            assert forall|a: int, b: int| 0 <= a < b < field_names(list@).len() implies
                name_lt(
                #[trigger] field_names(list@)[a],
                #[trigger] field_names(list@)[b],
            ) by {
                assert(list@[a].name == entries@[a].name@);
                assert(list@[b].name == entries@[b].name@);
            }
            assert forall|k: int| 0 <= k < list@.len() implies self@.dom().contains(
                (#[trigger] list@[k]).name,
            ) && self@[list@[k].name].data_type == list@[k].data_type
                && self@[list@[k].name].last_timestamp == list@[k].last_timestamp by {
                lemma_binding(entries@, k);
            }
            assert forall|n: Seq<char>| #[trigger] self@.dom().contains(n) implies exists|i: int|
                0 <= i < list@.len() && (#[trigger] list@[i]).name == n by {
                let k = index_of(entries@, n);
                assert(list@[k].name == n);
            }
        }
        list
    }
}

/// What finishing a summary yields is the field list of the sightings.
pub proof fn lemma_finish(m: Map<Seq<char>, Slot>, seen: Set<FieldView>, list: Seq<FieldView>)
    requires
        summarizes(m, seen),
        is_sorted(list),
        forall|i: int|
            0 <= i < list.len() ==> m.dom().contains((#[trigger] list[i]).name)
                && m[list[i].name].data_type == list[i].data_type
                && m[list[i].name].last_timestamp == list[i].last_timestamp,
        forall|n: Seq<char>| #[trigger]
            m.dom().contains(n) ==> exists|i: int|
                0 <= i < list.len() && (#[trigger] list[i]).name == n,
    ensures
        is_field_list_of(list, seen),
{
    assert forall|i: int| 0 <= i < list.len() implies #[trigger] seen.contains(list[i]) by {
        assert(m.dom().contains(list[i].name));
    }
    assert forall|f: FieldView| #[trigger] seen.contains(f) implies exists|i: int|
        0 <= i < list.len() && (#[trigger] list[i]).name == f.name && list[i].data_type
            == f.data_type && f.last_timestamp <= list[i].last_timestamp by {
        assert(m.dom().contains(f.name));
        let i = choose|i: int| 0 <= i < list.len() && (#[trigger] list[i]).name == f.name;
        assert(list[i].name == f.name);
    }
}

/// The views of several field lists.
pub open spec fn views_of(lists: Seq<FieldList>) -> Seq<Seq<FieldView>> {
    Seq::new(lists.len(), |l: int| lists[l]@)
}

/// The fields that stand in some list before place `i_lim` of list `l_lim`.
pub open spec fn listed_before(lists: Seq<Seq<FieldView>>, l_lim: int, i_lim: int) -> Set<
    FieldView,
> {
    Set::new(
        |f: FieldView|
            exists|l: int, i: int|
                0 <= l < lists.len() && 0 <= i < lists[l].len() && (l < l_lim || (l == l_lim && i
                    < i_lim)) && #[trigger] lists[l][i] == f,
    )
}

/// All the fields that stand in some list.
pub open spec fn listed(lists: Seq<Seq<FieldView>>) -> Set<FieldView> {
    Set::new(
        |f: FieldView|
            exists|l: int, i: int|
                0 <= l < lists.len() && 0 <= i < lists[l].len() && #[trigger] lists[l][i] == f,
    )
}

/// Merges field lists into one. Fields of one name whose types agree become
/// one entry with the latest of their times; the result is ascending by
/// name. Fields of one name whose types differ are an error.
pub fn merge_field_lists(lists: &Vec<FieldList>) -> (r: Result<FieldList, AggregationError>)
    ensures
        r is Err <==> conflicting(listed(views_of(lists@))),
        r matches Ok(list) ==> is_field_list_of(list@, listed(views_of(lists@))),
        r matches Err(e) ==> e.witnesses(listed(views_of(lists@))),
{
    let ghost all = views_of(lists@);
    let mut acc = FieldAccumulator::new();
    let mut l: usize = 0;
    while l < lists.len()
        invariant
            l <= lists@.len(),
            all == views_of(lists@),
            summarizes(acc@, listed_before(all, l as int, 0)),
        decreases lists@.len() - l,
    {
        let list = &lists[l];
        let mut i: usize = 0;
        while i < list.fields.len()
            invariant
                l < lists@.len(),
                *list == lists@[l as int],
                i <= list.fields@.len(),
                all == views_of(lists@),
                summarizes(acc@, listed_before(all, l as int, i as int)),
            decreases list.fields@.len() - i,
        {
            let field = &list.fields[i];
            let ghost seen = listed_before(all, l as int, i as int);
            let ghost more = listed_before(all, l as int, i + 1);
            let ghost before = acc@;
            proof {
                assert(all[l as int][i as int] == field@);
                assert(more.contains(field@));
                assert(seen.subset_of(more));
                lemma_absorb(before, seen, more, *field);
            }
            match acc.absorb(field) {
                Ok(()) => {},
                Err(e) => {
                    proof {
                        let g = FieldView {
                            name: field@.name,
                            data_type: before[field@.name].data_type,
                            last_timestamp: before[field@.name].last_timestamp as int,
                        };
                        assert(seen.contains(g));
                        assert(listed(all).contains(g));
                        assert(listed(all).contains(field@));
                    }
                    return Err(e);
                },
            }
            i += 1;
        }
        proof {
            assert(listed_before(all, l as int, i as int) =~= listed_before(all, l + 1, 0));
        }
        l += 1;
    }
    proof {
        assert(listed_before(all, l as int, 0) =~= listed(all));
        lemma_summary_excludes_conflict(acc@, listed(all));
    }
    let ghost slots = acc@;
    let list = acc.finish();
    proof {
        lemma_finish(slots, listed(all), list@);
    }
    Ok(list)
}

} // verus!
