//! A map from names to values, held in ascending code-point order.
//!
//! Both merges of this crate, of field schemas across chunks and of fields
//! across plans, reduce many sightings of a name to one binding. `NameMap`
//! is the structure they reduce into: its contents are a mathematical map,
//! and its bindings come out in the order in which results are reported.
use vstd::prelude::*;
use crate::name_order::{
    compare_names, lemma_name_lt_irreflexive, lemma_name_lt_transitive, name_lt, NameOrder,
};

verus! {

/// One binding: a name and the value bound to it.
pub struct Entry<T> {
    pub name: String,
    pub value: T,
}

/// The names of `entries` are strictly ascending.
pub open spec fn ascending<T>(entries: Seq<Entry<T>>) -> bool {
    forall|i: int, j: int|
        #![trigger entries[i], entries[j]]
        0 <= i < j < entries.len() ==> name_lt(entries[i].name@, entries[j].name@)
}

/// Some entry carries `name`.
pub open spec fn binds<T>(entries: Seq<Entry<T>>, name: Seq<char>) -> bool {
    exists|i: int| 0 <= i < entries.len() && (#[trigger] entries[i]).name@ == name
}

/// The position of an entry that carries `name`, where there is one.
pub open spec fn index_of<T>(entries: Seq<Entry<T>>, name: Seq<char>) -> int {
    choose|i: int| 0 <= i < entries.len() && (#[trigger] entries[i]).name@ == name
}

/// The map that a sequence of entries stands for.
pub open spec fn as_map<T>(entries: Seq<Entry<T>>) -> Map<Seq<char>, T> {
    Map::new(
        |n: Seq<char>| binds(entries, n),
        |n: Seq<char>| entries[index_of(entries, n)].value,
    )
}

/// In ascending entries every entry is the one binding of its name.
pub proof fn lemma_binding<T>(entries: Seq<Entry<T>>, i: int)
    requires
        ascending(entries),
        0 <= i < entries.len(),
    ensures
        binds(entries, entries[i].name@),
        index_of(entries, entries[i].name@) == i,
        as_map(entries).dom().contains(entries[i].name@),
        as_map(entries)[entries[i].name@] == entries[i].value,
{
    let name = entries[i].name@;
    let j = index_of(entries, name);
    lemma_name_lt_irreflexive(name);
    if j < i {
        assert(name_lt(entries[j].name@, entries[i].name@));
    } else if i < j {
        assert(name_lt(entries[i].name@, entries[j].name@));
    }
}

/// Putting a new name at its place keeps the order and adds one binding.
proof fn lemma_insert_new<T>(old_entries: Seq<Entry<T>>, idx: int, e: Entry<T>)
    requires
        ascending(old_entries),
        0 <= idx <= old_entries.len(),
        forall|k: int| 0 <= k < idx ==> name_lt((#[trigger] old_entries[k]).name@, e.name@),
        forall|k: int|
            idx <= k < old_entries.len() ==> name_lt(e.name@, (#[trigger] old_entries[k]).name@),
    ensures
        ascending(old_entries.insert(idx, e)),
        as_map(old_entries.insert(idx, e)) == as_map(old_entries).insert(e.name@, e.value),
{
    let new_entries = old_entries.insert(idx, e);
    assert forall|i: int, j: int|
        #![trigger new_entries[i], new_entries[j]]
        0 <= i < j < new_entries.len() implies name_lt(
        new_entries[i].name@,
        new_entries[j].name@,
    ) by {
        let oi = if i < idx { i } else { i - 1 };
        let oj = if j < idx { j } else { j - 1 };
        if i != idx && j != idx {
            assert(name_lt(old_entries[oi].name@, old_entries[oj].name@));
        } else if i == idx {
            assert(name_lt(e.name@, old_entries[oj].name@));
        } else {
            assert(name_lt(old_entries[oi].name@, e.name@));
        }
    }
    lemma_name_lt_irreflexive(e.name@);
    let lhs = as_map(new_entries);
    let rhs = as_map(old_entries).insert(e.name@, e.value);
    assert forall|n: Seq<char>| lhs.dom().contains(n) <==> rhs.dom().contains(n) by {
        if binds(new_entries, n) {
            let j = index_of(new_entries, n);
            if j < idx {
                assert(old_entries[j].name@ == n);
            } else if j > idx {
                assert(old_entries[j - 1].name@ == n);
            }
        }
        if binds(old_entries, n) {
            let k = index_of(old_entries, n);
            let j = if k < idx { k } else { k + 1 };
            assert(new_entries[j].name@ == n);
        }
        if n == e.name@ {
            assert(new_entries[idx].name@ == n);
        }
    }
    assert forall|n: Seq<char>| #[trigger] lhs.dom().contains(n) implies lhs[n] == rhs[n] by {
        if n == e.name@ {
            lemma_binding(new_entries, idx);
        } else {
            let k = index_of(old_entries, n);
            let j = if k < idx { k } else { k + 1 };
            assert(new_entries[j] == old_entries[k]);
            lemma_binding(new_entries, j);
            lemma_binding(old_entries, k);
        }
    }
    assert(lhs =~= rhs);
}

/// Replacing the entry of a name by another of that name keeps the order
/// and rebinds the name.
proof fn lemma_replace<T>(old_entries: Seq<Entry<T>>, idx: int, e: Entry<T>)
    requires
        ascending(old_entries),
        0 <= idx < old_entries.len(),
        old_entries[idx].name@ == e.name@,
    ensures
        ascending(old_entries.update(idx, e)),
        as_map(old_entries.update(idx, e)) == as_map(old_entries).insert(e.name@, e.value),
{
    let new_entries = old_entries.update(idx, e);
    assert forall|i: int, j: int|
        #![trigger new_entries[i], new_entries[j]]
        0 <= i < j < new_entries.len() implies name_lt(
        new_entries[i].name@,
        new_entries[j].name@,
    ) by {
        assert(name_lt(old_entries[i].name@, old_entries[j].name@));
    }
    let lhs = as_map(new_entries);
    let rhs = as_map(old_entries).insert(e.name@, e.value);
    assert forall|n: Seq<char>| lhs.dom().contains(n) <==> rhs.dom().contains(n) by {
        if binds(new_entries, n) {
            let j = index_of(new_entries, n);
            assert(old_entries[j].name@ == n);
        }
        if binds(old_entries, n) {
            let k = index_of(old_entries, n);
            assert(new_entries[k].name@ == n);
        }
        if n == e.name@ {
            assert(new_entries[idx].name@ == n);
        }
    }
    assert forall|n: Seq<char>| #[trigger] lhs.dom().contains(n) implies lhs[n] == rhs[n] by {
        if n == e.name@ {
            lemma_binding(new_entries, idx);
        } else {
            let k = index_of(old_entries, n);
            assert(new_entries[k] == old_entries[k]);
            lemma_binding(new_entries, k);
            lemma_binding(old_entries, k);
        }
    }
    assert(lhs =~= rhs);
}

/// A map keyed by name. Its view is the mathematical map it holds.
pub struct NameMap<T> {
    entries: Vec<Entry<T>>,
}

impl<T> View for NameMap<T> {
    type V = Map<Seq<char>, T>;

    closed spec fn view(&self) -> Map<Seq<char>, T> {
        as_map(self.entries@)
    }
}

impl<T> NameMap<T> {
    #[verifier::type_invariant]
    spec fn well_ordered(self) -> bool {
        ascending(self.entries@)
    }

    /// The empty map.
    pub fn new() -> (m: Self)
        ensures
            m@ == Map::<Seq<char>, T>::empty(),
    {
        let m = NameMap { entries: Vec::new() };
        assert(m@ =~= Map::<Seq<char>, T>::empty());
        m
    }

    /// Finds `name` by bisection: its position if it is bound, else the
    /// position at which it would have to stand.
    fn locate(&self, name: &str) -> (r: (usize, bool))
        ensures
            r.0 <= self.entries@.len(),
            r.1 ==> r.0 < self.entries@.len() && self.entries@[r.0 as int].name@ == name@,
            !r.1 ==> !binds(self.entries@, name@),
            forall|k: int| 0 <= k < r.0 ==> name_lt((#[trigger] self.entries@[k]).name@, name@),
            forall|k: int|
                r.0 + (if r.1 { 1int } else { 0int }) <= k < self.entries@.len() ==> name_lt(
                    name@,
                    (#[trigger] self.entries@[k]).name@,
                ),
    {
        proof {
            use_type_invariant(&*self);
            lemma_name_lt_irreflexive(name@);
        }
        let mut lo: usize = 0;
        let mut hi: usize = self.entries.len();
        while lo < hi
            invariant
                lo <= hi <= self.entries@.len(),
                ascending(self.entries@),
                !name_lt(name@, name@),
                forall|k: int| 0 <= k < lo ==> name_lt((#[trigger] self.entries@[k]).name@, name@),
                forall|k: int|
                    hi <= k < self.entries@.len() ==> name_lt(
                        name@,
                        (#[trigger] self.entries@[k]).name@,
                    ),
            decreases hi - lo,
        {
            let mid: usize = lo + (hi - lo) / 2;
            let probe = self.entries[mid].name.as_str();
            match compare_names(probe, name) {
                NameOrder::Same => {
                    proof {
                        assert forall|k: int| 0 <= k < mid implies name_lt(
                            (#[trigger] self.entries@[k]).name@,
                            name@,
                        ) by {
                            assert(name_lt(self.entries@[k].name@, self.entries@[mid as int].name@));
                        }
                        assert forall|k: int| mid + 1 <= k < self.entries@.len() implies name_lt(
                            name@,
                            (#[trigger] self.entries@[k]).name@,
                        ) by {
                            assert(name_lt(self.entries@[mid as int].name@, self.entries@[k].name@));
                        }
                    }
                    return (mid, true);
                },
                NameOrder::Before => {
                    proof {
                        assert forall|k: int| 0 <= k < mid + 1 implies name_lt(
                            (#[trigger] self.entries@[k]).name@,
                            name@,
                        ) by {
                            if k < mid {
                                assert(name_lt(
                                    self.entries@[k].name@,
                                    self.entries@[mid as int].name@,
                                ));
                                lemma_name_lt_transitive(
                                    self.entries@[k].name@,
                                    self.entries@[mid as int].name@,
                                    name@,
                                );
                            }
                        }
                    }
                    lo = mid + 1;
                },
                NameOrder::After => {
                    proof {
                        assert forall|k: int| mid <= k < self.entries@.len() implies name_lt(
                            name@,
                            (#[trigger] self.entries@[k]).name@,
                        ) by {
                            if mid < k {
                                assert(name_lt(
                                    self.entries@[mid as int].name@,
                                    self.entries@[k].name@,
                                ));
                                lemma_name_lt_transitive(
                                    name@,
                                    self.entries@[mid as int].name@,
                                    self.entries@[k].name@,
                                );
                            }
                        }
                    }
                    hi = mid;
                },
            }
        }
        proof {
            if binds(self.entries@, name@) {
                let j = index_of(self.entries@, name@);
                if j < lo {
                    assert(name_lt(self.entries@[j].name@, name@));
                } else {
                    assert(name_lt(name@, self.entries@[j].name@));
                }
            }
        }
        (lo, false)
    }

    /// The value bound to `name`, if any.
    pub fn get(&self, name: &str) -> (r: Option<&T>)
        ensures
            r is Some <==> self@.dom().contains(name@),
            r is Some ==> *r->0 == self@[name@],
    {
        proof {
            use_type_invariant(&*self);
        }
        let (idx, found) = self.locate(name);
        if found {
            proof {
                lemma_binding(self.entries@, idx as int);
            }
            Some(&self.entries[idx].value)
        } else {
            None
        }
    }

    /// Binds `name` to `value`, in place of what it was bound to before.
    pub fn insert(&mut self, name: String, value: T)
        ensures
            final(self)@ == old(self)@.insert(name@, value),
    {
        proof {
            use_type_invariant(&*self);
        }
        let (idx, found) = self.locate(name.as_str());
        let entry = Entry { name, value };
        let mut entries = Vec::new();
        std::mem::swap(&mut entries, &mut self.entries);
        if found {
            proof {
                lemma_replace(entries@, idx as int, entry);
            }
            entries.set(idx, entry);
        } else {
            proof {
                lemma_insert_new(entries@, idx as int, entry);
            }
            entries.insert(idx, entry);
        }
        self.entries = entries;
    }

    /// The bindings, in ascending order of their names.
    pub fn into_entries(self) -> (entries: Vec<Entry<T>>)
        ensures
            ascending(entries@),
            as_map(entries@) == self@,
    {
        proof {
            use_type_invariant(&self);
        }
        self.entries
    }
}

} // verus!
