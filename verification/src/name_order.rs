//! Code-point order on names.
//!
//! Field lists and projected schemas are kept in ascending order of their
//! names, compared one `char` at a time. This module states that order and
//! decides it.
use vstd::prelude::*;
use vstd::std_specs::iter::IteratorSpec;

verus! {

/// How one name stands to another in code-point order.
#[derive(Clone, Copy, Debug, PartialEq, Eq, Structural)]
pub enum NameOrder {
    /// The first name sorts strictly before the second.
    Before,
    /// The two names hold the same characters.
    Same,
    /// The first name sorts strictly after the second.
    After,
}

/// `a` sorts before `b`, judged from position `i` on: going right from `i`,
/// either `a` ends first, or at the first place where the two differ `a`
/// holds the smaller code point.
pub open spec fn precedes_from(a: Seq<char>, b: Seq<char>, i: int) -> bool
    decreases a.len() - i,
{
    if i < 0 || i >= b.len() {
        false
    } else if i >= a.len() {
        true
    } else if a[i] != b[i] {
        a[i] < b[i]
    } else {
        precedes_from(a, b, i + 1)
    }
}

/// Strict code-point order: `a` is a proper prefix of `b`, or at the first
/// place where they differ `a` holds the smaller code point.
pub open spec fn name_lt(a: Seq<char>, b: Seq<char>) -> bool {
    precedes_from(a, b, 0)
}

/// A sequence of names is strictly ascending: every earlier name sorts
/// before every later one, so none occurs twice.
pub open spec fn strictly_ascending(names: Seq<Seq<char>>) -> bool {
    forall|i: int, j: int| 0 <= i < j < names.len() ==> name_lt(#[trigger] names[i], #[trigger] names[j])
}

/// Where two names agree on everything before `i`, comparing them from the
/// start and comparing them from `i` give the same answer.
pub proof fn lemma_skip_common_prefix(a: Seq<char>, b: Seq<char>, i: int)
    requires
        0 <= i <= a.len(),
        i <= b.len(),
        forall|j: int| 0 <= j < i ==> a[j] == b[j],
    ensures
        name_lt(a, b) == precedes_from(a, b, i),
    decreases i,
{
    if i > 0 {
        lemma_skip_common_prefix(a, b, i - 1);
    }
}

proof fn lemma_irreflexive_from(a: Seq<char>, i: int)
    requires
        0 <= i,
    ensures
        !precedes_from(a, a, i),
    decreases a.len() - i,
{
    if i < a.len() {
        lemma_irreflexive_from(a, i + 1);
    }
}

proof fn lemma_transitive_from(a: Seq<char>, b: Seq<char>, c: Seq<char>, i: int)
    requires
        precedes_from(a, b, i),
        precedes_from(b, c, i),
    ensures
        precedes_from(a, c, i),
    decreases a.len() - i,
{
    if i < a.len() && a[i] == b[i] && b[i] == c[i] {
        lemma_transitive_from(a, b, c, i + 1);
    }
}

proof fn lemma_total_from(a: Seq<char>, b: Seq<char>, i: int)
    requires
        0 <= i <= a.len(),
        i <= b.len(),
        forall|j: int| 0 <= j < i ==> a[j] == b[j],
    ensures
        a == b || precedes_from(a, b, i) || precedes_from(b, a, i),
    decreases a.len() - i,
{
    if i < a.len() && i < b.len() && a[i] == b[i] {
        lemma_total_from(a, b, i + 1);
    } else if i == a.len() && i == b.len() {
        assert(a =~= b);
    }
}

/// No name sorts before itself.
pub proof fn lemma_name_lt_irreflexive(a: Seq<char>)
    ensures
        !name_lt(a, a),
{
    lemma_irreflexive_from(a, 0);
}

/// The order is transitive.
pub proof fn lemma_name_lt_transitive(a: Seq<char>, b: Seq<char>, c: Seq<char>)
    requires
        name_lt(a, b),
        name_lt(b, c),
    ensures
        name_lt(a, c),
{
    lemma_transitive_from(a, b, c, 0);
}

/// Of two names, one sorts before the other unless they are the same name,
/// and never both ways.
pub proof fn lemma_name_lt_total(a: Seq<char>, b: Seq<char>)
    ensures
        a == b || name_lt(a, b) || name_lt(b, a),
        !(name_lt(a, b) && name_lt(b, a)),
        a == b ==> !name_lt(a, b),
{
    lemma_total_from(a, b, 0);
    lemma_name_lt_irreflexive(a);
    if name_lt(a, b) && name_lt(b, a) {
        lemma_name_lt_transitive(a, b, a);
    }
}

/// The names of a strictly ascending sequence are all different.
pub proof fn lemma_ascending_distinct(names: Seq<Seq<char>>, i: int, j: int)
    requires
        strictly_ascending(names),
        0 <= i < names.len(),
        0 <= j < names.len(),
        names[i] == names[j],
    ensures
        i == j,
{
    lemma_name_lt_irreflexive(names[i]);
    if i < j {
        assert(name_lt(names[i], names[j]));
    } else if j < i {
        assert(name_lt(names[j], names[i]));
    }
}

/// Two strictly ascending sequences that hold the same names are the same
/// sequence: the order leaves no choice.
pub proof fn lemma_ascending_unique(a: Seq<Seq<char>>, b: Seq<Seq<char>>)
    requires
        strictly_ascending(a),
        strictly_ascending(b),
        forall|n: Seq<char>| a.contains(n) <==> b.contains(n),
    ensures
        a == b,
    decreases a.len(),
{
    if a.len() == 0 {
        if b.len() > 0 {
            assert(b.contains(b[0]));
            assert(a.contains(b[0]));
        }
        assert(a =~= b);
    } else {
        assert(a.contains(a[0]));
        assert(b.contains(a[0]));
        let j = choose|j: int| 0 <= j < b.len() && b[j] == a[0];
        assert(b.contains(b[0]));
        assert(a.contains(b[0]));
        let k = choose|k: int| 0 <= k < a.len() && a[k] == b[0];
        lemma_name_lt_irreflexive(a[0]);
        if j > 0 {
            assert(name_lt(b[0], b[j]));
            if k > 0 {
                assert(name_lt(a[0], a[k]));
                lemma_name_lt_transitive(a[0], b[0], a[0]);
            }
        }
        assert(a[0] == b[0]);
        let a1 = a.subrange(1, a.len() as int);
        let b1 = b.subrange(1, b.len() as int);
        assert forall|x: int, y: int| 0 <= x < y < a1.len() implies name_lt(
            #[trigger] a1[x],
            #[trigger] a1[y],
        ) by {
            assert(name_lt(a[x + 1], a[y + 1]));
        }
        assert forall|x: int, y: int| 0 <= x < y < b1.len() implies name_lt(
            #[trigger] b1[x],
            #[trigger] b1[y],
        ) by {
            assert(name_lt(b[x + 1], b[y + 1]));
        }
        assert forall|n: Seq<char>| a1.contains(n) <==> b1.contains(n) by {
            if a1.contains(n) {
                let x = choose|x: int| 0 <= x < a1.len() && a1[x] == n;
                assert(a[x + 1] == n);
                assert(name_lt(a[0], a[x + 1]));
                assert(a.contains(n));
                let y = choose|y: int| 0 <= y < b.len() && b[y] == n;
                assert(y > 0);
                assert(b1[y - 1] == n);
            }
            if b1.contains(n) {
                let y = choose|y: int| 0 <= y < b1.len() && b1[y] == n;
                assert(b[y + 1] == n);
                assert(name_lt(b[0], b[y + 1]));
                assert(b.contains(n));
                let x = choose|x: int| 0 <= x < a.len() && a[x] == n;
                assert(x > 0);
                assert(a1[x - 1] == n);
            }
        }
        lemma_ascending_unique(a1, b1);
        assert forall|i: int| 0 <= i < a.len() implies a[i] == b[i] by {
            if i > 0 {
                assert(a1[i - 1] == a[i]);
                assert(b1[i - 1] == b[i]);
            }
        }
        assert(a.len() == a1.len() + 1 && b.len() == b1.len() + 1);
        assert(a =~= b);
    }
}

/// Compares two names in code-point order.
pub fn compare_names(a: &str, b: &str) -> (r: NameOrder)
    ensures
        r == NameOrder::Before <==> name_lt(a@, b@),
        r == NameOrder::Same <==> a@ == b@,
        r == NameOrder::After <==> name_lt(b@, a@),
{
    let mut xs = a.chars();
    let mut ys = b.chars();
    let ghost mut i: int = 0;
    proof {
        lemma_name_lt_total(a@, b@);
    }
    loop
        invariant
            0 <= i <= a@.len(),
            i <= b@.len(),
            xs.remaining() == a@.subrange(i, a@.len() as int),
            ys.remaining() == b@.subrange(i, b@.len() as int),
            forall|j: int| 0 <= j < i ==> a@[j] == b@[j],
            a@ == b@ || name_lt(a@, b@) || name_lt(b@, a@),
            !(name_lt(a@, b@) && name_lt(b@, a@)),
            a@ == b@ ==> !name_lt(a@, b@),
        decreases a@.len() - i,
    {
        let x = xs.next();
        let y = ys.next();
        proof {
            lemma_skip_common_prefix(a@, b@, i);
            lemma_skip_common_prefix(b@, a@, i);
        }
        match (x, y) {
            (None, None) => {
                assert(a@ =~= b@);
                return NameOrder::Same;
            },
            (None, Some(_)) => {
                return NameOrder::Before;
            },
            (Some(_), None) => {
                return NameOrder::After;
            },
            (Some(p), Some(q)) => {
                assert(p == a@[i] && q == b@[i]);
                if p != q {
                    if p < q {
                        return NameOrder::Before;
                    } else {
                        return NameOrder::After;
                    }
                }
            },
        }
        proof {
            assert(xs.remaining() =~= a@.subrange(i + 1, a@.len() as int));
            assert(ys.remaining() =~= b@.subrange(i + 1, b@.len() as int));
            i = i + 1;
        }
    }
}

} // verus!
