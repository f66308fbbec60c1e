//! Byte-lexicographic ordering of station names, and the parallel sort.
//!
//! Output entries are ordered by [`lex_lt`], the strict byte-lexicographic
//! order on names; [`entry_le`] extends it to a total order on table slots so
//! that sorting has a single possible result.  The sort itself is rayon's
//! parallel unstable sort, driven by the verified comparator
//! [`cmp_records`]; everything after the sort is proved from the sortedness
//! and permutation facts stated on the wrapper.

use vstd::prelude::*;
use vstd::relations::{sorted_by, total_ordering};

use rayon::prelude::ParallelSliceMut;

use crate::table::{Entry, Record};
use crate::values::AggModel;

verus! {

/// Strict byte-lexicographic order: a proper prefix precedes its extensions,
/// and otherwise the first differing byte decides.
pub open spec fn lex_lt(a: Seq<u8>, b: Seq<u8>) -> bool
    decreases a.len(),
{
    if b.len() == 0 {
        false
    } else if a.len() == 0 {
        true
    } else if a.first() < b.first() {
        true
    } else if a.first() > b.first() {
        false
    } else {
        lex_lt(a.drop_first(), b.drop_first())
    }
}

/// `lex_lt` is asymmetric and trichotomous.
pub proof fn lemma_lex_lt_props(a: Seq<u8>, b: Seq<u8>)
    ensures
        !(lex_lt(a, b) && lex_lt(b, a)),
        lex_lt(a, b) || lex_lt(b, a) || a == b,
    decreases a.len(),
{
    if a.len() > 0 && b.len() > 0 && a.first() == b.first() {
        lemma_lex_lt_props(a.drop_first(), b.drop_first());
        if !lex_lt(a, b) && !lex_lt(b, a) {
            assert(a.drop_first() == b.drop_first());
            assert(a =~= b) by {
                assert(forall|i: int|
                    1 <= i < a.len() ==> a[i] == a.drop_first()[i - 1] && b[i] == b.drop_first()[i
                        - 1]);
            }
        }
    } else if a.len() == 0 && b.len() == 0 {
        assert(a =~= b);
    }
}

/// `lex_lt` is transitive.
pub proof fn lemma_lex_lt_trans(a: Seq<u8>, b: Seq<u8>, c: Seq<u8>)
    requires
        lex_lt(a, b),
        lex_lt(b, c),
    ensures
        lex_lt(a, c),
    decreases a.len(),
{
    if a.len() > 0 && b.len() > 0 && c.len() > 0 {
        if a.first() == b.first() && b.first() == c.first() {
            lemma_lex_lt_trans(a.drop_first(), b.drop_first(), c.drop_first());
        }
    }
}

/// Equal prefixes do not influence the order of what follows them.
pub proof fn lemma_lex_lt_skip(a: Seq<u8>, b: Seq<u8>, i: int)
    requires
        0 <= i <= a.len(),
        i <= b.len(),
        forall|j: int| 0 <= j < i ==> a[j] == b[j],
    ensures
        lex_lt(a, b) == lex_lt(a.skip(i), b.skip(i)),
    decreases i,
{
    if i > 0 {
        assert(a.len() > 0 && b.len() > 0 && a.first() == b.first());
        assert(lex_lt(a, b) == lex_lt(a.drop_first(), b.drop_first()));
        assert(forall|j: int|
            0 <= j < i - 1 ==> a.drop_first()[j] == a[j + 1] && b.drop_first()[j] == b[j + 1]);
        lemma_lex_lt_skip(a.drop_first(), b.drop_first(), i - 1);
        assert(a.drop_first().skip(i - 1) =~= a.skip(i));
        assert(b.drop_first().skip(i - 1) =~= b.skip(i));
    } else {
        assert(a.skip(0) =~= a);
        assert(b.skip(0) =~= b);
    }
}

/// Tie-breaking order on aggregates, so slot order is total.
pub open spec fn agg_le(x: AggModel, y: AggModel) -> bool {
    if x.min != y.min {
        x.min < y.min
    } else if x.max != y.max {
        x.max < y.max
    } else if x.sum != y.sum {
        x.sum < y.sum
    } else {
        x.count <= y.count
    }
}

/// Total order on table slots: names byte-lexicographically, aggregates as a
/// tie-break for equal names.
pub open spec fn entry_le(x: Entry, y: Entry) -> bool {
    if x.name == y.name {
        agg_le(x.agg, y.agg)
    } else {
        lex_lt(x.name, y.name)
    }
}

/// The slot order as a function value, for `sort_by`.
pub open spec fn entry_order() -> spec_fn(Entry, Entry) -> bool {
    |x: Entry, y: Entry| entry_le(x, y)
}

/// The slot order is a total ordering, so a sorted slot sequence with a
/// given multiset of slots is unique.
pub proof fn lemma_entry_order_total()
    ensures
        total_ordering(entry_order()),
{
    let r = entry_order();
    assert forall|x: Entry| #[trigger] r(x, x) by {}
    assert forall|x: Entry, y: Entry| #[trigger] r(x, y) && #[trigger] r(y, x) implies x == y by {
        if x.name == y.name {
            assert(x.agg == y.agg);
            assert(x =~= y);
        } else {
            lemma_lex_lt_props(x.name, y.name);
        }
    }
    assert forall|x: Entry, y: Entry| #[trigger] r(x, y) || #[trigger] r(y, x) by {
        if x.name == y.name {
        } else {
            lemma_lex_lt_props(x.name, y.name);
        }
    }
    assert forall|x: Entry, y: Entry, z: Entry|
        #[trigger] r(x, y) && #[trigger] r(y, z) implies r(x, z) by {
        if x.name == y.name && y.name == z.name {
        } else if x.name == y.name {
        } else if y.name == z.name {
        } else if x.name == z.name {
            lemma_lex_lt_trans(x.name, y.name, z.name);
            lemma_lex_lt_props(x.name, z.name);
        } else {
            lemma_lex_lt_trans(x.name, y.name, z.name);
        }
    }
}

/// Verified three-way comparison of two slots by station name.
pub fn cmp_records(a: &Record, b: &Record) -> (o: core::cmp::Ordering)
    ensures
        o == core::cmp::Ordering::Less <==> lex_lt(a@.name, b@.name),
        o == core::cmp::Ordering::Equal <==> a@.name == b@.name,
{
    let an = a.station_name.as_slice();
    let bn = b.station_name.as_slice();
    let la = an.len();
    let lb = bn.len();
    let mut i: usize = 0;
    while i < la && i < lb
        invariant
            la == an@.len(),
            lb == bn@.len(),
            an@ == a@.name,
            bn@ == b@.name,
            i <= la,
            i <= lb,
            forall|j: int| 0 <= j < i ==> an@[j] == bn@[j],
        decreases la - i,
    {
        let x = an[i];
        let y = bn[i];
        if x < y {
            proof {
                lemma_lex_lt_skip(an@, bn@, i as int);
                assert(an@.skip(i as int).first() < bn@.skip(i as int).first());
                lemma_lex_lt_props(an@, bn@);
            }
            return core::cmp::Ordering::Less;
        }
        if x > y {
            proof {
                lemma_lex_lt_skip(an@, bn@, i as int);
                assert(bn@.skip(i as int).first() < an@.skip(i as int).first());
                lemma_lex_lt_props(an@, bn@);
            }
            return core::cmp::Ordering::Greater;
        }
        i = i + 1;
    }
    proof {
        lemma_lex_lt_skip(an@, bn@, if la <= lb {
            la as int
        } else {
            lb as int
        });
    }
    if la < lb {
        proof {
            assert(an@.skip(la as int).len() == 0 && bn@.skip(la as int).len() > 0);
            lemma_lex_lt_props(an@, bn@);
        }
        core::cmp::Ordering::Less
    } else if la > lb {
        proof {
            assert(bn@.skip(lb as int).len() == 0 && an@.skip(lb as int).len() > 0);
            lemma_lex_lt_props(an@, bn@);
        }
        core::cmp::Ordering::Greater
    } else {
        proof {
            assert(an@ =~= bn@);
            lemma_lex_lt_props(an@, bn@);
        }
        core::cmp::Ordering::Equal
    }
}

/// The name order the parallel sort establishes: non-strict, names only.
pub open spec fn name_order() -> spec_fn(Entry, Entry) -> bool {
    |x: Entry, y: Entry| lex_lt(x.name, y.name) || x.name == y.name
}

/// Relies on rayon's `ParallelSliceMut::par_sort_unstable_by`: it sorts the
/// slice in place by the given comparator — a permutation of the slots,
/// ordered by station name.  The comparator is the verified [`cmp_records`],
/// a total order as the sort requires.
#[verifier::external_body]
pub fn par_sort_by_name(v: &mut Vec<Record>)
    ensures
        final(v)@.map_values(|r: Record| r@).to_multiset() == old(v)@.map_values(
            |r: Record| r@,
        ).to_multiset(),
        sorted_by(final(v)@.map_values(|r: Record| r@), name_order()),
{
    v.par_sort_unstable_by(|a, b| cmp_records(a, b));
}

} // verus!
