//! Aggregate tables: name-keyed collections of per-station aggregates.
//!
//! A table is a vector of records with pairwise distinct names; its model is
//! the sequence of [`Entry`] values it holds, in insertion order.  Folding a
//! record stream into a table is specified by [`agg_entries_of`]; folding one
//! finished table into another by [`merge_entries_spec`].  The map-level view
//! [`entry_map`] forgets insertion order, and the lemmas here show that a
//! table's map is exactly the map of the records it absorbed — in particular
//! that merging per-chunk tables in any grouping reproduces the map of the
//! whole stream, which is what makes parallel chunk processing sound.

use vstd::prelude::*;
use vstd::slice::{slice_subrange, slice_to_vec};

use crate::records::{
    lemma_index_of_first_is, lemma_parse_value_bound, lemma_records_line_final,
    lemma_records_line_terminated, lines_of, parse_i32, record_of_line, records_of,
    records_of_lines, strip_cr, SEP_CR, SEP_FIELD, SEP_LINE,
};
use crate::values::{agg_one, agg_wf, combine, AggModel, MAX_COUNT, VAL_LIMIT};
use crate::values::{lemma_combine_assoc, lemma_combine_commutes, lemma_combine_wf, StationValues};

verus! {

/// Model of one table slot: a station name and its aggregate.
#[verifier::ext_equal]
pub struct Entry {
    pub name: Seq<u8>,
    pub agg: AggModel,
}

/// Index of the slot holding `n`, if any.
pub open spec fn find_name(s: Seq<Entry>, n: Seq<u8>) -> Option<int> {
    s.map_values(|e: Entry| e.name).index_of_first(n)
}

/// Folds one aggregate for `e.name` into the slot sequence: combined into the
/// existing slot, or appended as a new slot.
pub open spec fn merge_entry_spec(s: Seq<Entry>, e: Entry) -> Seq<Entry> {
    match find_name(s, e.name) {
        Option::Some(i) => s.update(i, Entry { name: s[i].name, agg: combine(s[i].agg, e.agg) }),
        Option::None => s.push(e),
    }
}

/// Folds one measurement for name `n` into the slot sequence.
pub open spec fn upsert_spec(s: Seq<Entry>, n: Seq<u8>, v: int) -> Seq<Entry> {
    merge_entry_spec(s, Entry { name: n, agg: agg_one(v) })
}

/// Folds a whole slot sequence into another, slot by slot, in order.
pub open spec fn merge_entries_spec(s: Seq<Entry>, o: Seq<Entry>) -> Seq<Entry>
    decreases o.len(),
{
    if o.len() == 0 {
        s
    } else {
        merge_entry_spec(merge_entries_spec(s, o.drop_last()), o.last())
    }
}

/// The slot sequence a record stream aggregates to, in first-occurrence order.
pub open spec fn agg_entries_of(rs: Seq<(Seq<u8>, int)>) -> Seq<Entry>
    decreases rs.len(),
{
    if rs.len() == 0 {
        Seq::empty()
    } else {
        upsert_spec(agg_entries_of(rs.drop_last()), rs.last().0, rs.last().1)
    }
}

/// No two slots share a name.
pub open spec fn distinct_names(s: Seq<Entry>) -> bool {
    forall|i: int, j: int| 0 <= i < j < s.len() ==> s[i].name != s[j].name
}

/// Distinct names and well-formed aggregates: the table invariant.
pub open spec fn entries_wf(s: Seq<Entry>) -> bool {
    &&& distinct_names(s)
    &&& forall|i: int| 0 <= i < s.len() ==> agg_wf(#[trigger] s[i].agg)
}

/// The order-free view of a slot sequence: name to aggregate.
pub open spec fn entry_map(s: Seq<Entry>) -> Map<Seq<u8>, AggModel>
    decreases s.len(),
{
    if s.len() == 0 {
        Map::empty()
    } else {
        entry_map(s.drop_last()).insert(s.last().name, s.last().agg)
    }
}

/// Folds one aggregate for `n` into a map.
pub open spec fn combine_at(m: Map<Seq<u8>, AggModel>, n: Seq<u8>, a: AggModel) -> Map<
    Seq<u8>,
    AggModel,
> {
    if m.dom().contains(n) {
        m.insert(n, combine(m[n], a))
    } else {
        m.insert(n, a)
    }
}

/// The name-to-aggregate map of a record stream.
pub open spec fn agg_map_of(rs: Seq<(Seq<u8>, int)>) -> Map<Seq<u8>, AggModel>
    decreases rs.len(),
{
    if rs.len() == 0 {
        Map::empty()
    } else {
        combine_at(agg_map_of(rs.drop_last()), rs.last().0, agg_one(rs.last().1))
    }
}

/// Pointwise merge of two aggregate maps: the model of merging two tables.
pub open spec fn merge_maps(m1: Map<Seq<u8>, AggModel>, m2: Map<Seq<u8>, AggModel>) -> Map<
    Seq<u8>,
    AggModel,
> {
    Map::new(
        |n: Seq<u8>| m1.dom().contains(n) || m2.dom().contains(n),
        |n: Seq<u8>|
            if m1.dom().contains(n) && m2.dom().contains(n) {
                combine(m1[n], m2[n])
            } else if m1.dom().contains(n) {
                m1[n]
            } else {
                m2[n]
            },
    )
}

/// Where `find_name` points, and that it finds the first (hence, under
/// distinctness, the only) slot with the given name.
pub proof fn lemma_find_name(s: Seq<Entry>, n: Seq<u8>)
    ensures
        match find_name(s, n) {
            Option::Some(i) => 0 <= i < s.len() && s[i].name == n && forall|j: int|
                0 <= j < i ==> s[j].name != n,
            Option::None => forall|j: int| 0 <= j < s.len() ==> s[j].name != n,
        },
{
    let names = s.map_values(|e: Entry| e.name);
    names.index_of_first_ensures(n);
    match find_name(s, n) {
        Option::Some(i) => {
            assert(names[i] == s[i].name);
            assert forall|j: int| 0 <= j < i implies s[j].name != n by {
                assert(names[j] == s[j].name);
            }
        },
        Option::None => {
            assert forall|j: int| 0 <= j < s.len() implies s[j].name != n by {
                if s[j].name == n {
                    assert(names[j] == n);
                    assert(names.contains(n));
                }
            }
        },
    }
}

/// If a name first occurs at slot `i`, `find_name` returns exactly `i`.
pub proof fn lemma_find_name_is(s: Seq<Entry>, n: Seq<u8>, i: int)
    requires
        0 <= i < s.len(),
        s[i].name == n,
        forall|j: int| 0 <= j < i ==> s[j].name != n,
    ensures
        find_name(s, n) == Some(i),
{
    lemma_find_name(s, n);
    match find_name(s, n) {
        Option::Some(k) => {},
        Option::None => {},
    }
}

/// Under distinctness, the map indexes exactly the slots.
pub proof fn lemma_entry_map_index(s: Seq<Entry>)
    requires
        distinct_names(s),
    ensures
        forall|i: int|
            0 <= i < s.len() ==> entry_map(s).dom().contains(#[trigger] s[i].name) && entry_map(
                s,
            )[s[i].name] == s[i].agg,
        forall|n: Seq<u8>|
            entry_map(s).dom().contains(n) ==> exists|i: int|
                0 <= i < s.len() && #[trigger] s[i].name == n,
    decreases s.len(),
{
    if s.len() > 0 {
        let s0 = s.drop_last();
        assert(distinct_names(s0));
        lemma_entry_map_index(s0);
        assert forall|i: int| 0 <= i < s.len() implies entry_map(s).dom().contains(
            #[trigger] s[i].name,
        ) && entry_map(s)[s[i].name] == s[i].agg by {
            if i < s.len() - 1 {
                assert(s0[i] == s[i]);
                assert(s[i].name != s.last().name);
            }
        }
        assert forall|n: Seq<u8>| entry_map(s).dom().contains(n) implies exists|i: int|
            0 <= i < s.len() && #[trigger] s[i].name == n by {
            if n == s.last().name {
                assert(s[s.len() - 1].name == n);
            } else {
                assert(entry_map(s0).dom().contains(n));
                let i = choose|i: int| 0 <= i < s0.len() && #[trigger] s0[i].name == n;
                assert(s0[i].name == n);
                assert(s[i] == s0[i]);
            }
        }
    }
}

/// Replacing a slot in place replaces its map binding.
proof fn lemma_entry_map_update(s: Seq<Entry>, i: int, e2: Entry)
    requires
        distinct_names(s),
        0 <= i < s.len(),
        e2.name == s[i].name,
    ensures
        entry_map(s.update(i, e2)) =~= entry_map(s).insert(e2.name, e2.agg),
    decreases s.len(),
{
    let s2 = s.update(i, e2);
    if i == s.len() - 1 {
        assert(s2.drop_last() =~= s.drop_last());
        assert(s2.last() == e2);
    } else {
        assert(s2.drop_last() =~= s.drop_last().update(i, e2));
        assert(s2.last() == s.last());
        assert(distinct_names(s.drop_last()));
        assert(s.drop_last()[i] == s[i]);
        lemma_entry_map_update(s.drop_last(), i, e2);
        assert(s.last().name != e2.name);
    }
}

/// Removing a slot removes its map binding.
proof fn lemma_entry_map_remove(s: Seq<Entry>, j: int)
    requires
        distinct_names(s),
        0 <= j < s.len(),
    ensures
        entry_map(s.remove(j)) =~= entry_map(s).remove(s[j].name),
    decreases s.len(),
{
    lemma_entry_map_index(s);
    if j == s.len() - 1 {
        assert(s.remove(j) =~= s.drop_last());
        assert(distinct_names(s.drop_last()));
        lemma_entry_map_index(s.drop_last());
        assert(forall|i: int| 0 <= i < s.len() - 1 ==> s.drop_last()[i] == s[i]);
        assert(!entry_map(s.drop_last()).dom().contains(s.last().name)) by {
            if entry_map(s.drop_last()).dom().contains(s.last().name) {
                let i = choose|i: int|
                    0 <= i < s.drop_last().len() && #[trigger] s.drop_last()[i].name
                        == s.last().name;
                assert(s[i].name == s[s.len() - 1].name);
            }
        }
    } else {
        let s2 = s.remove(j);
        assert(s2.drop_last() =~= s.drop_last().remove(j));
        assert(s2.last() == s.last());
        assert(distinct_names(s.drop_last()));
        assert(s.drop_last()[j] == s[j]);
        lemma_entry_map_remove(s.drop_last(), j);
        assert(s.last().name != s[j].name);
    }
}

/// Folding one aggregate into a slot sequence folds it into its map, and
/// keeps names distinct.
pub proof fn lemma_merge_entry(s: Seq<Entry>, e: Entry)
    requires
        distinct_names(s),
    ensures
        distinct_names(merge_entry_spec(s, e)),
        entry_map(merge_entry_spec(s, e)) =~= combine_at(entry_map(s), e.name, e.agg),
    decreases s.len(),
{
    lemma_find_name(s, e.name);
    lemma_entry_map_index(s);
    match find_name(s, e.name) {
        Option::Some(i) => {
            let e2 = Entry { name: s[i].name, agg: combine(s[i].agg, e.agg) };
            lemma_entry_map_update(s, i, e2);
            let s2 = s.update(i, e2);
            assert forall|p: int, q: int| 0 <= p < q < s2.len() implies s2[p].name
                != s2[q].name by {
                assert(s2[p].name == s[p].name && s2[q].name == s[q].name);
            }
        },
        Option::None => {
            let s2 = s.push(e);
            assert(!entry_map(s).dom().contains(e.name)) by {
                if entry_map(s).dom().contains(e.name) {
                    let i = choose|i: int| 0 <= i < s.len() && #[trigger] s[i].name == e.name;
                }
            }
            assert(s2.drop_last() =~= s);
            assert forall|p: int, q: int| 0 <= p < q < s2.len() implies s2[p].name
                != s2[q].name by {
                if q == s2.len() - 1 {
                    assert(s2[p] == s[p]);
                    assert(s2[q] == e);
                }
            }
        },
    }
}

/// Folding a whole slot sequence into another merges their maps, and keeps
/// names distinct.
pub proof fn lemma_merge_entries(s: Seq<Entry>, o: Seq<Entry>)
    requires
        distinct_names(s),
        distinct_names(o),
    ensures
        distinct_names(merge_entries_spec(s, o)),
        entry_map(merge_entries_spec(s, o)) =~= merge_maps(entry_map(s), entry_map(o)),
    decreases o.len(),
{
    if o.len() == 0 {
        assert(entry_map(o) =~= Map::<Seq<u8>, AggModel>::empty());
        assert(merge_maps(entry_map(s), entry_map(o)) =~= entry_map(s));
    } else {
        let o0 = o.drop_last();
        let e = o.last();
        assert(distinct_names(o0));
        lemma_merge_entries(s, o0);
        let acc = merge_entries_spec(s, o0);
        lemma_merge_entry(acc, e);
        lemma_entry_map_index(o0);
        assert(!entry_map(o0).dom().contains(e.name)) by {
            if entry_map(o0).dom().contains(e.name) {
                let i = choose|i: int| 0 <= i < o0.len() && #[trigger] o0[i].name == e.name;
                assert(o[i].name == o[o.len() - 1].name);
            }
        }
        assert(entry_map(merge_entries_spec(s, o)) =~= merge_maps(entry_map(s), entry_map(o)));
    }
}

/// The slot sequence of a record stream carries exactly the stream's map.
pub proof fn lemma_agg_entries_map(rs: Seq<(Seq<u8>, int)>)
    ensures
        distinct_names(agg_entries_of(rs)),
        entry_map(agg_entries_of(rs)) =~= agg_map_of(rs),
    decreases rs.len(),
{
    if rs.len() > 0 {
        lemma_agg_entries_map(rs.drop_last());
        lemma_merge_entry(
            agg_entries_of(rs.drop_last()),
            Entry { name: rs.last().0, agg: agg_one(rs.last().1) },
        );
    }
}

/// Every value of the stream lies within the measurement range.
pub open spec fn record_values_ok(rs: Seq<(Seq<u8>, int)>) -> bool {
    forall|i: int| 0 <= i < rs.len() ==> -(VAL_LIMIT as int) <= (#[trigger] rs[i]).1 <= VAL_LIMIT as int
}

/// Every record a byte stream holds carries an in-range value: the grammar
/// admits at most three integer digits and one fractional digit.
pub proof fn lemma_records_values_ok(s: Seq<u8>)
    ensures
        record_values_ok(records_of(s)),
{
    lemma_records_of_lines_values(lines_of(s));
}

proof fn lemma_records_of_lines_values(ls: Seq<Seq<u8>>)
    ensures
        record_values_ok(records_of_lines(ls)),
    decreases ls.len(),
{
    if ls.len() > 0 {
        lemma_records_of_lines_values(ls.drop_last());
        let prev = records_of_lines(ls.drop_last());
        let l = ls.last();
        let c = strip_cr(l);
        match c.index_of_first(SEP_FIELD) {
            Option::Some(j) => {
                lemma_parse_value_bound(c.skip(j + 1));
            },
            Option::None => {},
        }
        assert forall|i: int| 0 <= i < records_of_lines(ls).len() implies -(VAL_LIMIT as int) <= (
        #[trigger] records_of_lines(ls)[i]).1 <= VAL_LIMIT as int by {
            if i < prev.len() {
                assert(records_of_lines(ls)[i] == prev[i]);
            } else {
                assert(record_of_line(l) is Some);
                assert(records_of_lines(ls)[i] == record_of_line(l)->Some_0);
            }
        }
    }
}

/// A short stream of in-range values aggregates to well-formed entries whose
/// counts are bounded by the stream length.
pub proof fn lemma_agg_map_wf(rs: Seq<(Seq<u8>, int)>)
    requires
        record_values_ok(rs),
        rs.len() <= MAX_COUNT,
    ensures
        forall|n: Seq<u8>|
            agg_map_of(rs).dom().contains(n) ==> agg_wf(#[trigger] agg_map_of(rs)[n]) && 1
                <= agg_map_of(rs)[n].count <= rs.len(),
    decreases rs.len(),
{
    if rs.len() > 0 {
        let rs0 = rs.drop_last();
        assert(record_values_ok(rs0)) by {
            assert(forall|i: int| 0 <= i < rs0.len() ==> rs0[i] == rs[i]);
        }
        lemma_agg_map_wf(rs0);
        let n = rs.last().0;
        let a = agg_one(rs.last().1);
        assert(agg_wf(a));
        if agg_map_of(rs0).dom().contains(n) {
            lemma_combine_wf(agg_map_of(rs0)[n], a);
        }
    }
}

/// Merging the per-group maps of a partitioned stream, group after group,
/// yields the map of the whole stream: merge order and grouping are
/// irrelevant to the final aggregate.
pub proof fn lemma_agg_map_concat(r1: Seq<(Seq<u8>, int)>, r2: Seq<(Seq<u8>, int)>)
    ensures
        agg_map_of(r1 + r2) =~= merge_maps(agg_map_of(r1), agg_map_of(r2)),
    decreases r2.len(),
{
    let m1 = agg_map_of(r1);
    if r2.len() == 0 {
        assert(r1 + r2 =~= r1);
        assert(merge_maps(m1, agg_map_of(r2)) =~= m1);
    } else {
        let r20 = r2.drop_last();
        let n = r2.last().0;
        let a = agg_one(r2.last().1);
        lemma_agg_map_concat(r1, r20);
        assert((r1 + r2).drop_last() =~= r1 + r20);
        let m20 = agg_map_of(r20);
        let lhs = combine_at(merge_maps(m1, m20), n, a);
        let rhs = merge_maps(m1, combine_at(m20, n, a));
        assert forall|k: Seq<u8>| #![auto] rhs.dom().contains(k) implies lhs.dom().contains(k)
            && lhs[k] == rhs[k] by {
            if k == n {
                if m1.dom().contains(n) && m20.dom().contains(n) {
                    lemma_combine_assoc(m1[n], m20[n], a);
                }
            }
        }
        assert forall|k: Seq<u8>| #![auto] lhs.dom().contains(k) implies rhs.dom().contains(
            k,
        ) by {}
        assert(agg_map_of(r1 + r2) =~= lhs);
        assert(lhs =~= rhs);
    }
}

/// Merging two aggregate maps is commutative: which table is merged into
/// which cannot show in the result.
pub proof fn lemma_merge_maps_commutes(m1: Map<Seq<u8>, AggModel>, m2: Map<Seq<u8>, AggModel>)
    ensures
        merge_maps(m1, m2) =~= merge_maps(m2, m1),
{
    assert forall|n: Seq<u8>| #![auto] merge_maps(m1, m2).dom().contains(n) implies merge_maps(
        m1,
        m2,
    )[n] == merge_maps(m2, m1)[n] by {
        if m1.dom().contains(n) && m2.dom().contains(n) {
            lemma_combine_commutes(m1[n], m2[n]);
        }
    }
}

/// Merging aggregate maps is associative: how merge passes are grouped
/// cannot show in the result.
pub proof fn lemma_merge_maps_assoc(
    m1: Map<Seq<u8>, AggModel>,
    m2: Map<Seq<u8>, AggModel>,
    m3: Map<Seq<u8>, AggModel>,
)
    ensures
        merge_maps(merge_maps(m1, m2), m3) =~= merge_maps(m1, merge_maps(m2, m3)),
{
    assert forall|n: Seq<u8>| #![auto] merge_maps(merge_maps(m1, m2), m3).dom().contains(
        n,
    ) implies merge_maps(merge_maps(m1, m2), m3)[n] == merge_maps(m1, merge_maps(m2, m3))[n] by {
        if m1.dom().contains(n) && m2.dom().contains(n) && m3.dom().contains(n) {
            lemma_combine_assoc(m1[n], m2[n], m3[n]);
        }
    }
}

/// Two slot sequences with distinct names and the same map hold the same
/// slots: the map determines a table up to order.
pub proof fn lemma_entry_map_multiset(s1: Seq<Entry>, s2: Seq<Entry>)
    requires
        distinct_names(s1),
        distinct_names(s2),
        entry_map(s1) == entry_map(s2),
    ensures
        s1.to_multiset() == s2.to_multiset(),
    decreases s1.len(),
{
    broadcast use vstd::seq_lib::group_to_multiset_ensures;

    lemma_entry_map_index(s1);
    lemma_entry_map_index(s2);
    if s1.len() == 0 {
        assert(entry_map(s1) =~= Map::<Seq<u8>, AggModel>::empty());
        if s2.len() > 0 {
            assert(entry_map(s2).dom().contains(s2[0].name));
        }
        assert(s2.len() == 0);
    } else {
        let e = s1.last();
        let s10 = s1.drop_last();
        assert(entry_map(s1).dom().contains(s1[s1.len() - 1].name));
        assert(entry_map(s2).dom().contains(e.name));
        let j = choose|j: int| 0 <= j < s2.len() && #[trigger] s2[j].name == e.name;
        assert(entry_map(s2)[e.name] == s2[j].agg);
        assert(entry_map(s1)[e.name] == e.agg);
        assert(s2[j] =~= e);
        let s20 = s2.remove(j);
        lemma_entry_map_remove(s2, j);
        assert(distinct_names(s10));
        assert(distinct_names(s20)) by {
            assert(forall|p: int|
                0 <= p < s20.len() ==> #[trigger] s20[p] == (if p < j {
                    s2[p]
                } else {
                    s2[p + 1]
                }));
        }
        assert(entry_map(s10) =~= entry_map(s1).remove(e.name)) by {
            lemma_entry_map_index(s10);
            assert(forall|i: int| 0 <= i < s10.len() ==> s10[i] == s1[i]);
            assert(!entry_map(s10).dom().contains(e.name)) by {
                if entry_map(s10).dom().contains(e.name) {
                    let i = choose|i: int| 0 <= i < s10.len() && #[trigger] s10[i].name == e.name;
                    assert(s1[i].name == s1[s1.len() - 1].name);
                }
            }
        }
        lemma_entry_map_multiset(s10, s20);
        assert(s1 =~= s10.push(e));
        assert(s1.to_multiset() =~= s10.to_multiset().insert(e));
        assert(s20.to_multiset() =~= s2.to_multiset().remove(s2[j]));
        assert(s2.to_multiset().count(s2[j]) >= 1) by {
            assert(s2.contains(s2[j]));
        }
        assert(s2.to_multiset() =~= s2.to_multiset().remove(s2[j]).insert(s2[j]));
    }
}

/// Byte-for-byte comparison of two names.
pub fn bytes_eq(a: &[u8], b: &[u8]) -> (r: bool)
    ensures
        r == (a@ == b@),
{
    if a.len() != b.len() {
        return false;
    }
    let n = a.len();
    let mut i: usize = 0;
    while i < n
        invariant
            n == a@.len() == b@.len(),
            i <= n,
            forall|j: int| 0 <= j < i ==> a@[j] == b@[j],
        decreases n - i,
    {
        if a[i] != b[i] {
            return false;
        }
        i = i + 1;
    }
    assert(a@ =~= b@);
    true
}

/// One table slot: a station name and its running aggregate.
pub struct Record {
    pub station_name: Vec<u8>,
    pub values: StationValues,
}

impl View for Record {
    type V = Entry;

    open spec fn view(&self) -> Entry {
        Entry { name: self.station_name@, agg: self.values.model() }
    }
}

impl Record {
    /// A fresh slot holding one measurement.
    pub fn new(station_name: Vec<u8>, initial_value: i32) -> (r: Self)
        requires
            -VAL_LIMIT <= initial_value <= VAL_LIMIT,
        ensures
            r@ == (Entry { name: station_name@, agg: agg_one(initial_value as int) }),
            agg_wf(r@.agg),
    {
        Self { station_name, values: StationValues::new(initial_value) }
    }
}

/// A name-keyed aggregate table; local tables are private to one chunk task,
/// and the shared table is the one the merge step converges into.
pub struct Table {
    pub entries: Vec<Record>,
}

impl View for Table {
    type V = Seq<Entry>;

    open spec fn view(&self) -> Seq<Entry> {
        self.entries@.map_values(|r: Record| r@)
    }
}

impl Table {
    pub open spec fn wf(self) -> bool {
        entries_wf(self@)
    }

    /// An empty table.
    pub fn new() -> (t: Self)
        ensures
            t.wf(),
            t@ == Seq::<Entry>::empty(),
    {
        let t = Table { entries: Vec::new() };
        proof {
            assert(t@ =~= Seq::<Entry>::empty());
        }
        t
    }

    /// Index of the slot holding `name`, scanning in insertion order.
    fn find_idx(&self, name: &[u8]) -> (r: Option<usize>)
        ensures
            match r {
                Option::Some(i) => i < self@.len() && find_name(self@, name@) == Some(i as int),
                Option::None => find_name(self@, name@) is None,
            },
    {
        let n = self.entries.len();
        let mut i: usize = 0;
        while i < n
            invariant
                n == self.entries@.len(),
                i <= n,
                self@.len() == n,
                forall|j: int| 0 <= j < i ==> self@[j].name != name@,
            decreases n - i,
        {
            if bytes_eq(self.entries[i].station_name.as_slice(), name) {
                proof {
                    assert(self@[i as int].name == name@);
                    lemma_find_name_is(self@, name@, i as int);
                }
                return Some(i);
            }
            assert(self@[i as int].name != name@);
            i = i + 1;
        }
        proof {
            lemma_find_name(self@, name@);
            match find_name(self@, name@) {
                Option::Some(k) => {
                    assert(self@[k].name != name@);
                },
                Option::None => {},
            }
        }
        None
    }

    /// Folds one measurement for `name` into the table, creating the slot on
    /// first sight of the name.
    pub fn upsert(&mut self, name: &[u8], value: i32)
        requires
            old(self).wf(),
            -VAL_LIMIT <= value <= VAL_LIMIT,
            match find_name(old(self)@, name@) {
                Option::Some(i) => old(self)@[i].agg.count < MAX_COUNT,
                Option::None => true,
            },
        ensures
            final(self).wf(),
            final(self)@ == upsert_spec(old(self)@, name@, value as int),
    {
        let ghost s0 = self@;
        let ghost one = agg_one(value as int);
        match self.find_idx(name) {
            Option::Some(i) => {
                proof {
                    lemma_combine_wf(s0[i as int].agg, one);
                }
                let slot = &mut self.entries[i];
                slot.values.update(value);
                proof {
                    assert(self@ =~= s0.update(
                        i as int,
                        Entry { name: s0[i as int].name, agg: combine(s0[i as int].agg, one) },
                    ));
                    assert(final(self)@ == upsert_spec(s0, name@, value as int));
                    assert forall|p: int, q: int|
                        0 <= p < q < self@.len() implies self@[p].name != self@[q].name by {
                        assert(self@[p].name == s0[p].name && self@[q].name == s0[q].name);
                    }
                    assert forall|p: int| 0 <= p < self@.len() implies agg_wf(
                        #[trigger] self@[p].agg,
                    ) by {
                        if p != i as int {
                            assert(self@[p].agg == s0[p].agg);
                        }
                    }
                }
            },
            Option::None => {
                let owned = slice_to_vec(name);
                let rec = Record::new(owned, value);
                self.entries.push(rec);
                proof {
                    assert(self@ =~= s0.push(Entry { name: name@, agg: one }));
                    lemma_find_name(s0, name@);
                    assert forall|p: int, q: int|
                        0 <= p < q < self@.len() implies self@[p].name != self@[q].name by {
                        if q == self@.len() - 1 {
                            assert(self@[p] == s0[p]);
                        } else {
                            assert(self@[p] == s0[p] && self@[q] == s0[q]);
                        }
                    }
                    assert forall|p: int| 0 <= p < self@.len() implies agg_wf(
                        #[trigger] self@[p].agg,
                    ) by {
                        if p < self@.len() - 1 {
                            assert(self@[p].agg == s0[p].agg);
                        }
                    }
                }
            },
        }
    }

    /// Aggregates every record of one chunk into a fresh local table.
    ///
    /// Malformed lines yield no record and are skipped; the table that comes
    /// back is exactly the aggregation of the chunk's record list.
    pub fn from_chunk(chunk: &[u8]) -> (t: Self)
        requires
            chunk@.len() < MAX_COUNT,
        ensures
            t.wf(),
            t@ == agg_entries_of(records_of(chunk@)),
            forall|k: int| 0 <= k < t@.len() ==> (#[trigger] t@[k]).agg.count <= records_of(
                chunk@,
            ).len(),
    {
        let n = chunk.len();
        let mut t = Table::new();
        let ghost mut rr: Seq<(Seq<u8>, int)> = Seq::empty();
        let mut ls: usize = 0;
        let mut finished = n == 0;
        proof {
            if n == 0 {
                assert(chunk@.take(0) =~= chunk@);
                assert(rr =~= records_of(chunk@.take(0)));
            } else {
                assert(rr =~= records_of(chunk@.take(0)));
            }
        }
        while !finished
            invariant
                n == chunk@.len(),
                n < MAX_COUNT,
                t.wf(),
                t@ == agg_entries_of(rr),
                forall|k: int| 0 <= k < t@.len() ==> (#[trigger] t@[k]).agg.count <= rr.len(),
                !finished ==> ls <= n && (ls == 0 || chunk@[ls - 1] == SEP_LINE) && rr
                    == records_of(chunk@.take(ls as int)) && rr.len() <= ls,
                finished ==> rr == records_of(chunk@) && rr.len() <= n + 1,
            decreases
                    (if finished {
                        0int
                    } else {
                        n - ls + 1
                    }),
        {
            let ghost prefix = chunk@.take(ls as int);
            // Find the end of the current line.
            let mut e: usize = ls;
            while e < n && chunk[e] != SEP_LINE
                invariant
                    n == chunk@.len(),
                    ls <= e <= n,
                    forall|j: int| ls <= j < e ==> chunk@[j] != SEP_LINE,
                decreases n - e,
            {
                e = e + 1;
            }
            let ghost line = chunk@.subrange(ls as int, e as int);
            let rrg = absorb_line(&mut t, chunk, ls, e, Ghost(rr));
            proof {
                rr = rrg@;
            }
            // Advance past the line and its separator, if any.
            if e < n {
                proof {
                    assert(chunk@[e as int] == SEP_LINE);
                    lemma_records_line_terminated(prefix, line);
                    assert(chunk@.take(e + 1) =~= prefix + line + seq![SEP_LINE]);
                }
                ls = e + 1;
            } else {
                proof {
                    lemma_records_line_final(prefix, line);
                    assert(chunk@ =~= prefix + line);
                }
                finished = true;
            }
        }
        t
    }

    /// Folds one finished slot into the table: combined into the existing
    /// slot for its name, or appended.
    pub fn merge_record(&mut self, rec: Record)
        requires
            old(self).wf(),
            agg_wf(rec@.agg),
            match find_name(old(self)@, rec@.name) {
                Option::Some(i) => old(self)@[i].agg.count + rec@.agg.count <= MAX_COUNT,
                Option::None => true,
            },
        ensures
            final(self).wf(),
            final(self)@ == merge_entry_spec(old(self)@, rec@),
    {
        let ghost s0 = self@;
        match self.find_idx(rec.station_name.as_slice()) {
            Option::Some(i) => {
                proof {
                    lemma_combine_wf(s0[i as int].agg, rec@.agg);
                }
                let slot = &mut self.entries[i];
                slot.values.merge(&rec.values);
                proof {
                    assert(self@ =~= s0.update(
                        i as int,
                        Entry {
                            name: s0[i as int].name,
                            agg: combine(s0[i as int].agg, rec@.agg),
                        },
                    ));
                    assert forall|p: int, q: int|
                        0 <= p < q < self@.len() implies self@[p].name != self@[q].name by {
                        assert(self@[p].name == s0[p].name && self@[q].name == s0[q].name);
                    }
                    assert forall|p: int| 0 <= p < self@.len() implies agg_wf(
                        #[trigger] self@[p].agg,
                    ) by {
                        if p != i as int {
                            assert(self@[p].agg == s0[p].agg);
                        }
                    }
                }
            },
            Option::None => {
                self.entries.push(rec);
                proof {
                    assert(self@ =~= s0.push(rec@));
                    lemma_find_name(s0, rec@.name);
                    assert forall|p: int, q: int|
                        0 <= p < q < self@.len() implies self@[p].name != self@[q].name by {
                        if q == self@.len() - 1 {
                            assert(self@[p] == s0[p]);
                        } else {
                            assert(self@[p] == s0[p] && self@[q] == s0[q]);
                        }
                    }
                    assert forall|p: int| 0 <= p < self@.len() implies agg_wf(
                        #[trigger] self@[p].agg,
                    ) by {
                        if p < self@.len() - 1 {
                            assert(self@[p].agg == s0[p].agg);
                        }
                    }
                }
            },
        }
    }

    /// Drains another table into this one, slot by slot, consuming it.
    pub fn merge_from(&mut self, other: Table)
        requires
            old(self).wf(),
            other.wf(),
            forall|i: int, j: int|
                0 <= i < old(self)@.len() && 0 <= j < other@.len() && old(self)@[i].name
                    == other@[j].name ==> old(self)@[i].agg.count + other@[j].agg.count
                    <= MAX_COUNT,
        ensures
            final(self).wf(),
            final(self)@ == merge_entries_spec(old(self)@, other@),
    {
        let ghost s0 = self@;
        let ghost o0 = other@;
        let mut rest = other;
        let ghost mut k: int = 0;
        proof {
            assert(o0.take(0) =~= Seq::<Entry>::empty());
            assert(rest@ =~= o0.skip(0));
        }
        while rest.entries.len() > 0
            invariant
                self.wf(),
                entries_wf(s0),
                entries_wf(o0),
                0 <= k <= o0.len(),
                rest@ == o0.skip(k),
                self@ == merge_entries_spec(s0, o0.take(k)),
                forall|i: int, j: int|
                    0 <= i < s0.len() && 0 <= j < o0.len() && s0[i].name == o0[j].name
                        ==> s0[i].agg.count + o0[j].agg.count <= MAX_COUNT,
                forall|j: int| 0 <= j < o0.len() ==> agg_wf((#[trigger] o0[j]).agg),
            decreases o0.len() - k,
        {
            proof {
                assert(o0.skip(k).len() > 0);
                assert(o0.skip(k)[0] == o0[k]);
            }
            let ghost rest0 = rest.entries@;
            let rec = rest.entries.remove(0);
            proof {
                assert(rec@ == o0[k]);
                lemma_take_distinct(o0, k);
                lemma_merge_entries(s0, o0.take(k));
                lemma_merge_requires(s0, o0, k, self@);
            }
            self.merge_record(rec);
            proof {
                k = k + 1;
                assert(o0.take(k).drop_last() =~= o0.take(k - 1));
                assert(o0.take(k).last() == o0[k - 1]);
                assert(self@ == merge_entries_spec(s0, o0.take(k)));
                assert(rest.entries@ == rest0.remove(0));
                assert forall|x: int| 0 <= x < rest@.len() implies rest@[x] == o0.skip(k)[x] by {
                    assert(rest.entries@[x] == rest0[x + 1]);
                    assert(rest@[x] == rest.entries@[x]@);
                    assert(rest0[x + 1]@ == o0.skip(k - 1)[x + 1]);
                    assert(o0.skip(k - 1)[x + 1] == o0[k + x]);
                }
                assert(rest@ =~= o0.skip(k));
            }
        }
        proof {
            assert(o0.take(k) =~= o0);
        }
    }
}

/// Absorbs one separator-free line `chunk[ls..e]` into the table, returning
/// the record list extended by the line's record, if it holds one.
fn absorb_line(
    t: &mut Table,
    chunk: &[u8],
    ls: usize,
    e: usize,
    rr: Ghost<Seq<(Seq<u8>, int)>>,
) -> (rr2: Ghost<Seq<(Seq<u8>, int)>>)
    requires
        ls <= e <= chunk@.len(),
        forall|j: int| ls <= j < e ==> chunk@[j] != SEP_LINE,
        old(t).wf(),
        old(t)@ == agg_entries_of(rr@),
        forall|x: int| 0 <= x < old(t)@.len() ==> (#[trigger] old(t)@[x]).agg.count <= rr@.len(),
        rr@.len() < MAX_COUNT,
    ensures
        final(t).wf(),
        rr2@ == rr@ + (match record_of_line(chunk@.subrange(ls as int, e as int)) {
            Option::Some(r) => seq![r],
            Option::None => Seq::empty(),
        }),
        final(t)@ == agg_entries_of(rr2@),
        forall|x: int| 0 <= x < final(t)@.len() ==> (#[trigger] final(t)@[x]).agg.count
            <= rr2@.len(),
        rr@.len() <= rr2@.len() <= rr@.len() + 1,
{
    let n = chunk.len();
    let ghost line = chunk@.subrange(ls as int, e as int);
    assert(forall|j: int| 0 <= j < line.len() ==> line[j] != SEP_LINE);
    // Ignore one trailing carriage return.
    let mut le = e;
    if le > ls && chunk[le - 1] == SEP_CR {
        le = le - 1;
    }
    let ghost c = strip_cr(line);
    proof {
        if e > ls && chunk@[e - 1] == SEP_CR {
            assert(line.last() == SEP_CR);
            assert(c =~= chunk@.subrange(ls as int, le as int));
        } else {
            assert(c =~= chunk@.subrange(ls as int, le as int));
        }
    }
    // Find the field separator.
    let mut j = ls;
    while j < le && chunk[j] != SEP_FIELD
        invariant
            n == chunk@.len(),
            le <= n,
            ls <= j <= le,
            forall|k: int| ls <= k < j ==> chunk@[k] != SEP_FIELD,
        decreases le - j,
    {
        j = j + 1;
    }
    if j < le {
        // A name and a value token; aggregate if the token parses.
        proof {
            assert(c[j - ls] == chunk@[j as int]);
            assert(forall|k: int| 0 <= k < j - ls ==> c[k] == chunk@[k + ls] && c[k] != SEP_FIELD);
            lemma_index_of_first_is(c, SEP_FIELD, j - ls);
            assert(c.skip(j - ls + 1) =~= chunk@.subrange(j + 1, le as int));
            assert(c.take(j - ls) =~= chunk@.subrange(ls as int, j as int));
        }
        let token = slice_subrange(chunk, j + 1, le);
        match parse_i32(token) {
            Result::Ok(v) => {
                let name = slice_subrange(chunk, ls, j);
                let ghost rec = (chunk@.subrange(ls as int, j as int), v as int);
                proof {
                    assert(record_of_line(line) == Some(rec));
                    match find_name(t@, name@) {
                        Option::Some(fi) => {
                            lemma_find_name(t@, name@);
                            assert(t@[fi].agg.count <= rr@.len());
                        },
                        Option::None => {},
                    }
                }
                t.upsert(name, v);
                let ghost rrn = rr@.push(rec);
                proof {
                    assert(rrn.drop_last() =~= rr@);
                    assert(agg_entries_of(rrn) == upsert_spec(agg_entries_of(rr@), rec.0, rec.1));
                    lemma_count_after_upsert(t@, rrn);
                    assert(rrn =~= rr@ + seq![rec]);
                }
                Ghost(rrn)
            },
            Result::Err(_) => {
                proof {
                    assert(record_of_line(line) is None);
                    assert(rr@ + Seq::<(Seq<u8>, int)>::empty() =~= rr@);
                }
                Ghost(rr@)
            },
        }
    } else {
        // No field separator: the line yields no record.
        proof {
            c.index_of_first_ensures(SEP_FIELD);
            match c.index_of_first(SEP_FIELD) {
                Option::Some(k) => {
                    assert(c[k] == chunk@[k + ls]);
                },
                Option::None => {},
            }
            assert(record_of_line(line) is None);
            assert(rr@ + Seq::<(Seq<u8>, int)>::empty() =~= rr@);
        }
        Ghost(rr@)
    }
}

/// A prefix of a distinct-name slot sequence has distinct names.
proof fn lemma_take_distinct(s: Seq<Entry>, k: int)
    requires
        distinct_names(s),
        0 <= k <= s.len(),
    ensures
        distinct_names(s.take(k)),
{
    assert forall|p: int, q: int| 0 <= p < q < s.take(k).len() implies s.take(k)[p].name != s.take(
        k,
    )[q].name by {
        assert(s.take(k)[p] == s[p] && s.take(k)[q] == s[q]);
    }
}

/// After upserting the last record of `rr`, every slot's count stays within
/// the number of records seen.
proof fn lemma_count_after_upsert(t: Seq<Entry>, rr: Seq<(Seq<u8>, int)>)
    requires
        rr.len() > 0,
        t == agg_entries_of(rr),
        forall|x: int|
            0 <= x < agg_entries_of(rr.drop_last()).len() ==> (#[trigger] agg_entries_of(
                rr.drop_last(),
            )[x]).agg.count <= rr.len() - 1,
    ensures
        forall|x: int| 0 <= x < t.len() ==> (#[trigger] t[x]).agg.count <= rr.len(),
{
    let prev = agg_entries_of(rr.drop_last());
    let e = Entry { name: rr.last().0, agg: agg_one(rr.last().1) };
    lemma_find_name(prev, e.name);
    assert forall|x: int| 0 <= x < t.len() implies (#[trigger] t[x]).agg.count <= rr.len() by {
        match find_name(prev, e.name) {
            Option::Some(i) => {
                if x == i {
                } else {
                    assert(t[x] == prev[x]);
                }
            },
            Option::None => {
                if x < t.len() - 1 {
                    assert(t[x] == prev[x]);
                }
            },
        }
    }
}

/// In mid-merge, the requirement of the next `merge_record` call follows from
/// the table models: the slot the next record lands in still carries the
/// count it had before the merge began.
proof fn lemma_merge_requires(s0: Seq<Entry>, o0: Seq<Entry>, k: int, cur: Seq<Entry>)
    requires
        entries_wf(s0),
        entries_wf(o0),
        0 <= k < o0.len(),
        cur == merge_entries_spec(s0, o0.take(k)),
        forall|i: int, j: int|
            0 <= i < s0.len() && 0 <= j < o0.len() && s0[i].name == o0[j].name ==> s0[i].agg.count
                + o0[j].agg.count <= MAX_COUNT,
    ensures
        match find_name(cur, o0[k].name) {
            Option::Some(i) => cur[i].agg.count + o0[k].agg.count <= MAX_COUNT,
            Option::None => true,
        },
{
    let nm = o0[k].name;
    lemma_take_distinct(o0, k);
    lemma_merge_entries(s0, o0.take(k));
    lemma_find_name(cur, nm);
    match find_name(cur, nm) {
        Option::Some(i) => {
            lemma_entry_map_index(cur);
            assert(entry_map(cur).dom().contains(cur[i].name) && entry_map(cur)[cur[i].name]
                == cur[i].agg);
            let mk = entry_map(o0.take(k));
            assert(!mk.dom().contains(nm)) by {
                lemma_entry_map_index(o0.take(k));
                if mk.dom().contains(nm) {
                    let p = choose|p: int|
                        0 <= p < o0.take(k).len() && #[trigger] o0.take(k)[p].name == nm;
                    assert(o0[p].name == o0[k].name);
                }
            }
            assert(entry_map(cur) =~= merge_maps(entry_map(s0), mk));
            assert(entry_map(s0).dom().contains(nm));
            assert(cur[i].agg == entry_map(s0)[nm]);
            lemma_entry_map_index(s0);
            let q = choose|q: int| 0 <= q < s0.len() && #[trigger] s0[q].name == nm;
            assert(entry_map(s0)[nm] == s0[q].agg);
            assert(s0[q].agg.count + o0[k].agg.count <= MAX_COUNT);
        },
        Option::None => {},
    }
}

} // verus!
