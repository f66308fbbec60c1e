//! The finalizer: sorting the table by name and rendering the summary line.
//!
//! Output has the shape `{name=min/mean/max, ...}\n`, entries in byte-
//! lexicographic name order, every number with exactly one fractional digit.
//! [`table_output`] is the mathematical rendering of a table; it sorts the
//! slots with the total order of [`crate::order`], so
//! [`lemma_output_depends_on_map`] can show that two tables holding the same
//! name-to-aggregate map render to identical bytes — merge order, chunk
//! sizes and slot order cannot show through in the output.

use vstd::prelude::*;
use vstd::arithmetic::div_mod::{lemma_div_denominator, lemma_div_is_ordered};
use vstd::relations::sorted_by;
use vstd::seq_lib::lemma_sorted_unique;

use crate::order::{entry_order, lemma_entry_order_total, name_order, par_sort_by_name};
use crate::table::{
    distinct_names, entry_map, lemma_entry_map_multiset, Entry, Record, Table,
};
use crate::values::{agg_wf, mean_rounded};

verus! {

/// Decimal digits of a non-negative integer, most significant first.
pub open spec fn dec_digits(n: int) -> Seq<u8>
    recommends
        n >= 0,
    decreases n,
    via dec_digits_decreases
{
    if n <= 9 {
        seq![(48 + n) as u8]
    } else {
        dec_digits(n / 10).push((48 + n % 10) as u8)
    }
}

#[via_fn]
proof fn dec_digits_decreases(n: int) {
    if n > 9 {
        vstd::arithmetic::div_mod::lemma_div_is_strictly_smaller(n, 10);
    }
}

/// A non-negative number of tenths, rendered with one fractional digit.
pub open spec fn fmt_nonneg(u: int) -> Seq<u8>
    recommends
        u >= 0,
{
    dec_digits(u / 10) + seq![46u8, (48 + u % 10) as u8]
}

/// A number of tenths, rendered with one fractional digit and a sign.
pub open spec fn fmt_tenths(v: int) -> Seq<u8> {
    if v < 0 {
        seq![45u8] + fmt_nonneg(-v)
    } else {
        fmt_nonneg(v)
    }
}

/// One rendered slot: `name=min/mean/max`.
pub open spec fn render_entry_spec(e: Entry) -> Seq<u8> {
    e.name + seq![61u8] + fmt_tenths(e.agg.min) + seq![47u8] + fmt_tenths(
        mean_rounded(e.agg.sum, e.agg.count as int),
    ) + seq![47u8] + fmt_tenths(e.agg.max)
}

/// Slots joined by `, `.
pub open spec fn joined_entries(s: Seq<Entry>) -> Seq<u8>
    decreases s.len(),
{
    if s.len() == 0 {
        Seq::empty()
    } else if s.len() == 1 {
        render_entry_spec(s[0])
    } else {
        joined_entries(s.drop_last()) + seq![44u8, 32u8] + render_entry_spec(s.last())
    }
}

/// A whole slot sequence, rendered in the given order inside `{ }`.
pub open spec fn render_entries(s: Seq<Entry>) -> Seq<u8> {
    seq![123u8] + joined_entries(s) + seq![125u8, 10u8]
}

/// The rendering of a table: its slots in name order, inside `{ }`.
pub open spec fn table_output(s: Seq<Entry>) -> Seq<u8> {
    render_entries(s.sort_by(entry_order()))
}

/// A permutation of a distinct-name slot sequence has distinct names.
pub proof fn lemma_multiset_distinct(s1: Seq<Entry>, s2: Seq<Entry>)
    requires
        distinct_names(s1),
        s1.to_multiset() == s2.to_multiset(),
    ensures
        distinct_names(s2),
{
    broadcast use vstd::seq_lib::group_to_multiset_ensures;
    broadcast use vstd::multiset::group_multiset_axioms;

    assert forall|p: int, q: int| 0 <= p < q < s2.len() implies s2[p].name != s2[q].name by {
        if s2[p].name == s2[q].name {
            let e = s2[p];
            if s2[p] == s2[q] {
                assert(s2.remove(p).to_multiset() =~= s2.to_multiset().remove(e));
                assert(s2.remove(p)[q - 1] == e);
                assert(s2.remove(p).contains(e));
                assert(s2.remove(p).to_multiset().count(e) > 0);
                assert(s2.to_multiset().count(e) >= 2);
                assert(s1.to_multiset().count(e) >= 2);
                assert(s1.to_multiset().contains(e));
                assert(s1.contains(e));
                let i1 = choose|i: int| 0 <= i < s1.len() && s1[i] == e;
                assert(s1.remove(i1).to_multiset() =~= s1.to_multiset().remove(e));
                assert(s1.remove(i1).to_multiset().count(e) >= 1);
                assert(s1.remove(i1).contains(e));
                let i2 = choose|i: int| 0 <= i < s1.remove(i1).len() && s1.remove(i1)[i] == e;
                if i2 < i1 {
                    assert(s1[i2] == e);
                    assert(s1[i2].name == s1[i1].name);
                } else {
                    assert(s1[i2 + 1] == e);
                    assert(s1[i2 + 1].name == s1[i1].name);
                }
            } else {
                assert(s2.contains(s2[p]));
                assert(s2.contains(s2[q]));
                assert(s1.to_multiset().count(s2[p]) > 0);
                assert(s1.to_multiset().count(s2[q]) > 0);
                assert(s1.contains(s2[p]));
                assert(s1.contains(s2[q]));
                let i = choose|i: int| 0 <= i < s1.len() && s1[i] == s2[p];
                let j = choose|j: int| 0 <= j < s1.len() && s1[j] == s2[q];
                assert(i != j);
                assert(s1[i].name == s1[j].name);
            }
        }
    }
}

/// A permutation of a slot sequence with well-formed aggregates has
/// well-formed aggregates.
pub proof fn lemma_multiset_wf(s1: Seq<Entry>, s2: Seq<Entry>)
    requires
        forall|i: int| 0 <= i < s1.len() ==> agg_wf((#[trigger] s1[i]).agg),
        s1.to_multiset() == s2.to_multiset(),
    ensures
        forall|i: int| 0 <= i < s2.len() ==> agg_wf((#[trigger] s2[i]).agg),
{
    broadcast use vstd::seq_lib::group_to_multiset_ensures;

    assert forall|i: int| 0 <= i < s2.len() implies agg_wf((#[trigger] s2[i]).agg) by {
        assert(s2.contains(s2[i]));
        assert(s1.to_multiset().count(s2[i]) > 0);
        assert(s1.contains(s2[i]));
        let j = choose|j: int| 0 <= j < s1.len() && s1[j] == s2[i];
    }
}

/// Two tables with the same name-to-aggregate map render identically: the
/// output is a function of the aggregated records alone.
pub proof fn lemma_output_depends_on_map(s1: Seq<Entry>, s2: Seq<Entry>)
    requires
        distinct_names(s1),
        distinct_names(s2),
        entry_map(s1) == entry_map(s2),
    ensures
        table_output(s1) == table_output(s2),
{
    lemma_entry_map_multiset(s1, s2);
    lemma_entry_order_total();
    s1.lemma_sort_by_ensures(entry_order());
    s2.lemma_sort_by_ensures(entry_order());
    assert(s1.sort_by(entry_order()).to_multiset() == s2.sort_by(entry_order()).to_multiset());
    lemma_sorted_unique(s1.sort_by(entry_order()), s2.sort_by(entry_order()), entry_order());
    assert(s1.sort_by(entry_order()) == s2.sort_by(entry_order()));
}

/// Appends the decimal digits of `n`.
fn push_digits(out: &mut Vec<u8>, n: u64)
    requires
        n <= 999,
    ensures
        final(out)@ == old(out)@ + dec_digits(n as int),
{
    let ghost base = out@;
    if n >= 100 {
        proof {
            lemma_div_is_ordered(100, n as int, 10);
            lemma_div_is_ordered(n as int, 999, 10);
            lemma_div_is_ordered(n as int, 999, 100);
            lemma_div_denominator(n as int, 10, 10);
            assert(n as int / 10 / 10 == n as int / 100);
        }
        out.push(48 + (n / 100) as u8);
        out.push(48 + ((n / 10) % 10) as u8);
        out.push(48 + (n % 10) as u8);
        proof {
            assert(dec_digits(n as int) == dec_digits(n as int / 10).push(
                (48 + n as int % 10) as u8,
            ));
            assert(dec_digits(n as int / 10) == dec_digits(n as int / 100).push(
                (48 + (n as int / 10) % 10) as u8,
            ));
            assert(dec_digits(n as int / 100) == seq![(48 + n as int / 100) as u8]);
            assert(out@ =~= base + dec_digits(n as int));
        }
    } else if n >= 10 {
        proof {
            lemma_div_is_ordered(n as int, 99, 10);
        }
        out.push(48 + (n / 10) as u8);
        out.push(48 + (n % 10) as u8);
        proof {
            assert(dec_digits(n as int) == dec_digits(n as int / 10).push(
                (48 + n as int % 10) as u8,
            ));
            assert(dec_digits(n as int / 10) == seq![(48 + n as int / 10) as u8]);
            assert(out@ =~= base + dec_digits(n as int));
        }
    } else {
        out.push(48 + n as u8);
        proof {
            assert(out@ =~= base + dec_digits(n as int));
        }
    }
}

/// Appends a number of tenths with one fractional digit and a sign.
pub fn push_tenths(out: &mut Vec<u8>, v: i64)
    requires
        -9999 <= v <= 9999,
    ensures
        final(out)@ == old(out)@ + fmt_tenths(v as int),
{
    let ghost base = out@;
    let u: u64 = if v < 0 {
        out.push(45);
        (-v) as u64
    } else {
        v as u64
    };
    proof {
        lemma_div_is_ordered(u as int, 9999, 10);
    }
    push_digits(out, u / 10);
    out.push(46);
    out.push(48 + (u % 10) as u8);
    proof {
        if v < 0 {
            assert(out@ =~= base + seq![45u8] + fmt_nonneg(u as int));
            assert(out@ =~= base + fmt_tenths(v as int));
        } else {
            assert(out@ =~= base + fmt_nonneg(u as int));
        }
    }
}

/// Appends one rendered slot: `name=min/mean/max`.
pub fn render_record(out: &mut Vec<u8>, rec: &Record)
    requires
        agg_wf(rec@.agg),
    ensures
        final(out)@ == old(out)@ + render_entry_spec(rec@),
{
    let ghost base = out@;
    let nl = rec.station_name.len();
    let mut i: usize = 0;
    while i < nl
        invariant
            nl == rec.station_name@.len(),
            i <= nl,
            out@ == base + rec.station_name@.take(i as int),
        decreases nl - i,
    {
        out.push(rec.station_name[i]);
        proof {
            assert(out@ =~= base + rec.station_name@.take(i + 1));
        }
        i = i + 1;
    }
    proof {
        assert(rec.station_name@.take(nl as int) =~= rec.station_name@);
    }
    out.push(61);
    push_tenths(out, rec.values.min as i64);
    out.push(47);
    let m = rec.values.mean_tenths();
    push_tenths(out, m);
    out.push(47);
    push_tenths(out, rec.values.max as i64);
    proof {
        assert(out@ =~= base + render_entry_spec(rec@));
    }
}

/// Sorts the table by name and renders the single summary line.
///
/// The result is exactly [`table_output`] of the table's slots: the entries
/// in byte-lexicographic name order, each as `name=min/mean/max`, joined by
/// `, `, wrapped in `{ }`, terminated by a newline.
pub fn render_table(t: Table) -> (out: Vec<u8>)
    requires
        t.wf(),
    ensures
        out@ == table_output(t@),
{
    let ghost s0 = t@;
    proof {
        lemma_entry_order_total();
    }
    let ghost canon = s0.sort_by(entry_order());
    let mut t = t;
    par_sort_by_name(&mut t.entries);
    proof {
        lemma_entry_order_total();
        s0.lemma_sort_by_ensures(entry_order());
        lemma_multiset_distinct(s0, t@);
        lemma_multiset_wf(s0, t@);
        assert(sorted_by(t@, name_order()));
        assert forall|i: int, j: int| 0 <= i < j < t@.len() implies entry_order()(
            t@[i],
            t@[j],
        ) by {
            assert(name_order()(t@[i], t@[j]));
            assert(t@[i].name != t@[j].name);
        }
        assert(sorted_by(t@, entry_order()));
        lemma_sorted_unique(t@, canon, entry_order());
        assert(t@ == canon);
    }
    let mut out: Vec<u8> = Vec::new();
    out.push(123);
    let k = t.entries.len();
    let mut i: usize = 0;
    proof {
        assert(t@.take(0) =~= Seq::<Entry>::empty());
        assert(out@ =~= seq![123u8] + joined_entries(t@.take(0)));
    }
    while i < k
        invariant
            k == t.entries@.len(),
            k == t@.len(),
            i <= k,
            forall|x: int| 0 <= x < t@.len() ==> agg_wf((#[trigger] t@[x]).agg),
            out@ == seq![123u8] + joined_entries(t@.take(i as int)),
        decreases k - i,
    {
        if i > 0 {
            out.push(44);
            out.push(32);
        }
        let ghost mid = out@;
        proof {
            assert(agg_wf(t@[i as int].agg));
            assert(t.entries@[i as int]@ == t@[i as int]);
        }
        render_record(&mut out, &t.entries[i]);
        proof {
            let pre = t@.take(i as int);
            let cur = t@.take(i + 1);
            assert(cur.drop_last() =~= pre);
            assert(cur.last() == t@[i as int]);
            if i == 0 {
                assert(joined_entries(cur) == render_entry_spec(t@[0]));
                assert(out@ =~= seq![123u8] + joined_entries(cur));
            } else {
                assert(joined_entries(cur) == joined_entries(pre) + seq![44u8, 32u8]
                    + render_entry_spec(t@[i as int]));
                assert(out@ =~= seq![123u8] + joined_entries(cur));
            }
        }
        i = i + 1;
    }
    out.push(125);
    out.push(10);
    proof {
        assert(t@.take(k as int) =~= t@);
        assert(out@ =~= render_entries(t@));
    }
    out
}

} // verus!
