//! The aggregation pipeline: chunk reader, merge queue, and final drain.
//!
//! Chunk aggregators fill private tables and publish them to a queue; a
//! merge pass periodically drains the queue into the shared table, and one
//! final unconditional drain runs at end of input.  [`run`] is the whole
//! pipeline over an in-memory stream, and its contract is the point of the
//! library: the output bytes are a function of the input records alone —
//! the chunk size, the merge cadence and the order of merges cannot change
//! them.

use vstd::prelude::*;
use vstd::arithmetic::power2::pow2;
use vstd::slice::slice_subrange;

use crate::chunk::next_chunk_end;
use crate::records::{lemma_records_concat, lemma_records_total, records_of, SEP_LINE};
use crate::render::{lemma_output_depends_on_map, render_table, table_output};
use crate::table::{
    agg_entries_of, agg_map_of, entry_map, lemma_agg_entries_map, lemma_agg_map_concat,
    lemma_agg_map_wf, lemma_entry_map_index, lemma_merge_entries, lemma_records_values_ok,
    merge_maps, record_values_ok, Table,
};
use crate::values::{AggModel, MAX_COUNT};

verus! {

/// How many chunks the reader hands out between two merge passes.
pub const MERGE_CADENCE: u64 = 128;

/// The output the pipeline owes for a given record stream.
pub open spec fn output_of_records(rs: Seq<(Seq<u8>, int)>) -> Seq<u8> {
    table_output(agg_entries_of(rs))
}

/// The record lists of a list of chunks, flattened in order.
pub open spec fn concat_records(qs: Seq<Seq<(Seq<u8>, int)>>) -> Seq<(Seq<u8>, int)>
    decreases qs.len(),
{
    if qs.len() == 0 {
        Seq::empty()
    } else {
        concat_records(qs.drop_last()) + qs.last()
    }
}

/// Peeling the head off a flattened suffix.
proof fn lemma_concat_skip_head(qs: Seq<Seq<(Seq<u8>, int)>>, k: int)
    requires
        0 <= k < qs.len(),
    ensures
        concat_records(qs.skip(k)) =~= qs[k] + concat_records(qs.skip(k + 1)),
    decreases qs.len(),
{
    if k == qs.len() - 1 {
        assert(qs.skip(k + 1) =~= Seq::<Seq<(Seq<u8>, int)>>::empty());
        assert(qs.skip(k).drop_last() =~= Seq::<Seq<(Seq<u8>, int)>>::empty());
        assert(qs.skip(k).last() == qs[k]);
        assert(concat_records(Seq::<Seq<(Seq<u8>, int)>>::empty()) == Seq::<(
            Seq<u8>,
            int,
        )>::empty());
        assert(concat_records(qs.skip(k)) =~= qs[k] + concat_records(qs.skip(k + 1)));
    } else {
        let q0 = qs.drop_last();
        lemma_concat_skip_head(q0, k);
        assert(qs.skip(k).drop_last() =~= q0.skip(k));
        assert(qs.skip(k).last() == qs.last());
        assert(qs.skip(k + 1).drop_last() =~= q0.skip(k + 1));
        assert(qs.skip(k + 1).last() == qs.last());
        assert(concat_records(qs.skip(k)) == concat_records(q0.skip(k)) + qs.last());
        assert(concat_records(qs.skip(k + 1)) == concat_records(q0.skip(k + 1)) + qs.last());
        assert(q0[k] == qs[k]);
        assert(concat_records(qs.skip(k)) =~= qs[k] + concat_records(qs.skip(k + 1)));
    }
}

/// The aggregate maps of a list of record groups, merged group by group.
pub open spec fn merged_maps(qs: Seq<Seq<(Seq<u8>, int)>>) -> Map<Seq<u8>, AggModel>
    decreases qs.len(),
{
    if qs.len() == 0 {
        Map::empty()
    } else {
        merge_maps(merged_maps(qs.drop_last()), agg_map_of(qs.last()))
    }
}

/// For any partition of a record stream into groups, merging the per-group
/// aggregates reproduces the aggregate of the whole stream; with
/// [`crate::table::lemma_merge_maps_commutes`] and
/// [`crate::table::lemma_merge_maps_assoc`], the order and grouping of the
/// merges cannot change the result either.
pub proof fn lemma_partition_merge(qs: Seq<Seq<(Seq<u8>, int)>>)
    ensures
        merged_maps(qs) =~= agg_map_of(concat_records(qs)),
    decreases qs.len(),
{
    if qs.len() == 0 {
        assert(agg_map_of(concat_records(qs)) =~= Map::<Seq<u8>, AggModel>::empty());
    } else {
        lemma_partition_merge(qs.drop_last());
        lemma_agg_map_concat(concat_records(qs.drop_last()), qs.last());
        assert(merged_maps(qs) =~= agg_map_of(concat_records(qs.drop_last()) + qs.last()));
    }
}

/// The reader's merge-trigger policy: on a fixed cadence of chunks, only
/// while end of input is not near, and only when no merge pass is running.
pub fn should_trigger_merge(
    chunks_read: u64,
    total_bytes_read: u64,
    near_eof: u64,
    merger_idle: bool,
) -> (r: bool)
    ensures
        r == (chunks_read % MERGE_CADENCE == 0 && total_bytes_read < near_eof && merger_idle),
{
    chunks_read % MERGE_CADENCE == 0 && total_bytes_read < near_eof && merger_idle
}

/// Backoff for a producer that cannot take the queue lock: the delay doubles
/// on every failed attempt, capped so the arithmetic cannot overflow.
pub fn backoff_delay_ms(failures: u32) -> (d: u64)
    ensures
        d == pow2(
            if failures < 64 {
                failures as nat
            } else {
                63nat
            },
        ),
{
    let e: u32 = if failures < 64 {
        failures
    } else {
        63
    };
    proof {
        vstd::bits::lemma_u64_pow2_no_overflow(e as nat);
        vstd::bits::lemma_u64_shl_is_mul(1u64, e as u64);
    }
    1u64 << (e as u64)
}

/// One merge pass: atomically the caller has taken `queue`; this folds every
/// queued local table into the shared table, in queue order, leaving the
/// queue empty.  The shared table then carries exactly the aggregate map of
/// all records seen so far.
pub fn drain_queue(
    shared: &mut Table,
    queue: &mut Vec<Table>,
    shared_rs: Ghost<Seq<(Seq<u8>, int)>>,
    queue_rs: Ghost<Seq<Seq<(Seq<u8>, int)>>>,
) -> (new_rs: Ghost<Seq<(Seq<u8>, int)>>)
    requires
        old(shared).wf(),
        entry_map(old(shared)@) == agg_map_of(shared_rs@),
        queue_rs@.len() == old(queue)@.len(),
        forall|i: int|
            0 <= i < old(queue)@.len() ==> (#[trigger] old(queue)@[i]).wf() && old(
                queue,
            )@[i]@ == agg_entries_of(queue_rs@[i]),
        record_values_ok(shared_rs@ + concat_records(queue_rs@)),
        shared_rs@.len() + concat_records(queue_rs@).len() <= MAX_COUNT,
    ensures
        final(shared).wf(),
        final(queue)@.len() == 0,
        new_rs@ == shared_rs@ + concat_records(queue_rs@),
        entry_map(final(shared)@) == agg_map_of(new_rs@),
{
    let ghost total = shared_rs@ + concat_records(queue_rs@);
    let ghost mut acc = shared_rs@;
    let ghost mut k: int = 0;
    proof {
        assert(queue_rs@.take(0) =~= Seq::<Seq<(Seq<u8>, int)>>::empty());
        assert(concat_records(queue_rs@.take(0)) == Seq::<(Seq<u8>, int)>::empty());
        assert(acc =~= shared_rs@ + concat_records(queue_rs@.take(0)));
        assert(queue_rs@.skip(0) =~= queue_rs@);
        assert(acc + concat_records(queue_rs@.skip(0)) =~= total);
    }
    while queue.len() > 0
        invariant
            shared.wf(),
            0 <= k <= queue_rs@.len(),
            queue@.len() == queue_rs@.len() - k,
            forall|i: int|
                0 <= i < queue@.len() ==> (#[trigger] queue@[i]).wf() && queue@[i]@
                    == agg_entries_of(queue_rs@[k + i]),
            acc == shared_rs@ + concat_records(queue_rs@.take(k)),
            entry_map(shared@) == agg_map_of(acc),
            acc + concat_records(queue_rs@.skip(k)) == total,
            record_values_ok(total),
            total.len() <= MAX_COUNT,
        decreases queue@.len(),
    {
        proof {
            lemma_concat_skip_head(queue_rs@, k);
        }
        let ghost rq = queue_rs@[k];
        let ghost s_pre = shared@;
        let t = queue.remove(0);
        proof {
            assert(t@ == agg_entries_of(rq));
            assert(t.wf());
            // The parts of `total` this step touches are in range and short.
            assert(total =~= acc + rq + concat_records(queue_rs@.skip(k + 1)));
            assert(record_values_ok(acc)) by {
                assert(forall|i: int| 0 <= i < acc.len() ==> acc[i] == total[i]);
            }
            assert(record_values_ok(rq)) by {
                assert(forall|i: int| 0 <= i < rq.len() ==> rq[i] == total[acc.len() + i]);
            }
            assert(acc.len() + rq.len() <= total.len());
            lemma_agg_map_wf(acc);
            lemma_agg_map_wf(rq);
            lemma_agg_entries_map(rq);
            lemma_entry_map_index(shared@);
            lemma_entry_map_index(t@);
            assert forall|i: int, j: int|
                0 <= i < shared@.len() && 0 <= j < t@.len() && shared@[i].name == t@[j].name
                    implies shared@[i].agg.count + t@[j].agg.count <= MAX_COUNT by {
                assert(entry_map(shared@).dom().contains(shared@[i].name));
                assert(shared@[i].agg == entry_map(shared@)[shared@[i].name]);
                assert(t@[j].agg == entry_map(t@)[t@[j].name]);
                assert(shared@[i].agg.count <= acc.len());
                assert(t@[j].agg.count <= rq.len());
            }
        }
        shared.merge_from(t);
        proof {
            lemma_merge_entries(s_pre, agg_entries_of(rq));
            lemma_agg_map_concat(acc, rq);
            assert(entry_map(shared@) =~= agg_map_of(acc + rq));
            k = k + 1;
            acc = acc + rq;
            assert(queue_rs@.take(k).drop_last() =~= queue_rs@.take(k - 1));
            assert(queue_rs@.take(k).last() == queue_rs@[k - 1]);
            assert(acc =~= shared_rs@ + concat_records(queue_rs@.take(k)));
            assert(acc + concat_records(queue_rs@.skip(k)) =~= total);
        }
    }
    proof {
        assert(queue_rs@.take(k) =~= queue_rs@);
        assert(acc =~= total);
    }
    Ghost(acc)
}

/// The whole pipeline over an in-memory stream: split into record-aligned
/// chunks of roughly `chunk_target` bytes, aggregate each chunk into a
/// private table, publish it to the merge queue, drain the queue into the
/// shared table on a fixed cadence and once, unconditionally, at end of
/// input, then sort and render.
///
/// The contract mentions neither the chunk size nor the merge cadence: the
/// output is the same for every choice of either.
pub fn run(data: &[u8], chunk_target: usize) -> (out: Vec<u8>)
    requires
        chunk_target >= 1,
        data@.len() < MAX_COUNT,
    ensures
        out@ == output_of_records(records_of(data@)),
{
    let n = data.len();
    let mut shared = Table::new();
    let mut queue: Vec<Table> = Vec::new();
    let ghost mut shared_rs: Seq<(Seq<u8>, int)> = Seq::empty();
    let ghost mut queue_rs: Seq<Seq<(Seq<u8>, int)>> = Seq::empty();
    let mut start: usize = 0;
    let mut chunks_read: u64 = 0;
    proof {
        assert(data@.take(0) =~= Seq::<u8>::empty());
        assert(crate::records::lines_of(Seq::<u8>::empty()) =~= Seq::<Seq<u8>>::empty());
        assert(records_of(Seq::<u8>::empty()) =~= Seq::<(Seq<u8>, int)>::empty());
        assert(entry_map(shared@) =~= agg_map_of(shared_rs));
        assert(concat_records(queue_rs) == Seq::<(Seq<u8>, int)>::empty());
        assert(shared_rs + concat_records(queue_rs) =~= records_of(data@.take(0)));
    }
    while start < n
        invariant
            n == data@.len(),
            n < MAX_COUNT,
            chunk_target >= 1,
            start <= n,
            chunks_read <= start as u64,
            start == 0 || start == n || data@[start - 1] == SEP_LINE,
            shared.wf(),
            entry_map(shared@) == agg_map_of(shared_rs),
            queue_rs.len() == queue@.len(),
            forall|i: int|
                0 <= i < queue@.len() ==> (#[trigger] queue@[i]).wf() && queue@[i]@
                    == agg_entries_of(queue_rs[i]),
            shared_rs + concat_records(queue_rs) == records_of(data@.take(start as int)),
        decreases n - start,
    {
        let e = next_chunk_end(data, start, chunk_target);
        let piece = slice_subrange(data, start, e);
        let local = Table::from_chunk(piece);
        let ghost rq = records_of(data@.subrange(start as int, e as int));
        let ghost pre_q = queue@;
        let ghost pre_qrs = queue_rs;
        queue.push(local);
        chunks_read = chunks_read + 1;
        proof {
            queue_rs = queue_rs.push(rq);
            assert(local@ == agg_entries_of(rq));
            assert forall|i: int|
                0 <= i < queue@.len() implies (#[trigger] queue@[i]).wf() && queue@[i]@
                    == agg_entries_of(queue_rs[i]) by {
                if i < queue@.len() - 1 {
                    assert(queue@[i] == pre_q[i]);
                    assert(queue_rs[i] == pre_qrs[i]);
                } else {
                    assert(queue@[i] == local);
                    assert(queue_rs[i] == rq);
                }
            }
            lemma_records_concat(data@.take(start as int), data@.subrange(start as int, e as int));
            assert(data@.take(e as int) =~= data@.take(start as int) + data@.subrange(
                start as int,
                e as int,
            ));
            assert(queue_rs.drop_last() =~= pre_qrs);
            assert(queue_rs.last() == rq);
            assert(concat_records(queue_rs) == concat_records(pre_qrs) + rq);
            assert(shared_rs + concat_records(queue_rs) =~= records_of(data@.take(e as int)));
        }
        proof {
            if e < n {
                if start + chunk_target >= n {
                } else {
                    crate::chunk::lemma_boundary_after_sep(
                        data@,
                        start as int + chunk_target as int,
                    );
                }
                assert(data@[e - 1] == SEP_LINE);
            }
        }
        start = e;
        if chunks_read % MERGE_CADENCE == 0 {
            proof {
                lemma_records_values_ok(data@.take(start as int));
                lemma_records_total(data@.take(start as int));
                assert(shared_rs.len() + concat_records(queue_rs).len() <= MAX_COUNT);
            }
            let nrs = drain_queue(&mut shared, &mut queue, Ghost(shared_rs), Ghost(queue_rs));
            proof {
                shared_rs = nrs@;
                queue_rs = Seq::empty();
                assert(concat_records(queue_rs) == Seq::<(Seq<u8>, int)>::empty());
                assert(shared_rs + concat_records(queue_rs) =~= records_of(
                    data@.take(start as int),
                ));
            }
        }
    }
    proof {
        assert(data@.take(n as int) =~= data@);
        lemma_records_values_ok(data@);
        lemma_records_total(data@);
        assert(shared_rs.len() + concat_records(queue_rs).len() <= MAX_COUNT);
    }
    let nrs = drain_queue(&mut shared, &mut queue, Ghost(shared_rs), Ghost(queue_rs));
    proof {
        shared_rs = nrs@;
        assert(shared_rs == records_of(data@));
        lemma_agg_entries_map(records_of(data@));
        lemma_output_depends_on_map(shared@, agg_entries_of(records_of(data@)));
    }
    render_table(shared)
}

} // verus!
