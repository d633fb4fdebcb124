use vstd::prelude::*;

use crate::buffer::{
    flush_model, send_batch_model, send_model, sat_add_u64, step_model, CmdView, EventView,
    OpView, WorkerModel,
};
use crate::record::{key_timestamp, record_json, LogStashRecord};
use crate::time::{iso_bytes, lemma_iso_bytes_len, lemma_iso_round_trip, spec_parse_iso};

verus! {

/// A record at or above the bypass severity goes to the transport at
/// once, even when the buffer holds lower-severity records: the state,
/// buffer and deadline included, stays untouched, and the one
/// operation emitted is that record's own send.
pub proof fn law_bypass_immediate(w: WorkerModel, e: LogStashRecord, now: int)
    requires
        w.is_bypass(e),
    ensures
        send_model(w, e, now) == (w, seq![OpView::SendRecord(e)]),
{
}

/// Flushing an empty buffer issues no batch: the transport sees only
/// the stream-level flush.
pub proof fn law_flush_empty(w: WorkerModel)
    requires
        w.buffer.len() == 0,
    ensures
        flush_model(w).1 == seq![OpView::Flush],
        flush_model(w).0.buffer.len() == 0,
        flush_model(w).0.deadline_ms is None,
{
}

/// With a lifetime configured, a record landing in an empty buffer,
/// and not filling it, arms the deadline at its arrival time plus the
/// lifetime and emits nothing.
pub proof fn law_deadline_armed(w: WorkerModel, e: LogStashRecord, now: int)
    requires
        !w.is_bypass(e),
        w.buffer.len() == 0,
        w.buffer_size matches Some(k) && k >= 2,
        w.buffer_lifetime_ms is Some,
    ensures
        send_model(w, e, now).0.deadline_ms == Some(sat_add_u64(now, w.buffer_lifetime_ms->0)),
        send_model(w, e, now).0.buffer == seq![e],
        send_model(w, e, now).1 == Seq::<OpView>::empty(),
{
    assert(w.buffer.push(e) =~= seq![e]);
}

/// When the deadline passes with no further command, the timeout
/// flushes exactly the accumulated records, as one batch followed by
/// the stream-level flush, and clears the buffer and the deadline.
pub proof fn law_deadline_flush(w: WorkerModel, now: int)
    requires
        w.buffer.len() > 0,
    ensures
        ({
            let r = step_model(w, EventView::TimedOut, now);
            &&& r.1 == seq![OpView::SendBatch(w.buffer), OpView::Flush]
            &&& r.0.buffer.len() == 0
            &&& r.0.deadline_ms is None
            &&& !r.2
        }),
{
}

/// With batching off, the worker forwards every record to the
/// transport individually, in arrival order, and its state never
/// changes.
pub proof fn law_unbuffered_passthrough(w: WorkerModel, es: Seq<LogStashRecord>, now: int)
    requires
        w.buffer_size is None,
    ensures
        send_batch_model(w, es, now).0 == w,
        send_batch_model(w, es, now).1 == es.map_values(|e: LogStashRecord| OpView::SendRecord(e)),
    decreases es.len(),
{
    let f = |e: LogStashRecord| OpView::SendRecord(e);
    if es.len() == 0 {
        assert(es.map_values(f) =~= Seq::<OpView>::empty());
    } else {
        law_unbuffered_passthrough(w, es.drop_first(), now);
        assert(es.map_values(f) =~= seq![f(es[0])] + es.drop_first().map_values(f));
    }
}


/// The batches among a run of operations, in order.
pub open spec fn batches_of(ops: Seq<OpView>) -> Seq<Seq<LogStashRecord>>
    decreases ops.len(),
{
    if ops.len() == 0 {
        seq![]
    } else {
        let rest = batches_of(ops.drop_last());
        match ops.last() {
            OpView::SendBatch(b) => rest.push(b),
            _ => rest,
        }
    }
}

/// The records of a run of batches, one after another, in order.
pub open spec fn concat_batches(bs: Seq<Seq<LogStashRecord>>) -> Seq<LogStashRecord>
    decreases bs.len(),
{
    if bs.len() == 0 {
        seq![]
    } else {
        concat_batches(bs.drop_last()) + bs.last()
    }
}

/// The first `full` chunks of `k` records each, in order.
pub open spec fn chunks_of(es: Seq<LogStashRecord>, k: int, full: int) -> Seq<
    Seq<LogStashRecord>,
> {
    Seq::new(full as nat, |j: int| es.subrange(j * k, j * k + k))
}

/// `batches_of` distributes over concatenation.
proof fn lemma_batches_of_concat(a: Seq<OpView>, b: Seq<OpView>)
    ensures
        batches_of(a + b) == batches_of(a) + batches_of(b),
    decreases b.len(),
{
    if b.len() == 0 {
        assert(a + b =~= a);
        assert(batches_of(a) + batches_of(b) =~= batches_of(a));
    } else {
        assert((a + b).drop_last() =~= a + b.drop_last());
        assert((a + b).last() == b.last());
        lemma_batches_of_concat(a, b.drop_last());
        match b.last() {
            OpView::SendBatch(x) => {
                assert((batches_of(a) + batches_of(b.drop_last())).push(x) =~= batches_of(a)
                    + batches_of(b.drop_last()).push(x));
            },
            _ => {},
        }
    }
}

/// Concatenating the first `full` chunks of `k` records gives the
/// first `full * k` records.
proof fn lemma_concat_chunks(es: Seq<LogStashRecord>, k: int, full: int)
    requires
        k > 0,
        0 <= full,
        full * k <= es.len(),
    ensures
        concat_batches(chunks_of(es, k, full)) == es.subrange(0, full * k),
    decreases full,
{
    let chunks = chunks_of(es, k, full);
    if full == 0 {
        assert(full * k == 0) by (nonlinear_arith)
            requires
                full == 0,
        ;
        assert(chunks =~= Seq::<Seq<LogStashRecord>>::empty());
        assert(concat_batches(chunks) == Seq::<LogStashRecord>::empty());
        assert(es.subrange(0, 0) =~= Seq::<LogStashRecord>::empty());
    } else {
        assert((full - 1) * k <= es.len() && (full - 1) * k >= 0 && (full - 1) * k + k == full * k)
            by (nonlinear_arith)
            requires
                k > 0,
                full >= 1,
                full * k <= es.len(),
        ;
        lemma_concat_chunks(es, k, full - 1);
        assert(chunks.drop_last() =~= chunks_of(es, k, full - 1));
        assert(chunks.last() == es.subrange((full - 1) * k, (full - 1) * k + k));
        assert(concat_batches(chunks) == concat_batches(chunks.drop_last()) + chunks.last());
        assert(concat_batches(chunks.drop_last()) == concat_batches(chunks_of(es, k, full - 1)));
        assert(concat_batches(chunks) == es.subrange(0, (full - 1) * k) + es.subrange(
            (full - 1) * k,
            full * k,
        ));
        assert(es.subrange(0, (full - 1) * k) + es.subrange((full - 1) * k, full * k)
            =~= es.subrange(0, full * k));
    }
}

/// Running buffered records through the worker leaves the newest
/// `N % k` of them in the buffer, the earlier ones having gone out as
/// full batches of `k`, in order.
proof fn lemma_batching_run(w: WorkerModel, es: Seq<LogStashRecord>, now: int)
    requires
        w.buffer.len() == 0,
        w.buffer_size matches Some(k) && k >= 2,
        forall|i: int| 0 <= i < es.len() ==> !w.is_bypass(#[trigger] es[i]),
    ensures
        ({
            let k = w.buffer_size->0;
            let run = send_batch_model(w, es, now);
            let n = es.len() as int;
            let full = n / k;
            &&& run.0.buffer == es.subrange(full * k, n)
            &&& run.0.buffer_size == w.buffer_size
            &&& run.0.ignore_buffer == w.ignore_buffer
            &&& batches_of(run.1) == chunks_of(es, k, full)
            &&& forall|i: int| 0 <= i < run.1.len() ==> !((#[trigger] run.1[i]) is SendRecord)
        }),
    decreases es.len(),
{
    let k = w.buffer_size->0;
    let n = es.len() as int;
    vstd::arithmetic::div_mod::lemma_fundamental_div_mod(n, k);
    vstd::arithmetic::div_mod::lemma_mod_division_less_than_divisor(n, k);
    vstd::arithmetic::div_mod::lemma_div_pos_is_pos(n, k);
    let full = n / k;
    let rem = n % k;
    if n == 0 {
        assert(full == 0 && rem == 0) by (nonlinear_arith)
            requires
                k >= 2,
                n == 0,
                n == k * full + rem,
                0 <= rem < k,
                full >= 0,
        ;
        let run = send_batch_model(w, es, now);
        assert(run.0.buffer =~= es.subrange(0, 0));
        assert(batches_of(run.1) =~= chunks_of(es, k, 0));
    } else {
        let prefix = es.drop_last();
        let e = es.last();
        assert(forall|i: int| 0 <= i < prefix.len() ==> !w.is_bypass(#[trigger] prefix[i])) by {
            assert(forall|i: int|
                0 <= i < prefix.len() ==> #[trigger] prefix[i] == es[i] && !w.is_bypass(es[i]));
        }
        lemma_batching_run(w, prefix, now);
        crate::buffer::lemma_send_batch_model_push(w, prefix, e, now);
        assert(prefix.push(e) =~= es);
        let m = n - 1;
        vstd::arithmetic::div_mod::lemma_fundamental_div_mod(m, k);
        vstd::arithmetic::div_mod::lemma_mod_division_less_than_divisor(m, k);
        vstd::arithmetic::div_mod::lemma_div_pos_is_pos(m, k);
        let pfull = m / k;
        let prem = m % k;
        assert(pfull * k == k * pfull && 0 <= pfull * k && pfull * k + prem == m)
            by (nonlinear_arith)
            requires
                m == k * pfull + prem,
                pfull >= 0,
                prem >= 0,
                k >= 2,
        ;
        let prev = send_batch_model(w, prefix, now);
        let one = send_model(prev.0, e, now);
        let run = send_batch_model(w, es, now);
        assert(run.0 == one.0 && run.1 == prev.1 + one.1);
        assert(prev.0.buffer == prefix.subrange(pfull * k, m));
        assert(prefix.subrange(pfull * k, m) =~= es.subrange(pfull * k, m));
        assert(prev.0.buffer.len() == prem);
        assert(!prev.0.is_bypass(e));
        let buf1 = prev.0.buffer.push(e);
        assert(buf1 =~= es.subrange(pfull * k, n));
        assert(buf1.len() == prem + 1);
        assert(batches_of(prev.1) == chunks_of(prefix, k, pfull));
        assert(chunks_of(prefix, k, pfull) =~= chunks_of(es, k, pfull)) by {
            assert forall|j: int| 0 <= j < pfull implies #[trigger] chunks_of(prefix, k, pfull)[j]
                == chunks_of(es, k, pfull)[j] by {
                assert(0 <= j * k && j * k + k <= pfull * k) by (nonlinear_arith)
                    requires
                        0 <= j < pfull,
                        k >= 2,
                ;
                assert(prefix.subrange(j * k, j * k + k) =~= es.subrange(j * k, j * k + k));
            }
        }
        if prem + 1 < k {
            // the record stays buffered; no new batch
            vstd::arithmetic::div_mod::lemma_fundamental_div_mod_converse(n, k, pfull, prem + 1);
            assert(full == pfull && rem == prem + 1);
            assert(one.1 =~= Seq::<OpView>::empty());
            assert(run.1 =~= prev.1);
            assert(batches_of(run.1) == batches_of(prev.1));
        } else {
            // the buffer reached k and was flushed as one batch
            assert(prem + 1 == k);
            assert(n == k * (pfull + 1) + 0) by (nonlinear_arith)
                requires
                    n == m + 1,
                    m == k * pfull + prem,
                    prem + 1 == k,
            ;
            vstd::arithmetic::div_mod::lemma_fundamental_div_mod_converse(n, k, pfull + 1, 0);
            assert(full == pfull + 1 && rem == 0);
            assert(full * k == n) by (nonlinear_arith)
                requires
                    n == k * (pfull + 1),
                    full == pfull + 1,
            ;
            assert(one.1 =~= seq![OpView::SendBatch(buf1), OpView::Flush]);
            assert(run.0.buffer =~= es.subrange(full * k, n));
            lemma_batches_of_concat(prev.1, one.1);
            assert(batches_of(one.1) =~= seq![buf1]) by {
                reveal_with_fuel(batches_of, 4);
                assert(one.1.drop_last() =~= seq![OpView::SendBatch(buf1)]);
                assert(seq![OpView::SendBatch(buf1)].drop_last() =~= Seq::<OpView>::empty());
                assert(batches_of(seq![OpView::SendBatch(buf1)]) =~= seq![buf1]);
            }
            assert(pfull * k + k == n) by (nonlinear_arith)
                requires
                    n == k * (pfull + 1),
            ;
            assert(buf1 =~= es.subrange(pfull * k, pfull * k + k));
            assert(batches_of(run.1) =~= chunks_of(es, k, full)) by {
                assert(batches_of(run.1) == batches_of(prev.1) + seq![buf1]);
                assert(batches_of(run.1) == chunks_of(es, k, pfull).push(buf1));
            }
        }
    }
}

/// With batching on, size `k` of at least two, and no bypass-level
/// records: after `N` records and a closing flush the transport has
/// received exactly the ceiling of `N / k` batches, none larger than
/// `k`, whose concatenation is the input in arrival order; no record
/// went out individually.
pub proof fn law_batching(w: WorkerModel, es: Seq<LogStashRecord>, now: int)
    requires
        w.buffer.len() == 0,
        w.buffer_size matches Some(k) && k >= 2,
        forall|i: int| 0 <= i < es.len() ==> !w.is_bypass(#[trigger] es[i]),
    ensures
        ({
            let k = w.buffer_size->0;
            let run = send_batch_model(w, es, now);
            let fin = flush_model(run.0);
            let ops = run.1 + fin.1;
            let bs = batches_of(ops);
            let n = es.len() as int;
            &&& bs.len() == (n + k - 1) / k
            &&& forall|i: int| 0 <= i < bs.len() ==> (#[trigger] bs[i]).len() <= k
            &&& concat_batches(bs) == es
            &&& forall|i: int| 0 <= i < ops.len() ==> !((#[trigger] ops[i]) is SendRecord)
        }),
{
    let k = w.buffer_size->0;
    let n = es.len() as int;
    lemma_batching_run(w, es, now);
    vstd::arithmetic::div_mod::lemma_fundamental_div_mod(n, k);
    vstd::arithmetic::div_mod::lemma_mod_division_less_than_divisor(n, k);
    vstd::arithmetic::div_mod::lemma_div_pos_is_pos(n, k);
    let full = n / k;
    let rem = n % k;
    let run = send_batch_model(w, es, now);
    let fin = flush_model(run.0);
    let ops = run.1 + fin.1;
    let chunks = chunks_of(es, k, full);
    lemma_batches_of_concat(run.1, fin.1);
    assert(full * k <= n && 0 <= full * k && n - full * k == rem) by (nonlinear_arith)
        requires
            n == k * full + rem,
            0 <= rem < k,
            full >= 0,
            k >= 2,
    ;
    lemma_concat_chunks(es, k, full);
    let tail = run.0.buffer;
    assert(tail == es.subrange(full * k, n));
    assert(tail.len() == rem);
    if rem == 0 {
        assert(batches_of(fin.1) =~= Seq::<Seq<LogStashRecord>>::empty()) by {
            reveal_with_fuel(batches_of, 3);
            assert(fin.1 =~= seq![OpView::Flush]);
            assert(seq![OpView::Flush].drop_last() =~= Seq::<OpView>::empty());
        }
        assert(batches_of(ops) =~= chunks);
        assert(n + k - 1 == k * full + (k - 1)) by (nonlinear_arith)
            requires
                n == k * full,
        ;
        vstd::arithmetic::div_mod::lemma_fundamental_div_mod_converse(n + k - 1, k, full, k - 1);
        assert(concat_batches(chunks) == es.subrange(0, full * k));
        assert(es.subrange(0, full * k) =~= es);
    } else {
        assert(fin.1 =~= seq![OpView::SendBatch(tail), OpView::Flush]);
        assert(batches_of(fin.1) =~= seq![tail]) by {
            reveal_with_fuel(batches_of, 4);
            assert(fin.1.drop_last() =~= seq![OpView::SendBatch(tail)]);
            assert(seq![OpView::SendBatch(tail)].drop_last() =~= Seq::<OpView>::empty());
            assert(batches_of(seq![OpView::SendBatch(tail)]) =~= seq![tail]);
        }
        assert(batches_of(ops) =~= chunks.push(tail));
        assert(n + k - 1 == k * (full + 1) + (rem - 1)) by (nonlinear_arith)
            requires
                n == k * full + rem,
                0 < rem < k,
        ;
        assert(k != 0);
        assert(0 <= rem - 1 < k);
        vstd::arithmetic::div_mod::lemma_fundamental_div_mod_converse(
            n + k - 1,
            k,
            full + 1,
            rem - 1,
        );
        assert(chunks.push(tail).drop_last() =~= chunks);
        assert(concat_batches(chunks.push(tail)) == concat_batches(chunks) + tail);
        assert(es.subrange(0, full * k) + es.subrange(full * k, n) =~= es);
    }
    assert forall|i: int| 0 <= i < batches_of(ops).len() implies (#[trigger] batches_of(
        ops,
    )[i]).len() <= k by {
        if i < full {
            assert(batches_of(ops)[i] == es.subrange(i * k, i * k + k));
            assert(0 <= i * k && i * k + k <= n) by (nonlinear_arith)
                requires
                    0 <= i < full,
                    k >= 2,
                    n == k * full + rem,
                    rem >= 0,
            ;
        } else {
            assert(batches_of(ops)[i] == tail);
        }
    }
    assert forall|i: int| 0 <= i < ops.len() implies !((#[trigger] ops[i]) is SendRecord) by {
        if i < run.1.len() {
            assert(ops[i] == run.1[i]);
        } else {
            assert(ops[i] == fin.1[i - run.1.len()]);
            assert(fin.1.len() <= 2);
            if run.0.buffer.len() == 0 {
                assert(fin.1 == seq![OpView::Flush]);
            } else {
                assert(fin.1 == seq![OpView::SendBatch(run.0.buffer), OpView::Flush]);
            }
        }
    }
}


/// A deadline is armed only while records wait: no worker turn leaves
/// an armed deadline over an empty buffer.
pub proof fn law_deadline_needs_pending(w: WorkerModel, ev: EventView, now: int)
    requires
        w.deadline_ms is Some ==> w.buffer.len() > 0,
    ensures
        ({
            let r = step_model(w, ev, now);
            r.0.deadline_ms is Some ==> r.0.buffer.len() > 0
        }),
{
    match ev {
        EventView::Cmd(CmdView::SendBatch(es)) => {
            lemma_send_batch_keeps_pending(w, es, now);
        },
        _ => {},
    }
}

/// One admitted record keeps the deadline armed only over a non-empty
/// buffer.
proof fn lemma_send_keeps_pending(w: WorkerModel, e: LogStashRecord, now: int)
    requires
        w.deadline_ms is Some ==> w.buffer.len() > 0,
    ensures
        ({
            let r = send_model(w, e, now);
            r.0.deadline_ms is Some ==> r.0.buffer.len() > 0
        }),
{
}

/// A batch of admitted records keeps the deadline armed only over a
/// non-empty buffer.
proof fn lemma_send_batch_keeps_pending(w: WorkerModel, es: Seq<LogStashRecord>, now: int)
    requires
        w.deadline_ms is Some ==> w.buffer.len() > 0,
    ensures
        ({
            let r = send_batch_model(w, es, now);
            r.0.deadline_ms is Some ==> r.0.buffer.len() > 0
        }),
    decreases es.len(),
{
    if es.len() > 0 {
        lemma_send_keeps_pending(w, es[0], now);
        lemma_send_batch_keeps_pending(send_model(w, es[0], now).0, es.drop_first(), now);
    }
}

/// The wire line of a well-formed record carries its timestamp
/// losslessly: the fixed-width ISO-8601 text sits right after the
/// opening `{"@timestamp":"`, and reading those bytes back gives the
/// record's timestamp exactly, to the millisecond.
pub proof fn law_record_timestamp_round_trip(r: LogStashRecord)
    requires
        r.wf(),
    ensures
        record_json(r).subrange(15, 39) == iso_bytes(r.timestamp_ms as int),
        spec_parse_iso(record_json(r).subrange(15, 39)) == Some(r.timestamp_ms as int),
{
    lemma_iso_bytes_len(r.timestamp_ms as int);
    lemma_iso_round_trip(r.timestamp_ms as int);
    assert(key_timestamp().len() == 15);
    assert(record_json(r).subrange(15, 39) =~= iso_bytes(r.timestamp_ms as int));
}

/// The records an operation run hands the transport, in order.
pub open spec fn ops_records(ops: Seq<OpView>) -> Seq<LogStashRecord>
    decreases ops.len(),
{
    if ops.len() == 0 {
        seq![]
    } else {
        ops_records(ops.drop_last()) + (match ops.last() {
            OpView::SendRecord(e) => seq![e],
            OpView::SendBatch(b) => b,
            OpView::Flush => seq![],
        })
    }
}

/// The records one event carries, in order.
pub open spec fn event_records(ev: EventView) -> Seq<LogStashRecord> {
    match ev {
        EventView::Cmd(CmdView::Send(e)) => seq![e],
        EventView::Cmd(CmdView::SendBatch(es)) => es,
        _ => seq![],
    }
}

/// The records a run of events carries, in order.
pub open spec fn events_records(evs: Seq<EventView>) -> Seq<LogStashRecord>
    decreases evs.len(),
{
    if evs.len() == 0 {
        seq![]
    } else {
        events_records(evs.drop_last()) + event_records(evs.last())
    }
}

/// Whether no record the event carries reaches the bypass severity.
pub open spec fn event_below_bypass(w: WorkerModel, ev: EventView) -> bool {
    match ev {
        EventView::Cmd(CmdView::Send(e)) => !w.is_bypass(e),
        EventView::Cmd(CmdView::SendBatch(es)) => forall|i: int|
            0 <= i < es.len() ==> !w.is_bypass(#[trigger] es[i]),
        _ => true,
    }
}

/// The worker state and the operations emitted over a whole run of
/// events, in order.
pub open spec fn run_steps(w: WorkerModel, evs: Seq<EventView>, now: int) -> (
    WorkerModel,
    Seq<OpView>,
)
    decreases evs.len(),
{
    if evs.len() == 0 {
        (w, seq![])
    } else {
        let prev = run_steps(w, evs.drop_last(), now);
        let one = step_model(prev.0, evs.last(), now);
        (one.0, prev.1 + one.1)
    }
}

/// `ops_records` distributes over concatenation.
proof fn lemma_ops_records_concat(a: Seq<OpView>, b: Seq<OpView>)
    ensures
        ops_records(a + b) == ops_records(a) + ops_records(b),
    decreases b.len(),
{
    if b.len() == 0 {
        assert(a + b =~= a);
        assert(ops_records(a) + ops_records(b) =~= ops_records(a));
    } else {
        assert((a + b).drop_last() =~= a + b.drop_last());
        assert((a + b).last() == b.last());
        lemma_ops_records_concat(a, b.drop_last());
        assert(ops_records(a + b) =~= ops_records(a) + ops_records(b));
    }
}

/// One buffered record below the bypass severity is neither emitted
/// out of turn nor lost: the emitted records followed by the buffer
/// are the old buffer followed by the record.
proof fn lemma_send_keeps_order(w: WorkerModel, e: LogStashRecord, now: int)
    requires
        w.buffer_size is Some,
        !w.is_bypass(e),
    ensures
        ({
            let r = send_model(w, e, now);
            &&& ops_records(r.1) + r.0.buffer == w.buffer.push(e)
            &&& r.0.buffer_size == w.buffer_size
            &&& r.0.ignore_buffer == w.ignore_buffer
        }),
{
    let r = send_model(w, e, now);
    let grown = w.buffer.push(e);
    if grown.len() >= w.buffer_size->0 {
        assert(r.1 =~= seq![OpView::SendBatch(grown), OpView::Flush]);
        assert(ops_records(r.1) =~= grown) by {
            reveal_with_fuel(ops_records, 4);
            assert(r.1.drop_last() =~= seq![OpView::SendBatch(grown)]);
            assert(seq![OpView::SendBatch(grown)].drop_last() =~= Seq::<OpView>::empty());
        }
        assert(ops_records(r.1) + r.0.buffer =~= grown);
    } else {
        assert(r.1 =~= Seq::<OpView>::empty());
        assert(ops_records(r.1) + r.0.buffer =~= grown);
    }
}

/// A batch of such records keeps the same shape, record by record.
proof fn lemma_send_batch_keeps_order(w: WorkerModel, es: Seq<LogStashRecord>, now: int)
    requires
        w.buffer_size is Some,
        forall|i: int| 0 <= i < es.len() ==> !w.is_bypass(#[trigger] es[i]),
    ensures
        ({
            let r = send_batch_model(w, es, now);
            &&& ops_records(r.1) + r.0.buffer == w.buffer + es
            &&& r.0.buffer_size == w.buffer_size
            &&& r.0.ignore_buffer == w.ignore_buffer
        }),
    decreases es.len(),
{
    let r = send_batch_model(w, es, now);
    if es.len() == 0 {
        assert(r.1 =~= Seq::<OpView>::empty());
        assert(ops_records(r.1) + r.0.buffer =~= w.buffer + es);
    } else {
        lemma_send_keeps_order(w, es[0], now);
        let first = send_model(w, es[0], now);
        assert(forall|i: int|
            0 <= i < es.drop_first().len() ==> !first.0.is_bypass(#[trigger] es.drop_first()[i]))
            by {
            assert(forall|i: int|
                0 <= i < es.drop_first().len() ==> #[trigger] es.drop_first()[i] == es[i + 1]);
        }
        lemma_send_batch_keeps_order(first.0, es.drop_first(), now);
        let rest = send_batch_model(first.0, es.drop_first(), now);
        lemma_ops_records_concat(first.1, rest.1);
        assert(ops_records(r.1) + r.0.buffer =~= ops_records(first.1) + (ops_records(rest.1)
            + rest.0.buffer));
        assert(ops_records(first.1) + (first.0.buffer + es.drop_first()) =~= (ops_records(first.1)
            + first.0.buffer) + es.drop_first());
        assert(w.buffer.push(es[0]) + es.drop_first() =~= w.buffer + es);
    }
}

/// One worker turn keeps the shape for any event.
proof fn lemma_step_keeps_order(w: WorkerModel, ev: EventView, now: int)
    requires
        w.buffer_size is Some,
        event_below_bypass(w, ev),
    ensures
        ({
            let r = step_model(w, ev, now);
            &&& ops_records(r.1) + r.0.buffer == w.buffer + event_records(ev)
            &&& r.0.buffer_size == w.buffer_size
            &&& r.0.ignore_buffer == w.ignore_buffer
        }),
{
    let r = step_model(w, ev, now);
    match ev {
        EventView::Cmd(CmdView::Send(e)) => {
            lemma_send_keeps_order(w, e, now);
            assert(w.buffer.push(e) =~= w.buffer + seq![e]);
        },
        EventView::Cmd(CmdView::SendBatch(es)) => {
            lemma_send_batch_keeps_order(w, es, now);
        },
        EventView::Cmd(CmdView::Flush) | EventView::TimedOut => {
            if w.buffer.len() == 0 {
                assert(ops_records(r.1) =~= Seq::<LogStashRecord>::empty()) by {
                    reveal_with_fuel(ops_records, 3);
                    assert(r.1 =~= seq![OpView::Flush]);
                    assert(seq![OpView::Flush].drop_last() =~= Seq::<OpView>::empty());
                }
            } else {
                assert(ops_records(r.1) =~= w.buffer) by {
                    reveal_with_fuel(ops_records, 4);
                    assert(r.1 =~= seq![OpView::SendBatch(w.buffer), OpView::Flush]);
                    assert(r.1.drop_last() =~= seq![OpView::SendBatch(w.buffer)]);
                    assert(seq![OpView::SendBatch(w.buffer)].drop_last()
                        =~= Seq::<OpView>::empty());
                }
            }
            assert(ops_records(r.1) + r.0.buffer =~= w.buffer + event_records(ev));
        },
        EventView::Closed => {
            assert(r.1 =~= Seq::<OpView>::empty());
            assert(ops_records(r.1) + r.0.buffer =~= w.buffer + event_records(ev));
        },
    }
}

/// Over any run of commands and timeouts — sends, batches and flushes
/// interleaved — a buffered worker neither loses, duplicates nor
/// reorders records below the bypass severity: the records it has
/// handed the transport, followed by those still waiting in its
/// buffer, are exactly the records it was given, in arrival order.
/// A close neither emits nor loses anything.
pub proof fn law_order_preserved(w: WorkerModel, evs: Seq<EventView>, now: int)
    requires
        w.buffer_size is Some,
        forall|i: int| 0 <= i < evs.len() ==> event_below_bypass(w, #[trigger] evs[i]),
    ensures
        ({
            let r = run_steps(w, evs, now);
            &&& ops_records(r.1) + r.0.buffer == w.buffer + events_records(evs)
            &&& r.0.buffer_size == w.buffer_size
            &&& r.0.ignore_buffer == w.ignore_buffer
        }),
    decreases evs.len(),
{
    let r = run_steps(w, evs, now);
    if evs.len() == 0 {
        assert(ops_records(r.1) + r.0.buffer =~= w.buffer + events_records(evs));
    } else {
        assert(forall|i: int|
            0 <= i < evs.drop_last().len() ==> event_below_bypass(
                w,
                #[trigger] evs.drop_last()[i],
            )) by {
            assert(forall|i: int|
                0 <= i < evs.drop_last().len() ==> #[trigger] evs.drop_last()[i] == evs[i]);
        }
        law_order_preserved(w, evs.drop_last(), now);
        let prev = run_steps(w, evs.drop_last(), now);
        assert(event_below_bypass(prev.0, evs.last())) by {
            match evs.last() {
                EventView::Cmd(CmdView::Send(e)) => {
                    assert(event_below_bypass(w, evs.last()));
                },
                EventView::Cmd(CmdView::SendBatch(es)) => {
                    assert(event_below_bypass(w, evs.last()));
                    assert(forall|i: int|
                        0 <= i < es.len() ==> !prev.0.is_bypass(#[trigger] es[i]));
                },
                _ => {},
            }
        }
        lemma_step_keeps_order(prev.0, evs.last(), now);
        let one = step_model(prev.0, evs.last(), now);
        lemma_ops_records_concat(prev.1, one.1);
        assert(ops_records(r.1) + r.0.buffer =~= ops_records(prev.1) + (ops_records(one.1)
            + one.0.buffer));
        assert(ops_records(prev.1) + (prev.0.buffer + event_records(evs.last())) =~= (ops_records(
            prev.1,
        ) + prev.0.buffer) + event_records(evs.last()));
        assert((w.buffer + events_records(evs.drop_last())) + event_records(evs.last())
            =~= w.buffer + events_records(evs));
    }
}
} // verus!
