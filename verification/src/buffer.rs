use vstd::prelude::*;

use crate::error::Error;
use crate::level::Level;
use crate::record::LogStashRecord;

verus! {

/// What a producer asks of the worker; consumed exactly once, in
/// enqueue order.
pub enum Command {
    Send(LogStashRecord),
    SendBatch(Vec<LogStashRecord>),
    Flush,
}

/// The mathematical shape of a command: batches as sequences.
pub enum CmdView {
    Send(LogStashRecord),
    SendBatch(Seq<LogStashRecord>),
    Flush,
}

impl View for Command {
    type V = CmdView;

    open spec fn view(&self) -> CmdView {
        match self {
            Command::Send(e) => CmdView::Send(*e),
            Command::SendBatch(es) => CmdView::SendBatch(es@),
            Command::Flush => CmdView::Flush,
        }
    }
}

/// One operation the worker asks of the transport.
pub enum TransportOp {
    /// Serialize and send one record.
    SendRecord(LogStashRecord),
    /// Send a batch as one write.
    SendBatch(Vec<LogStashRecord>),
    /// Flush the transport's stream.
    Flush,
}

/// The mathematical shape of a transport operation.
pub enum OpView {
    SendRecord(LogStashRecord),
    SendBatch(Seq<LogStashRecord>),
    Flush,
}

impl View for TransportOp {
    type V = OpView;

    open spec fn view(&self) -> OpView {
        match self {
            TransportOp::SendRecord(e) => OpView::SendRecord(*e),
            TransportOp::SendBatch(es) => OpView::SendBatch(es@),
            TransportOp::Flush => OpView::Flush,
        }
    }
}

/// The views of a sequence of transport operations.
pub open spec fn ops_view(ops: Seq<TransportOp>) -> Seq<OpView> {
    ops.map_values(|o: TransportOp| o@)
}

/// What reaches the worker: a command, the batching deadline passing
/// with no command, or the queue closing.
pub enum WorkerEvent {
    Cmd(Command),
    TimedOut,
    Closed,
}

/// The mathematical shape of a worker event.
pub enum EventView {
    Cmd(CmdView),
    TimedOut,
    Closed,
}

impl View for WorkerEvent {
    type V = EventView;

    open spec fn view(&self) -> EventView {
        match self {
            WorkerEvent::Cmd(c) => EventView::Cmd(c@),
            WorkerEvent::TimedOut => EventView::TimedOut,
            WorkerEvent::Closed => EventView::Closed,
        }
    }
}

/// A record at or above `Warn` is important: losing it is reported to
/// the producer.
pub open spec fn record_important(r: LogStashRecord) -> bool {
    r.level.rank_spec() >= Level::Warn.rank_spec()
}

/// Whether some record of the sequence is important.
pub open spec fn any_important(es: Seq<LogStashRecord>) -> bool {
    exists|i: int| 0 <= i < es.len() && record_important(#[trigger] es[i])
}

/// A command is important when it carries at least one important
/// record.
pub open spec fn cmd_important(c: CmdView) -> bool {
    match c {
        CmdView::Send(e) => record_important(e),
        CmdView::SendBatch(es) => any_important(es),
        CmdView::Flush => false,
    }
}

/// Whether the command carries at least one important record.
pub fn command_importance(cmd: &Command) -> (r: bool)
    ensures
        r == cmd_important(cmd@),
{
    match cmd {
        Command::Send(e) => e.level.at_least(Level::Warn),
        Command::SendBatch(es) => {
            let n = es.len();
            let mut i: usize = 0;
            while i < n
                invariant
                    cmd@ == CmdView::SendBatch(es@),
                    n == es@.len(),
                    i <= n,
                    forall|j: int| 0 <= j < i ==> !record_important(#[trigger] es@[j]),
                decreases n - i,
            {
                if es[i].level.at_least(Level::Warn) {
                    proof {
                        assert(exists|j: int|
                            0 <= j < es@.len() && record_important(#[trigger] es@[j])) by {
                            assert(record_important(es@[i as int]));
                        }
                    }
                    return true;
                }
                i = i + 1;
            }
            false
        },
        Command::Flush => false,
    }
}

/// `a + b`, stopping at the largest representable value.
pub open spec fn sat_add_u64(a: int, b: int) -> int {
    if a + b > 0xffff_ffff_ffff_ffff {
        0xffff_ffff_ffff_ffff
    } else {
        a + b
    }
}

/// The worker's state, as contracts speak of it.
pub struct WorkerModel {
    /// Pending records, oldest first.
    pub buffer: Seq<LogStashRecord>,
    /// Flush the buffer once it holds this many records; `None` means
    /// unbuffered passthrough.
    pub buffer_size: Option<int>,
    /// Flush a non-empty buffer this many milliseconds after its first
    /// record arrived; `None` means no time-based flush.
    pub buffer_lifetime_ms: Option<int>,
    /// When the current buffer contents must be flushed; set exactly
    /// when a record lands in an empty buffer, cleared by every flush.
    pub deadline_ms: Option<int>,
    /// Records at or above this severity bypass batching.
    pub ignore_buffer: Level,
    /// Minimum spacing between error reports.
    pub error_period_ms: int,
    /// When an error was last reported.
    pub last_error_ms: Option<int>,
}

impl WorkerModel {
    /// A record this severe skips the buffer.
    pub open spec fn is_bypass(self, r: LogStashRecord) -> bool {
        r.level.rank_spec() >= self.ignore_buffer.rank_spec()
    }
}

/// Flushing sends the buffered records as one batch (nothing when the
/// buffer is empty), then flushes the transport, and clears the buffer
/// and the deadline.
pub open spec fn flush_model(w: WorkerModel) -> (WorkerModel, Seq<OpView>) {
    let ops = if w.buffer.len() == 0 {
        seq![OpView::Flush]
    } else {
        seq![OpView::SendBatch(w.buffer), OpView::Flush]
    };
    (WorkerModel { buffer: seq![], deadline_ms: None, ..w }, ops)
}

/// One record's admission: bypass-level and unbuffered records go out
/// at once; the rest land in the buffer, arm the deadline when the
/// buffer was empty, and force a flush when the buffer reaches its
/// size.
pub open spec fn send_model(w: WorkerModel, e: LogStashRecord, now: int) -> (
    WorkerModel,
    Seq<OpView>,
) {
    if w.is_bypass(e) || w.buffer_size is None {
        (w, seq![OpView::SendRecord(e)])
    } else {
        let was_empty = w.buffer.len() == 0;
        let w1 = WorkerModel {
            buffer: w.buffer.push(e),
            deadline_ms: if was_empty && w.buffer_lifetime_ms is Some {
                Some(sat_add_u64(now, w.buffer_lifetime_ms->0))
            } else {
                w.deadline_ms
            },
            ..w
        };
        if w1.buffer.len() >= w.buffer_size->0 {
            flush_model(w1)
        } else {
            (w1, seq![])
        }
    }
}

/// A batch command admits its records one by one, in order.
pub open spec fn send_batch_model(w: WorkerModel, es: Seq<LogStashRecord>, now: int) -> (
    WorkerModel,
    Seq<OpView>,
)
    decreases es.len(),
{
    if es.len() == 0 {
        (w, seq![])
    } else {
        let first = send_model(w, es[0], now);
        let rest = send_batch_model(first.0, es.drop_first(), now);
        (rest.0, first.1 + rest.1)
    }
}

/// One worker turn: what the event does to the state, which transport
/// operations it emits, and whether the worker stops.
pub open spec fn step_model(w: WorkerModel, ev: EventView, now: int) -> (
    WorkerModel,
    Seq<OpView>,
    bool,
) {
    match ev {
        EventView::Cmd(CmdView::Send(e)) => {
            let r = send_model(w, e, now);
            (r.0, r.1, false)
        },
        EventView::Cmd(CmdView::SendBatch(es)) => {
            let r = send_batch_model(w, es, now);
            (r.0, r.1, false)
        },
        EventView::Cmd(CmdView::Flush) => {
            let r = flush_model(w);
            (r.0, r.1, false)
        },
        EventView::TimedOut => {
            let r = flush_model(w);
            (r.0, r.1, false)
        },
        EventView::Closed => (w, seq![], true),
    }
}

/// Whether an error at `now` is reported: always for the first error,
/// afterwards only once the error period has passed.
pub open spec fn should_report(w: WorkerModel, now: int) -> bool {
    match w.last_error_ms {
        Option::None => true,
        Option::Some(t) => now - t > w.error_period_ms,
    }
}

/// The worker: owns the pending buffer and decides, command by
/// command, what the transport must do. It performs no I/O itself.
pub struct Worker {
    pub buffer: Vec<LogStashRecord>,
    pub buffer_size: Option<usize>,
    pub buffer_lifetime_ms: Option<u64>,
    pub deadline_ms: Option<u64>,
    pub ignore_buffer: Level,
    pub error_period_ms: u64,
    pub last_error_ms: Option<u64>,
}

impl View for Worker {
    type V = WorkerModel;

    open spec fn view(&self) -> WorkerModel {
        WorkerModel {
            buffer: self.buffer@,
            buffer_size: match self.buffer_size {
                Option::Some(k) => Option::Some(k as int),
                Option::None => Option::None,
            },
            buffer_lifetime_ms: match self.buffer_lifetime_ms {
                Option::Some(d) => Option::Some(d as int),
                Option::None => Option::None,
            },
            deadline_ms: match self.deadline_ms {
                Option::Some(t) => Option::Some(t as int),
                Option::None => Option::None,
            },
            ignore_buffer: self.ignore_buffer,
            error_period_ms: self.error_period_ms as int,
            last_error_ms: match self.last_error_ms {
                Option::Some(t) => Option::Some(t as int),
                Option::None => Option::None,
            },
        }
    }
}

impl Worker {
    /// A fresh worker with an empty buffer, no armed deadline and no
    /// reported error. A buffer size below two means unbuffered
    /// passthrough.
    pub fn new(
        buffer_size: Option<usize>,
        buffer_lifetime_ms: Option<u64>,
        ignore_buffer: Level,
        error_period_ms: u64,
    ) -> (r: Worker)
        ensures
            r@ == (WorkerModel {
                buffer: Seq::<LogStashRecord>::empty(),
                buffer_size: match buffer_size {
                    Option::Some(k) => if k < 2 {
                        Option::None
                    } else {
                        Option::Some(k as int)
                    },
                    Option::None => Option::None,
                },
                buffer_lifetime_ms: match buffer_lifetime_ms {
                    Option::Some(d) => Option::Some(d as int),
                    Option::None => Option::None,
                },
                deadline_ms: Option::None,
                ignore_buffer: ignore_buffer,
                error_period_ms: error_period_ms as int,
                last_error_ms: Option::None,
            }),
    {
        let size = match buffer_size {
            Option::Some(k) => if k < 2 {
                None
            } else {
                Some(k)
            },
            Option::None => None,
        };
        let r = Worker {
            buffer: Vec::new(),
            buffer_size: size,
            buffer_lifetime_ms,
            deadline_ms: None,
            ignore_buffer,
            error_period_ms,
            last_error_ms: None,
        };
        proof {
            assert(r@.buffer =~= Seq::<LogStashRecord>::empty());
        }
        r
    }

    /// Flushes the buffer: one batch (when there is anything) and a
    /// transport flush; clears the buffer and the deadline.
    pub fn flush(&mut self, out: &mut Vec<TransportOp>)
        ensures
            ({
                let r = flush_model(old(self)@);
                &&& final(self)@ == r.0
                &&& ops_view(final(out)@) == ops_view(old(out)@) + r.1
            }),
    {
        if self.buffer.len() > 0 {
            let mut batch: Vec<LogStashRecord> = Vec::new();
            core::mem::swap(&mut batch, &mut self.buffer);
            out.push(TransportOp::SendBatch(batch));
        }
        out.push(TransportOp::Flush);
        self.deadline_ms = None;
        proof {
            assert(final(self)@.buffer =~= Seq::<LogStashRecord>::empty());
            assert(ops_view(final(out)@) =~= ops_view(old(out)@) + flush_model(old(self)@).1);
        }
    }

    /// Admits one record: sends it at once when it bypasses batching
    /// or batching is off, else buffers it, arming the deadline on a
    /// previously-empty buffer and flushing a buffer that is full.
    pub fn send(&mut self, event: LogStashRecord, now_ms: u64, out: &mut Vec<TransportOp>)
        ensures
            ({
                let r = send_model(old(self)@, event, now_ms as int);
                &&& final(self)@ == r.0
                &&& ops_view(final(out)@) == ops_view(old(out)@) + r.1
            }),
    {
        if event.level.at_least(self.ignore_buffer) {
            out.push(TransportOp::SendRecord(event));
            proof {
                assert(ops_view(out@) =~= ops_view(old(out)@) + send_model(
                    old(self)@,
                    event,
                    now_ms as int,
                ).1);
            }
            return ;
        }
        let k = match self.buffer_size {
            Option::Some(k) => k,
            Option::None => {
                out.push(TransportOp::SendRecord(event));
                proof {
                    assert(ops_view(out@) =~= ops_view(old(out)@) + send_model(
                        old(self)@,
                        event,
                        now_ms as int,
                    ).1);
                }
                return ;
            },
        };
        let was_empty = self.buffer.len() == 0;
        self.buffer.push(event);
        if was_empty {
            match self.buffer_lifetime_ms {
                Option::Some(d) => {
                    let deadline = if now_ms > 0xffff_ffff_ffff_ffffu64 - d {
                        0xffff_ffff_ffff_ffffu64
                    } else {
                        now_ms + d
                    };
                    self.deadline_ms = Some(deadline);
                },
                Option::None => {},
            }
        }
        if self.buffer.len() >= k {
            self.flush(out);
        } else {
            proof {
                assert(ops_view(out@) =~= ops_view(old(out)@));
            }
        }
    }

    /// Admits a batch of records, one by one, in order.
    pub fn send_batch(&mut self, events: Vec<LogStashRecord>, now_ms: u64, out: &mut Vec<
        TransportOp,
    >)
        ensures
            ({
                let r = send_batch_model(old(self)@, events@, now_ms as int);
                &&& final(self)@ == r.0
                &&& ops_view(final(out)@) == ops_view(old(out)@) + r.1
            }),
    {
        let ghost orig = events@;
        let mut rest = events;
        let n = rest.len();
        let mut i: usize = 0;
        while i < n
            invariant
                n == orig.len(),
                i <= n,
                rest@ == orig.subrange(i as int, n as int),
                ({
                    let r = send_batch_model(old(self)@, orig.subrange(0, i as int), now_ms as int);
                    &&& self@ == r.0
                    &&& ops_view(out@) == ops_view(old(out)@) + r.1
                }),
            decreases n - i,
        {
            let e = rest.remove(0);
            proof {
                assert(e == orig[i as int]);
            }
            self.send(e, now_ms, out);
            i = i + 1;
            proof {
                assert(rest@ =~= orig.subrange(i as int, n as int));
                lemma_send_batch_model_snoc(old(self)@, orig, i as int, now_ms as int);
            }
        }
        proof {
            assert(orig.subrange(0, n as int) =~= orig);
        }
    }

    /// One worker turn: dispatches the event and says whether the
    /// worker stops.
    pub fn step(&mut self, event: WorkerEvent, now_ms: u64, out: &mut Vec<TransportOp>) -> (stop:
        bool)
        ensures
            ({
                let r = step_model(old(self)@, event@, now_ms as int);
                &&& final(self)@ == r.0
                &&& ops_view(final(out)@) == ops_view(old(out)@) + r.1
                &&& stop == r.2
            }),
    {
        match event {
            WorkerEvent::Cmd(Command::Send(e)) => {
                self.send(e, now_ms, out);
                false
            },
            WorkerEvent::Cmd(Command::SendBatch(es)) => {
                self.send_batch(es, now_ms, out);
                false
            },
            WorkerEvent::Cmd(Command::Flush) => {
                self.flush(out);
                false
            },
            WorkerEvent::TimedOut => {
                self.flush(out);
                false
            },
            WorkerEvent::Closed => {
                proof {
                    assert(ops_view(out@) =~= ops_view(old(out)@) + Seq::<OpView>::empty());
                }
                true
            },
        }
    }

    /// Notes a failed transport operation: says whether to report it
    /// (at most once per error period) and whether it stops the
    /// worker.
    pub fn on_error(&mut self, err: &Error, now_ms: u64) -> (r: (bool, bool))
        ensures
            r.0 == should_report(old(self)@, now_ms as int),
            final(self)@ == if r.0 {
                WorkerModel { last_error_ms: Some(now_ms as int), ..old(self)@ }
            } else {
                old(self)@
            },
            r.1 == err.is_fatal_spec(),
    {
        let report = match self.last_error_ms {
            Option::None => true,
            Option::Some(t) => t < now_ms && now_ms - t > self.error_period_ms,
        };
        if report {
            self.last_error_ms = Some(now_ms);
        }
        (report, err.is_fatal())
    }
}

/// Extending a batch by one record runs its admission after the rest.
pub proof fn lemma_send_batch_model_snoc(
    w: WorkerModel,
    es: Seq<LogStashRecord>,
    i: int,
    now: int,
)
    requires
        0 < i <= es.len(),
    ensures
        ({
            let prev = send_batch_model(w, es.subrange(0, i - 1), now);
            let one = send_model(prev.0, es[i - 1], now);
            let cur = send_batch_model(w, es.subrange(0, i), now);
            &&& cur.0 == one.0
            &&& cur.1 == prev.1 + one.1
        }),
{
    lemma_send_batch_model_push(w, es.subrange(0, i - 1), es[i - 1], now);
    assert(es.subrange(0, i - 1).push(es[i - 1]) =~= es.subrange(0, i));
}

/// Admitting one more record after a batch admits it into the state
/// the batch left behind.
pub proof fn lemma_send_batch_model_push(
    w: WorkerModel,
    es: Seq<LogStashRecord>,
    e: LogStashRecord,
    now: int,
)
    ensures
        ({
            let prev = send_batch_model(w, es, now);
            let one = send_model(prev.0, e, now);
            let cur = send_batch_model(w, es.push(e), now);
            &&& cur.0 == one.0
            &&& cur.1 == prev.1 + one.1
        }),
    decreases es.len(),
{
    if es.len() == 0 {
        assert(es.push(e)[0] == e);
        assert(es.push(e).drop_first() =~= Seq::<LogStashRecord>::empty());
        assert(send_batch_model(w, es, now).1 + send_model(w, e, now).1 =~= send_model(
            w,
            e,
            now,
        ).1);
        assert(send_model(w, e, now).1 + send_batch_model(
            send_model(w, e, now).0,
            Seq::<LogStashRecord>::empty(),
            now,
        ).1 =~= send_model(w, e, now).1);
    } else {
        assert(es.push(e)[0] == es[0]);
        assert(es.push(e).drop_first() =~= es.drop_first().push(e));
        lemma_send_batch_model_push(send_model(w, es[0], now).0, es.drop_first(), e, now);
        let w1 = send_model(w, es[0], now);
        let prev_rest = send_batch_model(w1.0, es.drop_first(), now);
        let one = send_model(prev_rest.0, e, now);
        assert(send_batch_model(w, es.push(e), now).1 == w1.1 + (prev_rest.1 + one.1));
        assert(w1.1 + (prev_rest.1 + one.1) =~= (w1.1 + prev_rest.1) + one.1);
    }
}

} // verus!
