use vstd::prelude::*;

use crate::buffer::{any_important, record_important, CmdView, Command};
use crate::error::Error;
use crate::record::LogStashRecord;

verus! {

/// How many commands the queue holds unless the caller asks otherwise.
pub const DEFAULT_LOG_QUEUE_LEN: usize = 1000;

/// What a non-blocking enqueue attempt came to.
pub enum EnqueueOutcome {
    /// The command was accepted.
    Accepted,
    /// The queue is full; the command was dropped.
    Full,
    /// The consumer is gone; nothing will ever be accepted again.
    Disconnected,
}

/// The queue's state, as contracts speak of it.
pub struct QueueModel {
    /// Pending commands, oldest first.
    pub items: Seq<CmdView>,
    /// How many commands the queue can hold.
    pub capacity: int,
    /// Whether the consumer has terminated.
    pub stopped: bool,
}

/// A bounded queue of commands with one consumer: producers enqueue
/// without blocking, the worker dequeues in order.
pub struct CommandQueue {
    pub items: Vec<Command>,
    pub capacity: usize,
    pub stopped: bool,
}

impl View for CommandQueue {
    type V = QueueModel;

    open spec fn view(&self) -> QueueModel {
        QueueModel {
            items: self.items@.map_values(|c: Command| c@),
            capacity: self.capacity as int,
            stopped: self.stopped,
        }
    }
}

/// Turns an enqueue outcome into what the producer is told: a stopped
/// consumer is always an error; a full queue is an error only when the
/// dropped command mattered; everything else succeeds silently.
pub fn process_result(r: &EnqueueOutcome, log_full: bool) -> (res: Result<(), Error>)
    ensures
        r is Disconnected ==> (res matches Err(e) && e is SenderThreadStopped),
        r is Full && log_full ==> res == Err::<(), Error>(Error::BufferFull),
        r is Full && !log_full ==> res is Ok,
        r is Accepted ==> res is Ok,
{
    match r {
        EnqueueOutcome::Disconnected => Err(
            Error::SenderThreadStopped(String::from_str("the worker is no longer running")),
        ),
        EnqueueOutcome::Full => {
            if log_full {
                Err(Error::BufferFull)
            } else {
                Ok(())
            }
        },
        EnqueueOutcome::Accepted => Ok(()),
    }
}

impl CommandQueue {
    /// An empty queue of the given capacity with a live consumer.
    pub fn new(capacity: usize) -> (r: CommandQueue)
        ensures
            r@ == (QueueModel {
                items: Seq::<CmdView>::empty(),
                capacity: capacity as int,
                stopped: false,
            }),
    {
        let r = CommandQueue { items: Vec::new(), capacity, stopped: false };
        proof {
            assert(r@.items =~= Seq::<CmdView>::empty());
        }
        r
    }

    /// One non-blocking insert: refused when the consumer is gone or
    /// the queue is full, accepted and appended otherwise.
    pub fn try_enqueue(&mut self, cmd: Command) -> (r: EnqueueOutcome)
        ensures
            old(self)@.stopped ==> r is Disconnected && final(self)@ == old(self)@,
            !old(self)@.stopped && old(self)@.items.len() >= old(self)@.capacity ==> r is Full
                && final(self)@ == old(self)@,
            !old(self)@.stopped && old(self)@.items.len() < old(self)@.capacity ==> r is Accepted
                && final(self)@ == (QueueModel {
                items: old(self)@.items.push(cmd@),
                ..old(self)@
            }),
    {
        if self.stopped {
            return EnqueueOutcome::Disconnected;
        }
        if self.items.len() >= self.capacity {
            return EnqueueOutcome::Full;
        }
        self.items.push(cmd);
        proof {
            assert(self@.items =~= old(self)@.items.push(cmd@));
        }
        EnqueueOutcome::Accepted
    }

    /// The consumer takes the oldest command, when there is one.
    pub fn dequeue(&mut self) -> (r: Option<Command>)
        ensures
            old(self)@.items.len() == 0 ==> r is None && final(self)@ == old(self)@,
            old(self)@.items.len() > 0 ==> (match r {
                Option::Some(c) => c@ == old(self)@.items[0] && final(self)@ == (QueueModel {
                    items: old(self)@.items.drop_first(),
                    ..old(self)@
                }),
                Option::None => false,
            }),
    {
        if self.items.len() == 0 {
            return None;
        }
        let c = self.items.remove(0);
        proof {
            assert(self@.items =~= old(self)@.items.drop_first());
        }
        Some(c)
    }

    /// Marks the consumer as terminated: every later enqueue is
    /// refused with a stopped error.
    pub fn mark_stopped(&mut self)
        ensures
            final(self)@ == (QueueModel { stopped: true, ..old(self)@ }),
    {
        self.stopped = true;
    }

    /// Enqueues one record, without blocking. With the consumer gone
    /// this fails as stopped; on a full queue it fails with
    /// backpressure when the record is important and succeeds silently
    /// (dropping it) otherwise.
    pub fn send(&mut self, event: LogStashRecord) -> (res: Result<(), Error>)
        ensures
            old(self)@.stopped ==> final(self)@ == old(self)@ && (res matches Err(e)
                && e is SenderThreadStopped),
            !old(self)@.stopped && old(self)@.items.len() >= old(self)@.capacity ==> final(self)@
                == old(self)@ && if record_important(event) {
                res == Err::<(), Error>(Error::BufferFull)
            } else {
                res is Ok
            },
            !old(self)@.stopped && old(self)@.items.len() < old(self)@.capacity ==> res is Ok
                && final(self)@ == (QueueModel {
                items: old(self)@.items.push(CmdView::Send(event)),
                ..old(self)@
            }),
    {
        let cmd = Command::Send(event);
        let important = crate::buffer::command_importance(&cmd);
        let outcome = self.try_enqueue(cmd);
        process_result(&outcome, important)
    }

    /// Enqueues one batch, without blocking; on a full queue the call
    /// fails with backpressure exactly when some record of the batch
    /// is important.
    pub fn send_batch(&mut self, events: Vec<LogStashRecord>) -> (res: Result<(), Error>)
        ensures
            old(self)@.stopped ==> final(self)@ == old(self)@ && (res matches Err(e)
                && e is SenderThreadStopped),
            !old(self)@.stopped && old(self)@.items.len() >= old(self)@.capacity ==> final(self)@
                == old(self)@ && if any_important(events@) {
                res == Err::<(), Error>(Error::BufferFull)
            } else {
                res is Ok
            },
            !old(self)@.stopped && old(self)@.items.len() < old(self)@.capacity ==> res is Ok
                && final(self)@ == (QueueModel {
                items: old(self)@.items.push(CmdView::SendBatch(events@)),
                ..old(self)@
            }),
    {
        let cmd = Command::SendBatch(events);
        let important = crate::buffer::command_importance(&cmd);
        let outcome = self.try_enqueue(cmd);
        process_result(&outcome, important)
    }

    /// Enqueues a flush, without blocking; a flush is never important,
    /// so a full queue drops it silently.
    pub fn flush(&mut self) -> (res: Result<(), Error>)
        ensures
            old(self)@.stopped ==> final(self)@ == old(self)@ && (res matches Err(e)
                && e is SenderThreadStopped),
            !old(self)@.stopped && old(self)@.items.len() >= old(self)@.capacity ==> final(self)@
                == old(self)@ && res is Ok,
            !old(self)@.stopped && old(self)@.items.len() < old(self)@.capacity ==> res is Ok
                && final(self)@ == (QueueModel {
                items: old(self)@.items.push(CmdView::Flush),
                ..old(self)@
            }),
    {
        let cmd = Command::Flush;
        let important = crate::buffer::command_importance(&cmd);
        let outcome = self.try_enqueue(cmd);
        process_result(&outcome, important)
    }
}

} // verus!
