use vstd::prelude::*;

use crate::error::Error;

verus! {

/// Where one send operation stands. The caller performs the I/O the
/// phase asks for and hands the outcome back.
pub enum SendPhase {
    /// The stream must be (re)established before writing. `retry` says
    /// this is the one reconnect allowed after a failed write.
    Connecting { retry: bool },
    /// The bytes must be written. `fresh` says the stream was created
    /// by this very operation, so a failed write is final.
    Writing { fresh: bool },
    /// The operation is over, with its result.
    Done(Result<(), Error>),
}

/// Where a send begins: writing when connected, connecting otherwise.
pub open spec fn begin_spec(connected: bool) -> SendPhase {
    if connected {
        SendPhase::Writing { fresh: false }
    } else {
        SendPhase::Connecting { retry: false }
    }
}

/// What a connect outcome does: on success the stream exists and the
/// write follows; on failure the operation is over with that error.
/// The new connection state comes first.
pub open spec fn connect_spec(outcome: Result<(), Error>) -> (bool, SendPhase) {
    match outcome {
        Result::Ok(_) => (true, SendPhase::Writing { fresh: true }),
        Result::Err(e) => (false, SendPhase::Done(Err(e))),
    }
}

/// What a write outcome does: success ends the operation; failure
/// discards the stream, and either asks for the one reconnect (when
/// the stream predated this operation) or ends with the error (when
/// this operation had just created it). The new connection state comes
/// first.
pub open spec fn write_spec(fresh: bool, outcome: Result<(), Error>) -> (bool, SendPhase) {
    match outcome {
        Result::Ok(_) => (true, SendPhase::Done(Ok(()))),
        Result::Err(e) => if fresh {
            (false, SendPhase::Done(Err(e)))
        } else {
            (false, SendPhase::Connecting { retry: true })
        },
    }
}

/// What a flush outcome does: failure discards the stream.
pub open spec fn flush_spec(outcome: Result<(), Error>) -> bool {
    outcome is Ok
}

/// One network stream to a fixed destination, kept as an explicit
/// connection state machine: the stream is made lazily, discarded on
/// every failure, and remade once per operation at most.
pub struct AdvancedTcpStream {
    pub hostname: String,
    pub port: u16,
    pub use_tls: bool,
    pub connection_timeout_ms: Option<u64>,
    /// Whether a live stream exists.
    pub connected: bool,
}

impl AdvancedTcpStream {
    /// A transport for the given destination, not yet connected.
    pub fn new(hostname: String, port: u16, use_tls: bool, connection_timeout_ms: Option<u64>) -> (r:
        AdvancedTcpStream)
        ensures
            r.hostname == hostname,
            r.port == port,
            r.use_tls == use_tls,
            r.connection_timeout_ms == connection_timeout_ms,
            !r.connected,
    {
        AdvancedTcpStream { hostname, port, use_tls, connection_timeout_ms, connected: false }
    }

    /// Starts one send operation.
    pub fn begin_send(&self) -> (p: SendPhase)
        ensures
            p == begin_spec(self.connected),
    {
        if self.connected {
            SendPhase::Writing { fresh: false }
        } else {
            SendPhase::Connecting { retry: false }
        }
    }

    /// Feeds back the outcome of the connect the phase asked for.
    pub fn on_connect_result(&mut self, outcome: Result<(), Error>) -> (p: SendPhase)
        requires
            !old(self).connected,
        ensures
            ({
                let r = connect_spec(outcome);
                &&& final(self).connected == r.0
                &&& p == r.1
                &&& *final(self) == (AdvancedTcpStream {
                    connected: final(self).connected,
                    ..*old(self)
                })
            }),
    {
        match outcome {
            Result::Ok(_) => {
                self.connected = true;
                SendPhase::Writing { fresh: true }
            },
            Result::Err(e) => SendPhase::Done(Err(e)),
        }
    }

    /// Feeds back the outcome of the write the phase asked for.
    pub fn on_write_result(&mut self, fresh: bool, outcome: Result<(), Error>) -> (p: SendPhase)
        requires
            old(self).connected,
        ensures
            ({
                let r = write_spec(fresh, outcome);
                &&& final(self).connected == r.0
                &&& p == r.1
                &&& *final(self) == (AdvancedTcpStream {
                    connected: final(self).connected,
                    ..*old(self)
                })
            }),
    {
        match outcome {
            Result::Ok(_) => SendPhase::Done(Ok(())),
            Result::Err(e) => {
                self.connected = false;
                if fresh {
                    SendPhase::Done(Err(e))
                } else {
                    SendPhase::Connecting { retry: true }
                }
            },
        }
    }

    /// Whether a flush must touch the stream: only when connected;
    /// flushing a disconnected transport is a no-op that succeeds.
    pub fn flush_needed(&self) -> (r: bool)
        ensures
            r == self.connected,
    {
        self.connected
    }

    /// Feeds back the outcome of the stream flush: a failure discards
    /// the stream, forcing a reconnect on the next send.
    pub fn on_flush_result(&mut self, outcome: Result<(), Error>) -> (res: Result<(), Error>)
        requires
            old(self).connected,
        ensures
            final(self).connected == flush_spec(res),
            *final(self) == (AdvancedTcpStream {
                connected: final(self).connected,
                ..*old(self)
            }),
            res == outcome,
    {
        if !outcome.is_ok() {
            self.connected = false;
        }
        outcome
    }
}

/// The sender that writes each record, or batch, as newline-delimited
/// JSON over its own TCP (optionally TLS) stream.
pub struct TcpSender {
    pub stream: AdvancedTcpStream,
}

impl TcpSender {
    /// A sender for the given destination; the stream is established
    /// lazily, on the first send or flush.
    pub fn new(hostname: String, port: u16, use_tls: bool, connection_timeout_ms: Option<u64>) -> (r:
        TcpSender)
        ensures
            r.stream.hostname == hostname,
            r.stream.port == port,
            r.stream.use_tls == use_tls,
            r.stream.connection_timeout_ms == connection_timeout_ms,
            !r.stream.connected,
    {
        TcpSender { stream: AdvancedTcpStream::new(hostname, port, use_tls, connection_timeout_ms) }
    }
}

/// After a write failure on an established stream the send makes
/// exactly one reconnect attempt. When that attempt fails, the send is
/// over with that error and asks for no second connect; when it
/// succeeds, one retried write decides the send either way.
pub proof fn law_reconnect_once(e1: Error, e2: Error, e3: Error)
    ensures
        begin_spec(true) == (SendPhase::Writing { fresh: false }),
        write_spec(false, Err(e1)) == (false, SendPhase::Connecting { retry: true }),
        connect_spec(Err(e2)) == (false, SendPhase::Done(Err(e2))),
        connect_spec(Ok(())) == (true, SendPhase::Writing { fresh: true }),
        write_spec(true, Ok(())) == (true, SendPhase::Done(Ok(()))),
        write_spec(true, Err(e3)) == (false, SendPhase::Done(Err(e3))),
{
}

} // verus!
