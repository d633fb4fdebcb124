use vstd::prelude::*;

verus! {

/// Every way the engine can fail, split into recoverable failures
/// (handled by reconnecting once and by rate-limited reporting) and
/// fatal ones (they stop the worker for good).
#[derive(Debug)]
pub enum Error {
    /// An I/O failure while connecting, writing or flushing.
    Io(String),
    /// A record could not be serialized; only that record is dropped.
    Serialization(String),
    /// The hostname and port did not resolve to an address.
    AddressResolution(String, u16),
    /// TLS negotiation failed.
    Tls(String),
    /// The worker has terminated; every later call reports this.
    SenderThreadStopped(String),
    /// The command queue is full and the command carried an important
    /// record.
    BufferFull,
    /// Internal corruption, such as lock or channel breakage.
    FatalInternal(String),
}

impl Error {
    /// Fatal errors terminate the worker; the rest are recoverable.
    pub open spec fn is_fatal_spec(self) -> bool {
        match self {
            Error::SenderThreadStopped(_) => true,
            Error::FatalInternal(_) => true,
            _ => false,
        }
    }

    /// Fatal errors terminate the worker; the rest are recoverable.
    pub fn is_fatal(&self) -> (r: bool)
        ensures
            r == self.is_fatal_spec(),
    {
        match self {
            Error::SenderThreadStopped(_) => true,
            Error::FatalInternal(_) => true,
            _ => false,
        }
    }

    /// A short machine-readable name of the error kind.
    pub fn kind_name(&self) -> (r: &'static str)
        ensures
            ({
                match self {
                    Error::Io(_) => r@ == "io"@,
                    Error::Serialization(_) => r@ == "serialization"@,
                    Error::AddressResolution(_, _) => r@ == "address resolution"@,
                    Error::Tls(_) => r@ == "tls"@,
                    Error::SenderThreadStopped(_) => r@ == "sender thread stopped"@,
                    Error::BufferFull => r@ == "buffer full"@,
                    Error::FatalInternal(_) => r@ == "fatal internal"@,
                }
            }),
    {
        match self {
            Error::Io(_) => "io",
            Error::Serialization(_) => "serialization",
            Error::AddressResolution(_, _) => "address resolution",
            Error::Tls(_) => "tls",
            Error::SenderThreadStopped(_) => "sender thread stopped",
            Error::BufferFull => "buffer full",
            Error::FatalInternal(_) => "fatal internal",
        }
    }
}

} // verus!
