pub mod buffer;
pub mod clock;
pub mod error;
pub mod fields;
pub mod json;
pub mod laws;
pub mod level;
pub mod queue;
pub mod record;
pub mod tcp;
pub mod time;
pub mod value;

pub use buffer::{Command, TransportOp, Worker, WorkerEvent};
pub use error::Error;
pub use fields::FieldMap;
pub use level::Level;
pub use queue::{CommandQueue, EnqueueOutcome};
pub use record::{serialize, serialize_batch, LogStashRecord};
pub use tcp::{AdvancedTcpStream, SendPhase, TcpSender};
pub use value::JsonValue;
