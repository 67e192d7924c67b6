pub mod de_ser;
pub mod envelope;

pub use self::de_ser::ProtocolParser;
pub use self::envelope::{AimpData, AimpEnvelope, Hash32, NodeId, OpCode, Payload};
