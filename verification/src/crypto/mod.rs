pub mod encoding;
pub mod firewall;
pub mod identity;

pub use self::firewall::SecurityFirewall;
pub use self::identity::{CryptoError, Identity};
