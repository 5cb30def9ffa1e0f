//! A persistent string-to-string key-value store with two backends:
//! an in-memory ordered map that is serialized to a text document after
//! every mutation (the file backend), and a marshaling layer that forwards
//! every operation across a host-function boundary (the host-bridge
//! backend). The map logic, the persistence text format, and the bridge
//! protocol are all verified; reading and writing the actual file, and the
//! process-wide locked singleton, live outside the library.

pub mod codec;
pub mod host;
pub mod store;
