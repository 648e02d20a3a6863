//! Verified core of an independent, wire-compatible Mosh client.
//!
//! The library holds the protocol logic: bootstrap parsing, authenticated
//! packets, fragment reassembly, transport instructions, state
//! synchronization, timing, reachability, the prediction policy, and the
//! protocol core that a Session's event loop drives. Socket I/O, the
//! asynchronous Session runtime, and VT emulation live outside this crate.

pub mod limits;
pub mod bytes;
pub mod protobuf;
pub mod crypto;
pub mod packet;
pub mod fragment;
pub mod instruction;
pub mod terminal;
pub mod timing;
pub mod synchronization;
pub mod reachability;
pub mod prediction;
pub mod session;
pub mod bootstrap;
pub mod states;
pub mod driver;
pub mod fuzzing;

pub use bootstrap::{Bootstrap, BootstrapError};
pub use fuzzing::{exercise_state_transitions, exercise_untrusted_parsers};
pub use prediction::PredictionMode;
pub use reachability::{SessionInterruption, SessionReachability};
pub use session::{SessionCommandError, SessionError, SessionExit, SessionState};
