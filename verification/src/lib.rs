//! Session transport for an append-only chat log shared with a long-running
//! agent process: a line codec for the persisted record format, incremental
//! tail reading with byte offsets, a per-session watch registry, a remote
//! link state machine with shell-safe command construction, and a facade
//! that dispatches between local and remote delivery.
pub mod bytes;
pub mod codec;
pub mod facade;
pub mod link;
pub mod log;
pub mod paths;
pub mod registry;
pub mod tailer;
pub mod vault;
