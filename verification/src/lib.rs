//! Verified core of the Mellow desktop client: server address handling,
//! the local reverse proxy's header and cookie rewriting, the saved-server
//! list and the small state machines the shell drives.

pub mod address;
pub mod discovery;
pub mod headers;
pub mod keepalive;
pub mod navigation;
pub mod number;
pub mod registry;
pub mod rewrite;
pub mod settings;
pub mod shell;
pub mod target;
pub mod upgrade;
pub mod text;
