//! Profile templating and synchronization engine for a proxy-agent
//! configuration manager.
//!
//! The library expands parameterized configuration templates into concrete
//! provider/group documents, plans the synchronization of a profile's
//! externally sourced resources, and carries the small pure state machines
//! of the surrounding terminal front end.

pub mod expand;
pub mod sources;
pub mod sync;
pub mod ui;
pub mod util;
pub mod yaml;
