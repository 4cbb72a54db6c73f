//! Local offline-first store for a CalDAV task client.
//!
//! The crate owns the parts of the client that carry design intent and can be
//! reasoned about as pure state:
//!
//! * a forward-only, versioned schema migrator ([`migrate`]);
//! * the entity store of accounts, calendars, tasks, tags and deletion
//!   tombstones, with its referential and uniqueness invariants ([`store`]);
//! * the per-record synchronization state machine driven by `etag`, `ctag`
//!   and `sync_token` bookkeeping ([`sync`]);
//! * the subtask hierarchy (a forest under `parent_uid`) and the manual
//!   sibling ordering ([`hierarchy`], [`query`]);
//! * the tray presentation state that the desktop shell renders ([`tray`]);
//! * the cross-cutting guarantees, stated once as proved laws ([`laws`]).
//!
//! Network transport, the VTODO parser and the windowing shell are external
//! collaborators: they hand this crate plain values and take plain values
//! back, and are not modelled here.

pub mod model;
pub mod migrate;
pub mod strutil;
pub mod hierarchy;
pub mod store;
pub mod sync;
pub mod query;
pub mod tray;
pub mod laws;
