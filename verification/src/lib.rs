//! A host-side extension pipeline: scripts register handlers for named
//! events, and the host threads a payload through them in priority order.
//!
//! The crate holds the protocol only. Script values are modelled by
//! [`value::ScriptValue`]; whoever embeds a scripting engine converts the
//! engine's values to and from that model and performs the calls that the
//! pipeline asks for.
//!
//! - [`value`]: the model of script values.
//! - [`payload`]: the payload of an event and its form as a script value.
//! - [`marshal`]: the convention by which results cross the boundary.
//! - [`declaration`]: what a script module must hold to declare a handler.
//! - [`order`]: the order in which handlers run.
//! - [`registry`]: loading modules and keeping their handlers.
//! - [`pipeline`]: firing an event, one handler after the other.
//! - [`host`]: the host's own step and the capability it offers scripts.

pub mod declaration;
pub mod host;
pub mod marshal;
pub mod order;
pub mod payload;
pub mod pipeline;
pub mod registry;
pub mod value;
