//! A message broker for bidirectional client connections organised into
//! numbered groups: bounded per-client and per-group queues, fan-out with
//! drop-on-full backpressure, a registry of named handlers, and the teardown
//! cascade that follows a closed queue.
mod channel;
pub mod client;
pub mod error;
pub mod group;
pub mod hub;
pub mod params;
pub mod registry;

pub use client::{Client, Delivery};
pub use error::{ChannelType, WsError};
pub use group::Group;
pub use params::{convert, Envelope, FnRequest, Param, ParamError, Primitive};
pub use registry::Registry;
pub use hub::{Frame, Hub, ReaderAction, Routed};
