//! Errors of the broker.
use vstd::prelude::*;

use crate::params::ParamError;

verus! {

/// Which kind of queue an error is about.
#[derive(Debug, Clone, Copy, PartialEq, Eq, Structural)]
pub enum ChannelType {
    Group,
    Client,
    Hub,
}

impl ChannelType {
    pub open spec fn spec_name(self) -> &'static str {
        match self {
            ChannelType::Group => "Group",
            ChannelType::Client => "Client",
            ChannelType::Hub => "Hub",
        }
    }

    /// The name of the queue kind, as shown in messages.
    pub fn name(&self) -> (r: &'static str)
        ensures
            r == self.spec_name(),
    {
        match self {
            ChannelType::Group => "Group",
            ChannelType::Client => "Client",
            ChannelType::Hub => "Hub",
        }
    }
}

/// The failures the broker reports.
#[derive(Debug, Clone, PartialEq, Eq)]
pub enum WsError {
    /// Something that should not happen inside the broker.
    Internal(String),
    /// No handler is registered under this function name.
    InvalidFunction(String),
    /// A parameter of a request could not be narrowed to a primitive.
    InvalidParams(ParamError),
    /// The queue of this kind no longer accepts anything.
    ChannelClosed(ChannelType),
}

} // verus!
