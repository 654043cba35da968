//! The outbound side of one connection: a bounded private queue that a
//! writer task drains into the connection.
use vstd::prelude::*;

use crate::channel::{bounded_queue, offer, SendOutcome};
use crate::error::{ChannelType, WsError};

verus! {

/// How many messages may wait in a client's outbound queue.
pub const CLIENT_QUEUE_CAPACITY: usize = 32;

/// What became of a message that a queue was offered while it was open.
#[derive(Debug, Clone, Copy, PartialEq, Eq, Structural)]
pub enum Delivery {
    /// The message waits in the queue.
    Queued,
    /// The queue was full and the message was dropped.
    Dropped,
}

/// A client as the broker's rules see it.
pub struct ClientView {
    pub id: u128,
    /// Messages are still accepted.
    pub active: bool,
    /// The outbound queue has been closed, which stops the writer task.
    pub stopped: bool,
    /// Every message the outbound queue took, in the order it took them.
    pub accepted: Seq<Seq<char>>,
    /// How many messages the outbound queue may hold at once.
    pub capacity: nat,
}

pub struct Client {
    id: u128,
    outbound: Option<tokio::sync::mpsc::Sender<String>>,
    active: bool,
    accepted: Ghost<Seq<Seq<char>>>,
    capacity: Ghost<nat>,
}

impl View for Client {
    type V = ClientView;

    closed spec fn view(&self) -> ClientView {
        ClientView {
            id: self.id,
            active: self.active,
            stopped: self.outbound is None,
            accepted: self.accepted@,
            capacity: self.capacity@,
        }
    }
}

/// The results that offering a message to client `c` may have: an inactive
/// client refuses at once; an active one takes it, drops it on a full queue,
/// or finds its queue closed.
pub open spec fn enqueue_allows(c: ClientView, r: Result<Delivery, WsError>) -> bool {
    if c.active {
        r is Ok || r == Err::<Delivery, WsError>(WsError::ChannelClosed(ChannelType::Client))
    } else {
        r == Err::<Delivery, WsError>(WsError::ChannelClosed(ChannelType::Client))
    }
}

/// Client `c` after message `m` was offered to it with result `r`.
pub open spec fn enqueued(c: ClientView, m: Seq<char>, r: Result<Delivery, WsError>) -> ClientView {
    match r {
        Ok(Delivery::Queued) => ClientView { accepted: c.accepted.push(m), ..c },
        Ok(Delivery::Dropped) => c,
        Err(_) => ClientView { active: false, ..c },
    }
}

/// Client `c` after it was purged: inactive, its queue closed.
pub open spec fn purged(c: ClientView) -> ClientView {
    ClientView { active: false, stopped: true, ..c }
}

impl Client {
    /// A fresh, active client with an empty outbound queue. The receiving
    /// half of the queue is handed back for the writer task.
    pub fn new(id: u128) -> (r: (Client, tokio::sync::mpsc::Receiver<String>))
        ensures
            r.0@ == (ClientView {
                id,
                active: true,
                stopped: false,
                accepted: Seq::empty(),
                capacity: CLIENT_QUEUE_CAPACITY as nat,
            }),
    {
        let (tx, rx) = bounded_queue(CLIENT_QUEUE_CAPACITY);
        let client = Client {
            id,
            outbound: Some(tx),
            active: true,
            accepted: Ghost(Seq::empty()),
            capacity: Ghost(CLIENT_QUEUE_CAPACITY as nat),
        };
        (client, rx)
    }

    pub fn id(&self) -> (r: u128)
        ensures
            r == self@.id,
    {
        self.id
    }

    pub fn is_active(&self) -> (r: bool)
        ensures
            r == self@.active,
    {
        self.active
    }

    /// Offers a message to the outbound queue without waiting. An inactive
    /// client refuses it and writes nothing; a full queue drops it; a closed
    /// queue makes the client inactive.
    pub fn write_to_channel(&mut self, message: String) -> (r: Result<Delivery, WsError>)
        ensures
            enqueue_allows(old(self)@, r),
            final(self)@ == enqueued(old(self)@, message@, r),
    {
        if !self.active {
            return Err(WsError::ChannelClosed(ChannelType::Client));
        }
        let ghost m = message@;
        let outcome = match &self.outbound {
            Some(queue) => offer(queue, message),
            None => SendOutcome::Closed,
        };
        match outcome {
            SendOutcome::Queued => {
                self.accepted = Ghost(self.accepted@.push(m));
                Ok(Delivery::Queued)
            },
            SendOutcome::Full => Ok(Delivery::Dropped),
            SendOutcome::Closed => {
                self.active = false;
                Err(WsError::ChannelClosed(ChannelType::Client))
            },
        }
    }

    /// Closes the outbound queue, which stops the writer task once it has
    /// seen the end, and refuses every later message. Purging twice is the
    /// same as purging once.
    pub fn purge(&mut self)
        ensures
            final(self)@ == purged(old(self)@),
    {
        self.outbound = None;
        self.active = false;
    }
}

/// An inactive client refuses every message at once and takes nothing into
/// its queue; in particular a purged one does.
pub proof fn lemma_inactive_client_refuses(c: ClientView, m: Seq<char>, r: Result<Delivery, WsError>)
    requires
        !c.active,
        enqueue_allows(c, r),
    ensures
        r == Err::<Delivery, WsError>(WsError::ChannelClosed(ChannelType::Client)),
        enqueued(c, m, r) == c,
        enqueued(c, m, r).accepted == c.accepted,
{
}

/// Purging is idempotent, and a purged client is inactive.
pub proof fn lemma_purge_idempotent(c: ClientView)
    ensures
        purged(purged(c)) == purged(c),
        !purged(c).active,
        purged(c).stopped,
{
}

} // verus!
