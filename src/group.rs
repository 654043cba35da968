//! A group: the clients that share a group key, and the single bounded
//! broadcast queue whose forwarding task fans each message out to them.
use vstd::prelude::*;

use crate::channel::{bounded_queue, offer, SendOutcome};
use crate::client::{enqueue_allows, enqueued, Client, ClientView, Delivery};
use crate::error::{ChannelType, WsError};

verus! {

/// How many messages may wait in a group's broadcast queue.
pub const GROUP_QUEUE_CAPACITY: usize = 128;

/// A group as the broker's rules see it.
pub struct GroupView {
    /// The members, in the order they joined.
    pub members: Seq<ClientView>,
    /// New members and broadcasts are still accepted.
    pub active: bool,
    /// The broadcast queue has been closed, which stops the forwarding task.
    pub stopped: bool,
    /// Every message the broadcast queue took, in the order it took them.
    pub submitted: Seq<Seq<char>>,
    /// How many messages the broadcast queue may hold at once.
    pub capacity: nat,
}

/// No two clients of `ms` share an identifier.
pub open spec fn unique_ids(ms: Seq<ClientView>) -> bool {
    forall|i: int, j: int| 0 <= i < j < ms.len() ==> ms[i].id != ms[j].id
}

impl GroupView {
    pub open spec fn wf(self) -> bool {
        unique_ids(self.members)
    }
}

/// Where the client with identifier `id` stands in `ms`, or -1.
pub open spec fn position(ms: Seq<ClientView>, id: u128) -> int
    decreases ms.len(),
{
    if ms.len() == 0 {
        -1
    } else if ms.last().id == id {
        ms.len() - 1
    } else {
        position(ms.drop_last(), id)
    }
}

/// The client with identifier `id` in `ms`, if there is one.
pub open spec fn member(ms: Seq<ClientView>, id: u128) -> Option<ClientView> {
    if position(ms, id) >= 0 {
        Some(ms[position(ms, id)])
    } else {
        None
    }
}

/// `ms` with `c` added, replacing a member with the same identifier.
pub open spec fn with_member(ms: Seq<ClientView>, c: ClientView) -> Seq<ClientView> {
    if position(ms, c.id) >= 0 {
        ms.update(position(ms, c.id), c)
    } else {
        ms.push(c)
    }
}

/// `ms` without the client with identifier `id`.
pub open spec fn without_member(ms: Seq<ClientView>, id: u128) -> Seq<ClientView> {
    if position(ms, id) >= 0 {
        ms.remove(position(ms, id))
    } else {
        ms
    }
}

/// One fan-out sweep of message `m` over `ms`, where `rs[i]` is what
/// offering `m` to `ms[i]` gave: every member sees the offer, and those
/// whose offer failed are removed after the sweep, the others keeping
/// their order.
pub open spec fn sweep(
    ms: Seq<ClientView>,
    m: Seq<char>,
    rs: Seq<Result<Delivery, WsError>>,
) -> Seq<ClientView>
    decreases ms.len(),
{
    if ms.len() == 0 {
        Seq::empty()
    } else {
        let n = ms.len() - 1;
        let rest = sweep(ms.drop_last(), m, rs);
        if rs[n] is Ok {
            rest.push(enqueued(ms[n], m, rs[n]))
        } else {
            rest
        }
    }
}

/// The results that broadcasting to group `g` may have.
pub open spec fn broadcast_allows(g: GroupView, r: Result<Delivery, WsError>) -> bool {
    if g.active {
        r is Ok || r == Err::<Delivery, WsError>(WsError::ChannelClosed(ChannelType::Group))
    } else {
        r == Err::<Delivery, WsError>(WsError::ChannelClosed(ChannelType::Group))
    }
}

/// Group `g` after message `m` was offered to its broadcast queue with result `r`.
pub open spec fn broadcasted(g: GroupView, m: Seq<char>, r: Result<Delivery, WsError>) -> GroupView {
    match r {
        Ok(Delivery::Queued) => GroupView { submitted: g.submitted.push(m), ..g },
        Ok(Delivery::Dropped) => g,
        Err(_) => GroupView { active: false, ..g },
    }
}

/// Group `g` after one message `m` was fanned out with per-member results `rs`.
pub open spec fn forwarded(g: GroupView, m: Seq<char>, rs: Seq<Result<Delivery, WsError>>) -> GroupView {
    GroupView { members: sweep(g.members, m, rs), ..g }
}

/// Group `g` after it was purged: no members, inactive, its queue closed.
pub open spec fn purged_group(g: GroupView) -> GroupView {
    GroupView { members: Seq::empty(), active: false, stopped: true, ..g }
}

pub open spec fn views(cs: Seq<Client>) -> Seq<ClientView> {
    cs.map_values(|c: Client| c@)
}

pub struct Group {
    members: Vec<Client>,
    broadcast: Option<tokio::sync::mpsc::Sender<String>>,
    active: bool,
    submitted: Ghost<Seq<Seq<char>>>,
    capacity: Ghost<nat>,
}

impl View for Group {
    type V = GroupView;

    closed spec fn view(&self) -> GroupView {
        GroupView {
            members: views(self.members@),
            active: self.active,
            stopped: self.broadcast is None,
            submitted: self.submitted@,
            capacity: self.capacity@,
        }
    }
}

/// What `position` says of a sequence of clients.
pub proof fn lemma_position(ms: Seq<ClientView>, id: u128)
    ensures
        -1 <= position(ms, id) < ms.len(),
        position(ms, id) >= 0 ==> ms[position(ms, id)].id == id,
        position(ms, id) == -1 <==> forall|i: int| 0 <= i < ms.len() ==> ms[i].id != id,
        unique_ids(ms) ==> forall|i: int|
            0 <= i < ms.len() && ms[i].id == id ==> position(ms, id) == i,
    decreases ms.len(),
{
    if ms.len() > 0 {
        lemma_position(ms.drop_last(), id);
        assert forall|i: int| 0 <= i < ms.len() - 1 implies ms.drop_last()[i] == ms[i] by {}
    }
}

/// Every client a sweep keeps comes from the swept sequence, and keeps its
/// identifier unique.
pub proof fn lemma_sweep_ids(ms: Seq<ClientView>, m: Seq<char>, rs: Seq<Result<Delivery, WsError>>)
    ensures
        sweep(ms, m, rs).len() <= ms.len(),
        forall|k: int|
            #![trigger sweep(ms, m, rs)[k]]
            0 <= k < sweep(ms, m, rs).len() ==> exists|j: int|
                0 <= j < ms.len() && ms[j].id == sweep(ms, m, rs)[k].id,
        unique_ids(ms) ==> unique_ids(sweep(ms, m, rs)),
    decreases ms.len(),
{
    if ms.len() > 0 {
        let n = ms.len() - 1;
        let d = ms.drop_last();
        lemma_sweep_ids(d, m, rs);
        let rest = sweep(d, m, rs);
        let out = sweep(ms, m, rs);
        if rs[n] is Ok {
            assert(out == rest.push(enqueued(ms[n], m, rs[n])));
        } else {
            assert(out == rest);
        }
        assert forall|k: int| #![trigger out[k]] 0 <= k < out.len() implies exists|j: int|
            0 <= j < ms.len() && ms[j].id == out[k].id by {
            if k < rest.len() {
                assert(out[k] == rest[k]);
                let j = choose|j: int| 0 <= j < d.len() && d[j].id == rest[k].id;
                assert(ms[j] == d[j]);
            } else {
                assert(out[k].id == ms[n].id);
            }
        }
        if rs[n] is Ok {
            let s = rest.push(enqueued(ms[n], m, rs[n]));
            assert(sweep(ms, m, rs) == s);
            if unique_ids(ms) {
                assert(unique_ids(d)) by {
                    assert forall|i: int, j: int| 0 <= i < j < d.len() implies d[i].id != d[j].id by {
                        assert(d[i] == ms[i] && d[j] == ms[j]);
                    }
                }
                assert forall|i: int, j: int| 0 <= i < j < s.len() implies s[i].id != s[j].id by {
                    if j == s.len() - 1 {
                        assert(s[i] == rest[i]);
                        let w = choose|w: int| 0 <= w < d.len() && d[w].id == rest[i].id;
                        assert(d[w] == ms[w]);
                    } else {
                        assert(s[i] == rest[i] && s[j] == rest[j]);
                    }
                }
            }
        } else {
            assert(sweep(ms, m, rs) == rest);
            if unique_ids(ms) {
                assert(unique_ids(d)) by {
                    assert forall|i: int, j: int| 0 <= i < j < d.len() implies d[i].id != d[j].id by {
                        assert(d[i] == ms[i] && d[j] == ms[j]);
                    }
                }
            }
        }
    }
}


/// A sweep reads the results of the members it covers only.
proof fn lemma_sweep_prefix(
    ms: Seq<ClientView>,
    m: Seq<char>,
    rs1: Seq<Result<Delivery, WsError>>,
    rs2: Seq<Result<Delivery, WsError>>,
)
    requires
        forall|i: int| 0 <= i < ms.len() ==> rs1[i] == rs2[i],
    ensures
        sweep(ms, m, rs1) == sweep(ms, m, rs2),
    decreases ms.len(),
{
    if ms.len() > 0 {
        lemma_sweep_prefix(ms.drop_last(), m, rs1, rs2);
    }
}

/// After one fan-out sweep, a member whose offer succeeded is still a member
/// and has seen the message; one whose offer failed is gone.
pub proof fn lemma_sweep_member(
    ms: Seq<ClientView>,
    m: Seq<char>,
    rs: Seq<Result<Delivery, WsError>>,
    id: u128,
)
    requires
        unique_ids(ms),
    ensures
        member(sweep(ms, m, rs), id) == (if position(ms, id) >= 0 && rs[position(ms, id)] is Ok {
            Some(enqueued(ms[position(ms, id)], m, rs[position(ms, id)]))
        } else {
            None::<ClientView>
        }),
    decreases ms.len(),
{
    if ms.len() > 0 {
        let n = ms.len() - 1;
        let d = ms.drop_last();
        assert(unique_ids(d)) by {
            assert forall|i: int, j: int| 0 <= i < j < d.len() implies d[i].id != d[j].id by {
                assert(d[i] == ms[i] && d[j] == ms[j]);
            }
        }
        lemma_sweep_member(d, m, rs, id);
        let rest = sweep(d, m, rs);
        lemma_position(d, id);
        lemma_position(rest, id);
        if rs[n] is Ok {
            let c = enqueued(ms[n], m, rs[n]);
            let out = rest.push(c);
            assert(sweep(ms, m, rs) == out);
            assert(out.drop_last() =~= rest);
            if ms[n].id == id {
                assert(position(d, id) == -1) by {
                    assert forall|i: int| 0 <= i < d.len() implies d[i].id != id by {
                        assert(d[i] == ms[i]);
                    }
                }
                assert(position(out, id) == rest.len());
            } else {
                assert(position(out, id) == position(rest, id));
                if position(rest, id) >= 0 {
                    assert(out[position(rest, id)] == rest[position(rest, id)]);
                }
                if position(d, id) >= 0 {
                    assert(ms[position(d, id)] == d[position(d, id)]);
                }
            }
        } else {
            assert(sweep(ms, m, rs) == rest);
            if ms[n].id == id {
                assert(position(d, id) == -1) by {
                    assert forall|i: int| 0 <= i < d.len() implies d[i].id != id by {
                        assert(d[i] == ms[i]);
                    }
                }
            } else if position(d, id) >= 0 {
                assert(ms[position(d, id)] == d[position(d, id)]);
            }
        }
    }
}

/// A full queue at one member does not hold up delivery to the others: in
/// the same sweep a member whose queue took the message has it, while the
/// member whose queue was full stays, unchanged.
pub proof fn lemma_full_queue_does_not_block(
    ms: Seq<ClientView>,
    m: Seq<char>,
    rs: Seq<Result<Delivery, WsError>>,
    full: u128,
    other: u128,
)
    requires
        unique_ids(ms),
        position(ms, full) >= 0,
        rs[position(ms, full)] == Ok::<Delivery, WsError>(Delivery::Dropped),
        position(ms, other) >= 0,
        rs[position(ms, other)] == Ok::<Delivery, WsError>(Delivery::Queued),
    ensures
        member(sweep(ms, m, rs), full) == member(ms, full),
        member(sweep(ms, m, rs), other) == Some(
            ClientView { accepted: ms[position(ms, other)].accepted.push(m), ..ms[position(ms, other)] },
        ),
{
    lemma_sweep_member(ms, m, rs, full);
    lemma_sweep_member(ms, m, rs, other);
}

/// A run of fan-out steps: message `msgs[k]` swept with results `rss[k]`.
pub open spec fn sweeps(
    ms: Seq<ClientView>,
    msgs: Seq<Seq<char>>,
    rss: Seq<Seq<Result<Delivery, WsError>>>,
) -> Seq<ClientView>
    decreases msgs.len(),
{
    if msgs.len() == 0 {
        ms
    } else {
        let n = msgs.len() - 1;
        sweep(sweeps(ms, msgs.drop_last(), rss), msgs[n], rss[n])
    }
}

/// In every step of the run, the queue of member `id` took the message.
pub open spec fn always_queued(
    ms: Seq<ClientView>,
    msgs: Seq<Seq<char>>,
    rss: Seq<Seq<Result<Delivery, WsError>>>,
    id: u128,
) -> bool {
    forall|k: int|
        #![trigger rss[k]]
        0 <= k < msgs.len() ==> rss[k][position(sweeps(ms, msgs.take(k), rss), id)]
            == Ok::<Delivery, WsError>(Delivery::Queued)
}

/// Order of delivery: over any run of fan-out steps, a member whose queue
/// never filled has taken exactly the forwarded messages, in the order they
/// were forwarded.
pub proof fn lemma_fan_out_keeps_order(
    ms: Seq<ClientView>,
    msgs: Seq<Seq<char>>,
    rss: Seq<Seq<Result<Delivery, WsError>>>,
    id: u128,
)
    requires
        unique_ids(ms),
        member(ms, id) is Some,
        always_queued(ms, msgs, rss, id),
    ensures
        unique_ids(sweeps(ms, msgs, rss)),
        member(sweeps(ms, msgs, rss), id) == Some(
            ClientView {
                accepted: member(ms, id)->Some_0.accepted + msgs,
                ..member(ms, id)->Some_0
            },
        ),
    decreases msgs.len(),
{
    let c = member(ms, id)->Some_0;
    if msgs.len() == 0 {
        assert(c.accepted + msgs =~= c.accepted);
    } else {
        let n = msgs.len() - 1;
        let d = msgs.drop_last();
        assert forall|k: int| #![trigger rss[k]] 0 <= k < d.len() implies rss[k][position(
            sweeps(ms, d.take(k), rss),
            id,
        )] == Ok::<Delivery, WsError>(Delivery::Queued) by {
            assert(d.take(k) =~= msgs.take(k));
        }
        lemma_fan_out_keeps_order(ms, d, rss, id);
        let prev = sweeps(ms, d, rss);
        assert(msgs.take(n) =~= d);
        assert(rss[n][position(prev, id)] == Ok::<Delivery, WsError>(Delivery::Queued));
        lemma_sweep_member(prev, msgs[n], rss[n], id);
        lemma_sweep_ids(prev, msgs[n], rss[n]);
        assert((c.accepted + d).push(msgs[n]) =~= c.accepted + msgs);
    }
}

/// Purging a group leaves it without members, inactive and with its queue
/// closed; purging it again changes nothing.
pub proof fn lemma_purge_group_idempotent(g: GroupView)
    ensures
        purged_group(g).members.len() == 0,
        !purged_group(g).active,
        purged_group(g).stopped,
        purged_group(purged_group(g)) == purged_group(g),
{
}

impl Group {
    /// A group whose only member is `client`, active, with an empty
    /// broadcast queue. The receiving half of the queue is handed back for
    /// the forwarding task.
    pub fn new(client: Client) -> (r: (Group, tokio::sync::mpsc::Receiver<String>))
        ensures
            r.0@ == (GroupView {
                members: seq![client@],
                active: true,
                stopped: false,
                submitted: Seq::empty(),
                capacity: GROUP_QUEUE_CAPACITY as nat,
            }),
            r.0@.wf(),
    {
        let (tx, rx) = bounded_queue(GROUP_QUEUE_CAPACITY);
        let mut members: Vec<Client> = Vec::new();
        members.push(client);
        let group = Group {
            members,
            broadcast: Some(tx),
            active: true,
            submitted: Ghost(Seq::empty()),
            capacity: Ghost(GROUP_QUEUE_CAPACITY as nat),
        };
        assert(views(group.members@) =~= seq![client@]);
        (group, rx)
    }

    /// Whether the group has no member left.
    pub fn empty(&self) -> (r: bool)
        ensures
            r == (self@.members.len() == 0),
    {
        self.members.len() == 0
    }

    pub fn is_active(&self) -> (r: bool)
        ensures
            r == self@.active,
    {
        self.active
    }

    /// The identifiers of the members, in the order they joined.
    pub fn member_ids(&self) -> (r: Vec<u128>)
        ensures
            r@ == self@.members.map_values(|c: ClientView| c.id),
    {
        let mut ids: Vec<u128> = Vec::new();
        let mut i: usize = 0;
        while i < self.members.len()
            invariant
                i <= self.members@.len(),
                ids@ == views(self.members@).take(i as int).map_values(|c: ClientView| c.id),
            decreases self.members@.len() - i,
        {
            ids.push(self.members[i].id());
            i = i + 1;
            assert(ids@ =~= views(self.members@).take(i as int).map_values(|c: ClientView| c.id));
        }
        assert(views(self.members@).take(i as int) =~= views(self.members@));
        ids
    }

    /// Where the member with identifier `id` stands.
    fn find(&self, id: u128) -> (r: Option<usize>)
        requires
            self@.wf(),
        ensures
            match r {
                Some(i) => i as int == position(self@.members, id),
                None => position(self@.members, id) == -1,
            },
    {
        proof {
            lemma_position(self@.members, id);
        }
        let mut i: usize = 0;
        while i < self.members.len()
            invariant
                i <= self.members@.len(),
                self@.wf(),
                forall|k: int| 0 <= k < i ==> (#[trigger] views(self.members@)[k]).id != id,
            decreases self.members@.len() - i,
        {
            if self.members[i].id() == id {
                assert(views(self.members@)[i as int] == self.members@[i as int]@);
                proof {
                    lemma_position(self@.members, id);
                }
                return Some(i);
            }
            i = i + 1;
        }
        None
    }

    /// Adds a member, replacing one with the same identifier. A group that
    /// is no longer active refuses with a closed-channel error.
    pub fn add_client(&mut self, client: Client) -> (r: Result<(), WsError>)
        requires
            old(self)@.wf(),
        ensures
            final(self)@.wf(),
            old(self)@.active ==> r is Ok && final(self)@ == (GroupView {
                members: with_member(old(self)@.members, client@),
                ..old(self)@
            }),
            !old(self)@.active ==> r == Err::<(), WsError>(WsError::ChannelClosed(ChannelType::Group))
                && final(self)@ == old(self)@,
    {
        if !self.active {
            return Err(WsError::ChannelClosed(ChannelType::Group));
        }
        let ghost before = self@.members;
        let ghost c = client@;
        proof {
            lemma_position(before, c.id);
        }
        match self.find(client.id()) {
            Some(i) => {
                let _replaced = self.members.remove(i);
                self.members.insert(i, client);
                assert(views(self.members@) =~= before.update(i as int, c));
            },
            None => {
                self.members.push(client);
                assert(views(self.members@) =~= before.push(c));
            },
        }
        assert(unique_ids(views(self.members@))) by {
            let ms = views(self.members@);
            assert forall|a: int, b: int| 0 <= a < b < ms.len() implies ms[a].id != ms[b].id by {
                if a < before.len() && b < before.len() && ms[a] != c && ms[b] != c {
                    assert(ms[a] == before[a] && ms[b] == before[b]);
                }
            }
        }
        Ok(())
    }

    /// Offers a message to the broadcast queue without waiting. A group that
    /// is no longer active refuses; a full queue drops the message and is no
    /// error; a closed queue makes the group inactive and is reported.
    pub fn write_to_channel(&mut self, message: String) -> (r: Result<Delivery, WsError>)
        ensures
            broadcast_allows(old(self)@, r),
            final(self)@ == broadcasted(old(self)@, message@, r),
    {
        if !self.active {
            return Err(WsError::ChannelClosed(ChannelType::Group));
        }
        let ghost m = message@;
        let outcome = match &self.broadcast {
            Some(queue) => offer(queue, message),
            None => SendOutcome::Closed,
        };
        match outcome {
            SendOutcome::Queued => {
                self.submitted = Ghost(self.submitted@.push(m));
                Ok(Delivery::Queued)
            },
            SendOutcome::Full => Ok(Delivery::Dropped),
            SendOutcome::Closed => {
                self.active = false;
                Err(WsError::ChannelClosed(ChannelType::Group))
            },
        }
    }

    /// The forwarding step: offers `message` to every member in turn, then
    /// removes and purges the members whose offer failed. The results come
    /// back in the order of the members before the step.
    pub fn forward(&mut self, message: &String) -> (r: Vec<Result<Delivery, WsError>>)
        requires
            old(self)@.wf(),
        ensures
            final(self)@.wf(),
            r@.len() == old(self)@.members.len(),
            forall|i: int|
                0 <= i < r@.len() ==> enqueue_allows(old(self)@.members[i], #[trigger] r@[i]),
            final(self)@ == forwarded(old(self)@, message@, r@),
    {
        let ghost g = self@;
        let mut pending: Vec<Client> = Vec::new();
        std::mem::swap(&mut pending, &mut self.members);
        let ghost all = views(pending@);
        assert(all == g.members);
        let mut results: Vec<Result<Delivery, WsError>> = Vec::new();
        while pending.len() > 0
            invariant
                results@.len() + pending@.len() == all.len(),
                views(pending@) == all.subrange(results@.len() as int, all.len() as int),
                views(self.members@) == sweep(all.take(results@.len() as int), message@, results@),
                forall|i: int|
                    0 <= i < results@.len() ==> enqueue_allows(all[i], #[trigger] results@[i]),
                self.active == g.active,
                self.broadcast is None == g.stopped,
                self.submitted@ == g.submitted,
                self.capacity@ == g.capacity,
            decreases pending@.len(),
        {
            let ghost k = results@.len() as int;
            let ghost before = views(self.members@);
            let ghost rs = results@;
            let ghost pend = pending@;
            let mut client = pending.remove(0);
            assert(client@ == all[k]) by {
                assert(client == pend[0]);
                assert(views(pend)[0] == all.subrange(k, all.len() as int)[0]);
            }
            let r = client.write_to_channel(message.clone());
            let kept = r.is_ok();
            results.push(r);
            proof {
                lemma_sweep_prefix(all.take(k), message@, rs, results@);
                assert(all.take(k + 1).drop_last() =~= all.take(k));
                assert(all.take(k + 1)[k] == all[k]);
            }
            if kept {
                self.members.push(client);
                assert(views(self.members@) =~= before.push(enqueued(all[k], message@, r)));
            } else {
                client.purge();
            }
            assert(views(pending@) =~= views(pend).subrange(1, pend.len() as int));
            assert(views(pending@) =~= all.subrange(k + 1, all.len() as int));
        }
        assert(all.take(all.len() as int) =~= all);
        proof {
            lemma_sweep_ids(all, message@, results@);
        }
        results
    }

    /// Purges the member with identifier `id`, if there is one: its queue is
    /// closed and it leaves the group.
    pub fn purge_client(&mut self, client_id: u128)
        requires
            old(self)@.wf(),
        ensures
            final(self)@.wf(),
            final(self)@ == (GroupView {
                members: without_member(old(self)@.members, client_id),
                ..old(self)@
            }),
    {
        let ghost before = self@.members;
        proof {
            lemma_position(before, client_id);
        }
        if let Some(i) = self.find(client_id) {
            let mut client = self.members.remove(i);
            client.purge();
            assert(views(self.members@) =~= before.remove(i as int));
            assert(unique_ids(views(self.members@))) by {
                let ms = views(self.members@);
                assert forall|a: int, b: int| 0 <= a < b < ms.len() implies ms[a].id != ms[b].id by {
                    let a2 = if a < i { a } else { a + 1 };
                    let b2 = if b < i { b } else { b + 1 };
                    assert(ms[a] == before[a2] && ms[b] == before[b2]);
                }
            }
        }
    }

    /// Purges every member, leaves the group without members, inactive and
    /// with its broadcast queue closed, which stops the forwarding task.
    /// Purging twice is the same as purging once.
    pub fn purge_group_and_clients(&mut self)
        ensures
            final(self)@ == purged_group(old(self)@),
            final(self)@.wf(),
    {
        let ghost g = self@;
        while self.members.len() > 0
            invariant
                self.submitted@ == g.submitted,
                self.capacity@ == g.capacity,
            decreases self.members@.len(),
        {
            let popped = self.members.pop();
            if let Some(mut client) = popped {
                client.purge();
            }
        }
        self.active = false;
        self.broadcast = None;
        assert(views(self.members@) =~= Seq::<ClientView>::empty());
    }
}

} // verus!
