//! The hub: the groups of one endpoint by key, its handler registry, and the
//! control queue through which payloads reach a group.
use vstd::prelude::*;

use crate::channel::{bounded_queue, offer, SendOutcome};
use crate::client::{enqueue_allows, Client, ClientView, Delivery};
use crate::error::{ChannelType, WsError};
use crate::group::{
    broadcasted, forwarded, position, with_member, without_member, Group, GroupView,
};
use crate::params::{
    all_narrow, convert, first_failure, narrow, Envelope, FnRequest, ParamError, Primitive,
};
use crate::registry::Registry;

verus! {

/// How many envelopes may wait in a hub's control queue.
pub const HUB_QUEUE_CAPACITY: usize = 128;

/// A hub as the broker's rules see it.
pub struct HubView<H> {
    /// The endpoint's name.
    pub name: Seq<char>,
    /// The live groups, by key.
    pub groups: Map<i32, GroupView>,
    /// For each live group, the serial number it was created with; a
    /// forwarding task names its group by key and serial.
    pub serials: Map<i32, u64>,
    /// The handlers, by function name.
    pub registry: Map<Seq<char>, H>,
    /// Every envelope the control queue took, as group key and payload, in
    /// the order it took them.
    pub sent: Seq<(i32, Seq<char>)>,
    /// How many envelopes the control queue may hold at once.
    pub capacity: nat,
}

impl<H> HubView<H> {
    pub open spec fn wf(self) -> bool {
        &&& self.serials.dom() == self.groups.dom()
        &&& forall|k: i32| #[trigger] self.groups.contains_key(k) ==> self.groups[k].wf()
    }
}

/// What became of an envelope taken off the control queue.
#[derive(Debug, Clone, Copy, PartialEq, Eq, Structural)]
pub enum Routed {
    /// The payload waits in the group's broadcast queue.
    Queued,
    /// The group's broadcast queue was full; the payload was dropped.
    Dropped,
    /// No group has that key; the payload was dropped.
    NoSuchGroup,
    /// The group can no longer deliver: it was purged and removed.
    GroupPurged,
}

/// What a connection's reader does with one inbound frame.
#[derive(Debug, Clone, Copy, PartialEq, Eq, Structural)]
pub enum ReaderAction {
    /// Look the function up and invoke it on a task of its own.
    Dispatch,
    /// Drop the frame and read the next one.
    Skip,
    /// Remove the client from its group and stop reading.
    Disconnect,
}

/// One inbound frame of a connection, as its reader saw it.
#[derive(Debug, Clone, PartialEq, Eq)]
pub enum Frame {
    /// A text frame that parsed as a request.
    Request(FnRequest),
    /// A text frame that did not parse as a request.
    Malformed,
    /// A frame of another kind.
    Unsupported,
    /// The peer closed the connection.
    Closed,
    /// Reading failed, or the stream ended.
    Failed,
}

pub open spec fn reader_action(f: Frame) -> ReaderAction {
    match f {
        Frame::Request(_) => ReaderAction::Dispatch,
        Frame::Malformed => ReaderAction::Skip,
        _ => ReaderAction::Disconnect,
    }
}

/// Decides what a reader does with a frame: a request is dispatched, a
/// frame that does not parse is skipped, and anything else ends the
/// connection.
pub fn reader_step(frame: &Frame) -> (r: ReaderAction)
    ensures
        r == reader_action(*frame),
{
    match frame {
        Frame::Request(_) => ReaderAction::Dispatch,
        Frame::Malformed => ReaderAction::Skip,
        _ => ReaderAction::Disconnect,
    }
}

struct Slot {
    id: i32,
    serial: u64,
    group: Group,
}

spec fn holds_key(slots: Seq<Slot>, k: i32) -> bool {
    exists|i: int| 0 <= i < slots.len() && slots[i].id == k
}

spec fn at(slots: Seq<Slot>, k: i32) -> int {
    choose|i: int| 0 <= i < slots.len() && slots[i].id == k
}

spec fn unique(slots: Seq<Slot>) -> bool {
    forall|i: int, j: int| 0 <= i < j < slots.len() ==> slots[i].id != slots[j].id
}

spec fn groups_of(slots: Seq<Slot>) -> Map<i32, GroupView> {
    Map::new(|k: i32| holds_key(slots, k), |k: i32| slots[at(slots, k)].group@)
}

spec fn serials_of(slots: Seq<Slot>) -> Map<i32, u64> {
    Map::new(|k: i32| holds_key(slots, k), |k: i32| slots[at(slots, k)].serial)
}

proof fn lemma_at(slots: Seq<Slot>, i: int)
    requires
        unique(slots),
        0 <= i < slots.len(),
    ensures
        holds_key(slots, slots[i].id),
        at(slots, slots[i].id) == i,
{
    let k = slots[i].id;
    assert(holds_key(slots, k));
    let j = at(slots, k);
    assert(slots[j].id == k);
}

proof fn lemma_update(slots: Seq<Slot>, i: int, s: Slot)
    requires
        unique(slots),
        0 <= i < slots.len(),
        s.id == slots[i].id,
    ensures
        unique(slots.update(i, s)),
        groups_of(slots.update(i, s)) == groups_of(slots).insert(s.id, s.group@),
        serials_of(slots.update(i, s)) == serials_of(slots).insert(s.id, s.serial),
{
    let t = slots.update(i, s);
    assert(unique(t)) by {
        assert forall|a: int, b: int| 0 <= a < b < t.len() implies t[a].id != t[b].id by {
            assert(t[a].id == slots[a].id && t[b].id == slots[b].id);
        }
    }
    assert forall|k: i32| holds_key(t, k) == holds_key(slots, k) by {
        if holds_key(slots, k) {
            let j = at(slots, k);
            assert(t[j].id == k);
        }
        if holds_key(t, k) {
            let j = at(t, k);
            assert(slots[j].id == k);
        }
    }
    assert forall|k: i32| holds_key(t, k) && k != s.id implies at(t, k) == at(slots, k) && t[at(t, k)]
        == slots[at(slots, k)] by {
        let j = at(slots, k);
        lemma_at(slots, j);
        lemma_at(t, j);
    }
    lemma_at(t, i);
    assert(groups_of(t) =~= groups_of(slots).insert(s.id, s.group@));
    assert(serials_of(t) =~= serials_of(slots).insert(s.id, s.serial));
}

proof fn lemma_push(slots: Seq<Slot>, s: Slot)
    requires
        unique(slots),
        !holds_key(slots, s.id),
    ensures
        unique(slots.push(s)),
        groups_of(slots.push(s)) == groups_of(slots).insert(s.id, s.group@),
        serials_of(slots.push(s)) == serials_of(slots).insert(s.id, s.serial),
{
    let t = slots.push(s);
    assert(unique(t)) by {
        assert forall|a: int, b: int| 0 <= a < b < t.len() implies t[a].id != t[b].id by {
            if b == slots.len() {
                assert(t[a] == slots[a]);
            } else {
                assert(t[a] == slots[a] && t[b] == slots[b]);
            }
        }
    }
    assert forall|k: i32| k != s.id implies holds_key(t, k) == holds_key(slots, k) by {
        if holds_key(slots, k) {
            let j = at(slots, k);
            assert(t[j] == slots[j]);
        }
        if holds_key(t, k) {
            let j = at(t, k);
            assert(t[j] == slots[j]);
        }
    }
    assert forall|k: i32| holds_key(t, k) && k != s.id implies t[at(t, k)] == slots[at(slots, k)] by {
        let j = at(slots, k);
        lemma_at(slots, j);
        assert(t[j] == slots[j]);
        lemma_at(t, j);
    }
    lemma_at(t, slots.len() as int);
    assert(groups_of(t) =~= groups_of(slots).insert(s.id, s.group@));
    assert(serials_of(t) =~= serials_of(slots).insert(s.id, s.serial));
}

proof fn lemma_remove(slots: Seq<Slot>, i: int)
    requires
        unique(slots),
        0 <= i < slots.len(),
    ensures
        unique(slots.remove(i)),
        groups_of(slots.remove(i)) == groups_of(slots).remove(slots[i].id),
        serials_of(slots.remove(i)) == serials_of(slots).remove(slots[i].id),
{
    let t = slots.remove(i);
    let id = slots[i].id;
    assert(unique(t)) by {
        assert forall|a: int, b: int| 0 <= a < b < t.len() implies t[a].id != t[b].id by {
            let a2 = if a < i { a } else { a + 1 };
            let b2 = if b < i { b } else { b + 1 };
            assert(t[a] == slots[a2] && t[b] == slots[b2]);
        }
    }
    assert forall|k: i32| holds_key(t, k) == (holds_key(slots, k) && k != id) by {
        if holds_key(slots, k) && k != id {
            let j = at(slots, k);
            let j2 = if j < i { j } else { j - 1 };
            assert(t[j2] == slots[j]);
        }
        if holds_key(t, k) {
            let j = at(t, k);
            let j2 = if j < i { j } else { j + 1 };
            assert(t[j] == slots[j2]);
            if k == id {
                assert(slots[j2].id == slots[i].id);
            }
        }
    }
    assert forall|k: i32| holds_key(t, k) implies t[at(t, k)] == slots[at(slots, k)] by {
        let j = at(t, k);
        let j2 = if j < i { j } else { j + 1 };
        assert(t[j] == slots[j2]);
        lemma_at(slots, j2);
    }
    assert(groups_of(t) =~= groups_of(slots).remove(id));
    assert(serials_of(t) =~= serials_of(slots).remove(id));
}

/// A group created for `c` alone.
pub open spec fn fresh_group(c: ClientView) -> GroupView {
    GroupView {
        members: seq![c],
        active: true,
        stopped: false,
        submitted: Seq::empty(),
        capacity: crate::group::GROUP_QUEUE_CAPACITY as nat,
    }
}

/// Group `g` after client `id` was purged from it.
pub open spec fn after_leaving(g: GroupView, id: u128) -> GroupView {
    GroupView { members: without_member(g.members, id), ..g }
}

/// Hub `h1` is what routing `env` off the control queue of `h0` left, with
/// result `r`.
pub open spec fn routed<H>(h0: HubView<H>, h1: HubView<H>, env: Envelope, r: Routed) -> bool {
    let id = env.group_id;
    let g = h0.groups[id];
    let m = env.json@;
    &&& h1.registry == h0.registry
    &&& h1.name == h0.name
    &&& h1.sent == h0.sent
    &&& h1.capacity == h0.capacity
    &&& if !h0.groups.contains_key(id) {
        r == Routed::NoSuchGroup && h1 == h0
    } else {
        &&& (!g.active ==> r == Routed::GroupPurged)
        &&& (r == Routed::Queued ==> h1.groups == h0.groups.insert(
            id,
            broadcasted(g, m, Ok(Delivery::Queued)),
        ) && h1.serials == h0.serials)
        &&& (r == Routed::Dropped ==> h1 == h0)
        &&& (r == Routed::GroupPurged ==> h1.groups == h0.groups.remove(id) && h1.serials
            == h0.serials.remove(id))
        &&& r != Routed::NoSuchGroup
    }
}

/// Hub `h1` is what adding client `c` to group `id` of `h0` left; `created`
/// holds the serial of the group made for it, if one was.
pub open spec fn connected<H>(
    h0: HubView<H>,
    h1: HubView<H>,
    id: i32,
    c: ClientView,
    created: Option<u64>,
) -> bool {
    let g = h0.groups[id];
    &&& h1.registry == h0.registry
    &&& h1.name == h0.name
    &&& h1.sent == h0.sent
    &&& h1.capacity == h0.capacity
    &&& h1.groups.dom() == h0.groups.dom().insert(id)
    &&& if h0.groups.contains_key(id) && g.active {
        &&& created is None
        &&& h1.groups == h0.groups.insert(id, GroupView { members: with_member(g.members, c), ..g })
        &&& h1.serials == h0.serials
    } else {
        &&& created is Some
        &&& h1.groups == h0.groups.insert(id, fresh_group(c))
        &&& h1.serials == h0.serials.insert(id, created->Some_0)
    }
}

/// Hub `h1` is what the disconnect of client `cid` from group `id` of `h0`
/// left; `r` tells whether the group was removed.
pub open spec fn removed_from_group<H>(
    h0: HubView<H>,
    h1: HubView<H>,
    id: i32,
    cid: u128,
    r: bool,
) -> bool {
    let g = after_leaving(h0.groups[id], cid);
    &&& h1.registry == h0.registry
    &&& h1.name == h0.name
    &&& h1.sent == h0.sent
    &&& h1.capacity == h0.capacity
    &&& if !h0.groups.contains_key(id) {
        !r && h1 == h0
    } else if g.members.len() == 0 {
        &&& r
        &&& h1.groups == h0.groups.remove(id)
        &&& h1.serials == h0.serials.remove(id)
    } else {
        &&& !r
        &&& h1.groups == h0.groups.insert(id, g)
        &&& h1.serials == h0.serials
    }
}

/// Removing the last member of a group leaves it empty, and the hub forgets
/// the group: a later lookup of its key finds nothing.
pub proof fn lemma_last_member_leaves<H>(
    h0: HubView<H>,
    h1: HubView<H>,
    id: i32,
    c: ClientView,
    r: bool,
)
    requires
        h0.groups.contains_key(id),
        h0.groups[id].members == seq![c],
        removed_from_group(h0, h1, id, c.id, r),
    ensures
        after_leaving(h0.groups[id], c.id).members.len() == 0,
        r,
        !h1.groups.contains_key(id),
{
    let ms = seq![c];
    assert(ms.drop_last() =~= Seq::<ClientView>::empty());
    assert(position(ms, c.id) == 0);
}

/// A group that can no longer take a payload (inactive, or its broadcast
/// queue closed) is purged and removed in the same routing step, and no
/// other group is touched.
pub proof fn lemma_unreachable_group_removed<H>(h0: HubView<H>, h1: HubView<H>, env: Envelope, r: Routed)
    requires
        routed(h0, h1, env, r),
        h0.groups.contains_key(env.group_id),
        r == Routed::GroupPurged || !h0.groups[env.group_id].active,
    ensures
        r == Routed::GroupPurged,
        !h1.groups.contains_key(env.group_id),
        forall|k: i32|
            k != env.group_id ==> (#[trigger] h1.groups.contains_key(k) == h0.groups.contains_key(k)
                && (h0.groups.contains_key(k) ==> h1.groups[k] == h0.groups[k])),
{
}

/// Once the sole member of a group has left, connecting a client under the
/// same key creates a brand-new group whose only member is that client.
pub proof fn lemma_rejoin_creates_fresh_group<H>(
    h0: HubView<H>,
    h1: HubView<H>,
    h2: HubView<H>,
    id: i32,
    a: ClientView,
    c: ClientView,
    r: bool,
    created: Option<u64>,
)
    requires
        h0.groups.contains_key(id),
        h0.groups[id].members == seq![a],
        removed_from_group(h0, h1, id, a.id, r),
        connected(h1, h2, id, c, created),
    ensures
        created is Some,
        h2.groups[id] == fresh_group(c),
        h2.groups[id].members == seq![c],
{
    lemma_last_member_leaves(h0, h1, id, a, r);
}

/// Hub `h1` is what offering payload `m` for group `id` to the control queue
/// of `h0` left, with result `r`: a taken payload is recorded after every
/// one taken before it, a dropped one changes nothing, and a closed queue
/// purges and forgets every group.
pub open spec fn written<H>(h0: HubView<H>, h1: HubView<H>, id: i32, m: Seq<char>, r: Result<Delivery, WsError>) -> bool {
    &&& (r == Ok::<Delivery, WsError>(Delivery::Queued) ==> h1 == (HubView {
        sent: h0.sent.push((id, m)),
        ..h0
    }))
    &&& (r == Ok::<Delivery, WsError>(Delivery::Dropped) ==> h1 == h0)
    &&& (r is Err ==> r == Err::<Delivery, WsError>(WsError::ChannelClosed(ChannelType::Hub))
        && h1 == (HubView {
        groups: Map::<i32, GroupView>::empty(),
        serials: Map::<i32, u64>::empty(),
        ..h0
    }))
}

/// The control queue keeps submission order: two payloads taken one after
/// the other are recorded in that order, after everything taken before.
pub proof fn lemma_control_queue_keeps_order<H>(
    h0: HubView<H>,
    h1: HubView<H>,
    h2: HubView<H>,
    id: i32,
    m1: Seq<char>,
    m2: Seq<char>,
)
    requires
        written(h0, h1, id, m1, Ok(Delivery::Queued)),
        written(h1, h2, id, m2, Ok(Delivery::Queued)),
    ensures
        h2.sent == h0.sent + seq![(id, m1), (id, m2)],
        h2.groups == h0.groups,
{
    assert(h2.sent =~= h0.sent + seq![(id, m1), (id, m2)]);
}

/// The groups of one endpoint, its registry and its control queue.
pub struct Hub<H> {
    name: String,
    slots: Vec<Slot>,
    registry: Registry<H>,
    control: tokio::sync::mpsc::Sender<Envelope>,
    next_serial: u64,
    sent: Ghost<Seq<(i32, Seq<char>)>>,
    capacity: Ghost<nat>,
}

impl<H> View for Hub<H> {
    type V = HubView<H>;

    closed spec fn view(&self) -> HubView<H> {
        HubView {
            name: self.name@,
            groups: groups_of(self.slots@),
            serials: serials_of(self.slots@),
            registry: self.registry@,
            sent: self.sent@,
            capacity: self.capacity@,
        }
    }
}

impl<H> Hub<H> {
    /// The hub's own invariant: group keys are unique, each group is well
    /// formed, and so is the registry.
    pub closed spec fn wf(&self) -> bool {
        &&& unique(self.slots@)
        &&& self@.wf()
        &&& self.registry.wf()
    }

    /// A hub with no group and no handler. The receiving half of its control
    /// queue is handed back for the task that drains it.
    pub fn new(name: &str) -> (r: (Hub<H>, tokio::sync::mpsc::Receiver<Envelope>))
        ensures
            r.0.wf(),
            r.0@.name == name@,
            r.0@.groups == Map::<i32, GroupView>::empty(),
            r.0@.serials == Map::<i32, u64>::empty(),
            r.0@.registry == Map::<Seq<char>, H>::empty(),
            r.0@.sent == Seq::<(i32, Seq<char>)>::empty(),
            r.0@.capacity == HUB_QUEUE_CAPACITY as nat,
    {
        let (tx, rx) = bounded_queue(HUB_QUEUE_CAPACITY);
        let hub = Hub {
            name: name.to_owned(),
            slots: Vec::new(),
            registry: Registry::new(),
            control: tx,
            next_serial: 0,
            sent: Ghost(Seq::empty()),
            capacity: Ghost(HUB_QUEUE_CAPACITY as nat),
        };
        assert(hub@.groups =~= Map::<i32, GroupView>::empty());
        assert(hub@.serials =~= Map::<i32, u64>::empty());
        (hub, rx)
    }

    pub fn name(&self) -> (r: &String)
        ensures
            r@ == self@.name,
    {
        &self.name
    }

    /// Where the group with key `group_id` stands.
    fn find(&self, group_id: i32) -> (r: Option<usize>)
        requires
            unique(self.slots@),
        ensures
            match r {
                Some(i) => i < self.slots@.len() && self.slots@[i as int].id == group_id && at(
                    self.slots@,
                    group_id,
                ) == i,
                None => !holds_key(self.slots@, group_id),
            },
    {
        let mut i: usize = 0;
        while i < self.slots.len()
            invariant
                unique(self.slots@),
                i <= self.slots@.len(),
                forall|k: int| 0 <= k < i ==> (#[trigger] self.slots@[k]).id != group_id,
            decreases self.slots@.len() - i,
        {
            if self.slots[i].id == group_id {
                proof {
                    lemma_at(self.slots@, i as int);
                }
                return Some(i);
            }
            i = i + 1;
        }
        None
    }

    /// The group with key `group_id`, if it is live.
    pub fn group(&self, group_id: i32) -> (r: Option<&Group>)
        requires
            self.wf(),
        ensures
            match r {
                Some(g) => self@.groups.contains_key(group_id) && g@ == self@.groups[group_id],
                None => !self@.groups.contains_key(group_id),
            },
    {
        match self.find(group_id) {
            Some(i) => Some(&self.slots[i].group),
            None => None,
        }
    }

    /// Replaces the registry as a whole.
    pub fn set_registry(&mut self, registry: Registry<H>)
        requires
            old(self).wf(),
            registry.wf(),
        ensures
            final(self).wf(),
            final(self)@ == (HubView { registry: registry@, ..old(self)@ }),
    {
        self.registry = registry;
    }

    /// Registers `handler` under `name`, replacing any handler registered
    /// under that name before.
    pub fn register(&mut self, name: &str, handler: H)
        requires
            old(self).wf(),
        ensures
            final(self).wf(),
            final(self)@ == (HubView { registry: old(self)@.registry.insert(name@, handler), ..old(self)@ }),
    {
        self.registry.add_fn(name, handler);
    }

    /// Purges every group and forgets it: the hub can no longer deliver.
    pub fn purge_all_groups(&mut self)
        requires
            old(self).wf(),
        ensures
            final(self).wf(),
            final(self)@ == (HubView {
                groups: Map::<i32, GroupView>::empty(),
                serials: Map::<i32, u64>::empty(),
                ..old(self)@
            }),
    {
        while self.slots.len() > 0
            invariant
                unique(self.slots@),
                self.registry == old(self).registry,
                self.name == old(self).name,
                self.sent == old(self).sent,
                self.capacity == old(self).capacity,
            decreases self.slots@.len(),
        {
            let popped = self.slots.pop();
            if let Some(mut slot) = popped {
                slot.group.purge_group_and_clients();
            }
        }
        assert(groups_of(self.slots@) =~= Map::<i32, GroupView>::empty());
        assert(serials_of(self.slots@) =~= Map::<i32, u64>::empty());
    }

    /// Offers a payload for group `group_id` to the control queue without
    /// waiting; a full queue drops it. A closed control queue means nothing
    /// can be delivered any more: every group is purged and forgotten.
    pub fn write_to_channel(&mut self, group_id: i32, json: String) -> (r: Result<Delivery, WsError>)
        requires
            old(self).wf(),
        ensures
            final(self).wf(),
            written(old(self)@, final(self)@, group_id, json@, r),
    {
        let ghost m = json@;
        let envelope = Envelope { group_id, json };
        match offer(&self.control, envelope) {
            SendOutcome::Queued => {
                self.sent = Ghost(self.sent@.push((group_id, m)));
                Ok(Delivery::Queued)
            },
            SendOutcome::Full => Ok(Delivery::Dropped),
            SendOutcome::Closed => {
                self.purge_all_groups();
                Err(WsError::ChannelClosed(ChannelType::Hub))
            },
        }
    }

    /// Routes an envelope taken off the control queue to its group's
    /// broadcast queue. A group that cannot take it any more (inactive, or
    /// its queue closed) is purged and removed; other groups are untouched.
    pub fn dispatch_channel_message(&mut self, envelope: Envelope) -> (r: Routed)
        requires
            old(self).wf(),
        ensures
            final(self).wf(),
            routed(old(self)@, final(self)@, envelope, r),
    {
        let Envelope { group_id, json } = envelope;
        let i = match self.find(group_id) {
            Some(i) => i,
            None => return Routed::NoSuchGroup,
        };
        let ghost before = self.slots@;
        let mut slot = self.slots.remove(i);
        let ghost g0 = slot.group@;
        proof {
            lemma_at(before, i as int);
            assert(groups_of(before).contains_key(group_id));
            assert(before[i as int].group@.wf());
        }
        match slot.group.write_to_channel(json) {
            Ok(Delivery::Queued) => {
                self.slots.insert(i, slot);
                assert(self.slots@ =~= before.update(i as int, slot));
                proof {
                    lemma_update(before, i as int, slot);
                    assert(serials_of(self.slots@) =~= serials_of(before));
                }
                Routed::Queued
            },
            Ok(Delivery::Dropped) => {
                self.slots.insert(i, slot);
                assert(self.slots@ =~= before.update(i as int, slot));
                proof {
                    lemma_update(before, i as int, slot);
                    assert(groups_of(self.slots@) =~= groups_of(before));
                    assert(serials_of(self.slots@) =~= serials_of(before));
                }
                Routed::Dropped
            },
            Err(_) => {
                slot.group.purge_group_and_clients();
                proof {
                    lemma_remove(before, i as int);
                }
                Routed::GroupPurged
            },
        }
    }

    /// Adds a client to group `group_id`. A missing group is created with
    /// the client as its only member; a group that no longer accepts members
    /// is purged and replaced by such a fresh group. Where a group is
    /// created, its serial and the receiving half of its broadcast queue are
    /// handed back for its forwarding task.
    pub fn connect_to_group(&mut self, group_id: i32, client: Client) -> (r: Option<(u64, tokio::sync::mpsc::Receiver<String>)>)
        requires
            old(self).wf(),
        ensures
            final(self).wf(),
            connected(
                old(self)@,
                final(self)@,
                group_id,
                client@,
                if r is Some {
                    Some(r->Some_0.0)
                } else {
                    None
                },
            ),
    {
        let ghost c = client@;
        match self.find(group_id) {
            Some(i) => {
                let ghost before = self.slots@;
                proof {
                    lemma_at(before, i as int);
                    assert(groups_of(before).contains_key(group_id));
                    assert(before[i as int].group@.wf());
                }
                if self.slots[i].group.is_active() {
                    let mut slot = self.slots.remove(i);
                    let _ = slot.group.add_client(client);
                    self.slots.insert(i, slot);
                    assert(self.slots@ =~= before.update(i as int, slot));
                    proof {
                        lemma_update(before, i as int, slot);
                        assert(serials_of(self.slots@) =~= serials_of(before));
                    }
                    None
                } else {
                    let mut stale = self.slots.remove(i);
                    stale.group.purge_group_and_clients();
                    let (group, rx) = Group::new(client);
                    let serial = self.next_serial;
                    self.next_serial = serial.wrapping_add(1);
                    let slot = Slot { id: group_id, serial, group };
                    self.slots.insert(i, slot);
                    assert(self.slots@ =~= before.update(i as int, slot));
                    proof {
                        lemma_update(before, i as int, slot);
                    }
                    assert(groups_of(self.slots@).dom() =~= groups_of(before).dom().insert(group_id));
                    Some((serial, rx))
                }
            },
            None => {
                let ghost before = self.slots@;
                let (group, rx) = Group::new(client);
                let serial = self.next_serial;
                self.next_serial = serial.wrapping_add(1);
                let slot = Slot { id: group_id, serial, group };
                self.slots.push(slot);
                proof {
                    lemma_push(before, slot);
                }
                assert(groups_of(self.slots@).dom() =~= groups_of(before).dom().insert(group_id));
                Some((serial, rx))
            },
        }
    }

    /// The forwarding step of group `group_id`, created with `serial`: fans
    /// `message` out to its members as `Group::forward` does. Nothing
    /// happens where no such group is live any more.
    pub fn forward(&mut self, group_id: i32, serial: u64, message: &String) -> (r: Option<Vec<Result<Delivery, WsError>>>)
        requires
            old(self).wf(),
        ensures
            final(self).wf(),
            final(self)@.registry == old(self)@.registry,
            final(self)@.name == old(self)@.name,
            final(self)@.serials == old(self)@.serials,
            final(self)@.sent == old(self)@.sent,
            final(self)@.capacity == old(self)@.capacity,
            ({
                let live = old(self)@.groups.contains_key(group_id) && old(self)@.serials[group_id] == serial;
                let g = old(self)@.groups[group_id];
                match r {
                    Some(rs) => live && rs@.len() == g.members.len() && final(self)@.groups
                        == old(self)@.groups.insert(group_id, forwarded(g, message@, rs@))
                        && forall|i: int|
                        0 <= i < rs@.len() ==> enqueue_allows(
                            g.members[i],
                            #[trigger] rs@[i],
                        ),
                    None => !live && final(self)@ == old(self)@,
                }
            }),
    {
        let i = match self.find(group_id) {
            Some(i) => i,
            None => return None,
        };
        let ghost before = self.slots@;
        proof {
            lemma_at(before, i as int);
            assert(groups_of(before).contains_key(group_id));
            assert(before[i as int].group@.wf());
        }
        if self.slots[i].serial != serial {
            return None;
        }
        let mut slot = self.slots.remove(i);
        let results = slot.group.forward(message);
        self.slots.insert(i, slot);
        assert(self.slots@ =~= before.update(i as int, slot));
        proof {
            lemma_update(before, i as int, slot);
            assert(serials_of(self.slots@) =~= serials_of(before));
        }
        Some(results)
    }

    /// The disconnect path: purges client `client_id` from group
    /// `group_id`, and purges and removes the group when no member is left.
    /// Tells whether the group was removed.
    pub fn remove_from_group(&mut self, group_id: i32, client_id: u128) -> (r: bool)
        requires
            old(self).wf(),
        ensures
            final(self).wf(),
            removed_from_group(old(self)@, final(self)@, group_id, client_id, r),
    {
        let i = match self.find(group_id) {
            Some(i) => i,
            None => return false,
        };
        let ghost before = self.slots@;
        proof {
            lemma_at(before, i as int);
            assert(groups_of(before).contains_key(group_id));
            assert(before[i as int].group@.wf());
        }
        let mut slot = self.slots.remove(i);
        slot.group.purge_client(client_id);
        if slot.group.empty() {
            slot.group.purge_group_and_clients();
            proof {
                lemma_remove(before, i as int);
            }
            true
        } else {
            self.slots.insert(i, slot);
            assert(self.slots@ =~= before.update(i as int, slot));
            proof {
                lemma_update(before, i as int, slot);
                assert(serials_of(self.slots@) =~= serials_of(before));
            }
            false
        }
    }

    /// Resolves a request: the handler registered under its function name
    /// and its parameters narrowed to primitives. An unknown name and a
    /// parameter that does not narrow are refused; nothing is invoked here.
    pub fn dispatch_function(&self, request: FnRequest) -> (r: Result<(&H, Vec<Primitive>), WsError>)
        requires
            self.wf(),
        ensures
            !self@.registry.contains_key(request.function_name@) ==> r == Err::<(&H, Vec<Primitive>), WsError>(
                WsError::InvalidFunction(request.function_name),
            ),
            self@.registry.contains_key(request.function_name@) && !all_narrow(request.params@) ==> (
            r matches Err(WsError::InvalidParams(e)) && first_failure(request.params@, e)),
            self@.registry.contains_key(request.function_name@) && all_narrow(request.params@) ==> (
            r matches Ok((h, ps)) && *h == self@.registry[request.function_name@] && ps@.len()
                == request.params@.len() && forall|i: int|
                0 <= i < ps@.len() ==> narrow(#[trigger] request.params@[i]) == Ok::<
                    Primitive,
                    ParamError,
                >(ps@[i])),
    {
        let FnRequest { function_name, params } = request;
        let handler = match self.registry.get_fn(&function_name) {
            Some(h) => h,
            None => return Err(WsError::InvalidFunction(function_name)),
        };
        match convert(params) {
            Ok(ps) => Ok((handler, ps)),
            Err(e) => Err(WsError::InvalidParams(e)),
        }
    }
}

} // verus!
