//! Client sessions: creating client entities and sending them packets.
use vstd::prelude::*;
use crate::component::{ClientState, EntityId, EntityKind, PeerAddr};
use crate::object::{empty_entity, Entity, EntityView, World};

verus! {

/// What the server asks of a connection.
#[derive(Debug, Clone, PartialEq)]
pub enum MsgToConn {
    /// Close the connection.
    Shutdown,
    /// Send these bytes to the client.
    SendPacket(Vec<u8>),
}

/// A message waiting to be handed to the connection of entity `to`.
#[derive(Debug, Clone, PartialEq)]
pub struct Outgoing {
    pub to: EntityId,
    pub msg: MsgToConn,
}

/// A new client entity: kind, address and the state before login.
pub open spec fn client_entity(id: EntityId, addr: PeerAddr) -> EntityView {
    EntityView {
        kind: Some(EntityKind::Client),
        addr: Some(addr),
        state: Some(ClientState::BeforeLogin),
        ..empty_entity(id)
    }
}

/// A queued message as plain values: the addressee, and the packet (none for a shutdown).
pub open spec fn out_view(o: Outgoing) -> (EntityId, Option<Seq<u8>>) {
    match o.msg {
        MsgToConn::Shutdown => (o.to, None),
        MsgToConn::SendPacket(p) => (o.to, Some(p@)),
    }
}

/// The queued messages as plain values.
pub open spec fn outbox_view(s: Seq<Outgoing>) -> Seq<(EntityId, Option<Seq<u8>>)> {
    s.map_values(|o: Outgoing| out_view(o))
}

/// The same packet queued for each of `ids`, in order.
pub open spec fn packets_to(ids: Seq<EntityId>, pkt: Seq<u8>) -> Seq<(EntityId, Option<Seq<u8>>)> {
    ids.map_values(|id: EntityId| (id, Some(pkt)))
}

/// Adds a client entity for a new connection from `addr`.
pub fn create(world: &mut World, addr: PeerAddr) -> (e: &mut Entity)
    requires
        old(world).wf(),
        old(world).next_id() < u64::MAX,
    ensures
        !old(world)@.contains_key(old(world).next_id()),
        e@ == client_entity(old(world).next_id(), addr),
        final(e)@.id == old(world).next_id() ==> final(world).wf() && final(world)@ == old(
            world,
        )@.insert(old(world).next_id(), final(e)@),
        final(world).next_id() == old(world).next_id() + 1,
{
    let id = world.push();
    let entity = world.get_mut(&id).unwrap();
    entity.push(EntityKind::Client);
    entity.push(addr);
    entity.push(ClientState::BeforeLogin);
    entity
}

/// Queues `pkt` for the connection of `entity`.
pub fn send(outbox: &mut Vec<Outgoing>, entity: &Entity, pkt: Vec<u8>)
    requires
        entity@.sender is Some,
    ensures
        outbox_view(final(outbox)@) == outbox_view(old(outbox)@).push((entity@.id, Some(pkt@))),
{
    let to = entity.id();
    let ghost p = pkt@;
    outbox.push(Outgoing { to: to, msg: MsgToConn::SendPacket(pkt) });
    assert(outbox_view(outbox@) =~= outbox_view(old(outbox)@).push((to, Some(p))));
}

/// Queues `pkt` for the connection of the entity with id `eid`.
pub fn send_by_eid(world: &World, outbox: &mut Vec<Outgoing>, eid: &EntityId, pkt: Vec<u8>)
    requires
        world.wf(),
        world@.contains_key(*eid),
        world@[*eid].sender is Some,
    ensures
        outbox_view(final(outbox)@) == outbox_view(old(outbox)@).push((*eid, Some(pkt@))),
{
    let entity = match world.get(eid) {
        Ok(e) => e,
        Err(_) => {
            assert(false);
            return;
        },
    };
    send(outbox, entity, pkt);
}

/// `w` with the session state of each of `ids` set to `st`.
pub open spec fn with_states(w: Map<EntityId, EntityView>, ids: Seq<EntityId>, st: ClientState) -> Map<
    EntityId,
    EntityView,
> {
    Map::new(
        |k: EntityId| w.contains_key(k),
        |k: EntityId|
            if ids.contains(k) {
                EntityView { state: Some(st), ..w[k] }
            } else {
                w[k]
            },
    )
}

/// Sets the session state of each of `ids` to `st`.
pub fn set_states(world: &mut World, ids: &Vec<EntityId>, st: ClientState)
    requires
        old(world).wf(),
        forall|i: int| 0 <= i < ids@.len() ==> old(world)@.contains_key(#[trigger] ids@[i]),
    ensures
        final(world).wf(),
        final(world).next_id() == old(world).next_id(),
        final(world)@ == with_states(old(world)@, ids@, st),
{
    let ghost w0 = world@;
    let mut i: usize = 0;
    assert(w0 =~= with_states(w0, ids@.subrange(0, 0), st));
    while i < ids.len()
        invariant
            i <= ids@.len(),
            world.wf(),
            world.next_id() == old(world).next_id(),
            w0 == old(world)@,
            forall|j: int| 0 <= j < ids@.len() ==> w0.contains_key(#[trigger] ids@[j]),
            world@ == with_states(w0, ids@.subrange(0, i as int), st),
        decreases ids@.len() - i,
    {
        let id = ids[i];
        assert(world@.contains_key(id));
        let entity = world.get_mut(&id).unwrap();
        entity.push(st);
        proof {
            let s0 = ids@.subrange(0, i as int);
            let s1 = ids@.subrange(0, i + 1);
            assert(s1 =~= s0.push(id));
            assert forall|k: EntityId| #![auto] s1.contains(k) <==> (s0.contains(k) || k == id) by {
                if s1.contains(k) {
                    let j = choose|j: int| 0 <= j < s1.len() && s1[j] == k;
                    if j < s0.len() {
                        assert(s0[j] == k);
                    }
                }
                if s0.contains(k) {
                    let j = choose|j: int| 0 <= j < s0.len() && s0[j] == k;
                    assert(s1[j] == k);
                }
                if k == id {
                    assert(s1[i as int] == k);
                }
            }
            assert(world@ =~= with_states(w0, s1, st));
        }
        i = i + 1;
    }
    assert(ids@.subrange(0, i as int) =~= ids@);
}

/// Queues `pkt` for each of `ids`, in order.
pub fn send_each(world: &World, outbox: &mut Vec<Outgoing>, ids: &Vec<EntityId>, pkt: &Vec<u8>)
    requires
        world.wf(),
        forall|i: int|
            0 <= i < ids@.len() ==> world@.contains_key(#[trigger] ids@[i]) && world@[ids@[i]].sender is Some,
    ensures
        outbox_view(final(outbox)@) == outbox_view(old(outbox)@) + packets_to(ids@, pkt@),
{
    let mut i: usize = 0;
    while i < ids.len()
        invariant
            i <= ids@.len(),
            world.wf(),
            forall|j: int|
                0 <= j < ids@.len() ==> world@.contains_key(#[trigger] ids@[j]) && world@[ids@[j]].sender is Some,
            outbox_view(outbox@) == outbox_view(old(outbox)@) + packets_to(ids@.subrange(0, i as int), pkt@),
        decreases ids@.len() - i,
    {
        let id = ids[i];
        let entity = world.get(&id).unwrap();
        send(outbox, entity, pkt.clone());
        i = i + 1;
        assert(packets_to(ids@.subrange(0, i as int), pkt@) =~= packets_to(ids@.subrange(0, i - 1), pkt@).push((id, Some(pkt@))));
        assert(outbox_view(outbox@) =~= outbox_view(old(outbox)@) + packets_to(ids@.subrange(0, i as int), pkt@));
    }
    assert(ids@.subrange(0, i as int) =~= ids@);
}

/// The ids of the entities of `s` whose session is in state `st`, in order.
pub open spec fn state_ids(s: Seq<EntityView>, st: ClientState) -> Seq<EntityId>
    decreases s.len(),
{
    if s.len() == 0 {
        Seq::<EntityId>::empty()
    } else if s.last().state == Some(st) {
        state_ids(s.drop_last(), st).push(s.last().id)
    } else {
        state_ids(s.drop_last(), st)
    }
}

/// Every id in `state_ids(s, st)` is that of an entity of `s` in state `st`.
pub proof fn lemma_state_ids(s: Seq<EntityView>, st: ClientState)
    ensures
        forall|i: int|
            0 <= i < state_ids(s, st).len() ==> exists|j: int|
                0 <= j < s.len() && s[j].id == #[trigger] state_ids(s, st)[i] && s[j].state == Some(st),
    decreases s.len(),
{
    if s.len() > 0 {
        lemma_state_ids(s.drop_last(), st);
        let r = state_ids(s, st);
        let r0 = state_ids(s.drop_last(), st);
        assert forall|i: int| 0 <= i < r.len() implies exists|j: int|
            0 <= j < s.len() && s[j].id == #[trigger] r[i] && s[j].state == Some(st) by {
            if i < r0.len() {
                assert(r[i] == r0[i]);
                let j = choose|j: int| 0 <= j < s.drop_last().len() && s.drop_last()[j].id == r0[i] && s.drop_last()[j].state == Some(st);
                assert(s[j] == s.drop_last()[j]);
            } else {
                assert(s[s.len() - 1].id == r[i]);
            }
        }
    }
}

/// The ids of the entities whose session is in state `st`, in id order.
pub fn ids_in_state(world: &World, st: ClientState) -> (r: Vec<EntityId>)
    requires
        world.wf(),
    ensures
        r@ == state_ids(world.views(), st),
        forall|i: int| 0 <= i < r@.len() ==> world@.contains_key(#[trigger] r@[i]) && world@[r@[i]].state == Some(st),
{
    let v = world.values();
    let mut r: Vec<EntityId> = Vec::new();
    let mut i: usize = 0;
    while i < v.len()
        invariant
            i <= v@.len(),
            v@.len() == world.views().len(),
            forall|j: int| 0 <= j < v@.len() ==> #[trigger] v@[j]@ == world.views()[j],
            r@ == state_ids(world.views().subrange(0, i as int), st),
        decreases v@.len() - i,
    {
        let e = v[i];
        let ghost sub = world.views().subrange(0, i + 1);
        assert(sub.drop_last() =~= world.views().subrange(0, i as int));
        let is_st = match e.get::<ClientState>() {
            Ok(s0) => *s0 == st,
            Err(_) => false,
        };
        if is_st {
            r.push(e.id());
        }
        i = i + 1;
    }
    assert(world.views().subrange(0, i as int) =~= world.views());
    proof {
        world.lemma_views();
        lemma_state_ids(world.views(), st);
        assert forall|i: int| 0 <= i < r@.len() implies world@.contains_key(#[trigger] r@[i]) && world@[r@[i]].state == Some(st) by {
            let j = choose|j: int| 0 <= j < world.views().len() && world.views()[j].id == r@[i] && world.views()[j].state == Some(st);
            assert(world@.contains_key(world.views()[j].id));
        }
    }
    r
}

} // verus!
