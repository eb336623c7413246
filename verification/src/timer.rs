//! Timer entities: a task that runs again and again, each time its period has
//! passed since it last ran. Time is given in milliseconds by the caller.
use vstd::prelude::*;
use crate::component::{EntityId, EntityKind, Instant, PongInfo, TimerInfo, TimerTask};
use crate::packet::{error, error_body, ErrorKind};
use crate::session::{outbox_view, send, MsgToConn, Outgoing};
use crate::writer::is_packet_of;
use crate::server::Server;
use crate::on_game::{anyone_alive, game_ok, game_running, load_finished, loading_step, main_step, main_stepped, sole_team, turn_stuck, turns_started, LOADING_LIMIT, TURN_LIMIT};
use crate::component::{GameInfo, RoomInfo};
use crate::object::{empty_entity, EntityView, World};
use crate::consistency::{lemma_logins_kept, lemma_tick_keeps, world_ok};

verus! {

/// The period of a timer that drives a game, in milliseconds.
pub const LOOP_PERIOD: u64 = 100;

/// A new timer entity: its task and period, last run at `now`.
pub open spec fn timer_entity(id: EntityId, duration: u64, task: TimerTask, now: u64) -> EntityView {
    EntityView {
        kind: Some(EntityKind::Timer),
        timer: Some(TimerInfo { task: task, duration: duration }),
        instant: Some(Instant { millis: now }),
        ..empty_entity(id)
    }
}

/// Adds a timer entity that runs `task` every `duration` milliseconds from `now` on.
pub fn create(world: &mut World, duration: u64, task: TimerTask, now: u64) -> (id: EntityId)
    requires
        old(world).wf(),
        old(world).next_id() < u64::MAX,
    ensures
        id == old(world).next_id(),
        !old(world)@.contains_key(id),
        final(world).wf(),
        final(world)@ == old(world)@.insert(id, timer_entity(id, duration, task, now)),
        final(world).next_id() == old(world).next_id() + 1,
{
    let id = world.push();
    let entity = world.get_mut(&id).unwrap();
    entity.push(EntityKind::Timer);
    entity.push(TimerInfo { task: task, duration: duration });
    entity.push(Instant { millis: now });
    id
}

/// Marks the timer `eid` as having run at `now`.
pub fn proceed(world: &mut World, eid: &EntityId, now: u64)
    requires
        old(world).wf(),
        old(world)@.contains_key(*eid),
    ensures
        final(world).wf(),
        final(world).next_id() == old(world).next_id(),
        final(world)@ == old(world)@.insert(*eid, EntityView { instant: Some(Instant { millis: now }), ..old(world)@[*eid] }),
{
    let entity = world.get_mut(eid).unwrap();
    entity.push(Instant { millis: now });
}

/// The milliseconds from `since` to `now`; none if `now` is earlier.
pub open spec fn elapsed(since: u64, now: u64) -> nat {
    if now >= since { (now - since) as nat } else { 0 }
}

/// The timer `e` is due at `now`: its period has passed since it last ran.
pub open spec fn due(e: EntityView, now: u64) -> bool {
    elapsed(e.instant->0.millis, now) >= e.timer->0.duration
}

/// Whether the period of the timer `eid` has passed at `now` since it last ran.
pub fn is_runnable(world: &World, timer_entity_id: &EntityId, now: u64) -> (r: bool)
    requires
        world.wf(),
        world@.contains_key(*timer_entity_id),
        world@[*timer_entity_id].timer is Some,
        world@[*timer_entity_id].instant is Some,
    ensures
        r == due(world@[*timer_entity_id], now),
{
    let timer = world.get(timer_entity_id).unwrap();
    let timer_info = timer.get::<TimerInfo>().unwrap();
    let instant = timer.get::<Instant>().unwrap();
    let duration = timer_info.duration;
    let elapsed = now.saturating_sub(instant.millis);
    if elapsed >= duration {
        true
    } else {
        false
    }
}

/// How often clients must answer a ping, in milliseconds.
pub const PING_PONG_PERIOD: u64 = 600000;

/// The entity is a client.
pub open spec fn is_client(e: EntityView) -> bool {
    e.kind == Some(EntityKind::Client)
}

/// The entity is a client that has not answered since the last check.
pub open spec fn stale(e: EntityView) -> bool {
    is_client(e) && e.pong == Some(PongInfo(false))
}

/// The ids of the entities of the world, in order.
pub open spec fn entity_ids(world: &World) -> Seq<EntityId> {
    world.views().map_values(|e: EntityView| e.id)
}

/// Those of `ids` that name stale clients of `w`, in order.
pub open spec fn stale_of(w: Map<EntityId, EntityView>, ids: Seq<EntityId>) -> Seq<EntityId>
    decreases ids.len(),
{
    if ids.len() == 0 {
        Seq::<EntityId>::empty()
    } else if stale(w[ids.last()]) {
        stale_of(w, ids.drop_last()).push(ids.last())
    } else {
        stale_of(w, ids.drop_last())
    }
}

/// The stale clients are those of `ids` that are stale.
pub proof fn lemma_stale_of(w: Map<EntityId, EntityView>, ids: Seq<EntityId>, k: EntityId)
    ensures
        stale_of(w, ids).contains(k) <==> ids.contains(k) && stale(w[k]),
    decreases ids.len(),
{
    if ids.len() > 0 {
        let rest = ids.drop_last();
        lemma_stale_of(w, rest, k);
        assert(ids =~= rest.push(ids.last()));
        if ids.contains(k) && k != ids.last() {
            let i = choose|i: int| 0 <= i < ids.len() && ids[i] == k;
            assert(rest[i] == k);
        }
        if rest.contains(k) {
            let i = choose|i: int| 0 <= i < rest.len() && rest[i] == k;
            assert(ids[i] == k);
        }
        if stale_of(w, ids).contains(k) && stale(w[ids.last()]) && k != ids.last() {
            let s = stale_of(w, rest);
            let i = choose|i: int| 0 <= i < s.push(ids.last()).len() && s.push(ids.last())[i] == k;
            assert(s[i] == k);
        }
        if stale(w[ids.last()]) && stale_of(w, rest).contains(k) {
            let s = stale_of(w, rest);
            let i = choose|i: int| 0 <= i < s.len() && s[i] == k;
            assert(s.push(ids.last())[i] == k);
        }
        if stale(w[ids.last()]) && k == ids.last() {
            let s = stale_of(w, rest);
            assert(s.push(ids.last())[s.len() as int] == k);
        }
    }
}

/// A client of `ids` that has answered since the last check is not dropped by
/// a check and has to answer again; one that has not answered is dropped.
pub proof fn lemma_ping_check(w: Map<EntityId, EntityView>, ids: Seq<EntityId>, k: EntityId)
    requires
        w.contains_key(k),
        is_client(w[k]),
        ids.contains(k),
    ensures
        w[k].pong == Some(PongInfo(true)) ==> !stale_of(w, ids).contains(k) && pinged_on(w, ids)[k].pong == Some(
            PongInfo(false),
        ),
        w[k].pong == Some(PongInfo(false)) ==> stale_of(w, ids).contains(k),
{
    lemma_stale_of(w, ids, k);
}

/// A client that is silent from one check to the next is dropped by the second
/// at the latest.
pub proof fn lemma_silent_client_dropped(
    w0: Map<EntityId, EntityView>,
    ids0: Seq<EntityId>,
    w1: Map<EntityId, EntityView>,
    ids1: Seq<EntityId>,
    k: EntityId,
)
    requires
        w0.contains_key(k),
        is_client(w0[k]),
        ids0.contains(k),
        w1.contains_key(k),
        is_client(w1[k]),
        ids1.contains(k),
        w1[k].pong == pinged_on(w0, ids0)[k].pong,
    ensures
        stale_of(w0, ids0).contains(k) || stale_of(w1, ids1).contains(k),
{
    lemma_stale_of(w0, ids0, k);
    lemma_stale_of(w1, ids1, k);
}

/// `w` with each client of `ids` that is not stale marked as not having answered yet.
pub open spec fn pinged_on(w: Map<EntityId, EntityView>, ids: Seq<EntityId>) -> Map<EntityId, EntityView> {
    Map::new(
        |k: EntityId| w.contains_key(k),
        |k: EntityId|
            if ids.contains(k) && is_client(w[k]) && !stale(w[k]) {
                EntityView { pong: Some(PongInfo(false)), ..w[k] }
            } else {
                w[k]
            },
    )
}

/// The queued messages `after` are `before` followed, for each of `ids` in
/// order, by a packet that tells it that it did not answer and a shutdown.
pub open spec fn dropped(
    before: Seq<(EntityId, Option<Seq<u8>>)>,
    after: Seq<(EntityId, Option<Seq<u8>>)>,
    ids: Seq<EntityId>,
) -> bool {
    &&& after.len() == before.len() + 2 * ids.len()
    &&& after.subrange(0, before.len() as int) == before
    &&& forall|i: int|
        0 <= i < ids.len() ==> {
            let m = #[trigger] after[before.len() + 2 * i];
            &&& m.0 == ids[i]
            &&& m.1 is Some
            &&& is_packet_of(m.1->0, error_body(ErrorKind::NoResponse))
            &&& after[before.len() + 2 * i + 1] == (ids[i], None::<Seq<u8>>)
        }
}

/// Every stale client can be reached through its connection.
pub open spec fn stale_reachable(w: Map<EntityId, EntityView>) -> bool {
    forall|k: EntityId| #[trigger] w.contains_key(k) && stale(w[k]) ==> w[k].sender is Some
}

/// The periodic check of clients: each client that has not answered since the
/// previous check is told so and its connection is shut down; every other
/// client is marked as not having answered yet.
pub fn check_ping_pong(world: &mut World, outbox: &mut Vec<Outgoing>)
    requires
        old(world).wf(),
        stale_reachable(old(world)@),
    ensures
        final(world).wf(),
        final(world).next_id() == old(world).next_id(),
        final(world)@ == pinged_on(old(world)@, entity_ids(old(world))),
        dropped(outbox_view(old(outbox)@), outbox_view(final(outbox)@), stale_of(old(world)@, entity_ids(old(world)))),
{
    let ghost w0 = world@;
    let ghost ids0 = entity_ids(world);
    let mut ids: Vec<EntityId> = Vec::new();
    {
        let v = world.values();
        let mut i: usize = 0;
        while i < v.len()
            invariant
                i <= v@.len(),
                v@.len() == world.views().len(),
                forall|j: int| 0 <= j < v@.len() ==> #[trigger] v@[j]@ == world.views()[j],
                ids@ == world.views().subrange(0, i as int).map_values(|e: EntityView| e.id),
            decreases v@.len() - i,
        {
            ids.push(v[i].id());
            i = i + 1;
            assert(ids@ =~= world.views().subrange(0, i as int).map_values(|e: EntityView| e.id));
        }
        assert(world.views().subrange(0, i as int) =~= world.views());
    }
    proof {
        world.lemma_views();
    }
    let mut i: usize = 0;
    assert(w0 =~= pinged_on(w0, ids@.subrange(0, 0)));
    assert(outbox_view(outbox@).subrange(0, outbox_view(outbox@).len() as int) =~= outbox_view(outbox@));
    while i < ids.len()
        invariant
            i <= ids@.len(),
            ids@ == ids0,
            ids0 == entity_ids(old(world)),
            w0 == old(world)@,
            world.wf(),
            world.next_id() == old(world).next_id(),
            stale_reachable(w0),
            forall|a: int, b: int| 0 <= a < b < ids@.len() ==> ids@[a] < ids@[b],
            forall|a: int| 0 <= a < ids@.len() ==> w0.contains_key(#[trigger] ids@[a]),
            world@ == pinged_on(w0, ids@.subrange(0, i as int)),
            dropped(outbox_view(old(outbox)@), outbox_view(outbox@), stale_of(w0, ids@.subrange(0, i as int))),
        decreases ids@.len() - i,
    {
        let id = ids[i];
        let ghost s0 = ids@.subrange(0, i as int);
        let ghost s1 = ids@.subrange(0, i + 1);
        proof {
            assert(s1 =~= s0.push(id));
            assert(s1.drop_last() =~= s0);
            assert(!s0.contains(id)) by {
                if s0.contains(id) {
                    let j = choose|j: int| 0 <= j < s0.len() && s0[j] == id;
                    assert(ids@[j] < ids@[i as int]);
                }
            }
            assert forall|k: EntityId| #![auto] s1.contains(k) <==> (s0.contains(k) || k == id) by {
                if s1.contains(k) {
                    let j = choose|j: int| 0 <= j < s1.len() && s1[j] == k;
                    if j < s0.len() {
                        assert(s0[j] == k);
                    }
                }
                if s0.contains(k) {
                    let j = choose|j: int| 0 <= j < s0.len() && s0[j] == k;
                    assert(s1[j] == k);
                }
                if k == id {
                    assert(s1[i as int] == k);
                }
            }
            assert(world@[id] == w0[id]);
        }
        let ghost ob = outbox_view(outbox@);
        let entity = world.get_mut(&id).unwrap();
        let is_client_entity = match entity.get::<EntityKind>() {
            Ok(k) => *k == EntityKind::Client,
            Err(_) => false,
        };
        if is_client_entity {
            let is_stale = match entity.get::<PongInfo>() {
                Ok(p) => !p.0,
                Err(_) => false,
            };
            if is_stale {
                let pkt = error(ErrorKind::NoResponse);
                let ghost p = pkt@;
                send(outbox, entity, pkt);
                let ghost mid = outbox_view(outbox@);
                outbox.push(Outgoing { to: id, msg: MsgToConn::Shutdown });
                assert(outbox_view(outbox@) =~= mid.push((id, None::<Seq<u8>>)));
                assert(outbox_view(outbox@) =~= ob.push((id, Some(p))).push((id, None::<Seq<u8>>)));
            } else {
                entity.push(PongInfo(false));
            }
        }
        proof {
            assert(world@ =~= pinged_on(w0, s1));
            let st0 = stale_of(w0, s0);
            let st1 = stale_of(w0, s1);
            let ob1 = outbox_view(outbox@);
            let base = outbox_view(old(outbox)@);
            if stale(w0[id]) {
                assert(st1 == st0.push(id));
                assert(ob1.subrange(0, base.len() as int) =~= ob.subrange(0, base.len() as int));
                assert forall|t: int| 0 <= t < st1.len() implies {
                    let m = #[trigger] ob1[base.len() + 2 * t];
                    &&& m.0 == st1[t]
                    &&& m.1 is Some
                    &&& is_packet_of(m.1->0, error_body(ErrorKind::NoResponse))
                    &&& ob1[base.len() + 2 * t + 1] == (st1[t], None::<Seq<u8>>)
                } by {
                    if t < st0.len() {
                        assert(ob1[base.len() + 2 * t] == ob[base.len() + 2 * t]);
                        assert(ob1[base.len() + 2 * t + 1] == ob[base.len() + 2 * t + 1]);
                    }
                }
            } else {
                assert(st1 == st0);
                assert(ob1 == ob);
            }
        }
        i = i + 1;
    }
    assert(ids@.subrange(0, i as int) =~= ids@);
}

/// What a run of the timer `e` at `now` needs of the world.
pub open spec fn tick_ok(w: Map<EntityId, EntityView>, e: EntityView, now: u64) -> bool {
    due(e, now) ==> match e.timer->0.task {
        TimerTask::PingPongCheck => stale_reachable(w),
        TimerTask::Loading { room_eid, started } => {
            &&& game_running(w, room_eid)
            &&& elapsed(started, now) < LOADING_LIMIT
            &&& load_finished(w, room_eid) ==> !turn_stuck(w, room_eid, true)
        },
        TimerTask::MainLoop { room_eid, turn_started } => {
            &&& game_running(w, room_eid)
            &&& elapsed(turn_started, now) < TURN_LIMIT
            &&& load_finished(w, room_eid) ==> anyone_alive(w, room_eid)
        },
    }
}

/// What running the game timer `timer_eid` at `now` makes of the world `w0` and
/// the outbox `before`, where it is due: a loading timer starts the turns once
/// every member has loaded, and is then removed; until then it is marked as
/// having run. A turn timer takes one step of the game (see `main_stepped`)
/// and keeps the start of the current turn, or is removed when the game ends.
pub open spec fn game_ticked(
    w0: Map<EntityId, EntityView>,
    w1: Map<EntityId, EntityView>,
    before: Seq<Outgoing>,
    after: Seq<Outgoing>,
    timer_eid: EntityId,
    next_id: EntityId,
    now: u64,
) -> bool {
    let e0 = w0[timer_eid];
    due(e0, now) ==> match e0.timer->0.task {
        TimerTask::PingPongCheck => true,
        TimerTask::Loading { room_eid, started } => if load_finished(w0, room_eid) {
            exists|mid: Map<EntityId, EntityView>|
                #[trigger] turns_started(w0, mid, before, after, room_eid, next_id, now) && w1 == mid.remove(timer_eid)
        } else {
            w1 == w0.insert(timer_eid, EntityView { instant: Some(Instant { millis: now }), ..e0 }) && after == before
        },
        TimerTask::MainLoop { room_eid, turn_started } => exists|mid: Map<EntityId, EntityView>, r: Option<u64>|
            #[trigger] main_stepped(w0, mid, before, after, room_eid, r, turn_started, now) && w1 == match r {
                None => mid.remove(timer_eid),
                Some(t) => mid.insert(
                    timer_eid,
                    EntityView {
                        timer: Some(
                            TimerInfo {
                                task: TimerTask::MainLoop { room_eid: room_eid, turn_started: t },
                                duration: e0.timer->0.duration,
                            },
                        ),
                        instant: Some(Instant { millis: now }),
                        ..mid[timer_eid]
                    },
                ),
            },
    }
}

/// Runs the timer `timer_eid` if it is due at `now` (see `game_ticked` for the
/// game timers). A task that is not done is marked as having run at `now` (a
/// game loop also keeps the start of its current turn); a task that is done
/// removes its timer.
pub fn tick(server: &mut Server, timer_eid: &EntityId, now: u64)
    requires
        old(server).world.wf(),
        old(server).world.next_id() < u64::MAX,
        old(server).world@.contains_key(*timer_eid),
        old(server).world@[*timer_eid].kind == Some(EntityKind::Timer),
        old(server).world@[*timer_eid].timer is Some,
        old(server).world@[*timer_eid].instant is Some,
        tick_ok(old(server).world@, old(server).world@[*timer_eid], now),
    ensures
        final(server).world.wf(),
        final(server).config == old(server).config,
        !due(old(server).world@[*timer_eid], now) ==> final(server).world@ == old(server).world@
            && final(server).outbox == old(server).outbox,
        due(old(server).world@[*timer_eid], now) && old(server).world@[*timer_eid].timer->0.task == TimerTask::PingPongCheck
            ==> final(server).world@ == pinged_on(old(server).world@, entity_ids(&old(server).world)).insert(
                *timer_eid,
                EntityView { instant: Some(Instant { millis: now }), ..old(server).world@[*timer_eid] },
            ) && dropped(
                outbox_view(old(server).outbox@),
                outbox_view(final(server).outbox@),
                stale_of(old(server).world@, entity_ids(&old(server).world)),
            ),
        due(old(server).world@[*timer_eid], now) ==> (final(server).world@.contains_key(*timer_eid) <==> match old(
            server,
        ).world@[*timer_eid].timer->0.task {
            TimerTask::PingPongCheck => true,
            TimerTask::Loading { room_eid, started } => !load_finished(old(server).world@, room_eid),
            TimerTask::MainLoop { room_eid, turn_started } => !(load_finished(old(server).world@, room_eid)
                && exists|t: int| sole_team(old(server).world@, room_eid, t)),
        }),
        game_ticked(
            old(server).world@,
            final(server).world@,
            old(server).outbox@,
            final(server).outbox@,
            *timer_eid,
            old(server).world.next_id(),
            now,
        ),
        world_ok(old(server).world@) ==> world_ok(final(server).world@),
{
    if !is_runnable(&server.world, timer_eid, now) {
        return;
    }
    let ghost w0 = server.world@;
    let task = server.world.get(timer_eid).unwrap().get::<TimerInfo>().unwrap().task;
    match task {
        TimerTask::PingPongCheck => {
            check_ping_pong(&mut server.world, &mut server.outbox);
            proceed(&mut server.world, timer_eid, now);
        },
        TimerTask::Loading { room_eid, started } => {
            let ghost o0 = server.outbox@;
            if loading_step(server, room_eid, started, now) {
                proceed(&mut server.world, timer_eid, now);
            } else {
                let ghost mid = server.world@;
                server.world.remove(timer_eid);
                assert(turns_started(w0, mid, o0, server.outbox@, room_eid, old(server).world.next_id(), now));
            }
            assert(game_ticked(w0, server.world@, o0, server.outbox@, *timer_eid, old(server).world.next_id(), now));
        },
        TimerTask::MainLoop { room_eid, turn_started } => {
            let ghost o0 = server.outbox@;
            let r = main_step(server, room_eid, turn_started, now);
            let ghost mid = server.world@;
            assert(main_stepped(w0, mid, o0, server.outbox@, room_eid, r, turn_started, now));
            match r {
                Some(t) => {
                    let timer = server.world.get_mut(timer_eid).unwrap();
                    let info = timer.get_mut::<TimerInfo>().unwrap();
                    info.task = TimerTask::MainLoop { room_eid: room_eid, turn_started: t };
                    proceed(&mut server.world, timer_eid, now);
                    assert(mid[*timer_eid].timer == w0[*timer_eid].timer);
                    assert(server.world@ == mid.insert(
                        *timer_eid,
                        EntityView {
                            timer: Some(
                                TimerInfo {
                                    task: TimerTask::MainLoop { room_eid: room_eid, turn_started: t },
                                    duration: w0[*timer_eid].timer->0.duration,
                                },
                            ),
                            instant: Some(Instant { millis: now }),
                            ..mid[*timer_eid]
                        },
                    ));
                },
                None => {
                    server.world.remove(timer_eid);
                },
            }
            assert(game_ticked(w0, server.world@, o0, server.outbox@, *timer_eid, old(server).world.next_id(), now));
        },
    }
    proof {
        if world_ok(w0) {
            old(server).world.lemma_views();
            lemma_tick_keeps(
                w0,
                server.world@,
                old(server).outbox@,
                server.outbox@,
                *timer_eid,
                old(server).world.next_id(),
                now,
                entity_ids(&old(server).world),
            );
            lemma_logins_kept(w0, server.world@);
        }
    }
}

/// Adds the periodic check of clients that have stopped answering, from `now` on.
pub fn add_ping_pong_checker(world: &mut World, now: u64)
    requires
        old(world).wf(),
        old(world).next_id() < u64::MAX,
    ensures
        final(world).wf(),
        final(world).next_id() == old(world).next_id() + 1,
        final(world)@ == old(world)@.insert(
            old(world).next_id(),
            timer_entity(old(world).next_id(), PING_PONG_PERIOD, TimerTask::PingPongCheck, now),
        ),
{
    let _ = create(world, PING_PONG_PERIOD, TimerTask::PingPongCheck, now);
}

/// Adds the timers that the server starts with.
pub fn register_timers(world: &mut World, now: u64)
    requires
        old(world).wf(),
        old(world).next_id() < u64::MAX,
    ensures
        final(world).wf(),
        final(world).next_id() == old(world).next_id() + 1,
        final(world)@ == old(world)@.insert(
            old(world).next_id(),
            timer_entity(old(world).next_id(), PING_PONG_PERIOD, TimerTask::PingPongCheck, now),
        ),
{
    add_ping_pong_checker(world, now);
}

/// Why running a timer would stop the server.
#[derive(Debug, Clone, Copy, PartialEq, Eq, Structural)]
pub enum TickFault {
    /// The members of a room took too long to load a game.
    LoadingTimeout,
    /// A turn took too long.
    TurnTimeout,
    /// Every character died at once; a tie is not handled.
    DeathMatch,
}

/// Room `room_eid` exists with its room information and a game, every member
/// has finished loading (or its turn), and nobody has hit points left.
pub open spec fn done_and_dead(w: Map<EntityId, EntityView>, room_eid: EntityId) -> bool {
    &&& w.contains_key(room_eid)
    &&& w[room_eid].room is Some
    &&& w[room_eid].game is Some
    &&& load_finished(w, room_eid)
    &&& !anyone_alive(w, room_eid)
}

/// What stops the server if the timer `eid` runs at `now`, if anything: a room
/// that took too long to load a game, a turn that took too long, or a game whose
/// characters all died at once.
pub open spec fn fault_of(w: Map<EntityId, EntityView>, eid: EntityId, now: u64) -> Option<TickFault> {
    let e = w[eid];
    if !due(e, now) {
        None
    } else {
        match e.timer->0.task {
            TimerTask::PingPongCheck => None,
            TimerTask::Loading { room_eid, started } => if elapsed(started, now) >= LOADING_LIMIT {
                Some(TickFault::LoadingTimeout)
            } else {
                None
            },
            TimerTask::MainLoop { room_eid, turn_started } => if elapsed(turn_started, now) >= TURN_LIMIT {
                Some(TickFault::TurnTimeout)
            } else if done_and_dead(w, room_eid) {
                Some(TickFault::DeathMatch)
            } else {
                None
            },
        }
    }
}

/// Whether every occupied place of the room has finished and nobody has hit
/// points left; false if the room or its game is missing.
fn all_done_and_dead(world: &World, room_eid: &EntityId) -> (r: bool)
    requires
        world.wf(),
    ensures
        r == done_and_dead(world@, *room_eid),
{
    let room = match world.get(room_eid) {
        Ok(r) => r,
        Err(_) => return false,
    };
    let game = match room.get::<GameInfo>() {
        Ok(g) => g,
        Err(_) => return false,
    };
    let info = match room.get::<RoomInfo>() {
        Ok(i) => i,
        Err(_) => return false,
    };
    let mut i: usize = 0;
    while i < 8
        invariant
            i <= 8,
            world@.contains_key(*room_eid),
            world@[*room_eid].game == Some(*game),
            world@[*room_eid].room == Some(*info),
            forall|k: int| 0 <= k < i ==> !(#[trigger] info.members@[k] is Some) || (game.load_table@[k] && game.player_infos@[k].hp == 0),
        decreases 8 - i,
    {
        if info.members[i].is_some() && (!game.load_table[i] || game.player_infos[i].hp > 0) {
            proof {
                if game.player_infos@[i as int].hp > 0 {
                    assert(anyone_alive(world@, *room_eid));
                }
            }
            return false;
        }
        i = i + 1;
    }
    true
}

/// What would stop the server if the timer `eid` ran at `now`, if anything: a
/// room that took too long to load a game, a turn that took too long, or a game
/// whose characters all died at once.
pub fn tick_fault(server: &Server, eid: &EntityId, now: u64) -> (r: Option<TickFault>)
    requires
        server.world.wf(),
        server.world@.contains_key(*eid),
        server.world@[*eid].timer is Some,
        server.world@[*eid].instant is Some,
    ensures
        r == fault_of(server.world@, *eid, now),
{
    if !is_runnable(&server.world, eid, now) {
        return None;
    }
    let task = server.world.get(eid).unwrap().get::<TimerInfo>().unwrap().task;
    match task {
        TimerTask::PingPongCheck => None,
        TimerTask::Loading { room_eid, started } => {
            if now.saturating_sub(started) >= LOADING_LIMIT {
                Some(TickFault::LoadingTimeout)
            } else {
                None
            }
        },
        TimerTask::MainLoop { room_eid, turn_started } => {
            if now.saturating_sub(turn_started) >= TURN_LIMIT {
                Some(TickFault::TurnTimeout)
            } else if all_done_and_dead(&server.world, &room_eid) {
                Some(TickFault::DeathMatch)
            } else {
                None
            }
        },
    }
}

} // verus!
