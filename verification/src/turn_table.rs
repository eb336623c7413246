//! The first turn table of a game: the occupied places, team by team in turn.
use vstd::prelude::*;
use vstd::multiset::Multiset;
use crate::component::{EntityId, OnRoomInfo, RoomInfo, ROOM_SIZE};
use crate::object::{EntityView, World};

verus! {

broadcast use {vstd::multiset::group_multiset_axioms, vstd::seq_lib::group_to_multiset_ensures};

/// The occupied places below `n`, in increasing order.
pub open spec fn occupied_places(m: Seq<Option<EntityId>>, n: nat) -> Seq<usize>
    decreases n,
{
    if n == 0 {
        Seq::<usize>::empty()
    } else if m[n - 1] is Some {
        occupied_places(m, (n - 1) as nat).push((n - 1) as usize)
    } else {
        occupied_places(m, (n - 1) as nat)
    }
}

/// Everything held by the first `n` buckets.
pub open spec fn bucket_total(b: Seq<Vec<usize>>, n: nat) -> Multiset<usize>
    decreases n,
{
    if n == 0 {
        Multiset::<usize>::empty()
    } else {
        bucket_total(b, (n - 1) as nat).add(b[n - 1]@.to_multiset())
    }
}

/// The number of items in the first `n` buckets.
pub open spec fn bucket_len(b: Seq<Vec<usize>>, n: nat) -> nat
    decreases n,
{
    if n == 0 {
        0
    } else {
        bucket_len(b, (n - 1) as nat) + b[n - 1]@.len()
    }
}

/// Replacing one bucket changes the total by what it held and what it holds now.
proof fn lemma_total_update(b: Seq<Vec<usize>>, k: int, v: Vec<usize>, n: nat)
    requires
        0 <= k < n <= b.len(),
    ensures
        forall|x: usize| #[trigger] bucket_total(b.update(k, v), n).count(x) + b[k]@.to_multiset().count(x)
            == bucket_total(b, n).count(x) + v@.to_multiset().count(x),
        bucket_len(b.update(k, v), n) + b[k]@.len() == bucket_len(b, n) + v@.len(),
    decreases n,
{
    let b2 = b.update(k, v);
    if k < n - 1 {
        lemma_total_update(b, k, v, (n - 1) as nat);
        assert(b2[n - 1] == b[n - 1]);
        assert forall|x: usize| #[trigger] bucket_total(b2, n).count(x) + b[k]@.to_multiset().count(x)
            == bucket_total(b, n).count(x) + v@.to_multiset().count(x) by {
            assert(bucket_total(b2, (n - 1) as nat).count(x) + b[k]@.to_multiset().count(x)
                == bucket_total(b, (n - 1) as nat).count(x) + v@.to_multiset().count(x));
        }
    } else {
        assert forall|j: int| 0 <= j < n - 1 implies b2[j]@ == b[j]@ by {}
        lemma_total_same(b2, b, (n - 1) as nat);
        assert(b2[n - 1] == v);
    }
}

/// Buckets that agree on the first `n` have the same total.
proof fn lemma_total_same(b: Seq<Vec<usize>>, c: Seq<Vec<usize>>, n: nat)
    requires
        n <= b.len(),
        n <= c.len(),
        forall|j: int| 0 <= j < n ==> b[j]@ == c[j]@,
    ensures
        bucket_total(b, n) == bucket_total(c, n),
        bucket_len(b, n) == bucket_len(c, n),
    decreases n,
{
    if n > 0 {
        lemma_total_same(b, c, (n - 1) as nat);
    }
}

/// Empty buckets hold nothing.
proof fn lemma_total_empty(b: Seq<Vec<usize>>, n: nat)
    requires
        n <= b.len(),
        forall|j: int| 0 <= j < n ==> b[j]@.len() == 0,
    ensures
        bucket_total(b, n) =~= Multiset::<usize>::empty(),
        bucket_len(b, n) == 0,
    decreases n,
{
    if n > 0 {
        lemma_total_empty(b, (n - 1) as nat);
        assert(b[n - 1]@ =~= Seq::<usize>::empty());
    }
}

/// Buckets with nothing in them in all are each empty.
proof fn lemma_len_zero(b: Seq<Vec<usize>>, n: nat, j: int)
    requires
        n <= b.len(),
        0 <= j < n,
        bucket_len(b, n) == 0,
    ensures
        b[j]@.len() == 0,
    decreases n,
{
    if j < n - 1 {
        lemma_len_zero(b, (n - 1) as nat, j);
    }
}

/// Calls `rand::seq::SliceRandom::shuffle` on `v` with the thread's random
/// generator. The source only swaps elements, so what comes back is a
/// permutation of `v`; which one is left to chance and not stated.
#[verifier::external_body]
pub(crate) fn shuffle(v: &mut Vec<usize>)
    ensures
        final(v)@.to_multiset() == old(v)@.to_multiset(),
{
    rand::seq::SliceRandom::shuffle(v.as_mut_slice(), &mut rand::thread_rng());
}

/// Every member of the room is an entity with room state on a team below 8.
pub open spec fn teams_ok(w: Map<EntityId, EntityView>, info: RoomInfo) -> bool {
    forall|i: int|
        0 <= i < ROOM_SIZE && #[trigger] info.members@[i] is Some ==> {
            &&& w.contains_key(info.members@[i]->0)
            &&& w[info.members@[i]->0].on_room is Some
            &&& w[info.members@[i]->0].on_room->0.team < 8
        }
}

/// The team of the member at place `p` of `m` in `w`.
pub open spec fn team_at(w: Map<EntityId, EntityView>, m: Seq<Option<EntityId>>, p: usize) -> u8 {
    w[m[p as int]->0].on_room->0.team
}

/// The places of `s` whose member is on team `t`, in order.
pub open spec fn team_filter(w: Map<EntityId, EntityView>, m: Seq<Option<EntityId>>, s: Seq<usize>, t: usize) -> Seq<usize>
    decreases s.len(),
{
    if s.len() == 0 {
        Seq::<usize>::empty()
    } else if team_at(w, m, s.last()) as usize == t {
        team_filter(w, m, s.drop_last(), t).push(s.last())
    } else {
        team_filter(w, m, s.drop_last(), t)
    }
}

/// The occupied places of team `t`, in increasing order.
pub open spec fn team_places(w: Map<EntityId, EntityView>, m: Seq<Option<EntityId>>, t: usize) -> Seq<usize> {
    team_filter(w, m, occupied_places(m, 8), t)
}

/// The last item of each of the first `n` queues that has one, in queue order.
pub open spec fn lasts(qs: Seq<Seq<usize>>, n: nat) -> Seq<usize>
    decreases n,
{
    if n == 0 {
        Seq::<usize>::empty()
    } else if qs[n - 1].len() > 0 {
        lasts(qs, (n - 1) as nat).push(qs[n - 1].last())
    } else {
        lasts(qs, (n - 1) as nat)
    }
}

/// A queue without its last item, if it has one.
pub open spec fn shorten(q: Seq<usize>) -> Seq<usize> {
    if q.len() > 0 {
        q.drop_last()
    } else {
        q
    }
}

/// Each queue without its last item.
pub open spec fn shortened(qs: Seq<Seq<usize>>) -> Seq<Seq<usize>> {
    qs.map_values(|q: Seq<usize>| shorten(q))
}

/// The number of items in the first `n` queues.
pub open spec fn total_len(qs: Seq<Seq<usize>>, n: nat) -> nat
    decreases n,
{
    if n == 0 {
        0
    } else {
        total_len(qs, (n - 1) as nat) + qs[n - 1].len()
    }
}

/// Taking the last items leaves as many fewer items as were taken.
pub proof fn lemma_shortened_len(qs: Seq<Seq<usize>>, n: nat)
    requires
        n <= qs.len(),
    ensures
        total_len(shortened(qs), n) + lasts(qs, n).len() == total_len(qs, n),
        total_len(qs, n) > 0 ==> lasts(qs, n).len() > 0,
    decreases n,
{
    if n > 0 {
        lemma_shortened_len(qs, (n - 1) as nat);
    }
}

/// The order in which passes over the queues take items: each pass takes the
/// last item of every queue that has one left, in queue order, until none has.
pub open spec fn round_robin(qs: Seq<Seq<usize>>) -> Seq<usize>
    decreases total_len(qs, qs.len()),
{
    if total_len(qs, qs.len()) == 0 {
        Seq::<usize>::empty()
    } else {
        proof {
            lemma_shortened_len(qs, qs.len());
        }
        lasts(qs, qs.len()) + round_robin(shortened(qs))
    }
}

/// The buckets `b` taken in the team order `order`.
pub open spec fn queues(b: Seq<Vec<usize>>, order: Seq<usize>) -> Seq<Seq<usize>> {
    Seq::new(8, |k: int| b[order[k] as int]@)
}

/// The turn table that the team order `order` and the queues `qs` of places, one
/// per team in that order, give for the room with members `m` in `w`: `order`
/// visits each team once, each queue holds the places of its team, and the
/// table is taken from the queues in passes.
pub open spec fn turn_table_of(
    w: Map<EntityId, EntityView>,
    m: Seq<Option<EntityId>>,
    order: Seq<usize>,
    qs: Seq<Seq<usize>>,
    table: Seq<usize>,
) -> bool {
    &&& order.len() == 8
    &&& order.no_duplicates()
    &&& forall|k: int| 0 <= k < 8 ==> #[trigger] order[k] < 8
    &&& qs.len() == 8
    &&& forall|k: int| 0 <= k < 8 ==> (#[trigger] qs[k]).to_multiset() == team_places(w, m, order[k]).to_multiset()
    &&& table == round_robin(qs)
}

/// The turn table of the first cycle of a game in the room with `info`. The
/// occupied places are put in buckets by team; the teams are visited in a
/// random order and the places of a team in a random order; then each pass over
/// the teams takes one place from each team that has one left (see
/// `turn_table_of`).
pub fn get_turn_table(world: &World, info: &RoomInfo) -> (t: Vec<usize>)
    requires
        world.wf(),
        teams_ok(world@, *info),
    ensures
        t@.to_multiset() == occupied_places(info.members@, 8).to_multiset(),
        exists|order: Seq<usize>, qs: Seq<Seq<usize>>| #[trigger] turn_table_of(world@, info.members@, order, qs, t@),
{
    let ghost m = info.members@;
    let mut places: Vec<usize> = Vec::new();
    let mut i: usize = 0;
    while i < 8
        invariant
            i <= 8,
            m == info.members@,
            places@ == occupied_places(m, i as nat),
            forall|k: int| 0 <= k < places@.len() ==> (#[trigger] places@[k]) < i && m[places@[k] as int] is Some,
        decreases 8 - i,
    {
        if info.members[i].is_some() {
            places.push(i);
        }
        i = i + 1;
    }
    let mut buckets: Vec<Vec<usize>> = Vec::new();
    let mut t: usize = 0;
    while t < 8
        invariant
            t <= 8,
            buckets@.len() == t,
            forall|j: int| 0 <= j < t ==> (#[trigger] buckets@[j])@.len() == 0,
        decreases 8 - t,
    {
        buckets.push(Vec::new());
        t = t + 1;
    }
    proof {
        lemma_total_empty(buckets@, 8);
        assert(places@.subrange(0, 0) =~= Seq::<usize>::empty());
        assert forall|j: int| 0 <= j < 8 implies #[trigger] buckets@[j]@ == team_filter(world@, m, places@.subrange(0, 0), j as usize) by {
            assert(buckets@[j]@ =~= Seq::<usize>::empty());
        }
    }
    let mut p: usize = 0;
    while p < places.len()
        invariant
            p <= places@.len(),
            buckets@.len() == 8,
            world.wf(),
            teams_ok(world@, *info),
            m == info.members@,
            forall|k: int| 0 <= k < places@.len() ==> (#[trigger] places@[k]) < 8 && m[places@[k] as int] is Some,
            bucket_total(buckets@, 8) == places@.subrange(0, p as int).to_multiset(),
            places@ == occupied_places(m, 8),
            forall|j: int| 0 <= j < 8 ==> #[trigger] buckets@[j]@ == team_filter(world@, m, places@.subrange(0, p as int), j as usize),
        decreases places@.len() - p,
    {
        let idx = places[p];
        let member = info.members[idx].unwrap();
        let team = world.get(&member).unwrap().get::<OnRoomInfo>().unwrap().team as usize;
        let ghost before = buckets@;
        let mut bucket = Vec::new();
        std::mem::swap(&mut bucket, &mut buckets[team]);
        assert(bucket@ == before[team as int]@);
        bucket.push(idx);
        let ghost pushed = bucket;
        buckets.set(team, bucket);
        proof {
            lemma_total_update(before, team as int, pushed, 8);
            assert(buckets@ == before.update(team as int, pushed));
            assert(pushed@ == before[team as int]@.push(idx));
            vstd::seq_lib::to_multiset_build(before[team as int]@, idx);
            assert(places@.subrange(0, p + 1) =~= places@.subrange(0, p as int).push(idx));
            vstd::seq_lib::to_multiset_build(places@.subrange(0, p as int), idx);
            let b1 = bucket_total(buckets@, 8);
            let b0 = bucket_total(before, 8);
            assert forall|x: usize| b1.count(x) == places@.subrange(0, p + 1).to_multiset().count(x) by {
                assert(b1.count(x) + before[team as int]@.to_multiset().count(x) == b0.count(x) + pushed@.to_multiset().count(x));
            }
            assert(b1 =~= places@.subrange(0, p + 1).to_multiset());
            let sub = places@.subrange(0, p + 1);
            assert(sub.drop_last() =~= places@.subrange(0, p as int));
            assert(sub.last() == idx);
            assert forall|j: int| 0 <= j < 8 implies #[trigger] buckets@[j]@ == team_filter(world@, m, sub, j as usize) by {
                if j != team as int {
                    assert(buckets@[j] == before[j]);
                }
            }
        }
        p = p + 1;
    }
    assert(places@.subrange(0, p as int) =~= places@);
    let mut order: Vec<usize> = vec![0, 1, 2, 3, 4, 5, 6, 7];
    let ghost order0 = order@;
    assert(order0 =~= seq![0usize, 1, 2, 3, 4, 5, 6, 7]);
    shuffle(&mut order);
    proof {
        vstd::seq_lib::to_multiset_len(order0);
        vstd::seq_lib::to_multiset_len(order@);
        assert forall|k: int| 0 <= k < order@.len() implies (#[trigger] order@[k]) < 8 by {
            assert(order@.contains(order@[k]));
            assert(order@.to_multiset().count(order@[k]) > 0);
            assert(order0.to_multiset().count(order@[k]) > 0);
            assert(order0.contains(order@[k]));
        }
        assert forall|x: usize| x < 8 implies #[trigger] order@.contains(x) by {
            assert(order0[x as int] == x);
            assert(order0.to_multiset().count(x) == order@.to_multiset().count(x));
            assert(order0.contains(x));
            assert(order0.to_multiset().count(x) > 0);
        }
        assert(order0.no_duplicates());
        order0.lemma_multiset_has_no_duplicates();
        order@.lemma_multiset_has_no_duplicates_conv();
    }
    let mut u: usize = 0;
    while u < 8
        invariant
            u <= 8,
            buckets@.len() == 8,
            bucket_total(buckets@, 8) == places@.to_multiset(),
            places@ == occupied_places(m, 8),
            m == info.members@,
            forall|j: int| 0 <= j < 8 ==> (#[trigger] buckets@[j])@.to_multiset() == team_places(world@, m, j as usize).to_multiset(),
        decreases 8 - u,
    {
        if buckets[u].len() > 0 {
            let ghost before = buckets@;
            let mut bucket = Vec::new();
            std::mem::swap(&mut bucket, &mut buckets[u]);
            assert(bucket@ == before[u as int]@);
            shuffle(&mut bucket);
            let ghost shuffled = bucket;
            buckets.set(u, bucket);
            proof {
                lemma_total_update(before, u as int, shuffled, 8);
                assert(buckets@ == before.update(u as int, shuffled));
                let b1 = bucket_total(buckets@, 8);
                let b0 = bucket_total(before, 8);
                assert forall|x: usize| b1.count(x) == b0.count(x) by {
                    assert(b1.count(x) + before[u as int]@.to_multiset().count(x) == b0.count(x) + shuffled@.to_multiset().count(x));
                }
                assert(b1 =~= b0);
                assert forall|j: int| 0 <= j < 8 && j != u implies buckets@[j] == before[j] by {}
            }
        }
        u = u + 1;
    }
    let ghost qs0 = queues(buckets@, order@);
    let mut turn_table: Vec<usize> = Vec::new();
    proof {
        assert(turn_table@ + round_robin(qs0) =~= round_robin(qs0));
        assert forall|k: int| 0 <= k < 8 implies (#[trigger] qs0[k]).to_multiset() == team_places(world@, m, order@[k]).to_multiset() by {
            assert(buckets@[order@[k] as int]@.to_multiset() == team_places(world@, m, order@[k] as int as usize).to_multiset());
        }
    }
    loop
        invariant
            places@ == occupied_places(m, 8),
            m == info.members@,
            buckets@.len() == 8,
            order@.len() == 8,
            order@.no_duplicates(),
            forall|k: int| 0 <= k < order@.len() ==> (#[trigger] order@[k]) < 8,
            forall|x: usize| x < 8 ==> #[trigger] order@.contains(x),
            turn_table@.to_multiset().add(bucket_total(buckets@, 8)) == places@.to_multiset(),
            turn_table@ + round_robin(queues(buckets@, order@)) == round_robin(qs0),
            qs0.len() == 8,
            forall|k: int| 0 <= k < 8 ==> (#[trigger] qs0[k]).to_multiset() == team_places(world@, m, order@[k]).to_multiset(),
        ensures
            turn_table@.to_multiset() == places@.to_multiset(),
            places@ == occupied_places(m, 8),
            m == info.members@,
            turn_table_of(world@, m, order@, qs0, turn_table@),
        decreases bucket_len(buckets@, 8),
    {
        let ghost len0 = bucket_len(buckets@, 8);
        let ghost q0 = queues(buckets@, order@);
        let ghost t0 = turn_table@;
        let mut has_pushed = false;
        let mut k: usize = 0;
        while k < 8
            invariant
                k <= 8,
                buckets@.len() == 8,
                order@.len() == 8,
                order@.no_duplicates(),
                forall|q: int| 0 <= q < order@.len() ==> (#[trigger] order@[q]) < 8,
                turn_table@.to_multiset().add(bucket_total(buckets@, 8)) == places@.to_multiset(),
                has_pushed ==> bucket_len(buckets@, 8) < len0,
                !has_pushed ==> bucket_len(buckets@, 8) == len0,
                !has_pushed ==> forall|q: int| 0 <= q < k ==> (#[trigger] buckets@[order@[q] as int])@.len() == 0,
                q0.len() == 8,
                turn_table@ == t0 + lasts(q0, k as nat),
                has_pushed == (lasts(q0, k as nat).len() > 0),
                forall|q: int|
                    0 <= q < 8 ==> (#[trigger] buckets@[order@[q] as int])@ == if q < k {
                        shorten(q0[q])
                    } else {
                        q0[q]
                    },
            decreases 8 - k,
        {
            let team_id = order[k];
            let ghost before = buckets@;
            let mut bucket = Vec::new();
            std::mem::swap(&mut bucket, &mut buckets[team_id]);
            assert(bucket@ == before[team_id as int]@);
            let ghost taken = bucket@;
            let popped = bucket.pop();
            let ghost rest = bucket;
            buckets.set(team_id, bucket);
            proof {
                lemma_total_update(before, team_id as int, rest, 8);
                assert(buckets@ == before.update(team_id as int, rest));
                assert(taken == q0[k as int]);
                assert(rest@ == shorten(q0[k as int]));
                assert forall|q: int| 0 <= q < 8 && q != k implies buckets@[order@[q] as int] == before[order@[q] as int] by {
                    assert(order@[q] != order@[k as int]);
                }
            }
            if let Some(idx_in_room) = popped {
                proof {
                    assert(taken.drop_last() =~= taken.remove(taken.len() - 1));
                    vstd::seq_lib::to_multiset_remove(taken, taken.len() - 1);
                    assert(rest@.to_multiset() == taken.to_multiset().remove(idx_in_room));
                }
                let ghost tt = turn_table@;
                turn_table.push(idx_in_room);
                has_pushed = true;
                proof {
                    assert(turn_table@ =~= tt.push(idx_in_room));
                    vstd::seq_lib::to_multiset_build(tt, idx_in_room);
                    let b1 = bucket_total(buckets@, 8);
                    let b0 = bucket_total(before, 8);
                    assert(taken.contains(idx_in_room)) by {
                        assert(taken[taken.len() - 1] == idx_in_room);
                    }
                    assert(taken.to_multiset().count(idx_in_room) > 0);
                    assert forall|x: usize| turn_table@.to_multiset().add(b1).count(x) == places@.to_multiset().count(x) by {
                        assert(b1.count(x) + taken.to_multiset().count(x) == b0.count(x) + rest@.to_multiset().count(x));
                        assert(tt.to_multiset().add(b0).count(x) == places@.to_multiset().count(x));
                    }
                    assert(turn_table@.to_multiset().add(b1) =~= places@.to_multiset());
                    assert(bucket_len(buckets@, 8) + taken.len() == bucket_len(before, 8) + rest@.len());
                }
            } else {
                proof {
                    assert(rest@ =~= taken);
                    assert forall|j: int| 0 <= j < 8 implies buckets@[j]@ == before[j]@ by {}
                    lemma_total_same(buckets@, before, 8);
                    assert(bucket_total(buckets@, 8) =~= bucket_total(before, 8));
                    if !has_pushed {
                        assert forall|q: int| 0 <= q < k + 1 implies (#[trigger] buckets@[order@[q] as int])@.len() == 0 by {
                            if order@[q] as int == team_id as int {
                            } else {
                                assert(buckets@[order@[q] as int] == before[order@[q] as int]);
                            }
                        }
                    }
                }
            }
            proof {
                assert(lasts(q0, (k + 1) as nat) == if q0[k as int].len() > 0 {
                    lasts(q0, k as nat).push(q0[k as int].last())
                } else {
                    lasts(q0, k as nat)
                });
                assert(turn_table@ =~= t0 + lasts(q0, (k + 1) as nat));
            }
            k = k + 1;
        }
        proof {
            assert(queues(buckets@, order@) =~= shortened(q0));
            lemma_shortened_len(q0, 8);
            if has_pushed {
                assert(turn_table@ + round_robin(queues(buckets@, order@)) =~= t0 + round_robin(q0));
            } else {
                assert(turn_table@ =~= t0);
                assert(t0 + round_robin(q0) =~= t0);
            }
        }
        if !has_pushed {
            proof {
                assert forall|j: int| 0 <= j < 8 implies (#[trigger] buckets@[j])@.len() == 0 by {
                    assert(order@.contains(j as usize));
                    let q = choose|q: int| 0 <= q < order@.len() && order@[q] == j as usize;
                    assert(buckets@[order@[q] as int]@.len() == 0);
                }
                lemma_total_empty(buckets@, 8);
                assert(turn_table@.to_multiset().add(bucket_total(buckets@, 8)) =~= turn_table@.to_multiset());
                assert(turn_table@.to_multiset() =~= places@.to_multiset());
            }
            break;
        }
    }
    turn_table
}

} // verus!
