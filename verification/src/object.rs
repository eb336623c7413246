//! Entities and the world that holds them: every entity is an id and a set of
//! components, at most one of each kind.
use vstd::prelude::*;
use crate::component::{
    AfterLoginInfo, ClientState, EntityId, EntityKind, GameInfo, Instant, MsgToConnSender,
    OnRoomInfo, PeerAddr, PongInfo, RoomInfo, TimerInfo,
};

verus! {

/// The components of an entity, one optional slot per kind.
pub struct EntityView {
    pub id: EntityId,
    pub kind: Option<EntityKind>,
    pub addr: Option<PeerAddr>,
    pub sender: Option<MsgToConnSender>,
    pub state: Option<ClientState>,
    pub login: Option<AfterLoginInfo>,
    pub on_room: Option<OnRoomInfo>,
    pub pong: Option<PongInfo>,
    pub room: Option<RoomInfo>,
    pub game: Option<GameInfo>,
    pub timer: Option<TimerInfo>,
    pub instant: Option<Instant>,
}

/// A fresh entity: an id and no components.
pub open spec fn empty_entity(id: EntityId) -> EntityView {
    EntityView {
        id: id,
        kind: None,
        addr: None,
        sender: None,
        state: None,
        login: None,
        on_room: None,
        pong: None,
        room: None,
        game: None,
        timer: None,
        instant: None,
    }
}

/// Why a lookup failed.
#[derive(Debug, Clone, Copy, PartialEq, Eq, Structural)]
pub enum ObjectError {
    /// No entity has the id.
    NoEntity,
    /// The entity has no component of the kind asked for.
    NoComponent,
}

/// An entity: an id and its components.
pub struct Entity {
    entity_id: EntityId,
    kind: Option<EntityKind>,
    addr: Option<PeerAddr>,
    sender: Option<MsgToConnSender>,
    state: Option<ClientState>,
    login: Option<AfterLoginInfo>,
    on_room: Option<OnRoomInfo>,
    pong: Option<PongInfo>,
    room: Option<RoomInfo>,
    game: Option<GameInfo>,
    timer: Option<TimerInfo>,
    instant: Option<Instant>,
}

impl View for Entity {
    type V = EntityView;

    closed spec fn view(&self) -> EntityView {
        EntityView {
            id: self.entity_id,
            kind: self.kind,
            addr: self.addr,
            sender: self.sender,
            state: self.state,
            login: self.login,
            on_room: self.on_room,
            pong: self.pong,
            room: self.room,
            game: self.game,
            timer: self.timer,
            instant: self.instant,
        }
    }
}

/// A kind of component: where its slot is in an entity. Setting a slot keeps the id.
pub trait Component: Sized {
    /// The slot of this kind in `e`.
    spec fn slot(e: EntityView) -> Option<Self>;

    /// `e` with the slot of this kind set to `v`, all else unchanged.
    spec fn with_slot(e: EntityView, v: Option<Self>) -> EntityView;

    /// Setting a slot keeps the id, and the slot then holds what was set.
    proof fn lemma_with_slot(e: EntityView, v: Option<Self>)
        ensures
            Self::with_slot(e, v).id == e.id,
            Self::slot(Self::with_slot(e, v)) == v,
    ;

    /// A reference to the component of this kind, if `e` has one.
    fn slot_ref(e: &Entity) -> (r: Option<&Self>)
        ensures
            match r {
                Some(v) => Self::slot(e@) == Some(*v),
                None => Self::slot(e@) is None,
            },
    ;

    /// Puts `v` into the slot of this kind; tells whether the slot was empty.
    fn slot_put(e: &mut Entity, v: Self) -> (was_empty: bool)
        ensures
            final(e)@ == Self::with_slot(old(e)@, Some(v)),
            was_empty == (Self::slot(old(e)@) is None),
    ;

    /// Empties the slot of this kind; tells whether it held a component.
    fn slot_take(e: &mut Entity) -> (had: bool)
        ensures
            final(e)@ == Self::with_slot(old(e)@, None),
            had == (Self::slot(old(e)@) is Some),
    ;

    /// A mutable reference to the component of this kind, if `e` has one.
    fn slot_mut(e: &mut Entity) -> (r: Option<&mut Self>)
        ensures
            match r {
                Some(v) => Self::slot(old(e)@) == Some(*v) && final(e)@ == Self::with_slot(
                    old(e)@,
                    Some(*final(v)),
                ),
                None => Self::slot(old(e)@) is None && final(e)@ == old(e)@,
            },
    ;
}

impl Component for EntityKind {
    open spec fn slot(e: EntityView) -> Option<Self> {
        e.kind
    }

    open spec fn with_slot(e: EntityView, v: Option<Self>) -> EntityView {
        EntityView { kind: v, ..e }
    }

    proof fn lemma_with_slot(e: EntityView, v: Option<Self>) {
    }

    fn slot_ref(e: &Entity) -> (r: Option<&Self>) {
        match &e.kind {
            Some(v) => Some(v),
            None => None,
        }
    }

    fn slot_put(e: &mut Entity, v: Self) -> (was_empty: bool) {
        let was_empty = e.kind.is_none();
        e.kind = Some(v);
        was_empty
    }

    fn slot_take(e: &mut Entity) -> (had: bool) {
        let had = e.kind.is_some();
        e.kind = None;
        had
    }

    fn slot_mut(e: &mut Entity) -> (r: Option<&mut Self>) {
        match &mut e.kind {
            Some(v) => Some(v),
            None => None,
        }
    }
}

impl Component for PeerAddr {
    open spec fn slot(e: EntityView) -> Option<Self> {
        e.addr
    }

    open spec fn with_slot(e: EntityView, v: Option<Self>) -> EntityView {
        EntityView { addr: v, ..e }
    }

    proof fn lemma_with_slot(e: EntityView, v: Option<Self>) {
    }

    fn slot_ref(e: &Entity) -> (r: Option<&Self>) {
        match &e.addr {
            Some(v) => Some(v),
            None => None,
        }
    }

    fn slot_put(e: &mut Entity, v: Self) -> (was_empty: bool) {
        let was_empty = e.addr.is_none();
        e.addr = Some(v);
        was_empty
    }

    fn slot_take(e: &mut Entity) -> (had: bool) {
        let had = e.addr.is_some();
        e.addr = None;
        had
    }

    fn slot_mut(e: &mut Entity) -> (r: Option<&mut Self>) {
        match &mut e.addr {
            Some(v) => Some(v),
            None => None,
        }
    }
}

impl Component for MsgToConnSender {
    open spec fn slot(e: EntityView) -> Option<Self> {
        e.sender
    }

    open spec fn with_slot(e: EntityView, v: Option<Self>) -> EntityView {
        EntityView { sender: v, ..e }
    }

    proof fn lemma_with_slot(e: EntityView, v: Option<Self>) {
    }

    fn slot_ref(e: &Entity) -> (r: Option<&Self>) {
        match &e.sender {
            Some(v) => Some(v),
            None => None,
        }
    }

    fn slot_put(e: &mut Entity, v: Self) -> (was_empty: bool) {
        let was_empty = e.sender.is_none();
        e.sender = Some(v);
        was_empty
    }

    fn slot_take(e: &mut Entity) -> (had: bool) {
        let had = e.sender.is_some();
        e.sender = None;
        had
    }

    fn slot_mut(e: &mut Entity) -> (r: Option<&mut Self>) {
        match &mut e.sender {
            Some(v) => Some(v),
            None => None,
        }
    }
}

impl Component for ClientState {
    open spec fn slot(e: EntityView) -> Option<Self> {
        e.state
    }

    open spec fn with_slot(e: EntityView, v: Option<Self>) -> EntityView {
        EntityView { state: v, ..e }
    }

    proof fn lemma_with_slot(e: EntityView, v: Option<Self>) {
    }

    fn slot_ref(e: &Entity) -> (r: Option<&Self>) {
        match &e.state {
            Some(v) => Some(v),
            None => None,
        }
    }

    fn slot_put(e: &mut Entity, v: Self) -> (was_empty: bool) {
        let was_empty = e.state.is_none();
        e.state = Some(v);
        was_empty
    }

    fn slot_take(e: &mut Entity) -> (had: bool) {
        let had = e.state.is_some();
        e.state = None;
        had
    }

    fn slot_mut(e: &mut Entity) -> (r: Option<&mut Self>) {
        match &mut e.state {
            Some(v) => Some(v),
            None => None,
        }
    }
}

impl Component for AfterLoginInfo {
    open spec fn slot(e: EntityView) -> Option<Self> {
        e.login
    }

    open spec fn with_slot(e: EntityView, v: Option<Self>) -> EntityView {
        EntityView { login: v, ..e }
    }

    proof fn lemma_with_slot(e: EntityView, v: Option<Self>) {
    }

    fn slot_ref(e: &Entity) -> (r: Option<&Self>) {
        match &e.login {
            Some(v) => Some(v),
            None => None,
        }
    }

    fn slot_put(e: &mut Entity, v: Self) -> (was_empty: bool) {
        let was_empty = e.login.is_none();
        e.login = Some(v);
        was_empty
    }

    fn slot_take(e: &mut Entity) -> (had: bool) {
        let had = e.login.is_some();
        e.login = None;
        had
    }

    fn slot_mut(e: &mut Entity) -> (r: Option<&mut Self>) {
        match &mut e.login {
            Some(v) => Some(v),
            None => None,
        }
    }
}

impl Component for OnRoomInfo {
    open spec fn slot(e: EntityView) -> Option<Self> {
        e.on_room
    }

    open spec fn with_slot(e: EntityView, v: Option<Self>) -> EntityView {
        EntityView { on_room: v, ..e }
    }

    proof fn lemma_with_slot(e: EntityView, v: Option<Self>) {
    }

    fn slot_ref(e: &Entity) -> (r: Option<&Self>) {
        match &e.on_room {
            Some(v) => Some(v),
            None => None,
        }
    }

    fn slot_put(e: &mut Entity, v: Self) -> (was_empty: bool) {
        let was_empty = e.on_room.is_none();
        e.on_room = Some(v);
        was_empty
    }

    fn slot_take(e: &mut Entity) -> (had: bool) {
        let had = e.on_room.is_some();
        e.on_room = None;
        had
    }

    fn slot_mut(e: &mut Entity) -> (r: Option<&mut Self>) {
        match &mut e.on_room {
            Some(v) => Some(v),
            None => None,
        }
    }
}

impl Component for PongInfo {
    open spec fn slot(e: EntityView) -> Option<Self> {
        e.pong
    }

    open spec fn with_slot(e: EntityView, v: Option<Self>) -> EntityView {
        EntityView { pong: v, ..e }
    }

    proof fn lemma_with_slot(e: EntityView, v: Option<Self>) {
    }

    fn slot_ref(e: &Entity) -> (r: Option<&Self>) {
        match &e.pong {
            Some(v) => Some(v),
            None => None,
        }
    }

    fn slot_put(e: &mut Entity, v: Self) -> (was_empty: bool) {
        let was_empty = e.pong.is_none();
        e.pong = Some(v);
        was_empty
    }

    fn slot_take(e: &mut Entity) -> (had: bool) {
        let had = e.pong.is_some();
        e.pong = None;
        had
    }

    fn slot_mut(e: &mut Entity) -> (r: Option<&mut Self>) {
        match &mut e.pong {
            Some(v) => Some(v),
            None => None,
        }
    }
}

impl Component for RoomInfo {
    open spec fn slot(e: EntityView) -> Option<Self> {
        e.room
    }

    open spec fn with_slot(e: EntityView, v: Option<Self>) -> EntityView {
        EntityView { room: v, ..e }
    }

    proof fn lemma_with_slot(e: EntityView, v: Option<Self>) {
    }

    fn slot_ref(e: &Entity) -> (r: Option<&Self>) {
        match &e.room {
            Some(v) => Some(v),
            None => None,
        }
    }

    fn slot_put(e: &mut Entity, v: Self) -> (was_empty: bool) {
        let was_empty = e.room.is_none();
        e.room = Some(v);
        was_empty
    }

    fn slot_take(e: &mut Entity) -> (had: bool) {
        let had = e.room.is_some();
        e.room = None;
        had
    }

    fn slot_mut(e: &mut Entity) -> (r: Option<&mut Self>) {
        match &mut e.room {
            Some(v) => Some(v),
            None => None,
        }
    }
}

impl Component for GameInfo {
    open spec fn slot(e: EntityView) -> Option<Self> {
        e.game
    }

    open spec fn with_slot(e: EntityView, v: Option<Self>) -> EntityView {
        EntityView { game: v, ..e }
    }

    proof fn lemma_with_slot(e: EntityView, v: Option<Self>) {
    }

    fn slot_ref(e: &Entity) -> (r: Option<&Self>) {
        match &e.game {
            Some(v) => Some(v),
            None => None,
        }
    }

    fn slot_put(e: &mut Entity, v: Self) -> (was_empty: bool) {
        let was_empty = e.game.is_none();
        e.game = Some(v);
        was_empty
    }

    fn slot_take(e: &mut Entity) -> (had: bool) {
        let had = e.game.is_some();
        e.game = None;
        had
    }

    fn slot_mut(e: &mut Entity) -> (r: Option<&mut Self>) {
        match &mut e.game {
            Some(v) => Some(v),
            None => None,
        }
    }
}

impl Component for TimerInfo {
    open spec fn slot(e: EntityView) -> Option<Self> {
        e.timer
    }

    open spec fn with_slot(e: EntityView, v: Option<Self>) -> EntityView {
        EntityView { timer: v, ..e }
    }

    proof fn lemma_with_slot(e: EntityView, v: Option<Self>) {
    }

    fn slot_ref(e: &Entity) -> (r: Option<&Self>) {
        match &e.timer {
            Some(v) => Some(v),
            None => None,
        }
    }

    fn slot_put(e: &mut Entity, v: Self) -> (was_empty: bool) {
        let was_empty = e.timer.is_none();
        e.timer = Some(v);
        was_empty
    }

    fn slot_take(e: &mut Entity) -> (had: bool) {
        let had = e.timer.is_some();
        e.timer = None;
        had
    }

    fn slot_mut(e: &mut Entity) -> (r: Option<&mut Self>) {
        match &mut e.timer {
            Some(v) => Some(v),
            None => None,
        }
    }
}

impl Component for Instant {
    open spec fn slot(e: EntityView) -> Option<Self> {
        e.instant
    }

    open spec fn with_slot(e: EntityView, v: Option<Self>) -> EntityView {
        EntityView { instant: v, ..e }
    }

    proof fn lemma_with_slot(e: EntityView, v: Option<Self>) {
    }

    fn slot_ref(e: &Entity) -> (r: Option<&Self>) {
        match &e.instant {
            Some(v) => Some(v),
            None => None,
        }
    }

    fn slot_put(e: &mut Entity, v: Self) -> (was_empty: bool) {
        let was_empty = e.instant.is_none();
        e.instant = Some(v);
        was_empty
    }

    fn slot_take(e: &mut Entity) -> (had: bool) {
        let had = e.instant.is_some();
        e.instant = None;
        had
    }

    fn slot_mut(e: &mut Entity) -> (r: Option<&mut Self>) {
        match &mut e.instant {
            Some(v) => Some(v),
            None => None,
        }
    }
}

impl Entity {
    /// A fresh entity with no components.
    fn new(id: EntityId) -> (e: Self)
        ensures
            e@ == empty_entity(id),
    {
        Self {
            entity_id: id,
            kind: None,
            addr: None,
            sender: None,
            state: None,
            login: None,
            on_room: None,
            pong: None,
            room: None,
            game: None,
            timer: None,
            instant: None,
        }
    }

    /// The id of the entity.
    pub fn id(&self) -> (id: EntityId)
        ensures
            id == self@.id,
    {
        self.entity_id
    }

    /// Puts a component in, replacing one of the same kind; false if there was one.
    pub fn push<T: Component>(&mut self, v: T) -> (was_empty: bool)
        ensures
            final(self)@ == T::with_slot(old(self)@, Some(v)),
            final(self)@.id == old(self)@.id,
            was_empty == (T::slot(old(self)@) is None),
    {
        proof { T::lemma_with_slot(self@, Some(v)); }
        T::slot_put(self, v)
    }

    /// The component of kind `T`.
    pub fn get<T: Component>(&self) -> (r: Result<&T, ObjectError>)
        ensures
            match r {
                Ok(v) => T::slot(self@) == Some(*v),
                Err(e) => T::slot(self@) is None && e == ObjectError::NoComponent,
            },
    {
        match T::slot_ref(self) {
            Some(v) => Ok(v),
            None => Err(ObjectError::NoComponent),
        }
    }

    /// A mutable reference to the component of kind `T`.
    pub fn get_mut<T: Component>(&mut self) -> (r: Result<&mut T, ObjectError>)
        ensures
            match r {
                Ok(v) => T::slot(old(self)@) == Some(*v) && final(self)@ == T::with_slot(
                    old(self)@,
                    Some(*final(v)),
                ) && final(self)@.id == old(self)@.id,
                Err(e) => T::slot(old(self)@) is None && e == ObjectError::NoComponent
                    && final(self)@ == old(self)@,
            },
    {
        proof {
            T::lemma_with_slot(self@, None);
            assert forall|c: T| #[trigger] T::with_slot(self@, Some(c)).id == self@.id by {
                T::lemma_with_slot(self@, Some(c));
            }
        }
        match T::slot_mut(self) {
            Some(v) => Ok(v),
            None => Err(ObjectError::NoComponent),
        }
    }

    /// Takes the component of kind `T` out; false if there was none.
    pub fn remove<T: Component>(&mut self) -> (had: bool)
        ensures
            final(self)@ == T::with_slot(old(self)@, None),
            final(self)@.id == old(self)@.id,
            had == (T::slot(old(self)@) is Some),
    {
        proof { T::lemma_with_slot(self@, None); }
        T::slot_take(self)
    }
}

/// The ids of `s` strictly increase.
pub open spec fn sorted_ids(s: Seq<EntityView>) -> bool {
    forall|i: int, j: int| 0 <= i < j < s.len() ==> s[i].id < s[j].id
}

/// Some entity of `s` has the id `k`.
pub open spec fn has_id(s: Seq<EntityView>, k: EntityId) -> bool {
    exists|i: int| 0 <= i < s.len() && s[i].id == k
}

/// The position in `s` of the entity with id `k`.
pub open spec fn position_of(s: Seq<EntityView>, k: EntityId) -> int {
    choose|i: int| 0 <= i < s.len() && s[i].id == k
}

/// The entities of `s` keyed by their ids.
pub open spec fn map_of(s: Seq<EntityView>) -> Map<EntityId, EntityView> {
    Map::new(|k: EntityId| has_id(s, k), |k: EntityId| s[position_of(s, k)])
}

proof fn lemma_position(s: Seq<EntityView>, i: int)
    requires
        sorted_ids(s),
        0 <= i < s.len(),
    ensures
        has_id(s, s[i].id),
        position_of(s, s[i].id) == i,
        map_of(s).contains_key(s[i].id),
        map_of(s)[s[i].id] == s[i],
{
    assert(has_id(s, s[i].id));
    let p = position_of(s, s[i].id);
    if p < i {
        assert(s[p].id < s[i].id);
    } else if p > i {
        assert(s[i].id < s[p].id);
    }
}

proof fn lemma_map_update(s: Seq<EntityView>, i: int, e: EntityView)
    requires
        sorted_ids(s),
        0 <= i < s.len(),
        e.id == s[i].id,
    ensures
        sorted_ids(s.update(i, e)),
        map_of(s.update(i, e)) =~= map_of(s).insert(e.id, e),
{
    let t = s.update(i, e);
    assert(sorted_ids(t)) by {
        assert forall|a: int, b: int| 0 <= a < b < t.len() implies t[a].id < t[b].id by {
            assert(t[a].id == s[a].id);
            assert(t[b].id == s[b].id);
        }
    }
    assert forall|k: EntityId| has_id(t, k) == has_id(s, k) by {
        if has_id(t, k) {
            let j = choose|j: int| 0 <= j < t.len() && t[j].id == k;
            assert(s[j].id == k);
        }
        if has_id(s, k) {
            let j = choose|j: int| 0 <= j < s.len() && s[j].id == k;
            assert(t[j].id == k);
        }
    }
    assert forall|k: EntityId| has_id(t, k) implies map_of(t)[k] == map_of(s).insert(e.id, e)[k] by {
        let j = choose|j: int| 0 <= j < t.len() && t[j].id == k;
        lemma_position(t, j);
        lemma_position(s, j);
    }
}

proof fn lemma_map_remove(s: Seq<EntityView>, i: int)
    requires
        sorted_ids(s),
        0 <= i < s.len(),
    ensures
        sorted_ids(s.remove(i)),
        map_of(s.remove(i)) =~= map_of(s).remove(s[i].id),
{
    let t = s.remove(i);
    let gone = s[i].id;
    assert(sorted_ids(t)) by {
        assert forall|a: int, b: int| 0 <= a < b < t.len() implies t[a].id < t[b].id by {
            let sa = if a < i { a } else { a + 1 };
            let sb = if b < i { b } else { b + 1 };
            assert(t[a] == s[sa]);
            assert(t[b] == s[sb]);
        }
    }
    assert forall|k: EntityId| has_id(t, k) == (has_id(s, k) && k != gone) by {
        if has_id(t, k) {
            let j = choose|j: int| 0 <= j < t.len() && t[j].id == k;
            let sj = if j < i { j } else { j + 1 };
            assert(t[j] == s[sj]);
            if sj < i {
                assert(s[sj].id < s[i].id);
            } else {
                assert(s[i].id < s[sj].id);
            }
        }
        if has_id(s, k) && k != gone {
            let j = choose|j: int| 0 <= j < s.len() && s[j].id == k;
            assert(j != i);
            let tj = if j < i { j } else { j - 1 };
            assert(t[tj] == s[j]);
        }
    }
    assert forall|k: EntityId| has_id(t, k) implies map_of(t)[k] == map_of(s)[k] by {
        let j = choose|j: int| 0 <= j < t.len() && t[j].id == k;
        let sj = if j < i { j } else { j + 1 };
        assert(t[j] == s[sj]);
        lemma_position(t, j);
        lemma_position(s, sj);
    }
}

proof fn lemma_map_push(s: Seq<EntityView>, e: EntityView)
    requires
        sorted_ids(s),
        forall|i: int| 0 <= i < s.len() ==> s[i].id < e.id,
    ensures
        sorted_ids(s.push(e)),
        map_of(s.push(e)) =~= map_of(s).insert(e.id, e),
{
    let t = s.push(e);
    assert(sorted_ids(t)) by {
        assert forall|a: int, b: int| 0 <= a < b < t.len() implies t[a].id < t[b].id by {
            if b == s.len() {
                assert(t[a] == s[a]);
            } else {
                assert(t[a] == s[a]);
                assert(t[b] == s[b]);
            }
        }
    }
    assert forall|k: EntityId| has_id(t, k) == (has_id(s, k) || k == e.id) by {
        if has_id(t, k) {
            let j = choose|j: int| 0 <= j < t.len() && t[j].id == k;
            if j < s.len() {
                assert(t[j] == s[j]);
            }
        }
        if has_id(s, k) {
            let j = choose|j: int| 0 <= j < s.len() && s[j].id == k;
            assert(t[j] == s[j]);
        }
        if k == e.id {
            assert(t[s.len() as int] == e);
        }
    }
    assert forall|k: EntityId| has_id(t, k) implies map_of(t)[k] == map_of(s).insert(e.id, e)[k] by {
        let j = choose|j: int| 0 <= j < t.len() && t[j].id == k;
        lemma_position(t, j);
        if j < s.len() {
            assert(t[j] == s[j]);
            lemma_position(s, j);
        }
    }
}

/// The entities of `s` whose pick is true, in order.
pub open spec fn picked(s: Seq<EntityView>, picks: Seq<bool>) -> Seq<EntityView>
    decreases s.len(),
{
    if s.len() == 0 || picks.len() == 0 {
        Seq::<EntityView>::empty()
    } else if picks.last() {
        picked(s.drop_last(), picks.drop_last()).push(s.last())
    } else {
        picked(s.drop_last(), picks.drop_last())
    }
}

/// Appends to `out` a mutable reference to each item of `s`, in order.
fn collect_mut<'a>(s: &'a mut [Entity], out: &mut Vec<&'a mut Entity>)
    ensures
        final(out)@.len() == old(out)@.len() + old(s)@.len(),
        forall|i: int| 0 <= i < old(out)@.len() ==> final(out)@[i] == old(out)@[i],
        forall|i: int| 0 <= i < old(s)@.len() ==> *final(out)@[old(out)@.len() + i] == old(s)@[i],
        final(s)@.len() == old(s)@.len(),
        forall|i: int| 0 <= i < old(s)@.len() ==> final(s)@[i] == *final(final(out)@[old(out)@.len() + i]),
    decreases old(s)@.len(),
{
    if s.len() == 0 {
        return;
    }
    let (a, b) = s.split_at_mut(1);
    let ghost b0 = b@;
    let x = a.first_mut().unwrap();
    let ghost n: int = out@.len() as int;
    out.push(x);
    collect_mut(b, out);
    assert forall|i: int| 0 <= i < old(s)@.len() implies *out@[n + i] == old(s)@[i] by {
        if i > 0 {
            assert(n + i == (n + 1) + (i - 1));
            assert(b0[i - 1] == old(s)@[i]);
        }
    }
}

/// The positions of `picks` that hold true, in increasing order.
pub open spec fn true_positions(picks: Seq<bool>) -> Seq<int>
    decreases picks.len(),
{
    if picks.len() == 0 {
        Seq::<int>::empty()
    } else {
        let rest = true_positions(picks.drop_first()).map_values(|j: int| j + 1);
        if picks[0] {
            seq![0int] + rest
        } else {
            rest
        }
    }
}

/// The true positions lie within `picks`, hold true and strictly increase.
pub proof fn lemma_true_positions(picks: Seq<bool>)
    ensures
        forall|k: int|
            0 <= k < true_positions(picks).len() ==> 0 <= #[trigger] true_positions(picks)[k] < picks.len()
                && picks[true_positions(picks)[k]],
        forall|k: int, l: int|
            0 <= k < l < true_positions(picks).len() ==> true_positions(picks)[k] < true_positions(picks)[l],
        forall|i: int|
            0 <= i < picks.len() && #[trigger] picks[i] ==> exists|k: int|
                0 <= k < true_positions(picks).len() && true_positions(picks)[k] == i,
    decreases picks.len(),
{
    if picks.len() > 0 {
        let rest = picks.drop_first();
        lemma_true_positions(rest);
        let tr = true_positions(rest);
        let tp = true_positions(picks);
        let d: int = if picks[0] { 1 } else { 0 };
        assert forall|k: int| 0 <= k < tp.len() implies (k < d ==> tp[k] == 0) && (k >= d ==> tp[k] == tr[k - d] + 1) by {}
        assert forall|k: int| 0 <= k < tp.len() implies 0 <= #[trigger] tp[k] < picks.len() && picks[tp[k]] by {
            if k >= d {
                assert(picks[tp[k]] == rest[tr[k - d]]);
            }
        }
        assert forall|k: int, l: int| 0 <= k < l < tp.len() implies tp[k] < tp[l] by {
            if k >= d {
                assert(tr[k - d] < tr[l - d]);
            }
        }
        assert forall|i: int| 0 <= i < picks.len() && #[trigger] picks[i] implies exists|k: int|
            0 <= k < tp.len() && tp[k] == i by {
            if i == 0 {
                assert(tp[0] == 0);
            } else {
                assert(rest[i - 1]);
                let k = choose|k: int| 0 <= k < tr.len() && tr[k] == i - 1;
                assert(tp[k + d] == i);
            }
        }
    }
}

/// Appends to `out` a mutable reference to each item of `s` that `f` picks, in
/// order; returns the picks.
fn collect_picked_mut<'a, T>(s: &'a mut [Entity], out: &mut Vec<&'a mut Entity>, f: &T) -> (picks: Ghost<Seq<bool>>)
    where
        T: Fn(&Entity) -> bool,
    requires
        forall|e: &Entity| #[trigger] f.requires((e,)),
    ensures
        picks@.len() == old(s)@.len(),
        forall|i: int| 0 <= i < old(s)@.len() ==> f.ensures((&old(s)@[i],), #[trigger] picks@[i]),
        final(out)@.len() == old(out)@.len() + true_positions(picks@).len(),
        forall|i: int| 0 <= i < old(out)@.len() ==> final(out)@[i] == old(out)@[i],
        forall|k: int|
            0 <= k < true_positions(picks@).len()
                ==> *final(out)@[old(out)@.len() + k] == old(s)@[true_positions(picks@)[k]],
        final(s)@.len() == old(s)@.len(),
        forall|i: int| 0 <= i < old(s)@.len() && !picks@[i] ==> final(s)@[i] == old(s)@[i],
        forall|k: int|
            0 <= k < true_positions(picks@).len()
                ==> final(s)@[true_positions(picks@)[k]] == *final(final(out)@[old(out)@.len() + k]),
    decreases old(s)@.len(),
{
    if s.len() == 0 {
        return Ghost(Seq::<bool>::empty());
    }
    let (a, b) = s.split_at_mut(1);
    let ghost b0 = b@;
    let x = a.first_mut().unwrap();
    let pick = f(&*x);
    let ghost n: int = out@.len() as int;
    if pick {
        out.push(x);
    }
    let rest = collect_picked_mut(b, out, f);
    let ghost picks = seq![pick] + rest@;
    proof {
        assert(picks.drop_first() =~= rest@);
        lemma_true_positions(rest@);
        let tp = true_positions(picks);
        let tr = true_positions(rest@);
        assert forall|k: int| 0 <= k < tp.len() implies *out@[n + k] == old(s)@[tp[k]] by {
            if pick {
                if k > 0 {
                    assert(tp[k] == tr[k - 1] + 1);
                    assert(n + k == (n + 1) + (k - 1));
                    assert(b0[tr[k - 1]] == old(s)@[tp[k]]);
                }
            } else {
                assert(tp[k] == tr[k] + 1);
                assert(b0[tr[k]] == old(s)@[tp[k]]);
            }
        }
    }
    Ghost(picks)
}

/// All entities, kept in increasing order of their ids.
pub struct World {
    entities: Vec<Entity>,
    entity_id_counter: EntityId,
}

impl View for World {
    type V = Map<EntityId, EntityView>;

    closed spec fn view(&self) -> Map<EntityId, EntityView> {
        map_of(self.views())
    }
}

impl World {
    /// The entities in increasing order of their ids.
    pub closed spec fn views(&self) -> Seq<EntityView> {
        self.entities@.map_values(|e: Entity| e@)
    }

    /// The entities themselves, in increasing order of their ids.
    pub closed spec fn entity_seq(&self) -> Seq<Entity> {
        self.entities@
    }

    /// The entities and their views line up.
    pub proof fn lemma_entity_seq(&self)
        ensures
            self.entity_seq().len() == self.views().len(),
            forall|i: int| 0 <= i < self.views().len() ==> #[trigger] self.entity_seq()[i]@ == self.views()[i],
    {
    }

    /// The id that the next entity will get.
    pub closed spec fn next_id(&self) -> EntityId {
        self.entity_id_counter
    }

    /// Ids strictly increase and are all below the next id.
    pub closed spec fn wf(&self) -> bool {
        &&& sorted_ids(self.views())
        &&& forall|i: int| 0 <= i < self.views().len() ==> self.views()[i].id < self.entity_id_counter
    }

    /// The ordered entities and the map agree: each entity is found under its id,
    /// each id of the map belongs to one of them, and all ids are below the next id.
    pub proof fn lemma_views(&self)
        requires
            self.wf(),
        ensures
            sorted_ids(self.views()),
            forall|i: int|
                0 <= i < self.views().len() ==> #[trigger] self@.contains_key(self.views()[i].id)
                    && self@[self.views()[i].id] == self.views()[i],
            forall|k: EntityId|
                #[trigger] self@.contains_key(k) ==> has_id(self.views(), k) && k < self.next_id()
                    && self@[k] == self.views()[position_of(self.views(), k)] && self@[k].id == k,
    {
        assert forall|i: int| 0 <= i < self.views().len() implies #[trigger] self@.contains_key(
            self.views()[i].id,
        ) && self@[self.views()[i].id] == self.views()[i] by {
            lemma_position(self.views(), i);
        }
    }

    /// The id that the next entity will get.
    pub fn id_counter(&self) -> (k: EntityId)
        ensures
            k == self.next_id(),
    {
        self.entity_id_counter
    }

    /// What holds of each entity in order holds of each entity of the map.
    pub proof fn lemma_forall_views(&self, p: spec_fn(EntityView) -> bool)
        requires
            self.wf(),
            forall|i: int| 0 <= i < self.views().len() ==> p(#[trigger] self.views()[i]),
        ensures
            forall|k: EntityId| #[trigger] self@.contains_key(k) ==> p(self@[k]),
    {
        self.lemma_views();
        assert forall|k: EntityId| #[trigger] self@.contains_key(k) implies p(self@[k]) by {
            let j = position_of(self.views(), k);
            assert(p(self.views()[j]));
        }
    }

    /// An empty world whose first id is the smallest.
    pub fn default() -> (w: Self)
        ensures
            w.wf(),
            w@ == Map::<EntityId, EntityView>::empty(),
            w.views() == Seq::<EntityView>::empty(),
            w.next_id() == 0,
    {
        let w = Self { entities: Vec::new(), entity_id_counter: 0 };
        assert(w.views() =~= Seq::<EntityView>::empty());
        assert(w@ =~= Map::<EntityId, EntityView>::empty());
        w
    }

    fn get_new_id(&mut self) -> (id: EntityId)
        requires
            old(self).next_id() < u64::MAX,
        ensures
            id == old(self).next_id(),
            final(self).next_id() == old(self).next_id() + 1,
            final(self).entities@ == old(self).entities@,
    {
        let id = self.entity_id_counter;
        self.entity_id_counter = self.entity_id_counter + 1;
        id
    }

    /// Adds an entity with no components; returns its id.
    pub fn push(&mut self) -> (k: EntityId)
        requires
            old(self).wf(),
            old(self).next_id() < u64::MAX,
        ensures
            final(self).wf(),
            k == old(self).next_id(),
            !old(self)@.contains_key(k),
            final(self)@ == old(self)@.insert(k, empty_entity(k)),
            final(self).views() == old(self).views().push(empty_entity(k)),
            final(self).next_id() == old(self).next_id() + 1,
    {
        proof { self.lemma_views(); }
        let k = self.get_new_id();
        let v = Entity::new(k);
        self.entities.push(v);
        proof {
            assert(self.views() =~= old(self).views().push(empty_entity(k)));
            lemma_map_push(old(self).views(), empty_entity(k));
        }
        k
    }

    fn position(&self, k: &EntityId) -> (r: Option<usize>)
        requires
            self.wf(),
        ensures
            match r {
                Some(i) => i < self.views().len() && self.views()[i as int].id == *k
                    && self@.contains_key(*k) && position_of(self.views(), *k) == i,
                None => !self@.contains_key(*k),
            },
    {
        let mut i: usize = 0;
        while i < self.entities.len()
            invariant
                i <= self.entities@.len(),
                self.wf(),
                forall|j: int| 0 <= j < i ==> self.views()[j].id != *k,
            decreases self.entities@.len() - i,
        {
            if self.entities[i].entity_id == *k {
                proof { lemma_position(self.views(), i as int); }
                return Some(i);
            }
            i = i + 1;
        }
        None
    }

    /// The entity with id `k`.
    pub fn get(&self, k: &EntityId) -> (r: Result<&Entity, ObjectError>)
        requires
            self.wf(),
        ensures
            match r {
                Ok(e) => self@.contains_key(*k) && e@ == self@[*k] && e@.id == *k,
                Err(x) => !self@.contains_key(*k) && x == ObjectError::NoEntity,
            },
    {
        match self.position(k) {
            Some(i) => {
                proof { lemma_position(self.views(), i as int); }
                Ok(&self.entities[i])
            },
            None => Err(ObjectError::NoEntity),
        }
    }

    /// A mutable reference to the entity with id `k`. The world stays well
    /// formed as long as the entity keeps its id.
    pub fn get_mut(&mut self, k: &EntityId) -> (r: Result<&mut Entity, ObjectError>)
        requires
            old(self).wf(),
        ensures
            match r {
                Ok(e) => old(self)@.contains_key(*k) && e@ == old(self)@[*k] && e@.id == *k && (final(e)@.id
                    == *k ==> final(self).wf() && final(self)@ == old(self)@.insert(
                    *k,
                    final(e)@,
                )) && final(self).views() == old(self).views().update(
                    position_of(old(self).views(), *k),
                    final(e)@,
                ) && final(self).next_id() == old(self).next_id(),
                Err(x) => !old(self)@.contains_key(*k) && x == ObjectError::NoEntity && *final(self)
                    == *old(self),
            },
    {
        match self.position(k) {
            Some(i) => {
                proof {
                    lemma_position(self.views(), i as int);
                }
                let ghost old_views = self.views();
                proof {
                    assert forall|e: EntityView| e.id == *k implies sorted_ids(
                        #[trigger] old_views.update(i as int, e),
                    ) && map_of(old_views.update(i as int, e)) =~= map_of(old_views).insert(*k, e)
                        && (forall|j: int|
                        0 <= j < old_views.len() ==> old_views.update(i as int, e)[j].id
                            < old(self).next_id()) by {
                        lemma_map_update(old_views, i as int, e);
                    }
                    assert forall|e: Entity| #![trigger self.entities@.update(i as int, e)]
                        self.entities@.update(i as int, e).map_values(|x: Entity| x@)
                        =~= old_views.update(i as int, e@) by {}
                }
                let r = &mut self.entities[i];
                Ok(r)
            },
            None => Err(ObjectError::NoEntity),
        }
    }

    /// Removes the entity with id `k`; false if there was none.
    pub fn remove(&mut self, k: &EntityId) -> (had: bool)
        requires
            old(self).wf(),
        ensures
            final(self).wf(),
            had == old(self)@.contains_key(*k),
            final(self)@ == old(self)@.remove(*k),
            final(self).next_id() == old(self).next_id(),
    {
        match self.position(k) {
            Some(i) => {
                proof {
                    lemma_position(self.views(), i as int);
                    lemma_map_remove(self.views(), i as int);
                }
                let _ = self.entities.remove(i);
                proof {
                    assert(self.views() =~= old(self).views().remove(i as int));
                }
                true
            },
            None => {
                assert(old(self)@.remove(*k) =~= old(self)@);
                false
            },
        }
    }

    /// All entities, in increasing order of their ids.
    pub fn values(&self) -> (r: Vec<&Entity>)
        ensures
            r@.len() == self.views().len(),
            forall|i: int| 0 <= i < r@.len() ==> #[trigger] r@[i]@ == self.views()[i],
    {
        let mut r: Vec<&Entity> = Vec::new();
        let mut i: usize = 0;
        while i < self.entities.len()
            invariant
                i <= self.entities@.len(),
                r@.len() == i,
                forall|j: int| 0 <= j < i ==> #[trigger] r@[j]@ == self.views()[j],
            decreases self.entities@.len() - i,
        {
            r.push(&self.entities[i]);
            i = i + 1;
        }
        r
    }

    /// Mutable references to all entities, in increasing order of their ids.
    /// The world afterwards holds what was written through them, and stays well
    /// formed where each entity keeps its id.
    pub fn values_mut(&mut self) -> (r: Vec<&mut Entity>)
        requires
            old(self).wf(),
        ensures
            r@.len() == old(self).views().len(),
            forall|i: int| 0 <= i < r@.len() ==> (*#[trigger] r@[i])@ == old(self).views()[i],
            final(self).views().len() == r@.len(),
            forall|i: int| 0 <= i < r@.len() ==> #[trigger] final(self).views()[i] == (*final(r@[i]))@,
            final(self).next_id() == old(self).next_id(),
            (forall|i: int| 0 <= i < r@.len() ==> (*final(#[trigger] r@[i]))@.id == old(self).views()[i].id)
                ==> final(self).wf(),
    {
        let mut r: Vec<&mut Entity> = Vec::new();
        collect_mut(self.entities.as_mut_slice(), &mut r);
        r
    }

    /// Mutable references to the entities for which `f` answers true, in
    /// increasing order of their ids. The world afterwards holds what was
    /// written through them, keeps the other entities as they were, and stays
    /// well formed where each entity keeps its id (`lemma_true_positions` says
    /// which position each reference stands for).
    pub fn select_mut<T>(&mut self, f: T) -> (r: Vec<&mut Entity>)
        where
            T: Fn(&Entity) -> bool,
        requires
            old(self).wf(),
            forall|e: &Entity| #[trigger] f.requires((e,)),
        ensures
            exists|picks: Seq<bool>|
                {
                    let tp = #[trigger] true_positions(picks);
                    &&& picks.len() == old(self).views().len()
                    &&& forall|i: int|
                        0 <= i < picks.len() ==> f.ensures((&old(self).entity_seq()[i],), #[trigger] picks[i])
                    &&& r@.len() == tp.len()
                    &&& forall|k: int| 0 <= k < r@.len() ==> (*#[trigger] r@[k])@ == old(self).views()[tp[k]]
                    &&& final(self).views().len() == picks.len()
                    &&& forall|i: int|
                        0 <= i < picks.len() && !picks[i] ==> #[trigger] final(self).views()[i]
                            == old(self).views()[i]
                    &&& forall|k: int|
                        0 <= k < r@.len() ==> final(self).views()[tp[k]] == (*final(#[trigger] r@[k]))@
                },
            (forall|i: int|
                0 <= i < old(self).views().len() ==> #[trigger] final(self).views()[i].id == old(self).views()[i].id)
                ==> final(self).wf(),
            final(self).next_id() == old(self).next_id(),
    {
        let mut r: Vec<&mut Entity> = Vec::new();
        let picks = collect_picked_mut(self.entities.as_mut_slice(), &mut r, &f);
        proof {
            lemma_true_positions(picks@);
        }
        r
    }

    /// The entities for which `f` answers true, in increasing order of their ids.
    pub fn select<T>(&self, f: T) -> (r: Vec<&Entity>)
        where
            T: Fn(&Entity) -> bool,
        requires
            forall|e: &Entity| #[trigger] f.requires((e,)),
        ensures
            exists|picks: Seq<bool>|
                {
                    &&& picks.len() == self.views().len()
                    &&& forall|i: int|
                        0 <= i < picks.len() ==> f.ensures((&self.entity_seq()[i],), #[trigger] picks[i])
                    &&& r@.map_values(|e: &Entity| e@) == picked(self.views(), picks)
                },
    {
        let mut r: Vec<&Entity> = Vec::new();
        let ghost mut picks: Seq<bool> = Seq::empty();
        let mut i: usize = 0;
        while i < self.entities.len()
            invariant
                i <= self.entities@.len(),
                forall|e: &Entity| #[trigger] f.requires((e,)),
                picks.len() == i,
                forall|j: int| 0 <= j < i ==> f.ensures((&self.entities@[j],), #[trigger] picks[j]),
                r@.map_values(|e: &Entity| e@) == picked(self.views().subrange(0, i as int), picks),
            decreases self.entities@.len() - i,
        {
            let e = &self.entities[i];
            let b = f(e);
            let ghost before = r@;
            if b {
                r.push(e);
            }
            proof {
                let sub = self.views().subrange(0, i + 1);
                assert(sub.drop_last() =~= self.views().subrange(0, i as int));
                assert(picks.push(b).drop_last() =~= picks);
                picks = picks.push(b);
                assert(r@.map_values(|e: &Entity| e@) =~= picked(sub, picks));
            }
            i = i + 1;
        }
        assert(self.views().subrange(0, i as int) =~= self.views());
        r
    }
}

} // verus!
