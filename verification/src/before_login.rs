//! Packets from clients that have not logged in yet.
use vstd::prelude::*;
use crate::bytes::{le16, le32, zeros};
use crate::component::{
    AfterLoginInfo, ClientId, ClientState, EntityId, MAX_CLIENT_UID, MIN_CLIENT_UID, EXP_COUNT, ITEM_COUNT, MACRO_COUNT,
};
use crate::config::Config;
use crate::consistency::{entity_ok, lemma_update_keeps, world_ok};
use crate::db::{SettingSchema, UserSchema};
use crate::hash::{hash_password, hex_text, sha3_256_of};
use crate::object::{EntityView, World};
use crate::packet::{error, error_body, ErrorKind};
use crate::reader::{field_text, PacketReader};
use crate::server::{object_error, told, HandleError, Server};
use crate::session::{outbox_view, packets_to, send};
use crate::writer::{body_prefix, fixed_text, PacketWriter};

verus! {

pub const PACKET_LOGIN: u8 = 3;
pub const PACKET_REENTER_SERVER: u8 = 20;

/// What a login with password `pw` finds for the user record `found` (the
/// first with the id asked for, if any): no such id, a wrong password, a
/// banned user, or the record.
pub open spec fn login_check(found: Option<UserSchema>, pw: Seq<char>) -> (Option<UserSchema>, Option<ErrorKind>) {
    match found {
        None => (None, Some(ErrorKind::InvalidId)),
        Some(u) => if u.pw@ != hex_text(sha3_256_of(pw)) {
            (None, Some(ErrorKind::InvalidAccInfo))
        } else if u.is_banned {
            (None, Some(ErrorKind::Banned))
        } else {
            (Some(u), None)
        },
    }
}

/// Checks the password `pw` against `found`, the first user record whose id is
/// the one asked for, if there is one.
pub fn try_get_user_schema(found: Option<UserSchema>, pw: &String) -> (r: (Option<UserSchema>, Option<ErrorKind>))
    ensures
        r == login_check(found, pw@),
{
    let hashed_pw = hash_password(pw.as_str());
    match found {
        Some(user_schema) => {
            if user_schema.pw != hashed_pw {
                (None, Some(ErrorKind::InvalidAccInfo))
            } else if user_schema.is_banned {
                (None, Some(ErrorKind::Banned))
            } else {
                (Some(user_schema), None)
            }
        },
        None => (None, Some(ErrorKind::InvalidId)),
    }
}

/// The client uids of the logged-in entities of `s`, in order.
pub open spec fn client_uids(s: Seq<EntityView>) -> Seq<u16>
    decreases s.len(),
{
    if s.len() == 0 {
        Seq::<u16>::empty()
    } else if s.last().login is Some {
        client_uids(s.drop_last()).push(s.last().login->0.client_uid)
    } else {
        client_uids(s.drop_last())
    }
}

proof fn lemma_client_uids(s: Seq<EntityView>, c: u16)
    ensures
        client_uids(s).contains(c) <==> exists|j: int| 0 <= j < s.len() && s[j].login is Some && s[j].login->0.client_uid == c,
    decreases s.len(),
{
    if s.len() > 0 {
        lemma_client_uids(s.drop_last(), c);
        let r = client_uids(s);
        let r0 = client_uids(s.drop_last());
        if r.contains(c) {
            let t = choose|t: int| 0 <= t < r.len() && r[t] == c;
            if t < r0.len() {
                assert(r[t] == r0[t]);
                assert(r0.contains(c));
                let j = choose|j: int| 0 <= j < s.drop_last().len() && s.drop_last()[j].login is Some && s.drop_last()[j].login->0.client_uid == c;
                assert(s[j] == s.drop_last()[j]);
            } else {
                assert(s[s.len() - 1].login is Some);
            }
        }
        if exists|j: int| 0 <= j < s.len() && s[j].login is Some && s[j].login->0.client_uid == c {
            let j = choose|j: int| 0 <= j < s.len() && s[j].login is Some && s[j].login->0.client_uid == c;
            if j < s.len() - 1 {
                assert(s.drop_last()[j] == s[j]);
                assert(r0.contains(c));
                let t = choose|t: int| 0 <= t < r0.len() && r0[t] == c;
                assert(r[t] == c);
            } else {
                assert(r[r.len() - 1] == c);
            }
        }
    }
}

/// Some logged-in entity has the client uid `c`.
pub open spec fn uid_taken(w: Map<EntityId, EntityView>, c: u16) -> bool {
    exists|k: EntityId| #[trigger] w.contains_key(k) && w[k].login is Some && w[k].login->0.client_uid == c
}

/// Whether `v` holds `x`.
fn holds(v: &Vec<u16>, x: u16) -> (b: bool)
    ensures
        b == v@.contains(x),
{
    let mut i: usize = 0;
    while i < v.len()
        invariant
            i <= v@.len(),
            forall|j: int| 0 <= j < i ==> v@[j] != x,
        decreases v@.len() - i,
    {
        if v[i] == x {
            return true;
        }
        i = i + 1;
    }
    false
}

/// The smallest client uid that no logged-in client has; none if all are taken.
pub fn try_register_client_uid(world: &World) -> (r: Option<ClientId>)
    requires
        world.wf(),
    ensures
        match r {
            Some(c) => MIN_CLIENT_UID <= c <= MAX_CLIENT_UID && !uid_taken(world@, c) && forall|d: u16|
                MIN_CLIENT_UID <= d < c ==> #[trigger] uid_taken(world@, d),
            None => forall|d: u16| MIN_CLIENT_UID <= d <= MAX_CLIENT_UID ==> #[trigger] uid_taken(world@, d),
        },
{
    let v = world.values();
    let mut ids: Vec<u16> = Vec::new();
    let mut i: usize = 0;
    while i < v.len()
        invariant
            i <= v@.len(),
            v@.len() == world.views().len(),
            forall|j: int| 0 <= j < v@.len() ==> #[trigger] v@[j]@ == world.views()[j],
            ids@ == client_uids(world.views().subrange(0, i as int)),
        decreases v@.len() - i,
    {
        let ghost sub = world.views().subrange(0, i + 1);
        assert(sub.drop_last() =~= world.views().subrange(0, i as int));
        match v[i].get::<AfterLoginInfo>() {
            Ok(info) => {
                ids.push(info.client_uid);
            },
            Err(_) => {},
        }
        i = i + 1;
    }
    assert(world.views().subrange(0, i as int) =~= world.views());
    proof {
        world.lemma_views();
        assert forall|c: u16| ids@.contains(c) <==> uid_taken(world@, c) by {
            lemma_client_uids(world.views(), c);
            if ids@.contains(c) {
                let j = choose|j: int| 0 <= j < world.views().len() && world.views()[j].login is Some && world.views()[j].login->0.client_uid == c;
                assert(world@.contains_key(world.views()[j].id));
            }
            if uid_taken(world@, c) {
                let k = choose|k: EntityId| #[trigger] world@.contains_key(k) && world@[k].login is Some && world@[k].login->0.client_uid == c;
                let j = crate::object::position_of(world.views(), k);
                assert(world.views()[j] == world@[k]);
            }
        }
    }
    let mut candidate: u16 = MIN_CLIENT_UID;
    loop
        invariant
            MIN_CLIENT_UID <= candidate <= MAX_CLIENT_UID,
            forall|c: u16| ids@.contains(c) <==> uid_taken(world@, c),
            forall|d: u16| MIN_CLIENT_UID <= d < candidate ==> #[trigger] uid_taken(world@, d),
        decreases MAX_CLIENT_UID - candidate,
    {
        if !holds(&ids, candidate) {
            return Some(candidate);
        }
        if candidate == MAX_CLIENT_UID {
            return None;
        }
        candidate = candidate + 1;
    }
}

/// The decimal digits of `n`.
pub open spec fn decimal(n: nat) -> Seq<char>
    decreases n,
{
    if n < 10 {
        seq![(48 + n) as char]
    } else {
        decimal(n / 10) + seq![(48 + n % 10) as char]
    }
}

/// Calls `format!` to write `prefix` followed by `i` in decimal, as `Display`
/// writes an integer.
#[verifier::external_body]
fn numbered(prefix: &str, i: usize) -> (s: String)
    ensures
        s@ == prefix@ + decimal(i as nat),
{
    format!("{prefix}{i}")
}

/// The rows of the chat macros: each cut or padded to 55 bytes, then 15 zeros.
pub open spec fn macro_rows(ms: Seq<String>) -> Seq<u8>
    decreases ms.len(),
{
    if ms.len() == 0 {
        Seq::<u8>::empty()
    } else {
        macro_rows(ms.drop_last()) + fixed_text(ms.last()@, 55) + zeros(15)
    }
}

/// The experience values, four bytes each.
pub open spec fn exp_bytes(es: Seq<u32>) -> Seq<u8>
    decreases es.len(),
{
    if es.len() == 0 {
        Seq::<u8>::empty()
    } else {
        exp_bytes(es.drop_last()) + le32(es.last())
    }
}

/// The first `n` rows of the friend list, each a placeholder named "User i".
pub open spec fn friend_rows(n: nat) -> Seq<u8>
    decreases n,
{
    if n == 0 {
        Seq::<u8>::empty()
    } else {
        friend_rows((n - 1) as nat) + seq![0u8, 1u8] + le32(0) + le32(0) + seq![0u8, 0u8] + fixed_text(
            "User "@ + decimal((n - 1) as nat),
            16,
        )
    }
}

/// The first `n` of twenty placeholder texts "Test i", 13 bytes each.
pub open spec fn test_rows(n: nat) -> Seq<u8>
    decreases n,
{
    if n == 0 {
        Seq::<u8>::empty()
    } else {
        test_rows((n - 1) as nat) + fixed_text("Test "@ + decimal((n - 1) as nat), 13)
    }
}

/// The music setting word: volume, bit 8 when not muted, bit 9 for echo.
pub open spec fn bgm_word(st: SettingSchema) -> u32 {
    ((if !st.bgm_mute { 256u32 } else { 0u32 }) + (if st.bgm_echo { 512u32 } else { 0u32 }) + st.bgm_volume) as u32
}

/// The sound setting word: volume, bit 8 when not muted.
pub open spec fn sound_word(st: SettingSchema) -> u32 {
    ((if !st.sound_mute { 256u32 } else { 0u32 }) + st.sound_volume) as u32
}

/// The head of the login body, up to the chat macros.
pub open spec fn login_head(info: AfterLoginInfo) -> Seq<u8> {
    let s = info.user_schema;
    body_prefix((PACKET_LOGIN + 1) as u8) + le16(info.client_uid) + seq![0u8, if s.is_muted { 1u8 } else { 0u8 }]
        + zeros(4) + seq![0u8, s.level] + le32(0) + le32(0) + seq![0u8, 0u8] + fixed_text(s.name@, 16)
        + seq![s.setting.key_binding] + macro_rows(s.setting.macros@)
}

/// The login body up to the friend list.
pub open spec fn login_middle(info: AfterLoginInfo) -> Seq<u8> {
    let s = info.user_schema;
    let head = login_head(info);
    head + zeros((608 - head.len()) as nat) + le32(bgm_word(s.setting)) + le32(sound_word(s.setting)) + le32(s.money)
        + exp_bytes(s.exps@) + s.items@ + seq![10u8]
}

/// The body that accepts a login: the client uid, the user's record and
/// settings, ten placeholder friends and twenty placeholder texts.
pub open spec fn login_body(info: AfterLoginInfo) -> Seq<u8> {
    let mid = login_middle(info);
    mid + zeros((660 - mid.len()) as nat) + friend_rows(10) + zeros(280) + test_rows(20) + le32(1) + le32(0) + seq![
        25u8,
        7u8,
    ] + le16(2004)
}

/// The user record fits the login packet: at most eight macros, and the
/// experience values and items fit before byte 660.
pub open spec fn login_fits(u: UserSchema) -> bool {
    &&& u.setting.macros@.len() <= MACRO_COUNT
    &&& 4 * u.exps@.len() + u.items@.len() <= 39
}

/// The packet that accepts a login.
pub fn make_login_packet(info: &AfterLoginInfo) -> (pkt: Vec<u8>)
    requires
        login_fits(info.user_schema),
    ensures
        crate::writer::is_packet_of(pkt@, login_body(*info)),
{
    let schema = &info.user_schema;
    let setting = &info.user_schema.setting;
    let bgm_setting: u32 = (if !setting.bgm_mute { 256u32 } else { 0u32 }) + (if setting.bgm_echo { 512u32 } else { 0u32 })
        + setting.bgm_volume as u32;
    let sound_setting: u32 = (if !setting.sound_mute { 256u32 } else { 0u32 }) + setting.sound_volume as u32;
    let mut pw = PacketWriter::new(PACKET_LOGIN + 1);
    pw.u16(info.client_uid).u8(0).u8(if schema.is_muted { 1 } else { 0 }).pad_to(16).u8(0).u8(schema.level).u32(0).u32(0).u8(0).u8(0)
        .string(schema.name.as_str(), 16).u8(setting.key_binding);
    proof {
        crate::writer::lemma_fixed_text_len(schema.name@, 16);
    }
    let ghost h0 = pw.bytes();
    assert(h0.len() == 45);
    let mut i: usize = 0;
    while i < setting.macros.len()
        invariant
            i <= setting.macros@.len(),
            setting.macros@.len() <= MACRO_COUNT,
            pw.op() == PACKET_LOGIN + 1,
            pw.bytes() == h0 + macro_rows(setting.macros@.subrange(0, i as int)),
            pw.bytes().len() == 45 + 70 * i,
        decreases setting.macros@.len() - i,
    {
        pw.string(setting.macros[i].as_str(), 55).pad(15);
        proof {
            crate::writer::lemma_fixed_text_len(setting.macros@[i as int]@, 55);
            assert(setting.macros@.subrange(0, i + 1).drop_last() =~= setting.macros@.subrange(0, i as int));
        }
        i = i + 1;
        assert(pw.bytes() =~= h0 + macro_rows(setting.macros@.subrange(0, i as int)));
    }
    assert(setting.macros@.subrange(0, i as int) =~= setting.macros@);
    assert(pw.bytes() =~= login_head(*info));
    pw.pad_to(608).u32(bgm_setting).u32(sound_setting).u32(schema.money);
    let ghost h1 = pw.bytes();
    let mut e: usize = 0;
    while e < schema.exps.len()
        invariant
            e <= schema.exps@.len(),
            pw.op() == PACKET_LOGIN + 1,
            pw.bytes() == h1 + exp_bytes(schema.exps@.subrange(0, e as int)),
            pw.bytes().len() == 620 + 4 * e,
        decreases schema.exps@.len() - e,
    {
        pw.u32(schema.exps[e]);
        proof {
            assert(schema.exps@.subrange(0, e + 1).drop_last() =~= schema.exps@.subrange(0, e as int));
        }
        e = e + 1;
        assert(pw.bytes() =~= h1 + exp_bytes(schema.exps@.subrange(0, e as int)));
    }
    assert(schema.exps@.subrange(0, e as int) =~= schema.exps@);
    let ghost h2 = pw.bytes();
    pw.u8s(schema.items.as_slice());
    pw.u8(10);
    assert(pw.bytes() =~= login_middle(*info));
    pw.pad_to(660);
    let ghost h3 = pw.bytes();
    let mut f: usize = 0;
    while f < 10
        invariant
            f <= 10,
            pw.op() == PACKET_LOGIN + 1,
            pw.bytes() == h3 + friend_rows(f as nat),
            pw.bytes().len() == 660 + 28 * f,
        decreases 10 - f,
    {
        let name = numbered("User ", f);
        pw.u8(0).u8(1).u32(0).u32(0).u8(0).u8(0).string(name.as_str(), 16);
        proof {
            crate::writer::lemma_fixed_text_len(name@, 16);
        }
        f = f + 1;
        assert(pw.bytes() =~= h3 + friend_rows(f as nat));
    }
    pw.pad_to(1220);
    let ghost h4 = pw.bytes();
    let mut t: usize = 0;
    while t < 20
        invariant
            t <= 20,
            pw.op() == PACKET_LOGIN + 1,
            pw.bytes() == h4 + test_rows(t as nat),
        decreases 20 - t,
    {
        let text = numbered("Test ", t);
        pw.string(text.as_str(), 13);
        t = t + 1;
        assert(pw.bytes() =~= h4 + test_rows(t as nat));
    }
    pw.u32(1).u32(0).u8(25).u8(7).u16(2004);
    assert(pw.bytes() =~= login_body(*info));
    pw.as_vec()
}

/// Each chat macro takes 70 bytes of the login body.
proof fn lemma_macro_rows_len(ms: Seq<String>)
    ensures
        macro_rows(ms).len() == 70 * ms.len(),
    decreases ms.len(),
{
    if ms.len() > 0 {
        lemma_macro_rows_len(ms.drop_last());
        crate::writer::lemma_fixed_text_len(ms.last()@, 55);
    }
}

/// The packet that accepts a login gives the user's saved sound settings back
/// to the client. At body offset 608 stands the music word: its first byte is
/// the volume; in its second byte, bit 0 is set exactly when the music is not
/// muted and bit 1 exactly when it echoes; its last two bytes are zero. The
/// sound word follows: the volume, then bit 0 set exactly when the sound is not
/// muted. Read back the way a settings update reads these words, they give the
/// user's settings unchanged.
pub proof fn law_login_sound_settings(info: AfterLoginInfo)
    requires
        login_fits(info.user_schema),
    ensures
        ({
            let b = login_body(info);
            let st = info.user_schema.setting;
            &&& b.len() >= 616
            &&& b[608] == st.bgm_volume
            &&& b[609] == (if st.bgm_mute { 0u8 } else { 1u8 }) + (if st.bgm_echo { 2u8 } else { 0u8 })
            &&& b[610] == 0u8 && b[611] == 0u8
            &&& b[612] == st.sound_volume
            &&& b[613] == (if st.sound_mute { 0u8 } else { 1u8 })
            &&& b[614] == 0u8 && b[615] == 0u8
            &&& forall|kb: u8, ms: Seq<Seq<char>>, st2: SettingSchema|
                #[trigger] crate::after_login::settings_of(kb, ms, crate::bytes::get_u32(b, 608), crate::bytes::get_u32(b, 612), st2)
                    ==> st2.bgm_volume == st.bgm_volume && st2.bgm_mute == st.bgm_mute && st2.bgm_echo == st.bgm_echo
                    && st2.sound_volume == st.sound_volume && st2.sound_mute == st.sound_mute
        }),
{
    let s = info.user_schema;
    let st = s.setting;
    lemma_macro_rows_len(st.macros@);
    crate::writer::lemma_fixed_text_len(s.name@, 16);
    let head = login_head(info);
    assert(head.len() == 45 + 70 * st.macros@.len());
    let mid = login_middle(info);
    let b = login_body(info);
    let bgm = bgm_word(st);
    let snd = sound_word(st);
    assert(mid.subrange(608, 612) =~= le32(bgm));
    assert(mid.subrange(612, 616) =~= le32(snd));
    assert(b.subrange(0, mid.len() as int) =~= mid);
    assert(b[608] == mid[608] && b[609] == mid[609] && b[610] == mid[610] && b[611] == mid[611]);
    assert(b[612] == mid[612] && b[613] == mid[613] && b[614] == mid[614] && b[615] == mid[615]);
    let vol = st.bgm_volume;
    let m: u32 = if st.bgm_mute { 0u32 } else { 256u32 };
    let e: u32 = if st.bgm_echo { 512u32 } else { 0u32 };
    assert(bgm == m + e + vol);
    let hi: u8 = if st.bgm_mute {
        if st.bgm_echo { 2u8 } else { 0u8 }
    } else {
        if st.bgm_echo { 3u8 } else { 1u8 }
    };
    let v32: u32 = vol as u32;
    assert(bgm == (m + e + v32) as u32);
    assert(((bgm & 0xff) as u8 == vol && ((bgm >> 8u32) & 0xff) as u8 == hi && ((bgm >> 16u32) & 0xff) as u8 == 0u8
        && ((bgm >> 24u32) & 0xff) as u8 == 0u8 && (bgm & 0xffu32) as u8 == vol
        && (((bgm >> 8u32) & 1u32 == 0u32) == (m == 0u32)) && (((bgm >> 8u32) & 2u32 != 0u32) == (e != 0u32))))
        by (bit_vector)
        requires
            bgm == (m + e + v32) as u32,
            v32 == vol as u32,
            m == 0u32 || m == 256u32,
            e == 0u32 || e == 512u32,
            hi == (if m == 0u32 {
                if e == 0u32 { 0u8 } else { 2u8 }
            } else {
                if e == 0u32 { 1u8 } else { 3u8 }
            }),
    ;
    let svol = st.sound_volume;
    let sm: u32 = if st.sound_mute { 0u32 } else { 256u32 };
    let s32: u32 = svol as u32;
    assert(snd == sm + svol);
    assert(snd == (sm + s32) as u32);
    let shi: u8 = if st.sound_mute { 0u8 } else { 1u8 };
    assert(((snd & 0xff) as u8 == svol && ((snd >> 8u32) & 0xff) as u8 == shi && ((snd >> 16u32) & 0xff) as u8 == 0u8
        && ((snd >> 24u32) & 0xff) as u8 == 0u8 && (snd & 0xffu32) as u8 == svol
        && (((snd >> 8u32) & 1u32 == 0u32) == (sm == 0u32))))
        by (bit_vector)
        requires
            snd == (sm + s32) as u32,
            s32 == svol as u32,
            sm == 0u32 || sm == 256u32,
            shi == (if sm == 0u32 { 0u8 } else { 1u8 }),
    ;
    crate::bytes::lemma_u32_roundtrip(bgm);
    crate::bytes::lemma_u32_roundtrip(snd);
    assert(crate::bytes::get_u32(b, 608) == crate::bytes::get_u32(le32(bgm), 0));
    assert(crate::bytes::get_u32(b, 612) == crate::bytes::get_u32(le32(snd), 0));
}

/// Some logged-in entity belongs to the user with id `id`.
pub open spec fn online(w: Map<EntityId, EntityView>, id: Seq<char>) -> bool {
    exists|k: EntityId| #[trigger] w.contains_key(k) && w[k].login is Some && w[k].login->0.user_schema.id@ == id
}

/// Whether a logged-in entity belongs to the user with id `id`.
fn is_online(world: &World, id: &String) -> (r: bool)
    requires
        world.wf(),
    ensures
        r == online(world@, id@),
{
    let v = world.values();
    let mut i: usize = 0;
    proof {
        world.lemma_views();
    }
    while i < v.len()
        invariant
            i <= v@.len(),
            world.wf(),
            v@.len() == world.views().len(),
            forall|j: int| 0 <= j < v@.len() ==> #[trigger] v@[j]@ == world.views()[j],
            forall|j: int|
                0 <= j < i ==> !(world.views()[j].login is Some && world.views()[j].login->0.user_schema.id@ == id@),
        decreases v@.len() - i,
    {
        if let Ok(info) = v[i].get::<AfterLoginInfo>() {
            if info.user_schema.id == *id {
                proof {
                    world.lemma_views();
                    assert(world@.contains_key(world.views()[i as int].id));
                }
                return true;
            }
        }
        i = i + 1;
    }
    proof {
        world.lemma_views();
        if online(world@, id@) {
            let k = choose|k: EntityId| #[trigger] world@.contains_key(k) && world@[k].login is Some && world@[k].login->0.user_schema.id@ == id@;
            let j = crate::object::position_of(world.views(), k);
            assert(world.views()[j] == world@[k]);
        }
    }
    false
}

/// No two logged-in entities share a client uid.
pub open spec fn client_uids_unique(w: Map<EntityId, EntityView>) -> bool {
    forall|a: EntityId, b: EntityId|
        #![trigger w[a].login, w[b].login]
        w.contains_key(a) && w.contains_key(b) && a != b && w[a].login is Some && w[b].login is Some
            ==> w[a].login->0.client_uid != w[b].login->0.client_uid
}

/// No user is logged in twice.
pub open spec fn users_unique(w: Map<EntityId, EntityView>) -> bool {
    forall|a: EntityId, b: EntityId|
        #![trigger w[a].login, w[b].login]
        w.contains_key(a) && w.contains_key(b) && a != b && w[a].login is Some && w[b].login is Some
            ==> w[a].login->0.user_schema.id@ != w[b].login->0.user_schema.id@
}

/// Logging a client in keeps client uids on at most one entity each, and, where
/// the user was not online, users too.
proof fn lemma_login_keeps_unique(w: Map<EntityId, EntityView>, eid: EntityId, info: AfterLoginInfo)
    requires
        w.contains_key(eid),
        !uid_taken(w, info.client_uid),
    ensures
        ({
            let w2 = w.insert(eid, EntityView { state: Some(ClientState::AfterLogin), login: Some(info), ..w[eid] });
            &&& client_uids_unique(w) ==> client_uids_unique(w2)
            &&& users_unique(w) && !online(w, info.user_schema.id@) ==> users_unique(w2)
        }),
{
    let w2 = w.insert(eid, EntityView { state: Some(ClientState::AfterLogin), login: Some(info), ..w[eid] });
    if client_uids_unique(w) {
        assert forall|a: EntityId, b: EntityId|
            #![trigger w2[a].login, w2[b].login]
            w2.contains_key(a) && w2.contains_key(b) && a != b && w2[a].login is Some && w2[b].login is Some
                implies w2[a].login->0.client_uid != w2[b].login->0.client_uid by {
            if a == eid {
                assert(w.contains_key(b) && w[b].login is Some);
            } else if b == eid {
                assert(w.contains_key(a) && w[a].login is Some);
            } else {
                assert(w[a].login == w2[a].login && w[b].login == w2[b].login);
            }
        }
    }
    if users_unique(w) && !online(w, info.user_schema.id@) {
        assert forall|a: EntityId, b: EntityId|
            #![trigger w2[a].login, w2[b].login]
            w2.contains_key(a) && w2.contains_key(b) && a != b && w2[a].login is Some && w2[b].login is Some
                implies w2[a].login->0.user_schema.id@ != w2[b].login->0.user_schema.id@ by {
            if a == eid {
                assert(w.contains_key(b) && w[b].login is Some);
            } else if b == eid {
                assert(w.contains_key(a) && w[a].login is Some);
            } else {
                assert(w[a].login == w2[a].login && w[b].login == w2[b].login);
            }
        }
    }
}

/// Sends the client `eid` an error of `kind`.
pub fn reject_login(server: &mut Server, entity_id: &EntityId, kind: ErrorKind)
    requires
        old(server).world.wf(),
        old(server).world@.contains_key(*entity_id),
        old(server).world@[*entity_id].sender is Some,
    ensures
        final(server).world == old(server).world,
        final(server).config == old(server).config,
        final(server).now == old(server).now,
        told(old(server).outbox@, final(server).outbox@, seq![*entity_id], error_body(kind)),
{
    let pkt = error(kind);
    let entity = server.world.get(entity_id).unwrap();
    send(&mut server.outbox, entity, pkt);
    assert(outbox_view(server.outbox@) =~= outbox_view(old(server).outbox@) + packets_to(seq![*entity_id], pkt@));
}

/// Completes the login of the client `eid` as `user`, whose id is `id`. If the
/// user is already logged in elsewhere, or every client uid is taken, the
/// client is told so. Otherwise it takes the smallest free client uid, is
/// logged in and is sent its record.
pub fn finish_login(server: &mut Server, entity_id: &EntityId, id: &String, user: UserSchema) -> (r: Result<(), HandleError>)
    requires
        old(server).world.wf(),
        old(server).world@.contains_key(*entity_id),
        old(server).world@[*entity_id].sender is Some,
        login_fits(user),
    ensures
        r is Ok,
        final(server).config == old(server).config,
        final(server).now == old(server).now,
        final(server).world.wf(),
        final(server).world.next_id() == old(server).world.next_id(),
        ({
            let w = old(server).world@;
            let w2 = final(server).world@;
            if online(w, id@) {
                w2 == w && told(old(server).outbox@, final(server).outbox@, seq![*entity_id], error_body(ErrorKind::Online))
            } else if forall|d: u16| MIN_CLIENT_UID <= d <= MAX_CLIENT_UID ==> #[trigger] uid_taken(w, d) {
                w2 == w && told(old(server).outbox@, final(server).outbox@, seq![*entity_id], error_body(ErrorKind::FullOfClients))
            } else {
                let uid = choose|c: u16| MIN_CLIENT_UID <= c <= MAX_CLIENT_UID && !uid_taken(w, c) && forall|d: u16|
                    MIN_CLIENT_UID <= d < c ==> #[trigger] uid_taken(w, d);
                let info = AfterLoginInfo { client_uid: uid, user_schema: user };
                &&& w2 == w.insert(
                    *entity_id,
                    EntityView { state: Some(ClientState::AfterLogin), login: Some(info), ..w[*entity_id] },
                )
                &&& told(old(server).outbox@, final(server).outbox@, seq![*entity_id], login_body(info))
            }
        }),
        client_uids_unique(old(server).world@) ==> client_uids_unique(final(server).world@),
        users_unique(old(server).world@) && user.id@ == id@ ==> users_unique(final(server).world@),
        world_ok(old(server).world@) && old(server).world@[*entity_id].state == Some(ClientState::BeforeLogin) && user.id@
            == id@ ==> world_ok(final(server).world@),
{
    let ghost w = server.world@;
    if is_online(&server.world, id) {
        reject_login(server, entity_id, ErrorKind::Online);
        return Ok(());
    }
    let client_id = match try_register_client_uid(&server.world) {
        Some(c) => c,
        None => {
            reject_login(server, entity_id, ErrorKind::FullOfClients);
            return Ok(());
        },
    };
    proof {
        let c = choose|c: u16| MIN_CLIENT_UID <= c <= MAX_CLIENT_UID && !uid_taken(w, c) && forall|d: u16|
            MIN_CLIENT_UID <= d < c ==> #[trigger] uid_taken(w, d);
        if c < client_id {
            assert(uid_taken(w, c));
        } else if client_id < c {
            assert(uid_taken(w, client_id));
        }
    }
    let info = AfterLoginInfo::new(client_id, user);
    let pkt = make_login_packet(&info);
    let ghost info_v = info;
    let entity = server.world.get_mut(entity_id).unwrap();
    entity.push(ClientState::AfterLogin);
    entity.push(info);
    let entity = server.world.get(entity_id).unwrap();
    send(&mut server.outbox, entity, pkt);
    assert(outbox_view(server.outbox@) =~= outbox_view(old(server).outbox@) + packets_to(seq![*entity_id], pkt@));
    assert(server.world@ =~= w.insert(
        *entity_id,
        EntityView { state: Some(ClientState::AfterLogin), login: Some(info_v), ..w[*entity_id] },
    ));
    proof {
        if world_ok(w) && w[*entity_id].state == Some(ClientState::BeforeLogin) {
            assert(entity_ok(w[*entity_id]));
            lemma_update_keeps(
                w,
                *entity_id,
                EntityView { state: Some(ClientState::AfterLogin), login: Some(info_v), ..w[*entity_id] },
            );
        }
        lemma_login_keeps_unique(w, *entity_id, info_v);
    }
    Ok(())
}

/// What to do with the result of a password check.
#[derive(Debug)]
pub enum LoginStep {
    /// Log the user in.
    Accept(UserSchema),
    /// No user has the id; make an account for it.
    CreateAccount,
    /// Tell the client why it cannot log in.
    Reject(ErrorKind),
}

/// Decides what follows a password check: a user that passed is let in; an
/// unknown id gets an account of its own when the server makes accounts
/// automatically; any other failure is reported.
pub fn login_step(check: (Option<UserSchema>, Option<ErrorKind>), use_auto_account: bool) -> (r: LoginStep)
    requires
        (check.0 is Some) != (check.1 is Some),
    ensures
        match check {
            (Some(u), _) => r == LoginStep::Accept(u),
            (None, Some(k)) => if k == ErrorKind::InvalidId && use_auto_account {
                r == LoginStep::CreateAccount
            } else {
                r == LoginStep::Reject(k)
            },
            _ => false,
        },
{
    match check {
        (Some(u), _) => LoginStep::Accept(u),
        (None, Some(k)) => {
            if k == ErrorKind::InvalidId && use_auto_account {
                LoginStep::CreateAccount
            } else {
                LoginStep::Reject(k)
            }
        },
        (None, None) => {
            assert(false);
            LoginStep::Reject(ErrorKind::InvalidId)
        },
    }
}

/// `n` zeros of type `T`, built by pushing.
fn zero_bytes(n: usize) -> (v: Vec<u8>)
    ensures
        v@ == zeros(n as nat),
{
    let mut v: Vec<u8> = Vec::new();
    let mut i: usize = 0;
    while i < n
        invariant
            i <= n,
            v@ == zeros(i as nat),
        decreases n - i,
    {
        v.push(0);
        i = i + 1;
        assert(v@ =~= zeros(i as nat));
    }
    v
}

/// The user record of a new account named `name` with the id `id` and the
/// password `pw` (kept hashed): at the configured level and money, with no
/// items, experience or flags, and the default settings.
pub fn make_account(config: &Config, name: &String, id: &String, pw: &String) -> (u: UserSchema)
    ensures
        u.id@ == id@,
        u.name@ == name@,
        u.pw@ == hex_text(sha3_256_of(pw@)),
        u.level == config.user.initial_level,
        u.money == config.user.initial_money,
        u.items@ == zeros(ITEM_COUNT as nat),
        u.exps@ == Seq::new(EXP_COUNT as nat, |i: int| 0u32),
        !u.is_female && !u.is_admin && !u.is_muted && !u.is_banned,
        u.setting.key_binding == 1,
        u.setting.bgm_volume == 49,
        !u.setting.bgm_mute,
        u.setting.bgm_echo,
        u.setting.sound_volume == 49,
        !u.setting.sound_mute,
        u.setting.macros@.len() == MACRO_COUNT,
        forall|i: int| 0 <= i < MACRO_COUNT ==> (#[trigger] u.setting.macros@[i])@ == Seq::<char>::empty(),
        login_fits(u),
{
    let mut exps: Vec<u32> = Vec::new();
    let mut i: usize = 0;
    while i < EXP_COUNT
        invariant
            i <= EXP_COUNT,
            exps@ == Seq::new(i as nat, |k: int| 0u32),
        decreases EXP_COUNT - i,
    {
        exps.push(0);
        i = i + 1;
        assert(exps@ =~= Seq::new(i as nat, |k: int| 0u32));
    }
    let mut macros: Vec<String> = Vec::new();
    let mut j: usize = 0;
    while j < MACRO_COUNT
        invariant
            j <= MACRO_COUNT,
            macros@.len() == j,
            forall|k: int| 0 <= k < j ==> (#[trigger] macros@[k])@ == Seq::<char>::empty(),
        decreases MACRO_COUNT - j,
    {
        macros.push(String::new());
        j = j + 1;
    }
    UserSchema {
        id: id.clone(),
        pw: hash_password(pw.as_str()),
        name: name.clone(),
        level: config.user.initial_level,
        is_female: false,
        money: config.user.initial_money,
        items: zero_bytes(ITEM_COUNT),
        exps: exps,
        is_admin: false,
        is_muted: false,
        is_banned: false,
        setting: SettingSchema {
            key_binding: 1,
            bgm_volume: 49,
            bgm_mute: false,
            bgm_echo: true,
            sound_volume: 49,
            sound_mute: false,
            macros: macros,
        },
    }
}

/// Whether a new account can be added.
#[derive(Debug, Clone, Copy, PartialEq, Eq, Structural)]
pub enum AccountCheck {
    /// Another account has the id.
    IdDup,
    /// Another account has the name.
    NameDup,
    /// Neither is taken: the account is added.
    Free,
}

/// A new account is refused where its id is taken, else where its name is.
pub fn check_new_account(id_taken: bool, name_taken: bool) -> (c: AccountCheck)
    ensures
        c == (if id_taken {
            AccountCheck::IdDup
        } else if name_taken {
            AccountCheck::NameDup
        } else {
            AccountCheck::Free
        }),
{
    if id_taken {
        AccountCheck::IdDup
    } else if name_taken {
        AccountCheck::NameDup
    } else {
        AccountCheck::Free
    }
}

/// The word that answers an account request for each outcome.
pub open spec fn account_text(c: AccountCheck) -> Seq<char> {
    match c {
        AccountCheck::IdDup => "id_dup"@,
        AccountCheck::NameDup => "name_dup"@,
        AccountCheck::Free => ""@,
    }
}

impl AccountCheck {
    /// The word that answers an account request: "id_dup", "name_dup", or
    /// nothing where the account was added.
    pub fn as_text(&self) -> (s: String)
        ensures
            s@ == account_text(*self),
    {
        match self {
            AccountCheck::IdDup => "id_dup".to_owned(),
            AccountCheck::NameDup => "name_dup".to_owned(),
            AccountCheck::Free => "".to_owned(),
        }
    }
}

/// A client that has logged in comes back to the server screen.
fn reenter_server(server: &mut Server, entity_id: &EntityId, pr: PacketReader) -> (r: Result<(), HandleError>)
    requires
        old(server).world.wf(),
    ensures
        final(server).config == old(server).config,
        final(server).outbox == old(server).outbox,
        final(server).now == old(server).now,
        final(server).world.wf(),
        final(server).world.next_id() == old(server).world.next_id(),
        ({
            let w = old(server).world@;
            if !w.contains_key(*entity_id) {
                r == Err::<(), HandleError>(HandleError::NoEntity) && final(server).world@ == w
            } else if w[*entity_id].login is None {
                r == Err::<(), HandleError>(HandleError::NotAuthenticated) && final(server).world@ == w
            } else {
                r is Ok && final(server).world@ == w.insert(
                    *entity_id,
                    EntityView { state: Some(ClientState::AfterLogin), ..w[*entity_id] },
                )
            }
        }),
{
    let entity = match server.world.get_mut(entity_id) {
        Ok(e) => e,
        Err(e) => return Err(object_error(e)),
    };
    if entity.get::<AfterLoginInfo>().is_err() {
        return Err(HandleError::NotAuthenticated);
    }
    entity.push(ClientState::AfterLogin);
    Ok(())
}

/// What `handle` makes of the server `s0` for a packet `pr` from the client `eid`
/// that has not logged in: the server `s1` and the result `r`.
pub open spec fn before_login_handled(s0: Server, s1: Server, eid: EntityId, pr: PacketReader, r: Result<Option<(String, String)>, HandleError>) -> bool {
    &&& s1.config == s0.config
    &&& s1.outbox == s0.outbox
    &&& s1.world.wf()
    &&& pr.op() == PACKET_LOGIN ==> s1.world@ == s0.world@ && (r matches Ok(Some(c)) && c.0@ == field_text(
        pr.bytes().subrange(pr.pos() as int, pr.pos() + 13int),
    ) && c.1@ == field_text(pr.bytes().subrange(pr.pos() + 13int, pr.pos() + 26int)))
    &&& pr.op() == PACKET_REENTER_SERVER ==> ({
        let w = s0.world@;
        if !w.contains_key(eid) {
            r == Err::<Option<(String, String)>, HandleError>(HandleError::NoEntity) && s1.world@ == w
        } else if w[eid].login is None {
            r == Err::<Option<(String, String)>, HandleError>(HandleError::NotAuthenticated) && s1.world@ == w
        } else {
            (r matches Ok(None)) && s1.world@ == w.insert(
                eid,
                EntityView { state: Some(ClientState::AfterLogin), ..w[eid] },
            )
        }
    })
    &&& pr.op() != PACKET_LOGIN && pr.op() != PACKET_REENTER_SERVER ==> (r matches Ok(None)) && s1.world@
        == s0.world@
}

/// Handles a packet from a client that has not logged in. A login request is
/// read (13 bytes of id, 13 of password) and handed back for the user records
/// to be looked up; a client that had logged in may come back; other opcodes
/// are ignored.
pub fn handle(server: &mut Server, entity_id: &EntityId, pr: PacketReader) -> (r: Result<Option<(String, String)>, HandleError>)
    requires
        old(server).world.wf(),
        pr.op() == PACKET_LOGIN ==> pr.pos() + 26 <= pr.bytes().len(),
    ensures
        before_login_handled(*old(server), *final(server), *entity_id, pr, r),
{
    let op = pr.opcode();
    if op == PACKET_LOGIN {
        let mut pr = pr;
        let id = pr.string(13);
        let password = pr.string(13);
        Ok(Some((id, password)))
    } else if op == PACKET_REENTER_SERVER {
        match reenter_server(server, entity_id, pr) {
            Ok(()) => Ok(None),
            Err(e) => Err(e),
        }
    } else {
        Ok(None)
    }
}

/// Whether the user record fits the login packet (see `login_fits`).
pub fn fits_login_packet(u: &UserSchema) -> (r: bool)
    ensures
        r == login_fits(*u),
{
    u.setting.macros.len() <= MACRO_COUNT && u.exps.len() <= 39 && u.items.len() <= 39 && 4 * u.exps.len() + u.items.len() <= 39
}

} // verus!
