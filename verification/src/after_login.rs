//! Packets from clients that have logged in and are choosing where to go:
//! notices, the board, settings, nicknames and the way into the lobby.
use vstd::prelude::*;
use crate::bytes::{le16, le32, zeros};
use crate::component::{AfterLoginInfo, ClientState, EntityId};
use crate::db::{DateTimeSchema, PostSchema, SettingSchema};
use crate::consistency::{entity_ok, lemma_logins_kept, lemma_update_keeps, world_ok};
use crate::object::{EntityView, World};
use crate::packet::{error, error_body, ErrorKind};
use crate::reader::{field_text, PacketReader};
use crate::server::{object_error, told, HandleError, Server};
use crate::session::{outbox_view, packets_to, send, send_by_eid};
use crate::writer::{body_prefix, fixed_text, null_text, PacketWriter};

verus! {

pub const PACKET_FIND_NAME: u8 = 7;
pub const PACKET_REQUEST_NOTICE: u8 = 16;
pub const PACKET_REQUEST_TICKER: u8 = 20;
pub const PACKET_ENTER_BOARD: u8 = 26;
pub const PACKET_READ_ARTICLE: u8 = 28;
pub const PACKET_WRITE_ARTICLE: u8 = 30;
pub const PACKET_UPDATE_SETTINGS: u8 = 41;
pub const PACKET_REGISTER_NAME: u8 = 44;
pub const PACKET_ENTER_LOBBY: u8 = 57;
pub const PACKET_CHANGE_NICKNAME: u8 = 123;

/// `s` with each line break replaced by carriage returns around a blank line.
pub open spec fn crlf_notice(s: Seq<char>) -> Seq<char>
    decreases s.len(),
{
    if s.len() == 0 {
        Seq::<char>::empty()
    } else {
        crlf_notice(s.drop_last()) + if s.last() == '\n' {
            seq!['\r', '\n', '\r', '\n']
        } else {
            seq![s.last()]
        }
    }
}

/// Calls `str::replace` to put "\r\n\r\n" in place of every "\n" of `s`.
#[verifier::external_body]
fn replace_line_breaks(s: &str) -> (r: String)
    ensures
        r@ == crlf_notice(s@),
{
    s.replace("\n", "\r\n\r\n")
}

/// The notice of the configuration, with carriage returns before its line breaks.
pub fn get_notice_msg(server: &Server) -> (r: String)
    ensures
        r@ == crlf_notice(server.config.message.notice@),
{
    replace_line_breaks(server.config.message.notice.as_str())
}

/// The body that shows the notice `msg`.
pub open spec fn notice_body(msg: Seq<char>) -> Seq<u8> {
    body_prefix((PACKET_REQUEST_NOTICE + 1) as u8) + null_text(crlf_notice(msg))
}

/// Sends the client the notice.
fn send_notice(server: &mut Server, entity_id: &EntityId, pr: PacketReader) -> (r: Result<(), HandleError>)
    requires
        old(server).world.wf(),
        old(server).world@.contains_key(*entity_id),
        old(server).world@[*entity_id].sender is Some,
    ensures
        r is Ok,
        final(server).world == old(server).world,
        final(server).config == old(server).config,
        final(server).now == old(server).now,
        told(old(server).outbox@, final(server).outbox@, seq![*entity_id], notice_body(old(server).config.message.notice@)),
{
    let notice_msg = get_notice_msg(server);
    let mut pw = PacketWriter::new(PACKET_REQUEST_NOTICE + 1);
    pw.string_with_null(notice_msg.as_str());
    assert(pw.bytes() =~= notice_body(server.config.message.notice@));
    let pkt = pw.as_vec();
    let entity = server.world.get(entity_id).unwrap();
    send(&mut server.outbox, entity, pkt);
    assert(outbox_view(server.outbox@) =~= outbox_view(old(server).outbox@) + packets_to(seq![*entity_id], pkt@));
    Ok(())
}

/// The ticker line on the channel screen.
pub const TICKER_INITIAL: &'static str = "접속하고 싶은 채널을 선택해라 동~글.";
/// The ticker line on the board.
pub const TICKER_BOARD: &'static str = "읽고 싶은 글을 선택해라 동~글.";
/// The ticker line on the ranking.
pub const TICKER_RANKING: &'static str = "테이머들의 랭킹을 볼 수 있다 동~글.";
/// The ticker line on the selection screen.
pub const TICKER_SELECTION: &'static str = "디지몬 온라인의 세계에 잘 왔다 동~글.";

/// The body of the ticker lines, 101 bytes each.
pub open spec fn ticker_body() -> Seq<u8> {
    body_prefix((PACKET_REQUEST_TICKER + 1) as u8) + fixed_text(TICKER_INITIAL@, 101) + fixed_text(TICKER_BOARD@, 101)
        + fixed_text(TICKER_RANKING@, 101) + fixed_text(TICKER_SELECTION@, 101)
}

/// Sends the client the ticker lines.
fn send_ticker(server: &mut Server, entity_id: &EntityId, pr: PacketReader) -> (r: Result<(), HandleError>)
    requires
        old(server).world.wf(),
        old(server).world@.contains_key(*entity_id),
        old(server).world@[*entity_id].sender is Some,
    ensures
        r is Ok,
        final(server).world == old(server).world,
        final(server).config == old(server).config,
        final(server).now == old(server).now,
        told(old(server).outbox@, final(server).outbox@, seq![*entity_id], ticker_body()),
{
    let mut pw = PacketWriter::new(PACKET_REQUEST_TICKER + 1);
    pw.string(TICKER_INITIAL, 101).string(TICKER_BOARD, 101).string(TICKER_RANKING, 101).string(TICKER_SELECTION, 101);
    assert(pw.bytes() =~= ticker_body());
    let pkt = pw.as_vec();
    send_by_eid(&server.world, &mut server.outbox, entity_id, pkt);
    assert(outbox_view(server.outbox@) =~= outbox_view(old(server).outbox@) + packets_to(seq![*entity_id], pkt@));
    Ok(())
}

/// How many posts a page of the board shows.
pub const POST_MAX_VISIBILITY: usize = 11;

/// The post ids that page `board_idx` of the board shows, newest first from
/// `max_post_id`: from the lower bound to the upper bound, both included.
pub fn board_bounds(max_post_id: u32, board_idx: usize) -> (r: (i64, i64))
    requires
        board_idx <= u32::MAX,
    ensures
        r.1 == max_post_id - board_idx * 11,
        r.0 == r.1 - 11 + 1,
{
    let ub: i64 = max_post_id as i64 - (board_idx as i64) * (POST_MAX_VISIBILITY as i64);
    let lb: i64 = ub - POST_MAX_VISIBILITY as i64 + 1;
    (lb, ub)
}

/// The title shown for a deleted post.
pub const DELETED_TITLE: &'static str = "삭제된 글입니다.";

/// The writer shown when the writer's account is gone.
pub const UNKNOWN_WRITER: &'static str = "알 수 없음";

/// The date of a post as one word: year, month, day.
pub open spec fn date_word(d: DateTimeSchema) -> u32 {
    ((d.year as u32) << 16u32) | (d.month << 8u32) | d.day
}

/// The time of a post as one word: hour and minute.
pub open spec fn time_word(d: DateTimeSchema) -> u32 {
    (d.hour << 16u32) | (d.min << 8u32)
}

/// The 88 bytes of a post in a board page.
pub open spec fn post_row(p: PostSchema, writer: Option<String>) -> Seq<u8> {
    let name = match writer {
        Some(n) => n@,
        None => UNKNOWN_WRITER@,
    };
    seq![if p.is_notice { 1u8 } else { 0u8 }] + zeros(3) + le32(p.post_id) + le32(p.post_id) + fixed_text(
        if p.is_deleted { DELETED_TITLE@ } else { p.title@ },
        48,
    ) + zeros(1) + fixed_text(name, 12) + zeros(3) + le32(date_word(p.datetime)) + le32(time_word(p.datetime)) + le16(
        p.views,
    ) + seq![0u8] + zeros(1)
}

/// The rows of the last `k` posts, the last post first.
pub open spec fn post_rows(ps: Seq<PostSchema>, ws: Seq<Option<String>>, k: nat) -> Seq<u8>
    decreases k,
{
    if k == 0 {
        Seq::<u8>::empty()
    } else {
        post_rows(ps, ws, (k - 1) as nat) + post_row(ps[ps.len() - k], ws[ps.len() - k])
    }
}

/// The body of a board page that shows `posts` (oldest first) written by `writers`.
pub open spec fn board_body(posts: Seq<PostSchema>, writers: Seq<Option<String>>) -> Seq<u8> {
    body_prefix((PACKET_ENTER_BOARD + 1) as u8) + seq![posts.len() as u8] + zeros(3) + post_rows(posts, writers, posts.len())
}

/// Appends the row of `post` written by `writer`.
fn write_post_row(pw: &mut PacketWriter, post: &PostSchema, writer: &Option<String>)
    ensures
        final(pw).bytes() == old(pw).bytes() + post_row(*post, *writer),
        final(pw).op() == old(pw).op(),
{
    let name: &str = match writer {
        Some(w) => w.as_str(),
        None => UNKNOWN_WRITER,
    };
    let y = post.datetime.year as u32;
    let m = post.datetime.month;
    let d = post.datetime.day;
    let h = post.datetime.hour;
    let min = post.datetime.min;
    let title: &str = if post.is_deleted { DELETED_TITLE } else { post.title.as_str() };
    pw.u8(if post.is_notice { 1 } else { 0 }).pad(3).u32(post.post_id).u32(post.post_id).string(title, 48).pad(1)
        .string(name, 12).pad(3).u32((y << 16u32) | (m << 8u32) | d).u32((h << 16u32) | (min << 8u32)).u16(post.views).u8(0)
        .pad(1);
    assert(pw.bytes() =~= old(pw).bytes() + post_row(*post, *writer));
}

/// The packet of a board page: the posts of the page, the newest first, each
/// with the name of its writer (if the account is still there).
pub fn get_board_info_pkt(posts: &Vec<PostSchema>, writers: &Vec<Option<String>>) -> (pkt: Vec<u8>)
    requires
        writers@.len() == posts@.len(),
    ensures
        crate::writer::is_packet_of(pkt@, board_body(posts@, writers@)),
{
    let mut pw = PacketWriter::new(PACKET_ENTER_BOARD + 1);
    pw.u8(posts.len() as u8).pad(3);
    let ghost head = pw.bytes();
    let n = posts.len();
    let mut k: usize = 0;
    while k < n
        invariant
            k <= n,
            n == posts@.len(),
            writers@.len() == n,
            pw.op() == PACKET_ENTER_BOARD + 1,
            pw.bytes() == head + post_rows(posts@, writers@, k as nat),
        decreases n - k,
    {
        write_post_row(&mut pw, &posts[n - 1 - k], &writers[n - 1 - k]);
        k = k + 1;
        assert(pw.bytes() =~= head + post_rows(posts@, writers@, k as nat));
    }
    assert(pw.bytes() =~= board_body(posts@, writers@));
    pw.as_vec()
}

/// The most text an article packet carries.
pub const POST_MAX_TEXT_LEN: usize = 2048;

/// The body that shows an article's `text`.
pub open spec fn article_body(text: Seq<char>) -> Seq<u8> {
    body_prefix((PACKET_READ_ARTICLE + 1) as u8) + fixed_text(text, POST_MAX_TEXT_LEN as nat)
}

/// Answers a request to read an article that is deleted or not, and whose text
/// is `text` if the article was found. A deleted or missing article gets an
/// error; otherwise the client gets the text and true comes back: the
/// article's view count goes up.
pub fn send_article(server: &mut Server, entity_id: &EntityId, is_deleted: bool, text: Option<String>) -> (shown: bool)
    requires
        old(server).world.wf(),
        old(server).world@.contains_key(*entity_id),
        old(server).world@[*entity_id].sender is Some,
    ensures
        final(server).world == old(server).world,
        final(server).config == old(server).config,
        final(server).now == old(server).now,
        shown == (!is_deleted && text is Some),
        shown ==> told(old(server).outbox@, final(server).outbox@, seq![*entity_id], article_body(text->0@)),
        !shown ==> told(old(server).outbox@, final(server).outbox@, seq![*entity_id], error_body(ErrorKind::BoardNotReady)),
{
    if is_deleted {
        let pkt = error(ErrorKind::BoardNotReady);
        send_by_eid(&server.world, &mut server.outbox, entity_id, pkt);
        assert(outbox_view(server.outbox@) =~= outbox_view(old(server).outbox@) + packets_to(seq![*entity_id], pkt@));
        return false;
    }
    let text = match text {
        Some(t) => t,
        None => {
            let pkt = error(ErrorKind::BoardNotReady);
            send_by_eid(&server.world, &mut server.outbox, entity_id, pkt);
            assert(outbox_view(server.outbox@) =~= outbox_view(old(server).outbox@) + packets_to(seq![*entity_id], pkt@));
            return false;
        },
    };
    let mut pw = PacketWriter::new(PACKET_READ_ARTICLE + 1);
    pw.string(text.as_str(), POST_MAX_TEXT_LEN);
    assert(pw.bytes() =~= article_body(text@));
    let pkt = pw.as_vec();
    send_by_eid(&server.world, &mut server.outbox, entity_id, pkt);
    assert(outbox_view(server.outbox@) =~= outbox_view(old(server).outbox@) + packets_to(seq![*entity_id], pkt@));
    true
}

/// The body that answers a board write: an error code (zero for none) and an
/// instruction (1 clears the list).
pub open spec fn write_reply_body(err_kind: Option<ErrorKind>, opcode: u8) -> Seq<u8> {
    body_prefix((PACKET_WRITE_ARTICLE + 1) as u8) + le32(
        match err_kind {
            Some(k) => k.spec_code(),
            None => 0u32,
        },
    ) + seq![opcode]
}

/// The packet that answers a board write.
pub fn make_packet_for_write_article(err_kind: Option<ErrorKind>, opcode: u8) -> (pkt: Vec<u8>)
    ensures
        crate::writer::is_packet_of(pkt@, write_reply_body(err_kind, opcode)),
{
    let err_code = match err_kind {
        Some(v) => v.code(),
        None => 0,
    };
    let mut pw = PacketWriter::new(PACKET_WRITE_ARTICLE + 1);
    pw.u32(err_code).u8(opcode);
    assert(pw.bytes() =~= write_reply_body(err_kind, opcode));
    pw.as_vec()
}

/// The body that answers a change of nickname: an error code, zero for none.
pub open spec fn nickname_reply_body(err_kind: Option<ErrorKind>) -> Seq<u8> {
    body_prefix((PACKET_CHANGE_NICKNAME + 1) as u8) + le32(
        match err_kind {
            Some(k) => k.spec_code(),
            None => 0u32,
        },
    )
}

/// The packet that answers a change of nickname.
pub fn make_packet_for_change_nickname(err_kind: Option<ErrorKind>) -> (pkt: Vec<u8>)
    ensures
        crate::writer::is_packet_of(pkt@, nickname_reply_body(err_kind)),
{
    let err_code = match err_kind {
        Some(k) => k.code(),
        None => 0,
    };
    let mut pw = PacketWriter::new(PACKET_CHANGE_NICKNAME + 1);
    pw.u32(err_code);
    assert(pw.bytes() =~= nickname_reply_body(err_kind));
    pw.as_vec()
}

/// What a board write asks of the board's records.
#[derive(Debug)]
pub enum WriteAction {
    /// Nothing: the client was told that the write was refused.
    Rejected,
    /// Add a new post by the user `writer_id`, then show the first page.
    Insert { writer_id: String, title: String, text: String },
    /// Show the first page again.
    Refresh,
}

/// What `write_article` makes of the server `s0` for the client `eid` and the packet
/// `pr`: the server `s1` and the result `r`.
pub open spec fn article_written(s0: Server, s1: Server, eid: EntityId, pr: PacketReader, r: Result<WriteAction, HandleError>) -> bool {
    &&& s1.world == s0.world
    &&& s1.config == s0.config
    &&& s1.now == s0.now
    &&& ({
        let w = s0.world@;
        let b = pr.bytes();
        let at = pr.pos() as int;
        let mode = b[at];
        let post_id = crate::bytes::get_u32(b, at + 4);
        if mode == 0 && post_id != 0 {
            w.contains_key(eid) ==> (r matches Ok(WriteAction::Rejected)) && told(
                s0.outbox@,
                s1.outbox@,
                seq![eid],
                write_reply_body(Some(ErrorKind::BoardNotReady), 0),
            )
        } else if mode == 0 {
            &&& s1.outbox == s0.outbox
            &&& if !w.contains_key(eid) {
                r == Err::<WriteAction, HandleError>(HandleError::NoEntity)
            } else if w[eid].login is None {
                r == Err::<WriteAction, HandleError>(HandleError::NoComponent)
            } else {
                r matches Ok(WriteAction::Insert { writer_id, title, text }) && writer_id@ == w[eid].login->0.user_schema.id@
                    && title@ == field_text(b.subrange(at + 8, at + 57)) && text@ == field_text(b.subrange(at + 57, at + 2108))
            }
        } else if mode <= 3 {
            (r matches Ok(WriteAction::Refresh)) && s1.outbox == s0.outbox
        } else {
            r == Err::<WriteAction, HandleError>(HandleError::InvalidWriteMode) && s1.outbox == s0.outbox
        }
    })
}

/// A board write: the mode (0 new post, 1 change, 2 delete, 3 reply), three
/// bytes skipped, the post id (0 for a new post), 49 bytes of title and 2051
/// bytes of text. A new post with a post id is refused; a new post is written by
/// the logged-in user; the other modes change nothing yet; any other mode is an error.
fn write_article(server: &mut Server, entity_id: &EntityId, pr: PacketReader) -> (r: Result<WriteAction, HandleError>)
    requires
        old(server).world.wf(),
        old(server).world@.contains_key(*entity_id) ==> old(server).world@[*entity_id].sender is Some,
        pr.pos() + 2108 <= pr.bytes().len(),
    ensures
        article_written(*old(server), *final(server), *entity_id, pr, r),
{
    let mut pr = pr;
    let _ = pr.len();
    let write_mode = pr.u8();
    pr.seek(3);
    let post_id = pr.u32();
    let title = pr.string(49);
    let text = pr.string(2051);
    if write_mode == 0 {
        if post_id != 0 {
            if !server.world.get(entity_id).is_ok() {
                return Err(HandleError::NoEntity);
            }
            let pkt = make_packet_for_write_article(Some(ErrorKind::BoardNotReady), 0);
            send_by_eid(&server.world, &mut server.outbox, entity_id, pkt);
            assert(outbox_view(server.outbox@) =~= outbox_view(old(server).outbox@) + packets_to(seq![*entity_id], pkt@));
            return Ok(WriteAction::Rejected);
        }
        let entity = match server.world.get(entity_id) {
            Ok(e) => e,
            Err(e) => return Err(object_error(e)),
        };
        let login = match entity.get::<AfterLoginInfo>() {
            Ok(l) => l,
            Err(e) => return Err(object_error(e)),
        };
        let writer_id = login.user_schema.id.clone();
        Ok(WriteAction::Insert { writer_id: writer_id, title: title, text: text })
    } else if write_mode <= 3 {
        Ok(WriteAction::Refresh)
    } else {
        Err(HandleError::InvalidWriteMode)
    }
}

/// A new post with id `post_id` (a reply to itself, as the board keeps it),
/// not deleted, not a notice and not yet viewed.
pub fn new_post(post_id: u32, writer_id: String, title: String, text: String, datetime: DateTimeSchema) -> (p: PostSchema)
    ensures
        p.post_id == post_id,
        p.parent_post_id == if post_id == 0 { None::<u32> } else { Some(post_id) },
        p.writer_id == writer_id,
        p.title == title,
        p.text == text,
        p.datetime == datetime,
        !p.is_deleted,
        !p.is_notice,
        p.views == 0,
{
    PostSchema {
        post_id: post_id,
        parent_post_id: if post_id == 0 { None } else { Some(post_id) },
        writer_id: writer_id,
        title: title,
        text: text,
        datetime: datetime,
        is_deleted: false,
        is_notice: false,
        views: 0,
    }
}

/// The id that a new post takes: one more than the largest, or 1 if there is none.
pub fn assign_new_post_id(max_post_id: Option<u32>) -> (id: u32)
    requires
        max_post_id matches Some(m) ==> m < u32::MAX,
    ensures
        id == match max_post_id {
            Some(m) => m + 1,
            None => 1,
        },
{
    match max_post_id {
        Some(m) => m + 1,
        None => 1,
    }
}

/// After a board write: the client clears its list and gets the first page,
/// which shows `posts` by `writers`.
pub fn send_board_after_write(server: &mut Server, entity_id: &EntityId, posts: &Vec<PostSchema>, writers: &Vec<Option<String>>)
    requires
        old(server).world.wf(),
        old(server).world@.contains_key(*entity_id),
        old(server).world@[*entity_id].sender is Some,
        writers@.len() == posts@.len(),
    ensures
        final(server).world == old(server).world,
        final(server).config == old(server).config,
        final(server).now == old(server).now,
        exists|p1: Seq<u8>, p2: Seq<u8>|
            crate::writer::is_packet_of(p1, write_reply_body(None, 1)) && crate::writer::is_packet_of(p2, board_body(posts@, writers@))
                && #[trigger] outbox_view(final(server).outbox@) == outbox_view(old(server).outbox@).push((*entity_id, Some(p1))).push(
                (*entity_id, Some(p2)),
            ),
{
    let pkt_remove_list = make_packet_for_write_article(None, 1);
    let pkt_board_info = get_board_info_pkt(posts, writers);
    let ghost p1 = pkt_remove_list@;
    let ghost p2 = pkt_board_info@;
    send_by_eid(&server.world, &mut server.outbox, entity_id, pkt_remove_list);
    send_by_eid(&server.world, &mut server.outbox, entity_id, pkt_board_info);
    assert(crate::writer::is_packet_of(p1, write_reply_body(None, 1)) && crate::writer::is_packet_of(p2, board_body(posts@, writers@))
        && outbox_view(server.outbox@) == outbox_view(old(server).outbox@).push((*entity_id, Some(p1))).push((*entity_id, Some(p2))));
}

/// The settings that an update packet carries: the key binding, the eight
/// macros, and the music and sound words (volume in the low byte; bit 8 set
/// when not muted; for music, bit 9 for echo).
pub open spec fn settings_of(key_binding: u8, macros: Seq<Seq<char>>, bgm: u32, sound: u32, s: SettingSchema) -> bool {
    &&& s.key_binding == key_binding
    &&& s.macros@.len() == macros.len()
    &&& forall|i: int| 0 <= i < macros.len() ==> (#[trigger] s.macros@[i])@ == macros[i]
    &&& s.bgm_volume == (bgm & 0xffu32) as u8
    &&& s.bgm_mute == ((bgm >> 8u32) & 1u32 == 0u32)
    &&& s.bgm_echo == ((bgm >> 8u32) & 2u32 != 0u32)
    &&& s.sound_volume == (sound & 0xffu32) as u8
    &&& s.sound_mute == ((sound >> 8u32) & 1u32 == 0u32)
}

/// The macros of an update packet: eight text fields of 70 bytes from `at`.
pub open spec fn packet_macros(b: Seq<u8>, at: int) -> Seq<Seq<char>> {
    Seq::new(8, |i: int| field_text(b.subrange(at + 70 * i, at + 70 * i + 70)))
}

/// A copy of `s`.
fn copy_setting(s: &SettingSchema) -> (r: SettingSchema)
    ensures
        r.key_binding == s.key_binding,
        r.bgm_volume == s.bgm_volume,
        r.bgm_mute == s.bgm_mute,
        r.bgm_echo == s.bgm_echo,
        r.sound_volume == s.sound_volume,
        r.sound_mute == s.sound_mute,
        r.macros@ == s.macros@,
{
    let mut macros: Vec<String> = Vec::new();
    let mut i: usize = 0;
    while i < s.macros.len()
        invariant
            i <= s.macros@.len(),
            macros@ == s.macros@.subrange(0, i as int),
        decreases s.macros@.len() - i,
    {
        macros.push(s.macros[i].clone());
        i = i + 1;
        assert(macros@ =~= s.macros@.subrange(0, i as int));
    }
    assert(s.macros@.subrange(0, i as int) =~= s.macros@);
    SettingSchema {
        key_binding: s.key_binding,
        bgm_volume: s.bgm_volume,
        bgm_mute: s.bgm_mute,
        bgm_echo: s.bgm_echo,
        sound_volume: s.sound_volume,
        sound_mute: s.sound_mute,
        macros: macros,
    }
}

/// What `update_settings` makes of the server `s0` for the client `eid` and the packet
/// `pr`: the server `s1` and the result `r`.
pub open spec fn settings_updated(s0: Server, s1: Server, eid: EntityId, pr: PacketReader, r: Result<(String, SettingSchema), HandleError>) -> bool {
    &&& s1.config == s0.config
    &&& s1.outbox == s0.outbox
    &&& s1.now == s0.now
    &&& s1.world.wf()
    &&& s1.world.next_id() == s0.world.next_id()
    &&& ({
        let w = s0.world@;
        let b = pr.bytes();
        let at = pr.pos() as int;
        if !w.contains_key(eid) {
            r == Err::<(String, SettingSchema), HandleError>(HandleError::NoEntity) && s1.world@ == w
        } else if w[eid].login is None {
            r == Err::<(String, SettingSchema), HandleError>(HandleError::NoComponent) && s1.world@ == w
        } else {
            let login = w[eid].login->0;
            let w2 = s1.world@;
            let s2 = w2[eid].login->0.user_schema.setting;
            &&& r matches Ok((id, s)) && id@ == login.user_schema.id@ && settings_of(
                b[at],
                packet_macros(b, at + 1),
                crate::bytes::get_u32(b, at + 564),
                crate::bytes::get_u32(b, at + 568),
                s,
            )
            &&& settings_of(b[at], packet_macros(b, at + 1), crate::bytes::get_u32(b, at + 564), crate::bytes::get_u32(b, at + 568), s2)
            &&& w2 == w.insert(
                eid,
                EntityView {
                    login: Some(AfterLoginInfo {
                        user_schema: crate::db::UserSchema { setting: s2, ..login.user_schema },
                        ..login
                    }),
                    ..w[eid]
                },
            )
        }
    })
}

/// The client saves its settings (see `settings_of`; 572 bytes). They replace
/// the user's settings, and come back with the user's id for the user's record.
fn update_settings(server: &mut Server, entity_id: &EntityId, pr: PacketReader) -> (r: Result<(String, SettingSchema), HandleError>)
    requires
        old(server).world.wf(),
        pr.pos() + 572 <= pr.bytes().len(),
    ensures
        settings_updated(*old(server), *final(server), *entity_id, pr, r),
{
    let ghost b = pr.bytes();
    let ghost at = pr.pos() as int;
    let mut pr = pr;
    let _ = pr.len();
    let key_binding = pr.u8();
    let mut macros: Vec<String> = Vec::new();
    let mut i: usize = 0;
    while i < 8
        invariant
            i <= 8,
            pr.bytes() == b,
            pr.pos() == at + 1 + 70 * i,
            at + 572 <= b.len(),
            macros@.len() == i,
            forall|k: int| 0 <= k < i ==> (#[trigger] macros@[k])@ == packet_macros(b, at + 1)[k],
        decreases 8 - i,
    {
        let m = pr.string(70);
        macros.push(m);
        i = i + 1;
    }
    pr.seek(3);
    let bgm = pr.u32();
    let sound = pr.u32();
    let settings = SettingSchema {
        bgm_volume: (bgm & 0xff) as u8,
        bgm_mute: (bgm >> 8u32) & 1 == 0,
        bgm_echo: (bgm >> 8u32) & 2 != 0,
        sound_volume: (sound & 0xff) as u8,
        sound_mute: (sound >> 8u32) & 1 == 0,
        key_binding: key_binding,
        macros: macros,
    };
    let copy = copy_setting(&settings);
    let entity = match server.world.get_mut(entity_id) {
        Ok(e) => e,
        Err(e) => return Err(object_error(e)),
    };
    let info = match entity.get_mut::<AfterLoginInfo>() {
        Ok(i) => i,
        Err(e) => {
            assert(server.world@ == old(server).world@);
            assert(server.world.wf());
            return Err(object_error(e));
        },
    };
    info.user_schema.setting = settings;
    let id = info.user_schema.id.clone();
    Ok((id, copy))
}

/// What `enter_lobby` makes of the server `s0` for the client `eid` and the packet
/// `pr`: the server `s1` and the result `r`.
pub open spec fn lobby_entered(s0: Server, s1: Server, eid: EntityId, pr: PacketReader, r: Result<(), HandleError>) -> bool {
    &&& r is Ok
    &&& s1.config == s0.config
    &&& s1.now == s0.now
    &&& s1.world.wf()
    &&& s1.world.next_id() == s0.world.next_id()
    &&& s1.world@ == s0.world@.insert(
        eid,
        EntityView { state: Some(ClientState::OnLobby), ..s0.world@[eid] },
    )
    &&& ({
        let b = pr.bytes();
        let at = pr.pos() as int;
        exists|picks: Seq<bool>, sorted: Seq<EntityView>|
            #[trigger] crate::on_lobby::room_list_told(
                &s1.world,
                s0.outbox@,
                s1.outbox@,
                eid,
                b[at],
                b[at + 1],
                b[at + 2],
                picks,
                sorted,
            )
    })
}

/// The client goes into the lobby and gets a page of the room list (see
/// `send_room_list` of the lobby).
fn enter_lobby(server: &mut Server, entity_id: &EntityId, pr: PacketReader) -> (r: Result<(), HandleError>)
    requires
        old(server).world.wf(),
        old(server).world@.contains_key(*entity_id),
        old(server).world@[*entity_id].sender is Some,
        crate::on_lobby::all_rooms_listable(old(server).world@),
        pr.pos() + 3 <= pr.bytes().len(),
    ensures
        lobby_entered(*old(server), *final(server), *entity_id, pr, r),
{
    let ghost w = server.world@;
    let entity = server.world.get_mut(entity_id).unwrap();
    entity.push(ClientState::OnLobby);
    proof {
        let w2 = server.world@;
        assert forall|k: EntityId| #[trigger] w2.contains_key(k) && w2[k].room is Some implies crate::packet::rooms_listable(w2, seq![w2[k]]) by {
            assert(w.contains_key(k));
            assert(crate::packet::rooms_listable(w, seq![w[k]]));
            assert(w2[k].room == w[k].room);
            assert(seq![w2[k]][0] == w2[k]);
            assert(seq![w[k]][0] == w[k]);
            assert forall|j: int|
                0 <= j < 8 && #[trigger] seq![w2[k]][0].room->0.members@[j] is Some && w2.contains_key(seq![w2[k]][0].room->0.members@[j]->0)
                implies w2[seq![w2[k]][0].room->0.members@[j]->0].login is Some by {
                let mk = w2[k].room->0.members@[j]->0;
                assert(w[k].room->0.members@[j] is Some);
                if mk != *entity_id {
                    assert(w2[mk] == w[mk]);
                }
                assert(w.contains_key(mk));
            }
        }
    }
    crate::on_lobby::send_room_list(server, entity_id, pr)
}

/// The client asks to change its nickname to `name`; `name_taken` tells
/// whether another user already has it. The same name, or a taken one, is
/// refused; otherwise the user is renamed, the client is told, and the former
/// name comes back for the user's record.
pub fn change_nickname(server: &mut Server, eid: &EntityId, name: String, name_taken: bool) -> (r: Result<Option<String>, HandleError>)
    requires
        old(server).world.wf(),
        old(server).world@.contains_key(*eid) ==> old(server).world@[*eid].sender is Some,
    ensures
        final(server).config == old(server).config,
        final(server).now == old(server).now,
        final(server).world.wf(),
        final(server).world.next_id() == old(server).world.next_id(),
        ({
            let w = old(server).world@;
            if !w.contains_key(*eid) {
                r == Err::<Option<String>, HandleError>(HandleError::NoEntity) && final(server).world@ == w
                    && final(server).outbox == old(server).outbox
            } else if w[*eid].login is None {
                r == Err::<Option<String>, HandleError>(HandleError::NoComponent) && final(server).world@ == w
                    && final(server).outbox == old(server).outbox
            } else {
                let login = w[*eid].login->0;
                if name@ == login.user_schema.name@ {
                    (r matches Ok(None)) && final(server).world@ == w && told(
                        old(server).outbox@,
                        final(server).outbox@,
                        seq![*eid],
                        nickname_reply_body(Some(ErrorKind::SameNickname)),
                    )
                } else if name_taken {
                    (r matches Ok(None)) && final(server).world@ == w && told(
                        old(server).outbox@,
                        final(server).outbox@,
                        seq![*eid],
                        nickname_reply_body(Some(ErrorKind::DupNickname)),
                    )
                } else {
                    &&& r matches Ok(Some(prev)) && prev@ == login.user_schema.name@
                    &&& final(server).world@ == w.insert(
                        *eid,
                        EntityView {
                            login: Some(AfterLoginInfo {
                                user_schema: crate::db::UserSchema { name: name, ..login.user_schema },
                                ..login
                            }),
                            ..w[*eid]
                        },
                    )
                    &&& told(old(server).outbox@, final(server).outbox@, seq![*eid], nickname_reply_body(None))
                }
            }
        }),
        world_ok(old(server).world@) ==> world_ok(final(server).world@),
{
    let prev_name = {
        let entity = match server.world.get(eid) {
            Ok(e) => e,
            Err(e) => return Err(object_error(e)),
        };
        match entity.get::<AfterLoginInfo>() {
            Ok(l) => l.user_schema.name.clone(),
            Err(e) => return Err(object_error(e)),
        }
    };
    if name == prev_name {
        let pkt = make_packet_for_change_nickname(Some(ErrorKind::SameNickname));
        send_by_eid(&server.world, &mut server.outbox, eid, pkt);
        assert(outbox_view(server.outbox@) =~= outbox_view(old(server).outbox@) + packets_to(seq![*eid], pkt@));
        return Ok(None);
    }
    if name_taken {
        let pkt = make_packet_for_change_nickname(Some(ErrorKind::DupNickname));
        send_by_eid(&server.world, &mut server.outbox, eid, pkt);
        assert(outbox_view(server.outbox@) =~= outbox_view(old(server).outbox@) + packets_to(seq![*eid], pkt@));
        return Ok(None);
    }
    let ghost w = server.world@;
    let ghost name_v = name;
    {
        let entity = server.world.get_mut(eid).unwrap();
        let info = entity.get_mut::<AfterLoginInfo>().unwrap();
        info.user_schema.name = name;
    }
    proof {
        if world_ok(w) {
            assert(entity_ok(w[*eid]));
            lemma_update_keeps(w, *eid, server.world@[*eid]);
            assert(server.world@ == w.insert(*eid, server.world@[*eid]));
            lemma_logins_kept(w, server.world@);
        }
    }
    let pkt = make_packet_for_change_nickname(None);
    send_by_eid(&server.world, &mut server.outbox, eid, pkt);
    assert(outbox_view(server.outbox@) =~= outbox_view(old(server).outbox@) + packets_to(seq![*eid], pkt@));
    Ok(Some(prev_name))
}

/// What a packet from a logged-in client asks of the user and board records.
#[derive(Debug)]
pub enum AfterLoginAction {
    /// Nothing more.
    Done,
    /// Show page `board_idx` of the board.
    EnterBoard(usize),
    /// Show the article `post_id`.
    ReadArticle(u32),
    /// Carry out a board write.
    Write(WriteAction),
    /// Save the settings of the user with this id.
    SaveSettings(String, SettingSchema),
    /// Rename the user to this name, if no other user has it.
    ChangeNickname(String),
}

/// What a packet from a logged-in client needs, by its opcode.
pub open spec fn after_login_packet_ok(world: &World, eid: EntityId, pr: PacketReader) -> bool {
    let w = world@;
    let op = pr.op();
    let b = pr.bytes();
    let at = pr.pos();
    &&& (op == PACKET_REQUEST_NOTICE || op == PACKET_REQUEST_TICKER || op == PACKET_ENTER_LOBBY) ==> w.contains_key(eid)
        && w[eid].sender is Some
    &&& (op == PACKET_ENTER_BOARD || op == PACKET_READ_ARTICLE) ==> at + 4 <= b.len()
    &&& op == PACKET_WRITE_ARTICLE ==> at + 2108 <= b.len() && (w.contains_key(eid) ==> w[eid].sender is Some)
    &&& op == PACKET_UPDATE_SETTINGS ==> at + 572 <= b.len()
    &&& op == PACKET_ENTER_LOBBY ==> at + 3 <= b.len() && crate::on_lobby::all_rooms_listable(w)
    &&& op == PACKET_CHANGE_NICKNAME ==> at + 13 <= b.len()
}

/// What `handle` makes of the server `s0` for a packet `pr` from the client `eid`
/// that has logged in: the server `s1` and the result `r`.
pub open spec fn after_login_handled(s0: Server, s1: Server, eid: EntityId, pr: PacketReader, r: Result<AfterLoginAction, HandleError>) -> bool {
    &&& s1.config == s0.config
    &&& s1.now == s0.now
    &&& s1.world.wf()
    &&& pr.op() == PACKET_ENTER_BOARD ==> (r matches Ok(AfterLoginAction::EnterBoard(i))) && r->Ok_0->EnterBoard_0
        == crate::bytes::get_u32(pr.bytes(), pr.pos() as int) as usize && s1 == s0
    &&& pr.op() == PACKET_READ_ARTICLE ==> (r matches Ok(AfterLoginAction::ReadArticle(i))) && r->Ok_0->ReadArticle_0
        == crate::bytes::get_u32(pr.bytes(), pr.pos() as int) && s1 == s0
    &&& pr.op() == PACKET_CHANGE_NICKNAME ==> (r matches Ok(AfterLoginAction::ChangeNickname(n))) && r->Ok_0->ChangeNickname_0@
        == field_text(pr.bytes().subrange(pr.pos() as int, pr.pos() + 13int)) && s1 == s0
    &&& pr.op() == PACKET_REQUEST_NOTICE ==> (r matches Ok(AfterLoginAction::Done)) && s1.world == s0.world && told(
        s0.outbox@,
        s1.outbox@,
        seq![eid],
        notice_body(s0.config.message.notice@),
    )
    &&& pr.op() == PACKET_REQUEST_TICKER ==> (r matches Ok(AfterLoginAction::Done)) && s1.world == s0.world && told(
        s0.outbox@,
        s1.outbox@,
        seq![eid],
        ticker_body(),
    )
    &&& pr.op() == PACKET_WRITE_ARTICLE ==> exists|r0: Result<WriteAction, HandleError>|
        #[trigger] article_written(s0, s1, eid, pr, r0) && r == match r0 {
            Ok(a) => Ok::<AfterLoginAction, HandleError>(AfterLoginAction::Write(a)),
            Err(e) => Err(e),
        }
    &&& pr.op() == PACKET_UPDATE_SETTINGS ==> exists|r0: Result<(String, SettingSchema), HandleError>|
        #[trigger] settings_updated(s0, s1, eid, pr, r0) && r == match r0 {
            Ok((id, st)) => Ok::<AfterLoginAction, HandleError>(AfterLoginAction::SaveSettings(id, st)),
            Err(e) => Err(e),
        }
    &&& pr.op() == PACKET_ENTER_LOBBY ==> exists|r0: Result<(), HandleError>|
        #[trigger] lobby_entered(s0, s1, eid, pr, r0) && r == match r0 {
            Ok(()) => Ok::<AfterLoginAction, HandleError>(AfterLoginAction::Done),
            Err(e) => Err(e),
        }
    &&& pr.op() != PACKET_REQUEST_NOTICE && pr.op() != PACKET_REQUEST_TICKER && pr.op() != PACKET_ENTER_BOARD && pr.op()
        != PACKET_READ_ARTICLE && pr.op() != PACKET_WRITE_ARTICLE && pr.op() != PACKET_UPDATE_SETTINGS && pr.op()
        != PACKET_ENTER_LOBBY && pr.op() != PACKET_CHANGE_NICKNAME ==> (r matches Ok(AfterLoginAction::Done))
        && s1 == s0
}

/// Handles a packet from a logged-in client, by its opcode: the notice, the
/// ticker and the way into the lobby are answered here; board pages, articles,
/// board writes, settings and nicknames come back as what they ask of the
/// records (the packet read); other opcodes are ignored.
pub fn handle(server: &mut Server, entity_id: &EntityId, pr: PacketReader) -> (r: Result<AfterLoginAction, HandleError>)
    requires
        old(server).world.wf(),
        after_login_packet_ok(&old(server).world, *entity_id, pr),
    ensures
        after_login_handled(*old(server), *final(server), *entity_id, pr, r),
{
    let op = pr.opcode();
    if op == PACKET_REQUEST_NOTICE {
        match send_notice(server, entity_id, pr) {
            Ok(()) => Ok(AfterLoginAction::Done),
            Err(e) => Err(e),
        }
    } else if op == PACKET_REQUEST_TICKER {
        match send_ticker(server, entity_id, pr) {
            Ok(()) => Ok(AfterLoginAction::Done),
            Err(e) => Err(e),
        }
    } else if op == PACKET_ENTER_BOARD {
        let mut pr = pr;
        let board_idx = pr.u32() as usize;
        Ok(AfterLoginAction::EnterBoard(board_idx))
    } else if op == PACKET_READ_ARTICLE {
        let mut pr = pr;
        let post_id = pr.u32();
        Ok(AfterLoginAction::ReadArticle(post_id))
    } else if op == PACKET_WRITE_ARTICLE {
        match write_article(server, entity_id, pr) {
            Ok(a) => Ok(AfterLoginAction::Write(a)),
            Err(e) => Err(e),
        }
    } else if op == PACKET_UPDATE_SETTINGS {
        match update_settings(server, entity_id, pr) {
            Ok((id, s)) => Ok(AfterLoginAction::SaveSettings(id, s)),
            Err(e) => Err(e),
        }
    } else if op == PACKET_ENTER_LOBBY {
        match enter_lobby(server, entity_id, pr) {
            Ok(()) => Ok(AfterLoginAction::Done),
            Err(e) => Err(e),
        }
    } else if op == PACKET_CHANGE_NICKNAME {
        let mut pr = pr;
        let name = pr.string(13);
        Ok(AfterLoginAction::ChangeNickname(name))
    } else {
        Ok(AfterLoginAction::Done)
    }
}

} // verus!
