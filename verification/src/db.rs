//! The records that the database holds.
use vstd::prelude::*;

verus! {

/// A user account.
#[derive(Clone, Debug, PartialEq)]
pub struct UserSchema {
    pub id: String,
    /// The hex digest of the password.
    pub pw: String,
    pub name: String,
    pub level: u8,
    pub is_female: bool,
    pub money: u32,
    pub items: Vec<u8>,
    pub exps: Vec<u32>,
    pub is_admin: bool,
    pub is_muted: bool,
    pub is_banned: bool,
    pub setting: SettingSchema,
}

/// A user's game settings.
#[derive(Clone, Debug, PartialEq)]
pub struct SettingSchema {
    pub key_binding: u8,
    pub bgm_volume: u8,
    pub bgm_mute: bool,
    pub bgm_echo: bool,
    pub sound_volume: u8,
    pub sound_mute: bool,
    pub macros: Vec<String>,
}

/// A date and a time of day to the minute.
#[derive(Clone, Copy, Debug, PartialEq, Eq, Structural)]
pub struct DateTimeSchema {
    pub year: i32,
    pub month: u32,
    pub day: u32,
    pub hour: u32,
    pub min: u32,
}

/// A board post.
#[derive(Clone, Debug, PartialEq)]
pub struct PostSchema {
    pub post_id: u32,
    pub parent_post_id: Option<u32>,
    pub writer_id: String,
    pub title: String,
    pub text: String,
    pub datetime: DateTimeSchema,
    pub is_deleted: bool,
    pub is_notice: bool,
    pub views: u16,
}

} // verus!
