//! Server configuration.
use vstd::prelude::*;
use rand::distributions::{Alphanumeric, DistString};

verus! {

/// The length of a password made up when the configuration leaves it empty.
pub const RANDOM_PASSWORD_LEN: usize = 32;

/// The whole configuration.
#[derive(Clone, Debug)]
pub struct Config {
    pub server: ConfigServer,
    pub user: ConfigUser,
    pub message: ConfigMessage,
    pub ticker: ConfigTicker,
}

/// Server-wide settings.
#[derive(Clone, Debug)]
pub struct ConfigServer {
    /// The password that inter-server messages must carry.
    pub password: String,
    pub use_auto_account: bool,
    pub max_users: usize,
}

/// What new accounts start with.
#[derive(Clone, Copy, Debug, PartialEq, Eq, Structural)]
pub struct ConfigUser {
    pub initial_level: u8,
    pub initial_money: u32,
}

/// Messages shown to users.
#[derive(Clone, Debug)]
pub struct ConfigMessage {
    pub notice: String,
}

/// Ticker lines shown to users.
#[derive(Clone, Debug)]
pub struct ConfigTicker {
    pub initial: String,
    pub board: String,
    pub ranking: String,
    pub selection: String,
}

/// An ASCII letter or digit.
pub open spec fn is_alphanumeric(c: char) -> bool {
    ('A' <= c <= 'Z') || ('a' <= c <= 'z') || ('0' <= c <= '9')
}

/// Calls `Alphanumeric.sample_string(&mut rand::thread_rng(), len)`: `len`
/// characters, each drawn from the ASCII letters and digits.
#[verifier::external_body]
fn get_random_string(len: usize) -> (s: String)
    ensures
        s@.len() == len,
        forall|i: int| 0 <= i < len ==> is_alphanumeric(#[trigger] s@[i]),
{
    Alphanumeric.sample_string(&mut rand::thread_rng(), len)
}

impl Config {
    /// Fills in a random password of 32 letters and digits when the password is empty.
    pub fn fill_password(&mut self)
        ensures
            old(self).server.password@.len() > 0 ==> final(self).server.password@ == old(self).server.password@,
            old(self).server.password@.len() == 0 ==> final(self).server.password@.len() == RANDOM_PASSWORD_LEN
                && forall|i: int| 0 <= i < RANDOM_PASSWORD_LEN ==> is_alphanumeric(#[trigger] final(self).server.password@[i]),
            final(self).server.use_auto_account == old(self).server.use_auto_account,
            final(self).server.max_users == old(self).server.max_users,
            final(self).user == old(self).user,
            final(self).message == old(self).message,
            final(self).ticker == old(self).ticker,
    {
        let pw = &self.server.password;
        if pw.as_str().is_empty() {
            self.server.password = get_random_string(RANDOM_PASSWORD_LEN);
        }
    }
}

} // verus!
