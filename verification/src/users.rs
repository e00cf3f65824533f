//! Accounts and login sessions.

use crate::ident::{is_base58, random_base58};
use crate::lines::{after_first_line, first_line, lemma_first_line_of_suffix};
use crate::text::{
    chars_of, find_char, index_of_char, same_text, slice_of, string_of_range,
};
use argon2::PasswordVerifier;
use vstd::prelude::*;

verus! {

/// A login session: the cookie that names it and the account it belongs to.
#[derive(Clone, Debug)]
pub struct Session {
    pub cookie: String,
    pub username: String,
}

/// The mathematical value of a [`Session`].
pub struct SessionView {
    pub cookie: Seq<char>,
    pub username: Seq<char>,
}

impl View for Session {
    type V = SessionView;

    open spec fn view(&self) -> SessionView {
        SessionView { cookie: self.cookie@, username: self.username@ }
    }
}

impl Session {
    /// A session of the given account under the given cookie.
    pub fn new(cookie: String, username: String) -> (s: Session)
        ensures
            s@ == (SessionView { cookie: cookie@, username: username@ }),
    {
        Session { cookie, username }
    }
}

/// An account: its name and the stored hash of its password.
#[derive(Clone, Debug)]
pub struct Credential {
    pub username: String,
    pub hash: String,
}

/// The accounts that may log in and the sessions that are open.
#[derive(Clone, Debug)]
pub struct Users {
    users: Vec<Credential>,
    sessions: Vec<Session>,
}

/// What `argon2::Argon2::verify_password` decides of a password and a stored
/// hash in PHC string format; `None` where the stored hash is no such string.
pub uninterp spec fn argon2_accepts(password: Seq<char>, hash: Seq<char>) -> Option<bool>;

/// `argon2::Argon2::default().verify_password` on the hash that
/// `argon2::PasswordHash::new` reads from `hash`: whether the password is
/// the hashed one. `None` where `hash` cannot be read.
#[verifier::external_body]
fn password_accepted(password: &str, hash: &str) -> (r: Option<bool>)
    ensures
        r == argon2_accepts(password@, hash@),
{
    let parsed = argon2::PasswordHash::new(hash).ok()?;
    Some(argon2::Argon2::default().verify_password(password.as_bytes(), &parsed).is_ok())
}

/// The number of characters of a session cookie.
pub open spec fn session_id_length() -> nat {
    6
}

/// Index of the first session at or after `i` with the given cookie, or
/// `sessions.len()`.
pub open spec fn position_of_cookie(sessions: Seq<Session>, cookie: Seq<char>, i: int) -> int
    decreases sessions.len() - i,
{
    if i < 0 || i >= sessions.len() {
        sessions.len() as int
    } else if sessions[i].cookie@ == cookie {
        i
    } else {
        position_of_cookie(sessions, cookie, i + 1)
    }
}

/// The stored hash of an account: that of its last entry among the first `n`.
pub open spec fn stored_hash(users: Seq<Credential>, username: Seq<char>, n: int) -> Option<
    Seq<char>,
>
    decreases n,
{
    if n <= 0 || n > users.len() {
        None
    } else if users[n - 1].username@ == username {
        Some(users[n - 1].hash@)
    } else {
        stored_hash(users, username, n - 1)
    }
}

/// The accounts that a credentials text lists, one `username hash` per
/// line, split at the first space; `None` where a line holds no space.
pub open spec fn parse_credentials(s: Seq<char>) -> Option<Seq<(Seq<char>, Seq<char>)>>
    decreases s.len(),
{
    if s.len() == 0 {
        Some(Seq::empty())
    } else {
        let line = first_line(s);
        let space = find_char(line, ' ');
        if space >= line.len() {
            None
        } else {
            match parse_credentials(after_first_line(s)) {
                None => None,
                Some(rest) => Some(
                    seq![(line.subrange(0, space), line.subrange(space + 1, line.len() as int))]
                        + rest,
                ),
            }
        }
    }
}

/// The names and hashes of a sequence of accounts.
pub open spec fn credentials_view(users: Seq<Credential>) -> Seq<(Seq<char>, Seq<char>)> {
    Seq::new(users.len(), |i: int| (users[i].username@, users[i].hash@))
}

impl Users {
    /// The accounts, in the order they were listed.
    pub closed spec fn accounts(&self) -> Seq<Credential> {
        self.users@
    }

    /// The open sessions.
    pub closed spec fn open_sessions(&self) -> Seq<Session> {
        self.sessions@
    }

    /// No accounts and no sessions.
    pub fn new() -> (u: Users)
        ensures
            u.accounts().len() == 0,
            u.open_sessions().len() == 0,
    {
        Users { users: Vec::new(), sessions: Vec::new() }
    }

    /// The accounts that a credentials text lists, with no session open.
    pub fn from_credentials(text: &str) -> (r: Option<Users>)
        ensures
            match parse_credentials(text@) {
                Some(listed) => r matches Some(u) && credentials_view(u.accounts()) == listed
                    && u.open_sessions().len() == 0,
                None => r is None,
            },
    {
        let chars = chars_of(text);
        let n = chars.len();
        let mut users: Vec<Credential> = Vec::new();
        let mut pos: usize = 0;
        proof {
            assert(chars@.subrange(0, n as int) =~= chars@);
        }
        while pos < n
            invariant
                pos <= n == chars.len(),
                chars@ == text@,
                parse_credentials(text@) == (match parse_credentials(
                    chars@.subrange(pos as int, n as int),
                ) {
                    Some(rest) => Some(credentials_view(users@) + rest),
                    None => None,
                }),
            decreases n - pos,
        {
            let ghost rest = chars@.subrange(pos as int, n as int);
            let ghost listed = credentials_view(users@);
            let e = index_of_char(&chars, '\n', pos);
            let end: usize = if pos < e && e < n && chars[e - 1] == '\r' {
                e - 1
            } else {
                e
            };
            proof {
                lemma_first_line_of_suffix(chars@, pos as int);
            }
            let line = slice_of(&chars, pos, end);
            let space = index_of_char(&line, ' ', 0);
            if space >= line.len() {
                return None;
            }
            let entry = Credential {
                username: string_of_range(&line, 0, space),
                hash: string_of_range(&line, space + 1, line.len()),
            };
            users.push(entry);
            let next: usize = if e < n {
                e + 1
            } else {
                n
            };
            proof {
                let tail = chars@.subrange(next as int, n as int);
                let pair = (entry.username@, entry.hash@);
            }
            pos = next;
        }
        Some(Users { users, sessions: Vec::new() })
    }

    /// The stored hash of an account.
    pub fn password_hash(&self, username: &str) -> (r: Option<&String>)
        ensures
            match stored_hash(self.accounts(), username@, self.accounts().len() as int) {
                Some(hash) => r matches Some(h) && h@ == hash,
                None => r is None,
            },
    {
        let mut n: usize = self.users.len();
        while n > 0
            invariant
                n <= self.users.len(),
                stored_hash(self.users@, username@, self.users@.len() as int) == stored_hash(
                    self.users@,
                    username@,
                    n as int,
                ),
            decreases n,
        {
            if same_text(self.users[n - 1].username.as_str(), username) {
                return Some(&self.users[n - 1].hash);
            }
            n = n - 1;
        }
        None
    }

    /// Whether the password is that of the account. `Some(false)` for an
    /// unknown account; `None` where the stored hash cannot be read.
    pub fn verify_login(&self, username: &str, password: &str) -> (r: Option<bool>)
        ensures
            r == (match stored_hash(self.accounts(), username@, self.accounts().len() as int) {
                Some(hash) => argon2_accepts(password@, hash),
                None => Some(false),
            }),
    {
        match self.password_hash(username) {
            Some(hash) => password_accepted(password, hash.as_str()),
            None => Some(false),
        }
    }

    /// Opens a session for the account under a fresh random cookie.
    pub fn new_session(&mut self, username: &str) -> (s: &Session)
        ensures
            final(self).open_sessions() == old(self).open_sessions().push(*s),
            final(self).accounts() == old(self).accounts(),
            s.username@ == username@,
            s.cookie@.len() == session_id_length(),
            is_base58(s.cookie@),
    {
        let cookie = random_base58(6);
        let session = Session::new(cookie, username.to_owned());
        self.sessions.push(session);
        &self.sessions[self.sessions.len() - 1]
    }

    /// The first open session with the given cookie.
    pub fn get_session(&self, sid: String) -> (r: Option<&Session>)
        ensures
            ({
                let k = position_of_cookie(self.open_sessions(), sid@, 0);
                if k < self.open_sessions().len() {
                    r == Some(&self.open_sessions()[k])
                } else {
                    r is None
                }
            }),
    {
        let mut i: usize = 0;
        while i < self.sessions.len()
            invariant
                i <= self.sessions.len(),
                position_of_cookie(self.sessions@, sid@, 0) == position_of_cookie(
                    self.sessions@,
                    sid@,
                    i as int,
                ),
            decreases self.sessions.len() - i,
        {
            if self.sessions[i].cookie == sid {
                return Some(&self.sessions[i]);
            }
            i = i + 1;
        }
        None
    }

    /// Closes the first open session with the given cookie; the last session
    /// takes its place. Returns whether there was one.
    pub fn delete_session(&mut self, sid: String) -> (r: bool)
        ensures
            final(self).accounts() == old(self).accounts(),
            ({
                let before = old(self).open_sessions();
                let k = position_of_cookie(before, sid@, 0);
                if k < before.len() {
                    r && final(self).open_sessions() == before.update(k, before.last()).drop_last()
                } else {
                    !r && final(self).open_sessions() == before
                }
            }),
    {
        let mut i: usize = 0;
        while i < self.sessions.len()
            invariant
                *self == *old(self),
                i <= self.sessions.len(),
                position_of_cookie(self.sessions@, sid@, 0) == position_of_cookie(
                    self.sessions@,
                    sid@,
                    i as int,
                ),
            decreases self.sessions.len() - i,
        {
            if self.sessions[i].cookie == sid {
                self.sessions.swap_remove(i);
                return true;
            }
            i = i + 1;
        }
        false
    }
}

} // verus!
