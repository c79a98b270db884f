//! Accounts: registering a user and checking a login.
//!
//! A password is kept as its bcrypt hash only. Hashing draws a salt at
//! random, so nothing is known of a hash but that it was stored; whether a
//! password matches a hash is decided by the `bcrypt` crate.

use crate::error::StoreError;
use crate::table::Table;
use vstd::prelude::*;

verus! {

/// The error type of the `bcrypt` crate.
#[verifier::external_type_specification]
#[verifier::external_body]
pub struct ExBcryptError(bcrypt::BcryptError);

/// A user's name and password, as a request carries them.
pub struct User {
    pub username: String,
    pub password: String,
}

/// How a login ended.
#[derive(Clone, Copy, Debug, PartialEq, Eq, Structural)]
pub enum LoginOutcome {
    /// The password matches the hash kept for the user.
    Success,
    /// The user is known and the password does not match, or the hash kept
    /// for the user cannot be read.
    InvalidCredentials,
    /// No user of that name is registered.
    UserNotFound,
}

impl LoginOutcome {
    /// The HTTP status that reports this outcome.
    pub open spec fn status(self) -> u16 {
        match self {
            LoginOutcome::Success => 200,
            LoginOutcome::InvalidCredentials => 401,
            LoginOutcome::UserNotFound => 401,
        }
    }

    /// Computes [`LoginOutcome::status`].
    pub fn status_code(&self) -> (code: u16)
        ensures
            code == self.status(),
    {
        match self {
            LoginOutcome::Success => 200,
            LoginOutcome::InvalidCredentials => 401,
            LoginOutcome::UserNotFound => 401,
        }
    }
}

/// Whether `password` matches the bcrypt hash `hashed`, as `bcrypt::verify`
/// decides it; `None` where `bcrypt::verify` fails, as it does on a text
/// that is no bcrypt hash.
pub uninterp spec fn password_verdict(password: Seq<char>, hashed: Seq<char>) -> Option<bool>;

/// Calls `bcrypt::hash` with the default cost of the crate. The hash is made
/// with a salt drawn at random: nothing is claimed of it.
#[verifier::external_body]
fn hash_password(password: &str) -> (r: Result<String, bcrypt::BcryptError>) {
    bcrypt::hash(password, bcrypt::DEFAULT_COST)
}

/// Calls `bcrypt::verify`. The verdict depends on the password and the hash
/// alone.
#[verifier::external_body]
fn verify_password(password: &str, hashed: &str) -> (r: Result<bool, bcrypt::BcryptError>)
    ensures
        match r {
            Ok(matches) => password_verdict(password@, hashed@) == Some(matches),
            Err(_) => password_verdict(password@, hashed@) is None,
        },
{
    bcrypt::verify(password, hashed)
}

/// How a login ends for a user who is known or not, when the check of the
/// password against the hash kept for the user gave `verdict`.
pub open spec fn login_outcome(known: bool, verdict: Option<bool>) -> LoginOutcome {
    if !known {
        LoginOutcome::UserNotFound
    } else if verdict == Some(true) {
        LoginOutcome::Success
    } else {
        LoginOutcome::InvalidCredentials
    }
}

/// Decides [`login_outcome`] from the result of the check of the password.
pub fn judge_login(known: bool, checked: Result<bool, bcrypt::BcryptError>) -> (outcome:
    LoginOutcome)
    ensures
        outcome == login_outcome(
            known,
            match checked {
                Ok(matches) => Some(matches),
                Err(_) => None,
            },
        ),
{
    if !known {
        return LoginOutcome::UserNotFound;
    }
    match checked {
        Ok(true) => LoginOutcome::Success,
        _ => LoginOutcome::InvalidCredentials,
    }
}

/// The registered users, each with the hash of the password.
pub struct UserStore {
    users: Table<String>,
}

impl View for UserStore {
    type V = Map<Seq<char>, Seq<char>>;

    /// The hash kept for each user name.
    closed spec fn view(&self) -> Map<Seq<char>, Seq<char>> {
        self.users@.map_values(|hashed: String| hashed@)
    }
}

impl UserStore {
    /// A store without users.
    pub fn new() -> (store: Self)
        ensures
            store@ == Map::<Seq<char>, Seq<char>>::empty(),
    {
        let store = UserStore { users: Table::new() };
        assert(store@ =~= Map::<Seq<char>, Seq<char>>::empty());
        store
    }

    /// Whether a user of the name `username` is registered.
    pub fn contains(&self, username: &str) -> (b: bool)
        ensures
            b == self@.contains_key(username@),
    {
        self.users.contains_key(username)
    }

    /// Forgets every user.
    pub fn clear(&mut self)
        ensures
            final(self)@ == Map::<Seq<char>, Seq<char>>::empty(),
    {
        self.users = Table::new();
        assert(self@ =~= Map::<Seq<char>, Seq<char>>::empty());
    }

    /// Registers `username` with the result `hashed` of hashing the password.
    ///
    /// Fails with `Conflict` when the name is taken, and with `Internal` when
    /// the password could not be hashed; nothing changes then.
    pub fn record_registration(
        &mut self,
        username: &str,
        hashed: Result<String, bcrypt::BcryptError>,
    ) -> (r: Result<(), StoreError>)
        ensures
            match r {
                Ok(()) => {
                    &&& !old(self)@.contains_key(username@)
                    &&& hashed is Ok
                    &&& final(self)@ == old(self)@.insert(username@, hashed->Ok_0@)
                },
                Err(e) => {
                    &&& final(self)@ == old(self)@
                    &&& e == if old(self)@.contains_key(username@) {
                        StoreError::Conflict
                    } else {
                        StoreError::Internal
                    }
                    &&& e == StoreError::Internal ==> hashed is Err
                },
            },
    {
        if self.users.contains_key(username) {
            return Err(StoreError::Conflict);
        }
        let ghost before = *self;
        match hashed {
            Ok(hash) => {
                self.users.insert(username.to_owned(), hash);
                assert(self@ =~= before@.insert(username@, hash@));
                Ok(())
            },
            Err(_) => Err(StoreError::Internal),
        }
    }

    /// Registers `user`: hashes the password and keeps the hash under the
    /// user's name.
    ///
    /// Fails with `Conflict` when the name is taken, and with `Internal` when
    /// the password could not be hashed; nothing changes then. The hash is
    /// made with a salt drawn at random, so the contract says only that some
    /// hash is kept.
    pub fn register(&mut self, user: &User) -> (r: Result<(), StoreError>)
        ensures
            match r {
                Ok(()) => {
                    &&& !old(self)@.contains_key(user.username@)
                    &&& final(self)@.dom() == old(self)@.dom().insert(user.username@)
                    &&& forall|name: Seq<char>|
                        old(self)@.contains_key(name) ==> #[trigger] final(self)@[name] == old(
                            self,
                        )@[name]
                },
                Err(e) => {
                    &&& final(self)@ == old(self)@
                    &&& e == if old(self)@.contains_key(user.username@) {
                        StoreError::Conflict
                    } else {
                        StoreError::Internal
                    }
                },
            },
    {
        if self.users.contains_key(user.username.as_str()) {
            return Err(StoreError::Conflict);
        }
        let hashed = hash_password(user.password.as_str());
        let r = self.record_registration(user.username.as_str(), hashed);
        proof {
            if r is Ok {
                assert(self@.dom() =~= old(self)@.dom().insert(user.username@));
            }
        }
        r
    }

    /// Checks the login of `user` against the hash kept for the name.
    pub fn login(&self, user: &User) -> (outcome: LoginOutcome)
        ensures
            outcome == login_outcome(
                self@.contains_key(user.username@),
                password_verdict(user.password@, self@[user.username@]),
            ),
    {
        match self.users.get(user.username.as_str()) {
            Some(hashed) => {
                let checked = verify_password(user.password.as_str(), hashed.as_str());
                judge_login(true, checked)
            },
            None => LoginOutcome::UserNotFound,
        }
    }
}

} // verus!
