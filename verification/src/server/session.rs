//! Users and sessions.

use vstd::prelude::*;
use vstd::utf8::*;

use crate::protocol::handshake;
use crate::protocol::handshake::hash_native_password;

verus! {

/// A user, and what is stored of the password where there is one.
#[derive(Debug)]
pub struct User {
    pub name: String,
    pub password_hash: Option<[u8; 20]>,
}

/// What a `User` stands for.
#[verifier::ext_equal]
pub struct UserV {
    pub name: Seq<char>,
    pub password_hash: Option<[u8; 20]>,
}

impl View for User {
    type V = UserV;

    open spec fn view(&self) -> UserV {
        UserV { name: self.name@, password_hash: self.password_hash }
    }
}

impl Clone for User {
    fn clone(&self) -> (r: Self)
        ensures
            r@ == self@,
    {
        User { name: self.name.clone(), password_hash: self.password_hash }
    }
}

/// A user with a password.
pub open spec fn user_with_password(name: Seq<char>, password: Seq<char>) -> UserV {
    UserV { name, password_hash: Some(handshake::double_hash(encode_utf8(password))) }
}

impl User {
    /// A user without a password.
    pub fn new(name: &str) -> (r: Self)
        ensures
            r@ == (UserV { name: name@, password_hash: None }),
    {
        User { name: name.to_string(), password_hash: None }
    }

    /// A user with a password, of which only the digest of the digest is kept.
    pub fn with_password(name: &str, password: &str) -> (r: Self)
        ensures
            r@ == user_with_password(name@, password@),
    {
        User { name: name.to_string(), password_hash: Some(hash_native_password(password)) }
    }
}

/// A user at work in a database.
#[derive(Debug)]
pub struct Session {
    pub user: User,
    pub database: String,
}

/// What a `Session` stands for.
#[verifier::ext_equal]
pub struct SessionV {
    pub user: UserV,
    pub database: Seq<char>,
}

impl View for Session {
    type V = SessionV;

    open spec fn view(&self) -> SessionV {
        SessionV { user: self.user@, database: self.database@ }
    }
}

impl Clone for Session {
    fn clone(&self) -> (r: Self)
        ensures
            r@ == self@,
    {
        Session { user: self.user.clone(), database: self.database.clone() }
    }
}

impl Session {
    /// A session of a user without a password, in the first database.
    pub fn new(user: &str) -> (r: Self)
        ensures
            r@ == (SessionV {
                user: UserV { name: user@, password_hash: None },
                database: "srrdb"@,
            }),
    {
        Session { user: User::new(user), database: "srrdb".to_string() }
    }

    /// A session of a user, in the first database.
    pub fn new_with_user(user: User) -> (r: Self)
        ensures
            r@ == (SessionV { user: user@, database: "srrdb"@ }),
    {
        Session { user, database: "srrdb".to_string() }
    }
}

} // verus!
