//! Password handling of the auth routes: registration stores a bcrypt hash of
//! the password, and a login is accepted when the password matches it.
use vstd::prelude::*;

use crate::decimal::digit_char;
use crate::types::NewUser;

verus! {

/// The bcrypt work factor used for stored passwords.
pub const PASSWORD_COST: u32 = 12;

#[verifier::external_type_specification]
#[verifier::external_body]
pub struct ExBcryptError(bcrypt::BcryptError);

/// What `bcrypt::verify(password, hash)` returns: `Some(b)` for `Ok(b)`,
/// `None` for an error. It depends on its two arguments alone.
pub uninterp spec fn bcrypt_verify_result(password: Seq<char>, hash: Seq<char>) -> Option<bool>;

/// Whether a login with `password` is accepted against the stored `hash`.
pub open spec fn login_accepts(password: Seq<char>, hash: Seq<char>) -> bool {
    bcrypt_verify_result(password, hash) == Some(true)
}

/// Calls `bcrypt::hash(password, cost)`. The salt is random, so the hash is
/// not determined by the arguments. The crate's source shows: a cost outside
/// `4..=31` is an error; a hash is 60 characters in the `$2b$<cost>$` format
/// (cost on two digits); and `bcrypt::verify` accepts the password against
/// it, since verification re-hashes the password with the cost and salt read
/// back from the hash. Not stated: when the random source fails the call
/// gives an error, which is not tied to any argument.
#[verifier::external_body]
fn bcrypt_hash(password: &str, cost: u32) -> (r: Result<String, bcrypt::BcryptError>)
    ensures
        !(4 <= cost <= 31) ==> r is Err,
        r matches Ok(h) ==> {
            &&& h@.len() == 60
            &&& h@[0] == '$'
            &&& h@[1] == '2'
            &&& h@[2] == 'b'
            &&& h@[3] == '$'
            &&& h@[4] == digit_char((cost / 10) as int)
            &&& h@[5] == digit_char((cost % 10) as int)
            &&& h@[6] == '$'
            &&& bcrypt_verify_result(password@, h@) == Some(true)
        },
{
    bcrypt::hash(password, cost)
}

/// Calls `bcrypt::verify(password, hash)`, whose result is named by
/// `bcrypt_verify_result`. The crate's source also shows that a hash that is
/// not 60 characters long is an error.
#[verifier::external_body]
fn bcrypt_verify(password: &str, hash: &str) -> (r: Result<bool, bcrypt::BcryptError>)
    ensures
        r is Ok <==> bcrypt_verify_result(password@, hash@) is Some,
        r matches Ok(b) ==> bcrypt_verify_result(password@, hash@) == Some(b),
        hash@.len() != 60 ==> r is Err,
{
    bcrypt::verify(password, hash)
}

/// Why a registration could not be prepared.
#[derive(Debug, Clone, Copy, PartialEq, Eq, Structural)]
pub enum AuthError {
    /// The password could not be hashed (no random salt could be drawn).
    HashFailed,
}

/// The user row to insert once the password has been hashed: `None` when
/// hashing failed.
pub fn new_user(email: String, username: String, password_hash: Option<String>) -> (r: Result<
    NewUser,
    AuthError,
>)
    ensures
        match password_hash {
            Some(h) => r matches Ok(user) && user.email == email && user.username == username
                && user.password_hash == h,
            None => r == Err::<NewUser, AuthError>(AuthError::HashFailed),
        },
{
    match password_hash {
        Some(password_hash) => Ok(NewUser { email, username, password_hash }),
        None => Err(AuthError::HashFailed),
    }
}

/// `POST /api/v1/auth/register`: the user row to insert, with the password
/// replaced by its bcrypt hash at cost `PASSWORD_COST`. A login with the same
/// password is accepted against the stored hash.
pub fn register(email: String, username: String, password: &str) -> (r: Result<NewUser, AuthError>)
    ensures
        r matches Ok(user) ==> {
            &&& user.email == email
            &&& user.username == username
            &&& user.password_hash@.len() == 60
            &&& user.password_hash@.take(7) == "$2b$12$"@
            &&& login_accepts(password@, user.password_hash@)
        },
        r matches Err(e) ==> e == AuthError::HashFailed,
{
    let hashed = match bcrypt_hash(password, PASSWORD_COST) {
        Ok(h) => Some(h),
        Err(_) => None,
    };
    proof {
        reveal_strlit("$2b$12$");
        if hashed is Some {
            assert(hashed->0@.take(7) =~= "$2b$12$"@);
        }
    }
    new_user(email, username, hashed)
}

/// Whether a login is accepted, given what bcrypt's verification returned
/// (`None` for an error): only a positive verification is.
pub fn login_decision(verified: Option<bool>) -> (accepted: bool)
    ensures
        accepted == (verified == Some(true)),
{
    match verified {
        Some(b) => b,
        None => false,
    }
}

/// `POST /api/v1/auth/login`: whether `password` is accepted against the
/// user's stored hash. A hash that bcrypt cannot read rejects the login.
pub fn login(password: &str, stored_hash: &str) -> (accepted: bool)
    ensures
        accepted == login_accepts(password@, stored_hash@),
        stored_hash@.len() != 60 ==> !accepted,
{
    let verified = match bcrypt_verify(password, stored_hash) {
        Ok(b) => Some(b),
        Err(_) => None,
    };
    login_decision(verified)
}

} // verus!
