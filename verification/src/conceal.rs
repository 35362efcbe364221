use vstd::prelude::*;
use crate::errors::Error;

verus! {

/// What bcrypt's `verify` decides for a password and a token.  The salt is
/// carried inside the token, so the decision is a pure function of the two
/// strings.
pub uninterp spec fn bcrypt_accepts(password: Seq<char>, token: Seq<char>) -> bool;

/// Whether bcrypt's `verify` can read a token at all.  The check looks only
/// at the token text — its length, its `$`-delimited format, its base64
/// content and the cost range — so it is a pure function of the token.
pub uninterp spec fn bcrypt_parses(token: Seq<char>) -> bool;

/// Relies on bcrypt's error type: carried through opaquely, only to be
/// mapped to this library's own error.
#[verifier::external_type_specification]
#[verifier::external_body]
pub struct ExBcryptError(bcrypt::BcryptError);

/// Relies on bcrypt's `hash` with the crate's default work factor: on
/// success the token is a 60-character text beginning `$2b$12$` — the two
/// digits after the version carry the fixed cost — bcrypt's `verify` reads
/// such a token back, and it accepts the hashed password against it.  The
/// salt is drawn from the operating system, so the token itself cannot be
/// pinned down; only a failed draw can produce the error.
#[verifier::external_body]
fn bcrypt_hash(password: &str) -> (r: Result<String, bcrypt::BcryptError>)
    ensures
        r matches Ok(token) ==> bcrypt_accepts(password@, token@) && bcrypt_parses(token@)
            && token@.len() == 60 && token@[0] == '$' && token@[4] == '1' && token@[5] == '2',
{
    bcrypt::hash(password, bcrypt::DEFAULT_COST)
}

/// Relies on bcrypt's `verify`: it recomputes the hash with the cost and
/// salt carried in the token and compares, so it answers exactly when the
/// token can be read, and errors exactly when it cannot.
#[verifier::external_body]
fn bcrypt_verify(password: &str, token: &str) -> (r: Result<bool, bcrypt::BcryptError>)
    ensures
        r is Ok <==> bcrypt_parses(token@),
        r matches Ok(b) ==> b == bcrypt_accepts(password@, token@),
{
    bcrypt::verify(password, token)
}

/// One-way concealment of a recipient name.  The token carries the fixed
/// default work factor, and bcrypt accepts the name against it.
pub fn conceal_name(name: &str) -> (r: Result<String, Error>)
    ensures
        r matches Ok(token) ==> bcrypt_accepts(name@, token@) && bcrypt_parses(token@)
            && token@.len() == 60 && token@[0] == '$' && token@[4] == '1' && token@[5] == '2',
        r is Err ==> r == Err::<String, Error>(Error::HashFailure),
{
    match bcrypt_hash(name) {
        Ok(token) => Ok(token),
        Err(_) => Err(Error::HashFailure),
    }
}

/// Checks a name against a concealed token.  For a readable token the
/// answer is exactly bcrypt's decision — so for a token made by
/// `conceal_name` from this very name the answer is `true`; a token bcrypt
/// cannot read is reported as a mismatch.
pub fn verify_token(name: &str, token: &str) -> (r: bool)
    ensures
        bcrypt_parses(token@) ==> r == bcrypt_accepts(name@, token@),
        !bcrypt_parses(token@) ==> r == false,
        r ==> bcrypt_accepts(name@, token@),
{
    match bcrypt_verify(name, token) {
        Ok(b) => b,
        Err(_) => false,
    }
}

} // verus!
