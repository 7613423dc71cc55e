use crate::codec::bytes_eq;
use crate::crypto::{be8, fnv_bytes, fnv_fold, push_be8, FNV_INIT};
use crate::errors::CoreError;
use vstd::prelude::*;
use vstd::slice::slice_to_vec;

verus! {

#[derive(Clone, Copy, Debug, PartialEq, Eq, Structural)]
pub enum Privilege {
    Guest,
    User,
    Host,
}

/// Whether `a` grants at most what `b` grants.
pub open spec fn privilege_le(a: Privilege, b: Privilege) -> bool {
    match (a, b) {
        (Privilege::Guest, _) => true,
        (Privilege::User, Privilege::User) => true,
        (Privilege::User, Privilege::Host) => true,
        (Privilege::Host, Privilege::Host) => true,
        _ => false,
    }
}

pub fn privilege_at_most(a: Privilege, b: Privilege) -> (r: bool)
    ensures
        r == privilege_le(a, b),
{
    match (a, b) {
        (Privilege::Guest, _) => true,
        (Privilege::User, Privilege::User) => true,
        (Privilege::User, Privilege::Host) => true,
        (Privilege::Host, Privilege::Host) => true,
        _ => false,
    }
}

pub open spec fn privilege_byte(p: Privilege) -> u8 {
    match p {
        Privilege::Guest => 0x67,
        Privilege::User => 0x75,
        Privilege::Host => 0x68,
    }
}

fn privilege_byte_of(p: Privilege) -> (r: u8)
    ensures
        r == privilege_byte(p),
{
    match p {
        Privilege::Guest => 0x67,
        Privilege::User => 0x75,
        Privilege::Host => 0x68,
    }
}

/// The canonical bytes a token's tag covers: subject, privilege, issue time
/// and expiry, length-prefixed where variable.
pub open spec fn token_message_of(
    user_id: Seq<u8>,
    privilege: Privilege,
    issued_at: u64,
    expiry: u64,
) -> Seq<u8> {
    be8(user_id.len() as u64) + user_id + seq![privilege_byte(privilege)] + be8(issued_at) + be8(
        expiry,
    )
}

/// The tag of a token under the core's 32-byte secret.
pub open spec fn token_tag_of(
    secret: Seq<u8>,
    user_id: Seq<u8>,
    privilege: Privilege,
    issued_at: u64,
    expiry: u64,
) -> u64 {
    fnv_fold(FNV_INIT, secret + token_message_of(user_id, privilege, issued_at, expiry))
}

/// A capability token: a bearer of `privilege` over `user_id` until `expiry`,
/// authenticated by a tag under the core's secret alone.
pub struct Token {
    pub user_id: Vec<u8>,
    pub privilege: Privilege,
    pub issued_at: u64,
    pub expiry: u64,
    pub tag: u64,
}

impl Token {
    /// The tag matches the fields under `secret`.
    pub open spec fn signed_with(self, secret: Seq<u8>) -> bool {
        self.tag == token_tag_of(secret, self.user_id@, self.privilege, self.issued_at, self.expiry)
    }
}

fn compute_tag(
    secret: &[u8],
    user_id: &[u8],
    privilege: Privilege,
    issued_at: u64,
    expiry: u64,
) -> (r: u64)
    ensures
        r == token_tag_of(secret@, user_id@, privilege, issued_at, expiry),
{
    let mut data: Vec<u8> = slice_to_vec(secret);
    push_be8(&mut data, user_id.len() as u64);
    data.extend_from_slice(user_id);
    data.push(privilege_byte_of(privilege));
    push_be8(&mut data, issued_at);
    push_be8(&mut data, expiry);
    proof {
        assert(data@ =~= secret@ + token_message_of(user_id@, privilege, issued_at, expiry));
    }
    fnv_bytes(FNV_INIT, data.as_slice())
}

/// Issues a token over the given fields under the core's secret.
pub fn issue_token(
    secret: &[u8],
    user_id: &[u8],
    privilege: Privilege,
    issued_at: u64,
    expiry: u64,
) -> (r: Token)
    ensures
        r.user_id@ == user_id@,
        r.privilege == privilege,
        r.issued_at == issued_at,
        r.expiry == expiry,
        r.signed_with(secret@),
{
    let tag = compute_tag(secret, user_id, privilege, issued_at, expiry);
    Token { user_id: slice_to_vec(user_id), privilege, issued_at, expiry, tag }
}

/// Validates a token: the tag must match under the core's secret and the
/// expiry must lie in the future. A forged or expired token is rejected.
pub fn verify_token(secret: &[u8], token: &Token, now: u64) -> (r: Result<(), CoreError>)
    ensures
        r is Ok <==> token.signed_with(secret@) && now < token.expiry,
        r is Err ==> r == Err::<(), CoreError>(CoreError::Unauthenticated),
{
    let tag = compute_tag(
        secret,
        token.user_id.as_slice(),
        token.privilege,
        token.issued_at,
        token.expiry,
    );
    if tag == token.tag && now < token.expiry {
        Ok(())
    } else {
        Err(CoreError::Unauthenticated)
    }
}

/// Issues a refreshed token with the same subject and a new expiry. The
/// privilege may only stay or narrow; a caller whose own token does not
/// verify gets nothing.
pub fn generate_token(
    secret: &[u8],
    caller: &Token,
    privilege: Privilege,
    expiry: u64,
    now: u64,
) -> (r: Result<Token, CoreError>)
    ensures
        r matches Ok(t) ==> caller.signed_with(secret@) && now < caller.expiry && privilege_le(
            privilege,
            caller.privilege,
        ) && t.user_id@ == caller.user_id@ && t.privilege == privilege && t.issued_at == now
            && t.expiry == expiry && t.signed_with(secret@),
        r matches Err(e) ==> (e == CoreError::Unauthenticated && !(caller.signed_with(secret@)
            && now < caller.expiry)) || (e == CoreError::PermissionDenied && caller.signed_with(
            secret@,
        ) && now < caller.expiry && !privilege_le(privilege, caller.privilege)),
{
    match verify_token(secret, caller, now) {
        Ok(_) => {},
        Err(_) => {
            return Err(CoreError::Unauthenticated);
        },
    }
    if !privilege_at_most(privilege, caller.privilege) {
        return Err(CoreError::PermissionDenied);
    }
    Ok(issue_token(secret, caller.user_id.as_slice(), privilege, now, expiry))
}

/// The privilege gate of the verbs: a valid, unexpired token carrying one of
/// the allowed privileges; below host privilege the subject must be the
/// caller's own.
pub fn authorize(
    secret: &[u8],
    token: &Token,
    now: u64,
    allow_guest: bool,
    allow_user: bool,
    allow_host: bool,
    subject: &[u8],
) -> (r: Result<(), CoreError>)
    ensures
        r is Ok <==> token.signed_with(secret@) && now < token.expiry && (match token.privilege {
            Privilege::Guest => allow_guest,
            Privilege::User => allow_user,
            Privilege::Host => allow_host,
        }) && (token.privilege == Privilege::Host || token.user_id@ == subject@),
        r matches Err(e) ==> (e == CoreError::Unauthenticated && !(token.signed_with(secret@) && now
            < token.expiry)) || (e == CoreError::PermissionDenied && token.signed_with(secret@)
            && now < token.expiry),
{
    match verify_token(secret, token, now) {
        Ok(_) => {},
        Err(_) => {
            return Err(CoreError::Unauthenticated);
        },
    }
    let allowed = match token.privilege {
        Privilege::Guest => allow_guest,
        Privilege::User => allow_user,
        Privilege::Host => allow_host,
    };
    if !allowed {
        return Err(CoreError::PermissionDenied);
    }
    if !(token.privilege == Privilege::Host) && !bytes_eq(token.user_id.as_slice(), subject) {
        return Err(CoreError::PermissionDenied);
    }
    Ok(())
}

} // verus!
