//! The error taxonomy of the engine. Persistence failures are surfaced by
//! the store collaborator itself and are not representable here: the engine
//! only ever computes over a snapshot it was handed, so an empty result and
//! a failed lookup can never be conflated inside it.

use vstd::prelude::*;

verus! {

/// Why a login attempt is rejected.
#[derive(Clone, Copy, Debug, PartialEq, Eq)]
pub enum LoginError {
    /// No user carries the given login key.
    UserNotFound,
    /// The user exists but the credential does not match.
    PasswordIncorrect,
    /// The user has no assigned role or menu: nothing would be authorized,
    /// so the login is refused with this specific reason.
    NoRoleOrMenu,
}

/// Why a mutation request is refused before it reaches the store.
#[derive(Clone, Copy, Debug, PartialEq, Eq)]
pub enum ValidationError {
    /// The reserved superadmin account's roles can never be altered.
    ReservedUser,
    /// A role still held by some user cannot be deleted.
    RoleInUse,
    /// A menu with child menus cannot be deleted.
    MenuHasChildren,
}

/// Why a token fails verification. Each kind is distinguishable so the
/// caller can answer with the right rejection reason.
#[derive(Clone, Copy, Debug, PartialEq, Eq)]
pub enum TokenError {
    /// The token is not three well-formed segments carrying a payload in the
    /// expected shape.
    Malformed,
    /// The signature does not match the payload under the given secret.
    InvalidSignature,
    /// Structure and signature are good, but the expiry has elapsed.
    Expired,
}

/// Why a request is rejected at the authentication boundary.
#[derive(Clone, Copy, Debug, PartialEq, Eq)]
pub enum AuthError {
    /// The bearer header is absent or not exactly the scheme keyword
    /// followed by one token value.
    MalformedHeader,
    /// The token itself failed verification.
    Token(TokenError),
}

} // verus!
