//! Login: credential check, permission resolution, token issue. A user with
//! nothing to invoke is refused with its own reason, never a generic one.

use vstd::prelude::*;
use vstd::utf8::encode_utf8;

use crate::errors::LoginError;
use crate::model::Store;
use crate::resolver::{button_permissions, resolve_button_permissions, str_seq};
use crate::token::{issue, issued_claims, token_bytes, TOKEN_VALIDITY_SECS};

verus! {

/// Attempts a login against a store snapshot: looks the user up by their
/// login key, compares the credential verbatim, resolves their button
/// permissions, and issues a token carrying them. Each rejection reason is
/// exact: an unknown key, a wrong credential, and an empty permission set
/// are distinguished.
pub fn login(store: &Store, mobile: &String, password: &String, secret: &str, now: u64) -> (r:
    Result<String, LoginError>)
    requires
        store.wf(),
        now <= u64::MAX - TOKEN_VALIDITY_SECS,
    ensures
        ({
            let found = store.has_user_with_mobile(mobile@);
            let u = store.user_with_mobile(mobile@);
            match r {
                Ok(token) => found && u.password@ == password@ && button_permissions(
                    *store,
                    u.id,
                ).len() > 0 && encode_utf8(token@) == token_bytes(
                    secret@,
                    issued_claims(u.id, u.user_name@, button_permissions(*store, u.id), now),
                ),
                Err(LoginError::UserNotFound) => !found,
                Err(LoginError::PasswordIncorrect) => found && u.password@ != password@,
                Err(LoginError::NoRoleOrMenu) => found && u.password@ == password@
                    && button_permissions(*store, u.id).len() == 0,
            }
        }),
{
    let user = match store.find_user_by_mobile(mobile) {
        Some(u) => u,
        None => {
            return Err(LoginError::UserNotFound);
        },
    };
    if user.password != *password {
        return Err(LoginError::PasswordIncorrect);
    }
    let perms = resolve_button_permissions(store, user.id);
    if perms.len() == 0 {
        proof {
            assert(button_permissions(*store, user.id).len() == str_seq(perms@).len());
        }
        return Err(LoginError::NoRoleOrMenu);
    }
    let token = issue(user.id, &user.user_name, &perms, secret, now);
    Ok(token)
}

} // verus!
