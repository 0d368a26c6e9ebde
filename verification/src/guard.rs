//! The reserved-identifier rules and referential guards that protect the
//! store: they decide, before any mutation reaches the store, which of a
//! request's targets are admissible.

use vstd::prelude::*;

use crate::errors::ValidationError;
use crate::model::{Menu, RoleMenu, Store, UserRole};

verus! {

/// Everything but the reserved id 1.
pub open spec fn not_reserved() -> spec_fn(i64) -> bool {
    |i: i64| i != 1
}

/// Keeps the ids that are not the reserved id 1, in order.
fn filter_out_reserved(ids: &Vec<i64>) -> (r: Vec<i64>)
    ensures
        r@ == ids@.filter(not_reserved()),
        !r@.contains(1),
{
    let mut r: Vec<i64> = Vec::new();
    proof {
        reveal(Seq::filter);
        assert(r@ =~= ids@.take(0).filter(not_reserved()));
    }
    let mut k: usize = 0;
    while k < ids.len()
        invariant
            k <= ids@.len(),
            r@ == ids@.take(k as int).filter(not_reserved()),
        decreases ids@.len() - k,
    {
        if ids[k] != 1 {
            r.push(ids[k]);
        }
        proof {
            reveal(Seq::filter);
            let post = ids@.take(k as int + 1);
            assert(post.drop_last() =~= ids@.take(k as int));
            assert(post.last() == ids@[k as int]);
        }
        k += 1;
    }
    proof {
        assert(ids@.take(ids@.len() as int) =~= ids@);
        if r@.contains(1) {
            crate::tree::lemma_filter_contains_orig(ids@, not_reserved(), 1);
        }
    }
    r
}

/// Deletion targets among the requested user ids: the reserved superadmin
/// account is never among them, whatever the caller sent.
pub fn deletable_user_ids(ids: &Vec<i64>) -> (r: Vec<i64>)
    ensures
        r@ == ids@.filter(not_reserved()),
        !r@.contains(1),
{
    filter_out_reserved(ids)
}

/// Whether a user's role assignments may be replaced: the reserved
/// superadmin account's roles can never be altered.
pub fn check_user_roles_updatable(user_id: i64) -> (r: Result<(), ValidationError>)
    ensures
        r is Ok <==> user_id != 1,
        r is Err ==> r.unwrap_err() == ValidationError::ReservedUser,
{
    if user_id == 1 {
        Err(ValidationError::ReservedUser)
    } else {
        Ok(())
    }
}

/// Role ids that may be assigned through the bulk replace: the reserved
/// superadmin role is never among them, whatever the caller sent.
pub fn assignable_role_ids(role_ids: &Vec<i64>) -> (r: Vec<i64>)
    ensures
        r@ == role_ids@.filter(not_reserved()),
        !r@.contains(1),
{
    filter_out_reserved(role_ids)
}

/// Some user still holds one of the given roles.
pub open spec fn role_referenced(s: Store, ids: Seq<i64>) -> bool {
    exists|i: int|
        0 <= i < s.user_roles@.len() && ids.contains((#[trigger] s.user_roles@[i]).role_id)
}

/// Whether the given roles may be deleted: refused while any user still
/// holds one of them.
pub fn check_roles_deletable(s: &Store, ids: &Vec<i64>) -> (r: Result<(), ValidationError>)
    ensures
        r is Ok <==> !role_referenced(*s, ids@),
        r is Err ==> r.unwrap_err() == ValidationError::RoleInUse,
{
    let mut k: usize = 0;
    while k < s.user_roles.len()
        invariant
            k <= s.user_roles@.len(),
            forall|i: int| 0 <= i < k ==> !ids@.contains((#[trigger] s.user_roles@[i]).role_id),
        decreases s.user_roles@.len() - k,
    {
        if crate::tree::contains_i64(ids, s.user_roles[k].role_id) {
            return Err(ValidationError::RoleInUse);
        }
        k += 1;
    }
    Ok(())
}

/// The menu has at least one child.
pub open spec fn has_child_menu(s: Store, id: i64) -> bool {
    exists|i: int| 0 <= i < s.menus@.len() && (#[trigger] s.menus@[i]).parent_id == id
}

/// Whether the menu may be deleted: refused while other menus name it as
/// their parent, so no subtree is ever orphaned.
pub fn check_menu_deletable(s: &Store, id: i64) -> (r: Result<(), ValidationError>)
    ensures
        r is Ok <==> !has_child_menu(*s, id),
        r is Err ==> r.unwrap_err() == ValidationError::MenuHasChildren,
{
    let mut k: usize = 0;
    while k < s.menus.len()
        invariant
            k <= s.menus@.len(),
            forall|i: int| 0 <= i < k ==> (#[trigger] s.menus@[i]).parent_id != id,
        decreases s.menus@.len() - k,
    {
        if s.menus[k].parent_id == id {
            return Err(ValidationError::MenuHasChildren);
        }
        k += 1;
    }
    Ok(())
}

/// The role ids a user holds, in store order.
pub fn user_role_ids(s: &Store, user_id: i64) -> (r: Vec<i64>)
    ensures
        r@ == s.user_roles@.filter(|ur: UserRole| ur.user_id == user_id).map_values(
            |ur: UserRole| ur.role_id,
        ),
{
    let mut r: Vec<i64> = Vec::new();
    proof {
        reveal(Seq::filter);
        assert(r@ =~= s.user_roles@.take(0).filter(|ur: UserRole| ur.user_id == user_id)
            .map_values(|ur: UserRole| ur.role_id));
    }
    let mut k: usize = 0;
    while k < s.user_roles.len()
        invariant
            k <= s.user_roles@.len(),
            r@ == s.user_roles@.take(k as int).filter(|ur: UserRole| ur.user_id == user_id)
                .map_values(|ur: UserRole| ur.role_id),
        decreases s.user_roles@.len() - k,
    {
        if s.user_roles[k].user_id == user_id {
            r.push(s.user_roles[k].role_id);
        }
        proof {
            reveal(Seq::filter);
            let post = s.user_roles@.take(k as int + 1);
            assert(post.drop_last() =~= s.user_roles@.take(k as int));
            assert(post.last() == s.user_roles@[k as int]);
            let p = |ur: UserRole| ur.user_id == user_id;
            if p(post.last()) {
                assert(post.filter(p) == s.user_roles@.take(k as int).filter(p).push(post.last()));
            }
            assert(r@ =~= post.filter(p).map_values(|ur: UserRole| ur.role_id));
        }
        k += 1;
    }
    proof {
        assert(s.user_roles@.take(s.user_roles@.len() as int) =~= s.user_roles@);
    }
    r
}

/// The menu ids associated with a role: every menu id for the reserved
/// superadmin role, otherwise exactly the granted ones, in store order.
pub fn role_menu_ids(s: &Store, role_id: i64) -> (r: Vec<i64>)
    ensures
        role_id == 1 ==> r@ == s.menus@.map_values(|m: Menu| m.id),
        role_id != 1 ==> r@ == s.role_menus@.filter(
            |rm: RoleMenu| rm.role_id == role_id,
        ).map_values(|rm: RoleMenu| rm.menu_id),
{
    let mut r: Vec<i64> = Vec::new();
    if role_id == 1 {
        let mut k: usize = 0;
        while k < s.menus.len()
            invariant
                k <= s.menus@.len(),
                r@ == s.menus@.take(k as int).map_values(|m: Menu| m.id),
            decreases s.menus@.len() - k,
        {
            r.push(s.menus[k].id);
            proof {
                assert(r@ =~= s.menus@.take(k as int + 1).map_values(|m: Menu| m.id));
            }
            k += 1;
        }
        proof {
            assert(s.menus@.take(s.menus@.len() as int) =~= s.menus@);
        }
    } else {
        proof {
            reveal(Seq::filter);
            assert(r@ =~= s.role_menus@.take(0).filter(|rm: RoleMenu| rm.role_id == role_id)
                .map_values(|rm: RoleMenu| rm.menu_id));
        }
        let mut k: usize = 0;
        while k < s.role_menus.len()
            invariant
                k <= s.role_menus@.len(),
                r@ == s.role_menus@.take(k as int).filter(
                    |rm: RoleMenu| rm.role_id == role_id,
                ).map_values(|rm: RoleMenu| rm.menu_id),
            decreases s.role_menus@.len() - k,
        {
            if s.role_menus[k].role_id == role_id {
                r.push(s.role_menus[k].menu_id);
            }
            proof {
                reveal(Seq::filter);
                let post = s.role_menus@.take(k as int + 1);
                assert(post.drop_last() =~= s.role_menus@.take(k as int));
                assert(post.last() == s.role_menus@[k as int]);
                let p = |rm: RoleMenu| rm.role_id == role_id;
                if p(post.last()) {
                    assert(post.filter(p) == s.role_menus@.take(k as int).filter(p).push(
                        post.last(),
                    ));
                    assert(r@ =~= post.filter(p).map_values(|rm: RoleMenu| rm.menu_id));
                } else {
                    assert(r@ =~= post.filter(p).map_values(|rm: RoleMenu| rm.menu_id));
                }
            }
            k += 1;
        }
        proof {
            assert(s.role_menus@.take(s.role_menus@.len() as int) =~= s.role_menus@);
        }
    }
    r
}

} // verus!
