//! The data model: the persisted relations the engine reads, and the
//! snapshot type that bundles them.

use vstd::prelude::*;

verus! {

/// An operator account. The account with `id == 1` is reserved: it can never
/// be deleted and its role assignments can never be altered.
pub struct User {
    pub id: i64,
    /// The login key; unique across the relation.
    pub mobile: String,
    pub user_name: String,
    /// Opaque credential, compared verbatim at login.
    pub password: String,
    /// 1 enabled, 0 disabled.
    pub status_id: i32,
    pub sort: i32,
}

/// A role. The role with `id == 1` is the reserved superadmin role: any user
/// holding it bypasses all menu and permission filtering.
pub struct Role {
    pub id: i64,
    pub role_name: String,
    /// 1 enabled, 0 disabled.
    pub status_id: i32,
    pub sort: i32,
}

/// A node of the menu tree. `parent_id` is 0 for a root node, otherwise the
/// id of the parent menu.
pub struct Menu {
    pub id: i64,
    pub parent_id: i64,
    /// 1 directory, 2 page, 3 button.
    pub menu_type: i32,
    /// 1 enabled, 0 disabled.
    pub status_id: i32,
    /// Ascending display order.
    pub sort: i32,
    pub menu_name: String,
    pub menu_icon: String,
    /// Route path of the UI node.
    pub menu_url: String,
    /// Backend endpoint gated by this node; empty for pure UI nodes.
    pub api_url: String,
}

/// Association row: the user holds the role.
pub struct UserRole {
    pub user_id: i64,
    pub role_id: i64,
}

/// Association row: the role is granted the menu.
pub struct RoleMenu {
    pub role_id: i64,
    pub menu_id: i64,
}

/// A read-only snapshot of the permission store. The engine is a pure
/// function of a snapshot: it never mutates one.
pub struct Store {
    pub users: Vec<User>,
    pub roles: Vec<Role>,
    pub menus: Vec<Menu>,
    pub user_roles: Vec<UserRole>,
    pub role_menus: Vec<RoleMenu>,
}

impl Store {
    /// Well-formedness of a snapshot: primary keys are unique, and so is the
    /// login key of a user. Association rows may repeat; the engine
    /// deduplicates what it derives from them.
    pub open spec fn wf(self) -> bool {
        &&& forall|i: int, j: int|
            0 <= i < j < self.users@.len() ==> #[trigger] self.users@[i].id
                != #[trigger] self.users@[j].id
        &&& forall|i: int, j: int|
            0 <= i < j < self.users@.len() ==> #[trigger] self.users@[i].mobile@
                != #[trigger] self.users@[j].mobile@
        &&& forall|i: int, j: int|
            0 <= i < j < self.roles@.len() ==> #[trigger] self.roles@[i].id
                != #[trigger] self.roles@[j].id
        &&& forall|i: int, j: int|
            0 <= i < j < self.menus@.len() ==> #[trigger] self.menus@[i].id
                != #[trigger] self.menus@[j].id
    }

    /// The user holds the role: some association row links them.
    pub open spec fn holds_role(self, user_id: i64, role_id: i64) -> bool {
        exists|i: int|
            0 <= i < self.user_roles@.len() && (#[trigger] self.user_roles@[i]).user_id == user_id
                && self.user_roles@[i].role_id == role_id
    }

    /// The user holds the reserved superadmin role.
    pub open spec fn is_superadmin(self, user_id: i64) -> bool {
        self.holds_role(user_id, 1)
    }

    /// The menu is granted to the user through some role the user holds.
    pub open spec fn menu_granted(self, user_id: i64, menu_id: i64) -> bool {
        exists|i: int, j: int|
            0 <= i < self.user_roles@.len() && 0 <= j < self.role_menus@.len()
                && (#[trigger] self.user_roles@[i]).user_id == user_id
                && (#[trigger] self.role_menus@[j]).role_id == self.user_roles@[i].role_id
                && self.role_menus@[j].menu_id == menu_id
    }

    /// Some user row carries the given login key.
    pub open spec fn has_user_with_mobile(self, mobile: Seq<char>) -> bool {
        exists|i: int|
            0 <= i < self.users@.len() && (#[trigger] self.users@[i]).mobile@ == mobile
    }

    /// The user row carrying the given login key; meaningful when
    /// `has_user_with_mobile` holds (under `wf` that row is unique).
    pub open spec fn user_with_mobile(self, mobile: Seq<char>) -> User {
        self.users@[choose|i: int|
            0 <= i < self.users@.len() && (#[trigger] self.users@[i]).mobile@ == mobile]
    }

    /// Whether the user holds the reserved superadmin role.
    pub fn check_superadmin(&self, user_id: i64) -> (r: bool)
        ensures
            r == self.is_superadmin(user_id),
    {
        let mut k: usize = 0;
        while k < self.user_roles.len()
            invariant
                k <= self.user_roles@.len(),
                forall|i: int|
                    0 <= i < k ==> !((#[trigger] self.user_roles@[i]).user_id == user_id
                        && self.user_roles@[i].role_id == 1),
            decreases self.user_roles@.len() - k,
        {
            if self.user_roles[k].user_id == user_id && self.user_roles[k].role_id == 1 {
                return true;
            }
            k += 1;
        }
        false
    }

    /// Whether the menu is granted to the user through some role they hold.
    pub fn check_menu_granted(&self, user_id: i64, menu_id: i64) -> (r: bool)
        ensures
            r == self.menu_granted(user_id, menu_id),
    {
        let mut k: usize = 0;
        while k < self.user_roles.len()
            invariant
                k <= self.user_roles@.len(),
                forall|i: int, j: int|
                    0 <= i < k && 0 <= j < self.role_menus@.len() ==> !((
                    #[trigger] self.user_roles@[i]).user_id == user_id
                        && (#[trigger] self.role_menus@[j]).role_id == self.user_roles@[i].role_id
                        && self.role_menus@[j].menu_id == menu_id),
            decreases self.user_roles@.len() - k,
        {
            if self.user_roles[k].user_id == user_id {
                let rid = self.user_roles[k].role_id;
                let mut l: usize = 0;
                while l < self.role_menus.len()
                    invariant
                        l <= self.role_menus@.len(),
                        k < self.user_roles@.len(),
                        self.user_roles@[k as int].user_id == user_id,
                        self.user_roles@[k as int].role_id == rid,
                        forall|j: int|
                            0 <= j < l ==> !((#[trigger] self.role_menus@[j]).role_id == rid
                                && self.role_menus@[j].menu_id == menu_id),
                    decreases self.role_menus@.len() - l,
                {
                    if self.role_menus[l].role_id == rid && self.role_menus[l].menu_id == menu_id {
                        return true;
                    }
                    l += 1;
                }
            }
            k += 1;
        }
        false
    }

    /// The first menu row with the given id, if any (unique under `wf`).
    pub fn menu_by_id(&self, id: i64) -> (r: Option<&Menu>)
        ensures
            r is Some <==> exists|i: int|
                0 <= i < self.menus@.len() && (#[trigger] self.menus@[i]).id == id,
            r is Some ==> r.unwrap().id == id && self.menus@.contains(*r.unwrap()),
    {
        let mut k: usize = 0;
        while k < self.menus.len()
            invariant
                k <= self.menus@.len(),
                forall|i: int| 0 <= i < k ==> (#[trigger] self.menus@[i]).id != id,
            decreases self.menus@.len() - k,
        {
            if self.menus[k].id == id {
                proof {
                    assert(self.menus@.contains(self.menus@[k as int]));
                }
                return Some(&self.menus[k]);
            }
            k += 1;
        }
        None
    }

    /// The first user row with the given id, if any (unique under `wf`).
    pub fn user_by_id(&self, id: i64) -> (r: Option<&User>)
        ensures
            r is Some <==> exists|i: int|
                0 <= i < self.users@.len() && (#[trigger] self.users@[i]).id == id,
            r is Some ==> r.unwrap().id == id && self.users@.contains(*r.unwrap()),
    {
        let mut k: usize = 0;
        while k < self.users.len()
            invariant
                k <= self.users@.len(),
                forall|i: int| 0 <= i < k ==> (#[trigger] self.users@[i]).id != id,
            decreases self.users@.len() - k,
        {
            if self.users[k].id == id {
                proof {
                    assert(self.users@.contains(self.users@[k as int]));
                }
                return Some(&self.users[k]);
            }
            k += 1;
        }
        None
    }

    /// The first user row carrying the given login key, if any.
    pub fn find_user_by_mobile(&self, mobile: &String) -> (r: Option<&User>)
        ensures
            r is Some <==> self.has_user_with_mobile(mobile@),
            r is Some ==> r.unwrap().mobile@ == mobile@ && self.users@.contains(*r.unwrap()),
            self.wf() && r is Some ==> *r.unwrap() == self.user_with_mobile(mobile@),
    {
        let mut k: usize = 0;
        while k < self.users.len()
            invariant
                k <= self.users@.len(),
                forall|i: int| 0 <= i < k ==> (#[trigger] self.users@[i]).mobile@ != mobile@,
            decreases self.users@.len() - k,
        {
            if self.users[k].mobile == *mobile {
                let u = &self.users[k];
                proof {
                    assert(self.users@.contains(self.users@[k as int]));
                    if self.wf() {
                        let w = choose|i: int|
                            0 <= i < self.users@.len() && (#[trigger] self.users@[i]).mobile@
                                == mobile@;
                        assert(self.users@[w].mobile@ == self.users@[k as int].mobile@);
                    }
                }
                return Some(u);
            }
            k += 1;
        }
        None
    }
}

} // verus!
