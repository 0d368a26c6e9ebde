use admin_auth::errors::{AuthError, LoginError, TokenError, ValidationError};
use admin_auth::gate::{authenticate, parse_bearer};
use admin_auth::guard::{
    assignable_role_ids, check_menu_deletable, check_roles_deletable, check_user_roles_updatable,
    deletable_user_ids, role_menu_ids,
};
use admin_auth::login::login;
use admin_auth::model::{Menu, Role, RoleMenu, Store, User, UserRole};
use admin_auth::resolver::resolve_button_permissions;
use admin_auth::token::{issue, verify, TOKEN_VALIDITY_SECS};
use admin_auth::tree::resolve_menu_tree;

fn user(id: i64, mobile: &str, name: &str, password: &str) -> User {
    User {
        id,
        mobile: mobile.to_string(),
        user_name: name.to_string(),
        password: password.to_string(),
        status_id: 1,
        sort: 1,
    }
}

fn role(id: i64, name: &str) -> Role {
    Role { id, role_name: name.to_string(), status_id: 1, sort: 1 }
}

fn menu(id: i64, parent_id: i64, menu_type: i32, status_id: i32, sort: i32, api: &str) -> Menu {
    Menu {
        id,
        parent_id,
        menu_type,
        status_id,
        sort,
        menu_name: format!("menu{}", id),
        menu_icon: String::new(),
        menu_url: format!("/route{}", id),
        api_url: api.to_string(),
    }
}

/// A store with a superadmin (user 1, role 1), an ordinary operator
/// (user 2, role 2 granting the button menu 3), and a user with no roles
/// (user 3): menus directory 1 <- page 2 <- button 3.
fn sample_store() -> Store {
    Store {
        users: vec![
            user(1, "100", "admin", "pw1"),
            user(2, "200", "op", "pw2"),
            user(3, "300", "idle", "pw3"),
        ],
        roles: vec![role(1, "superadmin"), role(2, "operator")],
        menus: vec![
            menu(1, 0, 1, 1, 10, ""),
            menu(2, 1, 2, 1, 20, "/api/page"),
            menu(3, 2, 3, 1, 30, "/api/button"),
        ],
        user_roles: vec![
            UserRole { user_id: 1, role_id: 1 },
            UserRole { user_id: 2, role_id: 2 },
        ],
        role_menus: vec![RoleMenu { role_id: 2, menu_id: 3 }],
    }
}

#[test]
fn superadmin_gets_every_api_url() {
    let s = sample_store();
    let perms = resolve_button_permissions(&s, 1);
    assert_eq!(perms, vec!["/api/page".to_string(), "/api/button".to_string()]);
}

#[test]
fn superadmin_bypass_ignores_grants() {
    let mut s = sample_store();
    s.role_menus.clear();
    let perms = resolve_button_permissions(&s, 1);
    assert_eq!(perms, vec!["/api/page".to_string(), "/api/button".to_string()]);
}

#[test]
fn ordinary_user_gets_granted_urls_only() {
    let s = sample_store();
    let perms = resolve_button_permissions(&s, 2);
    assert_eq!(perms, vec!["/api/button".to_string()]);
}

#[test]
fn permissions_are_deduplicated() {
    let mut s = sample_store();
    s.menus.push(menu(4, 0, 3, 1, 40, "/api/button"));
    s.role_menus.push(RoleMenu { role_id: 2, menu_id: 4 });
    let perms = resolve_button_permissions(&s, 2);
    assert_eq!(perms, vec!["/api/button".to_string()]);
}

#[test]
fn resolution_is_idempotent() {
    let s = sample_store();
    let a = resolve_button_permissions(&s, 2);
    let b = resolve_button_permissions(&s, 2);
    assert_eq!(a, b);
    let c = resolve_menu_tree(&s, 2);
    let d = resolve_menu_tree(&s, 2);
    assert_eq!(c.1, d.1);
    assert_eq!(
        c.0.iter().map(|m| m.id).collect::<Vec<_>>(),
        d.0.iter().map(|m| m.id).collect::<Vec<_>>()
    );
}

#[test]
fn tree_completion_includes_ancestors_of_a_granted_button() {
    let s = sample_store();
    let (nodes, urls) = resolve_menu_tree(&s, 2);
    let ids: Vec<i64> = nodes.iter().map(|m| m.id).collect();
    assert_eq!(ids, vec![1, 2]);
    assert!(urls.contains(&"/api/button".to_string()));
}

#[test]
fn tree_nodes_carry_their_own_urls() {
    let s = sample_store();
    let (_, urls) = resolve_menu_tree(&s, 2);
    assert!(urls.contains(&"/api/page".to_string()));
    assert_eq!(urls.len(), 2);
}

#[test]
fn disabled_nodes_stay_out_of_the_tree() {
    let mut s = sample_store();
    s.menus[1].status_id = 0;
    let (nodes, _) = resolve_menu_tree(&s, 2);
    let ids: Vec<i64> = nodes.iter().map(|m| m.id).collect();
    assert_eq!(ids, vec![1]);
}

#[test]
fn tree_nodes_come_in_display_order() {
    let mut s = sample_store();
    s.menus[0].sort = 50;
    let (nodes, _) = resolve_menu_tree(&s, 2);
    let ids: Vec<i64> = nodes.iter().map(|m| m.id).collect();
    assert_eq!(ids, vec![2, 1]);
}

#[test]
fn orphaned_parent_reference_is_tolerated() {
    let mut s = sample_store();
    s.menus[0].parent_id = 99;
    let (nodes, _) = resolve_menu_tree(&s, 2);
    let ids: Vec<i64> = nodes.iter().map(|m| m.id).collect();
    assert_eq!(ids, vec![1, 2]);
}

#[test]
fn token_round_trip_returns_the_claims() {
    let perms = vec!["/a".to_string(), "/b".to_string()];
    let token = issue(7, &"alice".to_string(), &perms, "123", 1000);
    let claims = verify("123", &token, 1500).expect("fresh token verifies");
    assert_eq!(claims.user_id, 7);
    assert_eq!(claims.user_name, "alice");
    assert_eq!(claims.permissions, perms);
    assert_eq!(claims.iat, 1000);
    assert_eq!(claims.exp, 1000 + TOKEN_VALIDITY_SECS);
}

#[test]
fn token_round_trip_keeps_non_ascii_names() {
    let perms = vec!["/管理".to_string()];
    let token = issue(9, &"管理员".to_string(), &perms, "s", 5);
    let claims = verify("s", &token, 6).expect("fresh token verifies");
    assert_eq!(claims.user_name, "管理员");
    assert_eq!(claims.permissions, perms);
}

#[test]
fn expired_token_fails_with_the_expired_reason() {
    let token = issue(7, &"alice".to_string(), &vec!["/a".to_string()], "123", 1000);
    let r = verify("123", &token, 1000 + TOKEN_VALIDITY_SECS);
    assert_eq!(r.unwrap_err(), TokenError::Expired);
}

#[test]
fn wrong_secret_fails_with_signature_mismatch() {
    let token = issue(7, &"alice".to_string(), &vec!["/a".to_string()], "123", 1000);
    let r = verify("456", &token, 1500);
    assert_eq!(r.unwrap_err(), TokenError::InvalidSignature);
}

#[test]
fn tampered_token_fails() {
    let token = issue(7, &"alice".to_string(), &vec!["/a".to_string()], "123", 1000);
    let mut t = token.into_bytes();
    let dot = t.iter().position(|&b| b == b'.').unwrap();
    t[dot + 1] = if t[dot + 1] == b'A' { b'B' } else { b'A' };
    let tampered = String::from_utf8(t).unwrap();
    assert!(verify("123", &tampered, 1500).is_err());
}

#[test]
fn garbage_token_is_malformed() {
    assert_eq!(verify("123", "abc", 0).unwrap_err(), TokenError::Malformed);
    assert_eq!(verify("123", "a.b.c.d", 0).unwrap_err(), TokenError::Malformed);
    assert_eq!(verify("123", "a.b.c", 0).unwrap_err(), TokenError::Malformed);
}

#[test]
fn token_has_three_segments_with_a_full_length_tag() {
    let token = issue(7, &"alice".to_string(), &vec!["/a".to_string()], "123", 1000);
    let parts: Vec<&str> = token.split('.').collect();
    assert_eq!(parts.len(), 3);
    // 32 tag bytes become 43 unpadded base64url characters
    assert_eq!(parts[2].len(), 43);
}

#[test]
fn tokens_issued_at_different_instants_differ() {
    let name = "alice".to_string();
    let perms = vec!["/a".to_string()];
    let t1 = issue(7, &name, &perms, "123", 1000);
    let t2 = issue(7, &name, &perms, "123", 1001);
    assert_ne!(t1, t2);
}

#[test]
fn base64url_encodes_the_reference_value() {
    let encoded = admin_auth::b64::b64_encode_bytes(&vec![77u8, 97, 110]);
    assert_eq!(encoded, b"TWFu".to_vec());
    let decoded = admin_auth::b64::b64_decode_bytes(&encoded).unwrap();
    assert_eq!(decoded, vec![77u8, 97, 110]);
}

#[test]
fn login_succeeds_and_embeds_the_permissions() {
    let s = sample_store();
    let token = login(&s, &"200".to_string(), &"pw2".to_string(), "123", 50).unwrap();
    let claims = verify("123", &token, 60).unwrap();
    assert_eq!(claims.user_id, 2);
    assert_eq!(claims.user_name, "op");
    assert_eq!(claims.permissions, vec!["/api/button".to_string()]);
}

#[test]
fn login_unknown_mobile_is_user_not_found() {
    let s = sample_store();
    let r = login(&s, &"999".to_string(), &"pw".to_string(), "123", 50);
    assert_eq!(r.unwrap_err(), LoginError::UserNotFound);
}

#[test]
fn login_wrong_password_is_password_incorrect() {
    let s = sample_store();
    let r = login(&s, &"200".to_string(), &"nope".to_string(), "123", 50);
    assert_eq!(r.unwrap_err(), LoginError::PasswordIncorrect);
}

#[test]
fn login_without_roles_is_refused_with_the_specific_reason() {
    let s = sample_store();
    let r = login(&s, &"300".to_string(), &"pw3".to_string(), "123", 50);
    assert_eq!(r.unwrap_err(), LoginError::NoRoleOrMenu);
}

#[test]
fn login_with_roles_but_no_menus_is_refused_with_the_specific_reason() {
    let mut s = sample_store();
    s.role_menus.clear();
    let r = login(&s, &"200".to_string(), &"pw2".to_string(), "123", 50);
    assert_eq!(r.unwrap_err(), LoginError::NoRoleOrMenu);
}

#[test]
fn reserved_user_is_never_deleted() {
    let ids = deletable_user_ids(&vec![1, 2, 1, 3]);
    assert_eq!(ids, vec![2, 3]);
    let none = deletable_user_ids(&vec![1, 1]);
    assert!(none.is_empty());
}

#[test]
fn reserved_user_roles_are_never_replaced() {
    assert_eq!(check_user_roles_updatable(1).unwrap_err(), ValidationError::ReservedUser);
    assert!(check_user_roles_updatable(2).is_ok());
}

#[test]
fn reserved_role_is_never_bulk_assigned() {
    let ids = assignable_role_ids(&vec![1, 4, 1, 5]);
    assert_eq!(ids, vec![4, 5]);
}

#[test]
fn role_in_use_cannot_be_deleted() {
    let s = sample_store();
    assert_eq!(
        check_roles_deletable(&s, &vec![2]).unwrap_err(),
        ValidationError::RoleInUse
    );
    assert!(check_roles_deletable(&s, &vec![9]).is_ok());
}

#[test]
fn menu_with_children_cannot_be_deleted() {
    let s = sample_store();
    assert_eq!(
        check_menu_deletable(&s, 1).unwrap_err(),
        ValidationError::MenuHasChildren
    );
    assert!(check_menu_deletable(&s, 3).is_ok());
}

#[test]
fn role_menu_query_for_superadmin_lists_every_menu() {
    let s = sample_store();
    assert_eq!(role_menu_ids(&s, 1), vec![1, 2, 3]);
}

#[test]
fn role_menu_query_lists_grants_only() {
    let s = sample_store();
    assert_eq!(role_menu_ids(&s, 2), vec![3]);
}

#[test]
fn store_lookups_find_rows_by_id() {
    let s = sample_store();
    assert_eq!(s.menu_by_id(2).unwrap().parent_id, 1);
    assert!(s.menu_by_id(9).is_none());
    assert_eq!(s.user_by_id(2).unwrap().mobile, "200");
    assert!(s.user_by_id(9).is_none());
}

#[test]
fn bearer_header_is_parsed_exactly() {
    assert_eq!(parse_bearer("Bearer abc"), Some("abc".to_string()));
    assert_eq!(parse_bearer("  Bearer   abc  "), Some("abc".to_string()));
    assert_eq!(parse_bearer("Token abc"), None);
    assert_eq!(parse_bearer("Bearer a b"), None);
    assert_eq!(parse_bearer("Bearer"), None);
    assert_eq!(parse_bearer(""), None);
}

#[test]
fn wrong_scheme_is_rejected_before_verification() {
    let r = authenticate("Token abc", "123", 0);
    assert_eq!(r.unwrap_err(), AuthError::MalformedHeader);
    let r = authenticate("Bearer a b", "123", 0);
    assert_eq!(r.unwrap_err(), AuthError::MalformedHeader);
}

#[test]
fn authenticate_accepts_a_fresh_bearer_token() {
    let token = issue(2, &"op".to_string(), &vec!["/api/button".to_string()], "123", 100);
    let header = format!("Bearer {}", token);
    let claims = authenticate(&header, "123", 200).unwrap();
    assert_eq!(claims.user_id, 2);
    assert_eq!(claims.permissions, vec!["/api/button".to_string()]);
}

#[test]
fn authenticate_reports_token_errors() {
    let token = issue(2, &"op".to_string(), &vec![], "123", 100);
    let header = format!("Bearer {}", token);
    let r = authenticate(&header, "123", 100 + TOKEN_VALIDITY_SECS);
    assert_eq!(r.unwrap_err(), AuthError::Token(TokenError::Expired));
    let r = authenticate(&header, "wrong", 200);
    assert_eq!(r.unwrap_err(), AuthError::Token(TokenError::InvalidSignature));
    let r = authenticate("Bearer notatoken", "123", 200);
    assert_eq!(r.unwrap_err(), AuthError::Token(TokenError::Malformed));
}
