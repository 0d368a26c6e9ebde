//! The permission resolver: from a store snapshot, the flat set of authorized
//! API paths of a user, and the pruned, completed menu tree shown to them.

use vstd::prelude::*;

use crate::model::{Menu, Store};

verus! {

/// View of a vector of strings as a sequence of character sequences.
pub open spec fn str_seq(v: Seq<String>) -> Seq<Seq<char>> {
    v.map_values(|s: String| s@)
}

/// First-occurrence deduplication: keeps the first of equal elements, in order.
pub open spec fn dedup_first<A>(s: Seq<A>) -> Seq<A>
    decreases s.len(),
{
    if s.len() == 0 {
        s
    } else {
        let prev = dedup_first(s.drop_last());
        if prev.contains(s.last()) {
            prev
        } else {
            prev.push(s.last())
        }
    }
}

/// A menu is a candidate for the user: every menu for a superadmin, otherwise
/// exactly the menus granted through the user's roles.
pub open spec fn candidate(s: Store, user_id: i64, m: Menu) -> bool {
    s.is_superadmin(user_id) || s.menu_granted(user_id, m.id)
}

/// The candidate menus that gate a backend endpoint.
pub open spec fn url_pred(s: Store, user_id: i64) -> spec_fn(Menu) -> bool {
    |m: Menu| candidate(s, user_id, m) && m.api_url@.len() > 0
}

/// The api urls of the candidate menus among `menus` that gate an endpoint,
/// in store order, duplicates kept.
pub open spec fn urls_of(s: Store, user_id: i64, menus: Seq<Menu>) -> Seq<Seq<char>> {
    menus.filter(url_pred(s, user_id)).map_values(|m: Menu| m.api_url@)
}

/// The button permissions of a user: the deduplicated api urls of their
/// candidate menus, in store order.
pub open spec fn button_permissions(s: Store, user_id: i64) -> Seq<Seq<char>> {
    dedup_first(urls_of(s, user_id, s.menus@))
}

/// Every non-empty api url in the store, whoever it is granted to.
pub open spec fn all_button_urls(s: Store) -> Set<Seq<char>> {
    Set::new(
        |u: Seq<char>|
            exists|i: int|
                0 <= i < s.menus@.len() && (#[trigger] s.menus@[i]).api_url@ == u
                    && s.menus@[i].api_url@.len() > 0,
    )
}

/// Membership in a pushed sequence.
pub proof fn lemma_push_contains<A>(s: Seq<A>, v: A, x: A)
    ensures
        s.push(v).contains(x) <==> s.contains(x) || x == v,
{
    if s.push(v).contains(x) {
        let i = choose|i: int| 0 <= i < s.push(v).len() && s.push(v)[i] == x;
        if i < s.len() {
            assert(s[i] == x);
        }
    }
    if s.contains(x) {
        let i = choose|i: int| 0 <= i < s.len() && s[i] == x;
        assert(s.push(v)[i] == x);
    }
    assert(s.push(v)[s.len() as int] == v);
}

/// Membership in a sequence, split off its last element.
pub proof fn lemma_drop_last_contains<A>(s: Seq<A>, x: A)
    requires
        s.len() > 0,
    ensures
        s.contains(x) <==> s.drop_last().contains(x) || x == s.last(),
{
    if s.contains(x) {
        let i = choose|i: int| 0 <= i < s.len() && s[i] == x;
        if i < s.len() - 1 {
            assert(s.drop_last()[i] == x);
        }
    }
    if s.drop_last().contains(x) {
        let i = choose|i: int| 0 <= i < s.drop_last().len() && s.drop_last()[i] == x;
        assert(s[i] == x);
    }
    assert(s[s.len() - 1] == s.last());
}

/// Deduplication neither loses nor invents elements.
pub proof fn lemma_dedup_first_contains<A>(s: Seq<A>, x: A)
    ensures
        dedup_first(s).contains(x) <==> s.contains(x),
    decreases s.len(),
{
    if s.len() > 0 {
        lemma_dedup_first_contains(s.drop_last(), x);
        lemma_drop_last_contains(s, x);
        let prev = dedup_first(s.drop_last());
        if !prev.contains(s.last()) {
            lemma_push_contains(prev, s.last(), x);
        }
    }
}

/// Deduplication leaves no duplicates.
pub proof fn lemma_dedup_first_no_duplicates<A>(s: Seq<A>)
    ensures
        forall|i: int, j: int|
            0 <= i < j < dedup_first(s).len() ==> dedup_first(s)[i] != dedup_first(s)[j],
    decreases s.len(),
{
    if s.len() > 0 {
        lemma_dedup_first_no_duplicates(s.drop_last());
        let prev = dedup_first(s.drop_last());
        if !prev.contains(s.last()) {
            assert forall|i: int, j: int|
                0 <= i < j < prev.push(s.last()).len() implies prev.push(s.last())[i] != prev.push(
                s.last(),
            )[j] by {
                if j == prev.len() {
                    assert(prev.contains(prev[i]));
                }
            }
        }
    }
}

/// What it means for a url to occur among the candidates' urls.
pub proof fn lemma_urls_of_contains(s: Store, user_id: i64, menus: Seq<Menu>, u: Seq<char>)
    ensures
        urls_of(s, user_id, menus).contains(u) <==> exists|i: int|
            0 <= i < menus.len() && candidate(s, user_id, #[trigger] menus[i])
                && menus[i].api_url@ == u && menus[i].api_url@.len() > 0,
    decreases menus.len(),
{
    reveal(Seq::filter);
    if menus.len() > 0 {
        lemma_urls_of_contains(s, user_id, menus.drop_last(), u);
        let pre = menus.drop_last();
        let m = menus.last();
        assert(menus.filter(url_pred(s, user_id)) == if url_pred(s, user_id)(m) {
            pre.filter(url_pred(s, user_id)).push(m)
        } else {
            pre.filter(url_pred(s, user_id))
        });
        if url_pred(s, user_id)(m) {
            assert(urls_of(s, user_id, menus) =~= urls_of(s, user_id, pre).push(m.api_url@));
            lemma_push_contains(urls_of(s, user_id, pre), m.api_url@, u);
        } else {
            assert(urls_of(s, user_id, menus) =~= urls_of(s, user_id, pre));
        }
        if urls_of(s, user_id, menus).contains(u) {
            if urls_of(s, user_id, pre).contains(u) {
                let i = choose|i: int|
                    0 <= i < pre.len() && candidate(s, user_id, #[trigger] pre[i])
                        && pre[i].api_url@ == u && pre[i].api_url@.len() > 0;
                assert(menus[i] == pre[i]);
            } else {
                assert(menus[menus.len() - 1] == m);
            }
        }
        if exists|i: int|
            0 <= i < menus.len() && candidate(s, user_id, #[trigger] menus[i])
                && menus[i].api_url@ == u && menus[i].api_url@.len() > 0 {
            let i = choose|i: int|
                0 <= i < menus.len() && candidate(s, user_id, #[trigger] menus[i])
                    && menus[i].api_url@ == u && menus[i].api_url@.len() > 0;
            if i < menus.len() - 1 {
                assert(pre[i] == menus[i]);
                assert(urls_of(s, user_id, pre).contains(u));
            } else {
                assert(url_pred(s, user_id)(m));
            }
        }
    }
}

/// Superadmin bypass: for a user holding the reserved role, the button
/// permissions are exactly the non-empty api urls of all menus, whatever
/// the role-menu grants say.
pub proof fn lemma_superadmin_bypass(s: Store, user_id: i64)
    requires
        s.is_superadmin(user_id),
    ensures
        button_permissions(s, user_id).to_set() == all_button_urls(s),
{
    assert forall|u: Seq<char>|
        button_permissions(s, user_id).to_set().contains(u) == all_button_urls(s).contains(
        u,
    ) by {
        lemma_dedup_first_contains(urls_of(s, user_id, s.menus@), u);
        lemma_urls_of_contains(s, user_id, s.menus@, u);
    }
    assert(button_permissions(s, user_id).to_set() =~= all_button_urls(s));
}

/// Resolution is idempotent: two resolutions against the same snapshot give
/// the same permissions, both as sequences and as sets.
pub proof fn lemma_button_permissions_idempotent(
    s: Store,
    user_id: i64,
    r1: Seq<Seq<char>>,
    r2: Seq<Seq<char>>,
)
    requires
        r1 == button_permissions(s, user_id),
        r2 == button_permissions(s, user_id),
    ensures
        r1 == r2,
        r1.to_set() == r2.to_set(),
{
}

/// No grant means no permission: when a menu is a candidate for nobody —
/// the user is no superadmin and no menu is granted to them — resolution
/// yields the empty set.
proof fn lemma_no_candidates_no_permissions(s: Store, user_id: i64)
    requires
        !s.is_superadmin(user_id),
        forall|mid: i64| !s.menu_granted(user_id, mid),
    ensures
        button_permissions(s, user_id).len() == 0,
{
    let p = url_pred(s, user_id);
    assert(s.menus@.all(|m: Menu| !p(m)));
    s.menus@.lemma_all_neg_filter_empty(p);
    assert(urls_of(s, user_id, s.menus@).len() == 0);
    assert(dedup_first(urls_of(s, user_id, s.menus@)).len() == 0);
}

/// A user holding no role at all resolves to the empty permission set, so
/// their login is refused for that reason and no other.
pub proof fn lemma_no_roles_no_permissions(s: Store, user_id: i64)
    requires
        forall|i: int| 0 <= i < s.user_roles@.len() ==> (#[trigger] s.user_roles@[i]).user_id
            != user_id,
    ensures
        button_permissions(s, user_id).len() == 0,
{
    lemma_no_candidates_no_permissions(s, user_id);
}

/// A user whose roles were granted no menus resolves to the empty
/// permission set, so their login is refused for that reason and no other.
pub proof fn lemma_no_granted_menus_no_permissions(s: Store, user_id: i64)
    requires
        !s.is_superadmin(user_id),
        forall|i: int, j: int|
            0 <= i < s.user_roles@.len() && 0 <= j < s.role_menus@.len() && (
            #[trigger] s.user_roles@[i]).user_id == user_id ==> (#[trigger] s.role_menus@[j]).role_id
                != s.user_roles@[i].role_id,
    ensures
        button_permissions(s, user_id).len() == 0,
{
    lemma_no_candidates_no_permissions(s, user_id);
}

/// Whether some string of `v` has the same characters as `s`.
pub fn contains_string(v: &Vec<String>, s: &String) -> (r: bool)
    ensures
        r == str_seq(v@).contains(s@),
{
    let mut k: usize = 0;
    while k < v.len()
        invariant
            k <= v@.len(),
            forall|i: int| 0 <= i < k ==> str_seq(v@)[i] != s@,
        decreases v@.len() - k,
    {
        if v[k] == *s {
            proof {
                assert(str_seq(v@)[k as int] == s@);
            }
            return true;
        }
        k += 1;
    }
    false
}

/// The flat authorization set of a user: the non-empty api urls of every menu
/// for a holder of the superadmin role, otherwise of the menus granted
/// through the user's roles; deduplicated, in store order.
pub fn resolve_button_permissions(store: &Store, user_id: i64) -> (r: Vec<String>)
    ensures
        str_seq(r@) == button_permissions(*store, user_id),
        forall|i: int, j: int| 0 <= i < j < r@.len() ==> r@[i]@ != r@[j]@,
{
    let admin = store.check_superadmin(user_id);
    let mut r: Vec<String> = Vec::new();
    let mut k: usize = 0;
    while k < store.menus.len()
        invariant
            k <= store.menus@.len(),
            admin == store.is_superadmin(user_id),
            str_seq(r@) == dedup_first(urls_of(*store, user_id, store.menus@.take(k as int))),
        decreases store.menus@.len() - k,
    {
        let ghost pre = store.menus@.take(k as int);
        let ghost r_old = r@;
        let m = &store.menus[k];
        let cand = admin || store.check_menu_granted(user_id, m.id);
        if cand && !m.api_url.as_str().is_empty() {
            let url = m.api_url.clone();
            if !contains_string(&r, &url) {
                r.push(url);
            }
        }
        proof {
            reveal(Seq::filter);
            let post = store.menus@.take(k as int + 1);
            assert(post.drop_last() =~= pre);
            assert(post.last() == store.menus@[k as int]);
            let p = url_pred(*store, user_id);
            assert(post.filter(p) == if p(post.last()) {
                pre.filter(p).push(post.last())
            } else {
                pre.filter(p)
            });
            if p(post.last()) {
                assert(urls_of(*store, user_id, post) =~= urls_of(*store, user_id, pre).push(
                    post.last().api_url@,
                ));
                assert(urls_of(*store, user_id, post).drop_last() =~= urls_of(
                    *store,
                    user_id,
                    pre,
                ));
                if !dedup_first(urls_of(*store, user_id, pre)).contains(post.last().api_url@) {
                    assert(str_seq(r@) =~= str_seq(r_old).push(post.last().api_url@));
                }
            } else {
                assert(urls_of(*store, user_id, post) =~= urls_of(*store, user_id, pre));
            }
        }
        k += 1;
    }
    proof {
        assert(store.menus@.take(store.menus@.len() as int) =~= store.menus@);
        lemma_dedup_first_no_duplicates(urls_of(*store, user_id, store.menus@));
        assert forall|i: int, j: int| 0 <= i < j < r@.len() implies r@[i]@ != r@[j]@ by {
            assert(str_seq(r@)[i] == r@[i]@);
            assert(str_seq(r@)[j] == r@[j]@);
        }
    }
    r
}

} // verus!
