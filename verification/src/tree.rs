//! The menu-tree half of the permission resolver: the pruned, completed,
//! ordered menu tree of a user, and the button urls gathered alongside it.

use vstd::multiset::Multiset;
use vstd::prelude::*;

use crate::model::{Menu, Store};
use crate::resolver::{candidate, contains_string, lemma_push_contains, str_seq};

verus! {

/// The first menu of `menus` with the given id, if any.
pub open spec fn find_menu(menus: Seq<Menu>, id: i64) -> Option<Menu>
    decreases menus.len(),
{
    if menus.len() == 0 {
        None
    } else if menus[0].id == id {
        Some(menus[0])
    } else {
        find_menu(menus.drop_first(), id)
    }
}

/// The ancestor ids reached from the parent id `pid`: `pid` itself, then the
/// parent chain of the menu `pid` names, walking at most `fuel` steps. The
/// walk stops at the root marker 0; an id that resolves to no menu is kept
/// but not followed (an orphaned reference is treated as root-equivalent);
/// the fuel bounds the walk on a malformed, cyclic store.
pub open spec fn ancestor_ids(menus: Seq<Menu>, pid: i64, fuel: nat) -> Set<i64>
    decreases fuel,
{
    if fuel == 0 || pid == 0 {
        Set::empty()
    } else {
        match find_menu(menus, pid) {
            None => Set::empty().insert(pid),
            Some(m) => ancestor_ids(menus, m.parent_id, (fuel - 1) as nat).insert(pid),
        }
    }
}

/// The working id set of the visual tree, over the candidates among `menus`:
/// every non-button candidate contributes its own id, and every candidate
/// contributes its ancestor chain, so that a visible node is always reachable
/// from the root of the rendered tree.
pub open spec fn tree_ids(s: Store, user_id: i64, menus: Seq<Menu>) -> Set<i64>
    decreases menus.len(),
{
    if menus.len() == 0 {
        Set::empty()
    } else {
        let m = menus.last();
        let rest = tree_ids(s, user_id, menus.drop_last());
        if candidate(s, user_id, m) {
            let with_anc = rest.union(
                ancestor_ids(s.menus@, m.parent_id, s.menus@.len() as nat),
            );
            if m.menu_type != 3 {
                with_anc.insert(m.id)
            } else {
                with_anc
            }
        } else {
            rest
        }
    }
}

/// The working id set of the user's visual tree.
pub open spec fn working_ids(s: Store, user_id: i64) -> Set<i64> {
    tree_ids(s, user_id, s.menus@)
}

/// A menu shown in the user's tree: its id is in the working set and it is
/// enabled.
pub open spec fn visible_pred(s: Store, user_id: i64) -> spec_fn(Menu) -> bool {
    |m: Menu| working_ids(s, user_id).contains(m.id) && m.status_id == 1
}

/// The visible menus, in store order.
pub open spec fn visible_menus(s: Store, user_id: i64) -> Seq<Menu> {
    s.menus@.filter(visible_pred(s, user_id))
}

/// Display order: ascending by sort, ties broken by id.
pub open spec fn menu_le(a: Menu, b: Menu) -> bool {
    a.sort < b.sort || (a.sort == b.sort && a.id <= b.id)
}

pub open spec fn sorted_menus(s: Seq<Menu>) -> bool {
    forall|i: int, j: int| 0 <= i < j < s.len() ==> menu_le(#[trigger] s[i], #[trigger] s[j])
}

/// The api urls contributed by button-type candidates among `menus`.
pub open spec fn btn_urls_in(s: Store, user_id: i64, menus: Seq<Menu>) -> Set<Seq<char>> {
    Set::new(
        |u: Seq<char>|
            exists|i: int|
                0 <= i < menus.len() && candidate(s, user_id, #[trigger] menus[i])
                    && menus[i].menu_type == 3 && menus[i].api_url@ == u
                    && menus[i].api_url@.len() > 0,
    )
}

/// The non-empty api urls of the menus of `menus`.
pub open spec fn node_urls_in(menus: Seq<Menu>) -> Set<Seq<char>> {
    Set::new(
        |u: Seq<char>|
            exists|i: int|
                0 <= i < menus.len() && (#[trigger] menus[i]).api_url@ == u
                    && menus[i].api_url@.len() > 0,
    )
}

/// The button urls of the user's tree: the urls of their button-type
/// candidates together with the urls carried by the visible tree nodes.
pub open spec fn tree_button_urls(s: Store, user_id: i64) -> Set<Seq<char>> {
    btn_urls_in(s, user_id, s.menus@).union(node_urls_in(visible_menus(s, user_id)))
}

proof fn lemma_tree_ids_complete(s: Store, user_id: i64, menus: Seq<Menu>, i: int)
    requires
        0 <= i < menus.len(),
        candidate(s, user_id, menus[i]),
    ensures
        ancestor_ids(s.menus@, menus[i].parent_id, s.menus@.len() as nat).subset_of(
            tree_ids(s, user_id, menus),
        ),
        menus[i].menu_type != 3 ==> tree_ids(s, user_id, menus).contains(menus[i].id),
    decreases menus.len(),
{
    if i == menus.len() - 1 {
    } else {
        lemma_tree_ids_complete(s, user_id, menus.drop_last(), i);
        assert(menus.drop_last()[i] == menus[i]);
    }
}

/// Tree completion: the whole ancestor chain of every candidate menu is in
/// the working id set, even when no ancestor was itself granted — so a
/// visible leaf is always reachable from the root of the rendered tree —
/// and every non-button candidate is in it itself.
pub proof fn lemma_tree_completion(s: Store, user_id: i64, i: int)
    requires
        0 <= i < s.menus@.len(),
        candidate(s, user_id, s.menus@[i]),
    ensures
        ancestor_ids(s.menus@, s.menus@[i].parent_id, s.menus@.len() as nat).subset_of(
            working_ids(s, user_id),
        ),
        s.menus@[i].menu_type != 3 ==> working_ids(s, user_id).contains(s.menus@[i].id),
{
    lemma_tree_ids_complete(s, user_id, s.menus@, i);
}

/// Whether `v` holds `x`.
pub(crate) fn contains_i64(v: &Vec<i64>, x: i64) -> (r: bool)
    ensures
        r == v@.contains(x),
{
    let mut k: usize = 0;
    while k < v.len()
        invariant
            k <= v@.len(),
            forall|i: int| 0 <= i < k ==> v@[i] != x,
        decreases v@.len() - k,
    {
        if v[k] == x {
            return true;
        }
        k += 1;
    }
    false
}

/// Adds `x` unless already present; the sequence stays duplicate-free.
fn push_unique(v: &mut Vec<i64>, x: i64)
    ensures
        final(v)@.to_set() == old(v)@.to_set().insert(x),
{
    let present = contains_i64(v, x);
    if !present {
        v.push(x);
    }
    proof {
        assert forall|y: i64|
            v@.to_set().contains(y) == old(v)@.to_set().insert(x).contains(y) by {
            if present {
            } else {
                lemma_push_contains(old(v)@, x, y);
            }
        }
        assert(v@.to_set() =~= old(v)@.to_set().insert(x));
    }
}

/// The index of the first menu with the given id, if any.
fn find_menu_index(menus: &Vec<Menu>, id: i64) -> (r: Option<usize>)
    ensures
        match r {
            Some(i) => i < menus@.len() && find_menu(menus@, id) == Some(menus@[i as int]),
            None => find_menu(menus@, id) is None,
        },
{
    proof {
        assert(menus@.skip(0) =~= menus@);
    }
    let mut k: usize = 0;
    while k < menus.len()
        invariant
            k <= menus@.len(),
            find_menu(menus@, id) == find_menu(menus@.skip(k as int), id),
        decreases menus@.len() - k,
    {
        proof {
            assert(menus@.skip(k as int)[0] == menus@[k as int]);
            assert(menus@.skip(k as int).drop_first() =~= menus@.skip(k as int + 1));
        }
        if menus[k].id == id {
            return Some(k);
        }
        k += 1;
    }
    proof {
        assert(menus@.skip(menus@.len() as int).len() == 0);
    }
    None
}

/// A field-by-field copy of a menu row.
fn clone_menu(m: &Menu) -> (r: Menu)
    ensures
        r == *m,
{
    Menu {
        id: m.id,
        parent_id: m.parent_id,
        menu_type: m.menu_type,
        status_id: m.status_id,
        sort: m.sort,
        menu_name: m.menu_name.clone(),
        menu_icon: m.menu_icon.clone(),
        menu_url: m.menu_url.clone(),
        api_url: m.api_url.clone(),
    }
}

/// Strict display order.
fn menu_lt(a: &Menu, b: &Menu) -> (r: bool)
    ensures
        r ==> menu_le(*a, *b),
        !r ==> menu_le(*b, *a),
{
    a.sort < b.sort || (a.sort == b.sort && a.id < b.id)
}

/// The index of a minimal menu under the display order.
fn find_min_index(v: &Vec<Menu>) -> (r: usize)
    requires
        v@.len() > 0,
    ensures
        r < v@.len(),
        forall|j: int| 0 <= j < v@.len() ==> menu_le(v@[r as int], #[trigger] v@[j]),
{
    let mut best: usize = 0;
    let mut k: usize = 1;
    while k < v.len()
        invariant
            best < k <= v@.len(),
            forall|j: int| 0 <= j < k ==> menu_le(v@[best as int], #[trigger] v@[j]),
        decreases v@.len() - k,
    {
        if menu_lt(&v[k], &v[best]) {
            best = k;
        }
        k += 1;
    }
    best
}

/// Sorts menu rows into display order: ascending by sort, ties by id.
fn sort_menus(v: &Vec<Menu>) -> (r: Vec<Menu>)
    ensures
        r@.to_multiset() == v@.to_multiset(),
        sorted_menus(r@),
{
    broadcast use vstd::seq_lib::group_to_multiset_ensures;

    let mut rest: Vec<Menu> = Vec::new();
    let mut k: usize = 0;
    while k < v.len()
        invariant
            k <= v@.len(),
            rest@ == v@.take(k as int),
        decreases v@.len() - k,
    {
        rest.push(clone_menu(&v[k]));
        proof {
            assert(rest@ =~= v@.take(k as int + 1));
        }
        k += 1;
    }
    proof {
        assert(v@.take(v@.len() as int) =~= v@);
    }
    let mut out: Vec<Menu> = Vec::new();
    while rest.len() > 0
        invariant
            out@.to_multiset().add(rest@.to_multiset()) == v@.to_multiset(),
            sorted_menus(out@),
            forall|i: int, j: int|
                0 <= i < out@.len() && 0 <= j < rest@.len() ==> menu_le(
                    #[trigger] out@[i],
                    #[trigger] rest@[j],
                ),
        decreases rest@.len(),
    {
        let ghost out_old = out@;
        let ghost rest_old = rest@;
        let mi = find_min_index(&rest);
        let m = rest.remove(mi);
        out.push(m);
        proof {
            broadcast use vstd::seq_lib::group_to_multiset_ensures;

            assert(rest_old.to_multiset().count(rest_old[mi as int]) > 0) by {
                assert(rest_old.contains(rest_old[mi as int]));
            }
            assert(out@.to_multiset().add(rest@.to_multiset()) =~= v@.to_multiset());
            assert forall|i: int, j: int|
                0 <= i < out@.len() && 0 <= j < rest@.len() implies menu_le(
                #[trigger] out@[i],
                #[trigger] rest@[j],
            ) by {
                let rj = if j < mi { rest_old[j] } else { rest_old[j + 1] };
                assert(rest@[j] == rj);
                if i < out@.len() - 1 {
                    assert(out@[i] == out_old[i]);
                } else {
                    assert(out@[i] == rest_old[mi as int]);
                }
            }
            assert forall|i: int, j: int|
                0 <= i < j < out@.len() implies menu_le(#[trigger] out@[i], #[trigger] out@[j]) by {
                if j == out@.len() - 1 {
                    assert(out@[i] == out_old[i]);
                    assert(out@[j] == rest_old[mi as int]);
                }
            }
        }
    }
    proof {
        broadcast use vstd::seq_lib::group_to_multiset_ensures;

        assert(rest@.to_multiset() =~= Multiset::<Menu>::empty()) by {
            assert(rest@.to_multiset().len() == 0);
        }
        assert(out@.to_multiset() =~= v@.to_multiset());
    }
    out
}

/// Everything the filter kept was in the original sequence and satisfies the
/// predicate.
pub proof fn lemma_filter_contains_orig<A>(s: Seq<A>, p: spec_fn(A) -> bool, x: A)
    requires
        s.filter(p).contains(x),
    ensures
        s.contains(x),
        p(x),
    decreases s.len(),
{
    reveal(Seq::filter);
    if s.len() > 0 {
        let pre = s.drop_last();
        if p(s.last()) {
            lemma_push_contains(pre.filter(p), s.last(), x);
            if x != s.last() {
                lemma_filter_contains_orig(pre, p, x);
            }
        } else {
            lemma_filter_contains_orig(pre, p, x);
        }
        crate::resolver::lemma_drop_last_contains(s, x);
    }
}

/// The working ids of the user's visual tree, as a duplicate-free vector.
fn collect_working_ids(store: &Store, user_id: i64, admin: bool) -> (ids: Vec<i64>)
    requires
        admin == store.is_superadmin(user_id),
    ensures
        ids@.to_set() == working_ids(*store, user_id),
{
    let mut ids: Vec<i64> = Vec::new();
    proof {
        assert(ids@.to_set() =~= tree_ids(*store, user_id, store.menus@.take(0)));
    }
    let mut k: usize = 0;
    while k < store.menus.len()
        invariant
            k <= store.menus@.len(),
            admin == store.is_superadmin(user_id),
            ids@.to_set() == tree_ids(*store, user_id, store.menus@.take(k as int)),
        decreases store.menus@.len() - k,
    {
        let ghost rest = tree_ids(*store, user_id, store.menus@.take(k as int));
        let m = &store.menus[k];
        let cand = admin || store.check_menu_granted(user_id, m.id);
        if cand {
            if m.menu_type != 3 {
                push_unique(&mut ids, m.id);
            }
            let ghost base = ids@.to_set();
            let ghost nfuel = store.menus@.len() as nat;
            let ghost menus_gh = store.menus@;
            let ghost anc_full = ancestor_ids(menus_gh, m.parent_id, nfuel);
            let mut pid: i64 = m.parent_id;
            let mut fuel: usize = store.menus.len();
            while fuel > 0 && pid != 0
                invariant
                    menus_gh == store.menus@,
                    ids@.to_set().union(ancestor_ids(menus_gh, pid, fuel as nat)) == base.union(
                        anc_full,
                    ),
                decreases fuel,
            {
                let ghost ids_old = ids@.to_set();
                match find_menu_index(&store.menus, pid) {
                    None => {
                        push_unique(&mut ids, pid);
                        proof {
                            assert(ancestor_ids(menus_gh, pid, fuel as nat)
                                =~= Set::<i64>::empty().insert(pid));
                            assert(ids@.to_set().union(
                                ancestor_ids(menus_gh, 0, (fuel - 1) as nat),
                            ) =~= base.union(anc_full));
                        }
                        pid = 0;
                    },
                    Some(i) => {
                        let next = store.menus[i].parent_id;
                        push_unique(&mut ids, pid);
                        proof {
                            assert(ancestor_ids(menus_gh, pid, fuel as nat) == ancestor_ids(
                                menus_gh,
                                next,
                                (fuel - 1) as nat,
                            ).insert(pid));
                            assert(ids@.to_set().union(
                                ancestor_ids(menus_gh, next, (fuel - 1) as nat),
                            ) =~= base.union(anc_full));
                        }
                        pid = next;
                    },
                }
                fuel = fuel - 1;
            }
            proof {
                assert(ancestor_ids(menus_gh, pid, fuel as nat) =~= Set::<i64>::empty());
                assert(ids@.to_set() =~= base.union(anc_full));
            }
        }
        proof {
            let post = store.menus@.take(k as int + 1);
            assert(post.drop_last() =~= store.menus@.take(k as int));
            assert(post.last() == store.menus@[k as int]);
            if cand {
                let anc = ancestor_ids(store.menus@, store.menus@[k as int].parent_id,
                    store.menus@.len() as nat);
                if store.menus@[k as int].menu_type != 3 {
                    assert(tree_ids(*store, user_id, post) == rest.union(anc).insert(
                        store.menus@[k as int].id,
                    ));
                    assert(ids@.to_set() =~= rest.union(anc).insert(store.menus@[k as int].id));
                } else {
                    assert(tree_ids(*store, user_id, post) == rest.union(anc));
                }
            } else {
                assert(tree_ids(*store, user_id, post) == rest);
            }
        }
        k += 1;
    }
    proof {
        assert(store.menus@.take(store.menus@.len() as int) =~= store.menus@);
    }
    ids
}

/// The menus of the working set that are enabled, in store order.
fn select_visible(store: &Store, user_id: i64, ids: &Vec<i64>) -> (r: Vec<Menu>)
    requires
        ids@.to_set() == working_ids(*store, user_id),
    ensures
        r@ == visible_menus(*store, user_id),
{
    let mut r: Vec<Menu> = Vec::new();
    proof {
        reveal(Seq::filter);
        assert(r@ =~= store.menus@.take(0).filter(visible_pred(*store, user_id)));
    }
    let mut k: usize = 0;
    while k < store.menus.len()
        invariant
            k <= store.menus@.len(),
            ids@.to_set() == working_ids(*store, user_id),
            r@ == store.menus@.take(k as int).filter(visible_pred(*store, user_id)),
        decreases store.menus@.len() - k,
    {
        let m = &store.menus[k];
        if contains_i64(ids, m.id) && m.status_id == 1 {
            r.push(clone_menu(m));
        }
        proof {
            reveal(Seq::filter);
            let post = store.menus@.take(k as int + 1);
            assert(post.drop_last() =~= store.menus@.take(k as int));
            assert(post.last() == store.menus@[k as int]);
        }
        k += 1;
    }
    proof {
        assert(store.menus@.take(store.menus@.len() as int) =~= store.menus@);
    }
    r
}

/// One step of the button-url comprehension over a growing prefix.
proof fn lemma_btn_urls_take_step(s: Store, user_id: i64, k: int)
    requires
        0 <= k < s.menus@.len(),
    ensures
        ({
            let m = s.menus@[k];
            let pre = btn_urls_in(s, user_id, s.menus@.take(k));
            btn_urls_in(s, user_id, s.menus@.take(k + 1)) == if candidate(s, user_id, m)
                && m.menu_type == 3 && m.api_url@.len() > 0 {
                pre.insert(m.api_url@)
            } else {
                pre
            }
        }),
{
    let m = s.menus@[k];
    let pre = btn_urls_in(s, user_id, s.menus@.take(k));
    let post = btn_urls_in(s, user_id, s.menus@.take(k + 1));
    let target = if candidate(s, user_id, m) && m.menu_type == 3 && m.api_url@.len() > 0 {
        pre.insert(m.api_url@)
    } else {
        pre
    };
    assert forall|u: Seq<char>| post.contains(u) implies target.contains(u) by {
        let i = choose|i: int|
            0 <= i < s.menus@.take(k + 1).len() && candidate(
                s,
                user_id,
                #[trigger] s.menus@.take(k + 1)[i],
            ) && s.menus@.take(k + 1)[i].menu_type == 3 && s.menus@.take(k + 1)[i].api_url@ == u
                && s.menus@.take(k + 1)[i].api_url@.len() > 0;
        if i < k {
            assert(s.menus@.take(k)[i] == s.menus@.take(k + 1)[i]);
            assert(pre.contains(u));
        } else {
            assert(s.menus@.take(k + 1)[k] == m);
        }
    }
    assert forall|u: Seq<char>| target.contains(u) implies post.contains(u) by {
        if pre.contains(u) {
            let i = choose|i: int|
                0 <= i < s.menus@.take(k).len() && candidate(
                    s,
                    user_id,
                    #[trigger] s.menus@.take(k)[i],
                ) && s.menus@.take(k)[i].menu_type == 3 && s.menus@.take(k)[i].api_url@ == u
                    && s.menus@.take(k)[i].api_url@.len() > 0;
            assert(s.menus@.take(k + 1)[i] == s.menus@.take(k)[i]);
        } else {
            assert(s.menus@.take(k + 1)[k] == m);
        }
    }
    assert(post =~= target);
}

/// One step of the node-url comprehension over a growing prefix.
proof fn lemma_node_urls_take_step(menus: Seq<Menu>, k: int)
    requires
        0 <= k < menus.len(),
    ensures
        ({
            let m = menus[k];
            let pre = node_urls_in(menus.take(k));
            node_urls_in(menus.take(k + 1)) == if m.api_url@.len() > 0 {
                pre.insert(m.api_url@)
            } else {
                pre
            }
        }),
{
    let m = menus[k];
    let pre = node_urls_in(menus.take(k));
    let post = node_urls_in(menus.take(k + 1));
    let target = if m.api_url@.len() > 0 {
        pre.insert(m.api_url@)
    } else {
        pre
    };
    assert forall|u: Seq<char>| post.contains(u) implies target.contains(u) by {
        let i = choose|i: int|
            0 <= i < menus.take(k + 1).len() && (#[trigger] menus.take(k + 1)[i]).api_url@ == u
                && menus.take(k + 1)[i].api_url@.len() > 0;
        if i < k {
            assert(menus.take(k)[i] == menus.take(k + 1)[i]);
        } else {
            assert(menus.take(k + 1)[k] == m);
        }
    }
    assert forall|u: Seq<char>| target.contains(u) implies post.contains(u) by {
        if pre.contains(u) {
            let i = choose|i: int|
                0 <= i < menus.take(k).len() && (#[trigger] menus.take(k)[i]).api_url@ == u
                    && menus.take(k)[i].api_url@.len() > 0;
            assert(menus.take(k + 1)[i] == menus.take(k)[i]);
        } else {
            assert(menus.take(k + 1)[k] == m);
        }
    }
    assert(post =~= target);
}

/// Sequences with the same rows carry the same non-empty api urls.
proof fn lemma_node_urls_permutation(a: Seq<Menu>, b: Seq<Menu>)
    requires
        a.to_multiset() == b.to_multiset(),
    ensures
        node_urls_in(a) == node_urls_in(b),
{
    broadcast use vstd::seq_lib::group_to_multiset_ensures;

    assert forall|u: Seq<char>| node_urls_in(a).contains(u) implies node_urls_in(b).contains(
        u,
    ) by {
        let i = choose|i: int|
            0 <= i < a.len() && (#[trigger] a[i]).api_url@ == u && a[i].api_url@.len() > 0;
        assert(a.contains(a[i]));
        assert(a.to_multiset().count(a[i]) > 0);
        assert(b.to_multiset().count(a[i]) > 0);
        assert(b.contains(a[i]));
        let j = choose|j: int| 0 <= j < b.len() && b[j] == a[i];
    }
    assert forall|u: Seq<char>| node_urls_in(b).contains(u) implies node_urls_in(a).contains(
        u,
    ) by {
        let i = choose|i: int|
            0 <= i < b.len() && (#[trigger] b[i]).api_url@ == u && b[i].api_url@.len() > 0;
        assert(b.contains(b[i]));
        assert(b.to_multiset().count(b[i]) > 0);
        assert(a.to_multiset().count(b[i]) > 0);
        assert(a.contains(b[i]));
        let j = choose|j: int| 0 <= j < a.len() && a[j] == b[i];
    }
    assert(node_urls_in(a) =~= node_urls_in(b));
}

/// The button urls of the tree: the urls of button-type candidates, then the
/// urls carried by the final tree nodes; deduplicated.
fn collect_tree_urls(store: &Store, user_id: i64, admin: bool, nodes: &Vec<Menu>) -> (r: Vec<
    String,
>)
    requires
        admin == store.is_superadmin(user_id),
    ensures
        str_seq(r@).to_set() == btn_urls_in(*store, user_id, store.menus@).union(
            node_urls_in(nodes@),
        ),
        forall|i: int, j: int| 0 <= i < j < r@.len() ==> r@[i]@ != r@[j]@,
{
    let mut r: Vec<String> = Vec::new();
    proof {
        assert(str_seq(r@).to_set() =~= btn_urls_in(*store, user_id, store.menus@.take(0)));
    }
    let mut k: usize = 0;
    while k < store.menus.len()
        invariant
            k <= store.menus@.len(),
            admin == store.is_superadmin(user_id),
            str_seq(r@).to_set() == btn_urls_in(*store, user_id, store.menus@.take(k as int)),
            forall|i: int, j: int| 0 <= i < j < r@.len() ==> r@[i]@ != r@[j]@,
        decreases store.menus@.len() - k,
    {
        let ghost r_old = r@;
        let m = &store.menus[k];
        let cand = admin || store.check_menu_granted(user_id, m.id);
        if cand && m.menu_type == 3 && !m.api_url.as_str().is_empty() {
            let url = m.api_url.clone();
            if !contains_string(&r, &url) {
                r.push(url);
                proof {
                    assert(str_seq(r@) =~= str_seq(r_old).push(m.api_url@));
                    assert forall|u: Seq<char>|
                        str_seq(r@).to_set().contains(u) == str_seq(r_old).to_set().insert(
                            m.api_url@,
                        ).contains(u) by {
                        lemma_push_contains(str_seq(r_old), m.api_url@, u);
                    }
                    assert(str_seq(r@).to_set() =~= str_seq(r_old).to_set().insert(m.api_url@));
                    assert forall|i: int, j: int|
                        0 <= i < j < r@.len() implies r@[i]@ != r@[j]@ by {
                        if j == r@.len() - 1 {
                            assert(str_seq(r_old)[i] == r_old[i]@);
                            assert(str_seq(r_old).contains(r_old[i]@));
                        }
                    }
                }
            } else {
                proof {
                    assert(str_seq(r@).to_set().insert(m.api_url@) =~= str_seq(r@).to_set());
                }
            }
        }
        proof {
            lemma_btn_urls_take_step(*store, user_id, k as int);
        }
        k += 1;
    }
    let ghost btn_full = btn_urls_in(*store, user_id, store.menus@);
    proof {
        assert(store.menus@.take(store.menus@.len() as int) =~= store.menus@);
        assert(str_seq(r@).to_set() =~= btn_full.union(node_urls_in(nodes@.take(0))));
    }
    let mut k: usize = 0;
    while k < nodes.len()
        invariant
            k <= nodes@.len(),
            str_seq(r@).to_set() == btn_full.union(node_urls_in(nodes@.take(k as int))),
            forall|i: int, j: int| 0 <= i < j < r@.len() ==> r@[i]@ != r@[j]@,
        decreases nodes@.len() - k,
    {
        let ghost r_old = r@;
        let m = &nodes[k];
        if !m.api_url.as_str().is_empty() {
            let url = m.api_url.clone();
            if !contains_string(&r, &url) {
                r.push(url);
                proof {
                    assert(str_seq(r@) =~= str_seq(r_old).push(m.api_url@));
                    assert forall|u: Seq<char>|
                        str_seq(r@).to_set().contains(u) == str_seq(r_old).to_set().insert(
                            m.api_url@,
                        ).contains(u) by {
                        lemma_push_contains(str_seq(r_old), m.api_url@, u);
                    }
                    assert(str_seq(r@).to_set() =~= str_seq(r_old).to_set().insert(m.api_url@));
                    assert forall|i: int, j: int|
                        0 <= i < j < r@.len() implies r@[i]@ != r@[j]@ by {
                        if j == r@.len() - 1 {
                            assert(str_seq(r_old)[i] == r_old[i]@);
                            assert(str_seq(r_old).contains(r_old[i]@));
                        }
                    }
                }
            } else {
                proof {
                    assert(str_seq(r@).to_set().insert(nodes@[k as int].api_url@) =~= str_seq(
                        r@,
                    ).to_set());
                }
            }
        }
        proof {
            lemma_node_urls_take_step(nodes@, k as int);
            assert(str_seq(r@).to_set() =~= btn_full.union(
                node_urls_in(nodes@.take(k as int + 1)),
            ));
        }
        k += 1;
    }
    proof {
        assert(nodes@.take(nodes@.len() as int) =~= nodes@);
    }
    r
}

proof fn lemma_sorted_unique_ids_equal(menus: Seq<Menu>, a: Seq<Menu>, b: Seq<Menu>)
    requires
        forall|i: int, j: int|
            0 <= i < j < menus.len() ==> #[trigger] menus[i].id != #[trigger] menus[j].id,
        forall|x: Menu| a.to_multiset().count(x) > 0 ==> menus.contains(x),
        a.to_multiset() == b.to_multiset(),
        sorted_menus(a),
        sorted_menus(b),
    ensures
        a == b,
    decreases a.len(),
{
    broadcast use vstd::seq_lib::group_to_multiset_ensures;

    assert(a.len() == a.to_multiset().len());
    assert(b.len() == b.to_multiset().len());
    if a.len() == 0 {
        assert(a =~= b);
    } else {
        assert(a.contains(a[0]));
        assert(a.to_multiset().count(a[0]) > 0);
        assert(b.to_multiset().count(a[0]) > 0);
        assert(b.contains(a[0]));
        let jb = choose|j: int| 0 <= j < b.len() && b[j] == a[0];
        assert(menu_le(b[0], b[jb]));
        assert(b.contains(b[0]));
        assert(b.to_multiset().count(b[0]) > 0);
        assert(a.to_multiset().count(b[0]) > 0);
        assert(a.contains(b[0]));
        let ja = choose|j: int| 0 <= j < a.len() && a[j] == b[0];
        assert(menu_le(a[0], a[ja]));
        assert(a[0].sort == b[0].sort && a[0].id == b[0].id);
        assert(menus.contains(a[0]));
        assert(menus.contains(b[0]));
        let ma = choose|i: int| 0 <= i < menus.len() && menus[i] == a[0];
        let mb = choose|i: int| 0 <= i < menus.len() && menus[i] == b[0];
        assert(a[0] == b[0]);
        let ra = a.drop_first();
        let rb = b.drop_first();
        assert(ra =~= a.remove(0));
        assert(rb =~= b.remove(0));
        assert(ra.to_multiset() == a.to_multiset().remove(a[0]));
        assert(rb.to_multiset() == b.to_multiset().remove(b[0]));
        assert forall|x: Menu| ra.to_multiset().count(x) > 0 implies menus.contains(x) by {
            assert(a.to_multiset().count(x) >= ra.to_multiset().count(x));
        }
        assert forall|i: int, j: int|
            0 <= i < j < ra.len() implies menu_le(#[trigger] ra[i], #[trigger] ra[j]) by {
            assert(ra[i] == a[i + 1] && ra[j] == a[j + 1]);
        }
        assert forall|i: int, j: int|
            0 <= i < j < rb.len() implies menu_le(#[trigger] rb[i], #[trigger] rb[j]) by {
            assert(rb[i] == b[i + 1] && rb[j] == b[j + 1]);
        }
        lemma_sorted_unique_ids_equal(menus, ra, rb);
        assert forall|i: int| 0 <= i < a.len() implies a[i] == b[i] by {
            if i > 0 {
                assert(ra[i - 1] == a[i]);
                assert(rb[i - 1] == b[i]);
            }
        }
        assert(a =~= b);
    }
}

/// Under a well-formed store the rendered node list is fully determined:
/// any two sorted sequences of the visible rows are one and the same, so
/// resolving the tree twice against the same snapshot gives the same list.
pub proof fn lemma_tree_nodes_deterministic(s: Store, user_id: i64, a: Seq<Menu>, b: Seq<Menu>)
    requires
        s.wf(),
        a.to_multiset() == visible_menus(s, user_id).to_multiset(),
        b.to_multiset() == visible_menus(s, user_id).to_multiset(),
        sorted_menus(a),
        sorted_menus(b),
    ensures
        a == b,
{
    broadcast use vstd::seq_lib::group_to_multiset_ensures;

    assert forall|x: Menu| a.to_multiset().count(x) > 0 implies s.menus@.contains(x) by {
        assert(visible_menus(s, user_id).to_multiset().count(x) > 0);
        assert(visible_menus(s, user_id).contains(x));
        lemma_filter_contains_orig(s.menus@, visible_pred(s, user_id), x);
    }
    lemma_sorted_unique_ids_equal(s.menus@, a, b);
}

/// The user's menu tree: the visible nodes, enabled and ordered for display,
/// and the deduplicated button urls gathered from button-type candidates and
/// from the nodes themselves.
pub fn resolve_menu_tree(store: &Store, user_id: i64) -> (r: (Vec<Menu>, Vec<String>))
    ensures
        r.0@.to_multiset() == visible_menus(*store, user_id).to_multiset(),
        sorted_menus(r.0@),
        str_seq(r.1@).to_set() == tree_button_urls(*store, user_id),
        forall|i: int, j: int| 0 <= i < j < r.1@.len() ==> r.1@[i]@ != r.1@[j]@,
{
    let admin = store.check_superadmin(user_id);
    let ids = collect_working_ids(store, user_id, admin);
    let vis = select_visible(store, user_id, &ids);
    let nodes = sort_menus(&vis);
    let urls = collect_tree_urls(store, user_id, admin, &nodes);
    proof {
        lemma_node_urls_permutation(nodes@, visible_menus(*store, user_id));
    }
    (nodes, urls)
}

} // verus!
