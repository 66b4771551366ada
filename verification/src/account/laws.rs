//! The global laws of the layered-settings tree, stated and proved once over
//! the mathematical shapes.

use vstd::prelude::*;

use crate::account::{
    children_ok, flags_ok, fully_valid, names_ok, resolve_in, settings_ok, sound, upd_keys,
    AccountView, Valid,
};
use crate::account::deep::{deep_activity_view, deep_pop_view, deep_target, first_match, pop_ks};
use crate::account::validity::{pop_view, popped_mid};

verus! {

/// A tree whose tracker is truthful and carries all-true flags is fully
/// valid, all the way down: names are unique, aggregates agree with what the
/// active children supply, and the same holds of every descendant.
pub proof fn lemma_sound_flags_fully_valid(av: AccountView)
    requires
        sound(av),
        av.valid.spec_is_valid(),
    ensures
        fully_valid(av),
    decreases av,
{
    assert forall|i: int| 0 <= i < av.accounts.len() implies fully_valid(
        #[trigger] av.accounts[i],
    ) by {
        assert(sound(av.accounts[i]));
        assert(av.accounts[i].valid.spec_is_valid());
        lemma_sound_flags_fully_valid(av.accounts[i]);
    }
}

/// Resolution invariant: on a node whose tracker is truthful and whose
/// `settings` flag is set, the aggregate holds, for every key some active
/// child supplies, exactly the value of the highest-priority active child
/// holding it; a key no active child supplies keeps whatever the node itself
/// stored for it (its local default), or stays absent.
pub proof fn lemma_resolution_invariant(av: AccountView, k: Seq<char>)
    requires
        sound(av),
        av.valid.settings,
    ensures
        resolve_in(av.accounts, k) matches Some(v) ==> av.settings.dom().contains(k)
            && av.settings[k] == v,
{
    assert(settings_ok(av));
}

/// Uniqueness invariant: whenever the `names` flag of a truthful tracker is
/// set, the children's names contain no duplicate entries.
pub proof fn lemma_uniqueness_invariant(av: AccountView)
    requires
        sound(av),
        av.valid.names,
    ensures
        forall|i: int, j: int|
            0 <= i < j < av.accounts.len() ==> av.accounts[i].name != av.accounts[j].name,
{
    assert(names_ok(av));
}

/// Push/pop round trip: appending an active child and popping it right away
/// restores the aggregate at every key except those the child exclusively
/// overwrote a local-only entry with — a key the child supplied that no
/// sibling supplies and that the node had stored locally is deleted by the
/// pop re-derivation, per the chosen policy of keeping no separate record of
/// local defaults.  In particular every key exclusively owned by the child
/// (absent from the node and its siblings before the push) is absent again.
pub proof fn lemma_push_pop_round_trip(av: AccountView, c: AccountView)
    requires
        settings_ok(av),
        c.active,
    ensures
        ({
            let pushed = AccountView {
                settings: av.settings.union_prefer_right(c.settings),
                accounts: av.accounts.push(c),
                ..av
            };
            let back = popped_mid(pushed);
            &&& back.accounts == av.accounts
            &&& forall|k: Seq<char>|
                !(c.settings.dom().contains(k) && av.settings.dom().contains(k) && resolve_in(
                    av.accounts,
                    k,
                ) is None) ==> #[trigger] back.settings.dom().contains(k)
                    == av.settings.dom().contains(k) && (av.settings.dom().contains(k)
                    ==> back.settings[k] == av.settings[k])
        }),
{
    let pushed = AccountView {
        settings: av.settings.union_prefer_right(c.settings),
        accounts: av.accounts.push(c),
        ..av
    };
    assert(pushed.accounts.last() == c);
    assert(pushed.accounts.drop_last() =~= av.accounts);
    let back = popped_mid(pushed);
    assert(back.accounts == av.accounts);
    assert forall|k: Seq<char>|
        !(c.settings.dom().contains(k) && av.settings.dom().contains(k) && resolve_in(
            av.accounts,
            k,
        ) is None) implies #[trigger] back.settings.dom().contains(k) == av.settings.dom().contains(
        k,
    ) && (av.settings.dom().contains(k) ==> back.settings[k] == av.settings[k]) by {
        if c.settings.dom().contains(k) {
            if resolve_in(av.accounts, k) is Some {
                let v = resolve_in(av.accounts, k)->0;
                assert(av.settings.dom().contains(k) && av.settings[k] == v);
                assert(back.settings.dom().contains(k) && back.settings[k] == v);
            } else {
                assert(!av.settings.dom().contains(k));
                assert(!back.settings.dom().contains(k));
            }
        } else {
            assert(back.settings.dom().contains(k) == pushed.settings.dom().contains(k));
            assert(pushed.settings.dom().contains(k) == av.settings.dom().contains(k));
            if av.settings.dom().contains(k) {
                assert(pushed.settings[k] == av.settings[k]);
                assert(back.settings[k] == av.settings[k]);
            }
        }
    }
}

/// A tracker stays truthful when only the node's name or activity changes.
pub proof fn lemma_sound_same_core(c: AccountView, c2: AccountView)
    requires
        sound(c),
        c2.settings == c.settings,
        c2.accounts == c.accounts,
        c2.valid == c.valid,
    ensures
        sound(c2),
{
}

/// Replacing a child by one that supplies the key the same way leaves the
/// key's resolution unchanged.
pub proof fn lemma_resolve_update_agree(
    children: Seq<AccountView>,
    i: int,
    c2: AccountView,
    k: Seq<char>,
)
    requires
        0 <= i < children.len(),
        (c2.active && c2.settings.dom().contains(k)) == (children[i].active && children[
            i
        ].settings.dom().contains(k)),
        children[i].active && children[i].settings.dom().contains(k) ==> c2.settings[k]
            == children[i].settings[k],
    ensures
        resolve_in(children.update(i, c2), k) == resolve_in(children, k),
    decreases children.len(),
{
    let upd = children.update(i, c2);
    if i == children.len() - 1 {
        assert(upd.last() == c2);
        assert(upd.drop_last() =~= children.drop_last());
    } else {
        assert(upd.last() == children.last());
        assert(upd.drop_last() =~= children.drop_last().update(i, c2));
        lemma_resolve_update_agree(children.drop_last(), i, c2, k);
    }
}

/// Toggling the activity of the descendant a path leads to, re-deriving the
/// keys of its aggregate on every ancestor on the way out, keeps every
/// tracker in the tree truthful.
pub proof fn lemma_deep_activity_sound(av: AccountView, path: Seq<Seq<char>>, b: bool)
    requires
        sound(av),
        path.len() > 0,
        deep_target(av, path) is Some,
    ensures
        sound(deep_activity_view(av, path, b, deep_target(av, path)->0.settings.dom())),
    decreases path.len(),
{
    let t = deep_target(av, path)->0;
    let ks = t.settings.dom();
    let i = first_match(av.accounts, path.last())->0;
    let c = av.accounts[i];
    assert(0 <= i < av.accounts.len() && c.name == path.last()) by {
        lemma_first_match_in_range(av.accounts, path.last());
    }
    let c2 = if path.len() == 1 {
        AccountView { active: b, ..c }
    } else {
        deep_activity_view(c, path.drop_last(), b, ks)
    };
    let mid = AccountView { accounts: av.accounts.update(i, c2), ..av };
    let new = upd_keys(mid, ks);
    // the edited child stays truthful and supplies unaffected keys unchanged
    assert(sound(c));
    if path.len() == 1 {
        assert(t == c);
        lemma_sound_same_core(c, c2);
    } else {
        assert(deep_target(av, path) == deep_target(c, path.drop_last()));
        lemma_deep_activity_sound(c, path.drop_last(), b);
        assert(c2.active == c.active);
        assert(forall|k: Seq<char>|
            !ks.contains(k) ==> c2.settings.dom().contains(k) == c.settings.dom().contains(k)
                && (c.settings.dom().contains(k) ==> c2.settings[k] == c.settings[k]));
    }
    assert(sound(c2));
    // unaffected keys resolve as before; the rest are re-derived
    assert forall|k: Seq<char>| !ks.contains(k) implies resolve_in(mid.accounts, k) == resolve_in(
        av.accounts,
        k,
    ) by {
        if path.len() == 1 {
            assert(!c.settings.dom().contains(k));
        }
        lemma_resolve_update_agree(av.accounts, i, c2, k);
    }
    assert(flags_ok(new)) by {
        if new.valid.names {
            assert(names_ok(av));
            assert forall|a: int, bb: int|
                0 <= a < bb < new.accounts.len() implies new.accounts[a].name != new.accounts[
                bb
            ].name by {
                assert(av.accounts[a].name == new.accounts[a].name);
                assert(av.accounts[bb].name == new.accounts[bb].name);
            }
        }
        if new.valid.children {
            assert(children_ok(av));
            assert forall|j: int| 0 <= j < new.accounts.len() implies (#[trigger] new.accounts[
                j
            ].valid).spec_is_valid() by {
                assert(new.accounts[j].valid == av.accounts[j].valid);
            }
        }
        if new.valid.settings {
            assert(settings_ok(av));
            assert forall|k: Seq<char>| #[trigger] resolve_in(new.accounts, k) is Some implies
                new.settings.dom().contains(k) && new.settings[k] == resolve_in(
                new.accounts,
                k,
            )->0 by {
                if !ks.contains(k) {
                    assert(resolve_in(av.accounts, k) is Some);
                    assert(new.settings.dom().contains(k) == av.settings.dom().contains(k));
                    assert(new.settings[k] == av.settings[k]);
                }
            }
        }
    }
    assert forall|j: int| 0 <= j < new.accounts.len() implies sound(
        #[trigger] new.accounts[j],
    ) by {
        if j == i {
            assert(new.accounts[j] == c2);
        } else {
            assert(new.accounts[j] == av.accounts[j]);
        }
    }
    assert(sound(new));
    assert(new == deep_activity_view(av, path, b, ks));
}

/// Popping the highest-priority child, re-deriving its keys and recomputing
/// the flags that [`crate::account::Account::pop`] recomputes keeps the
/// node's tracker truthful.
pub proof fn lemma_pop_view_sound(av: AccountView, chk: Valid)
    requires
        sound(av),
        av.accounts.len() > 0,
    ensures
        sound(pop_view(av, chk)),
{
    let p = av.accounts.last();
    let mid = popped_mid(av);
    let new = pop_view(av, chk);
    assert(new.accounts == av.accounts.drop_last());
    assert(new.settings == mid.settings);
    assert forall|j: int| 0 <= j < new.accounts.len() implies sound(
        #[trigger] new.accounts[j],
    ) by {
        assert(new.accounts[j] == av.accounts[j]);
    }
    assert(flags_ok(new)) by {
        if new.valid.names && !(chk.names && !av.valid.names) {
            assert(names_ok(av));
            assert forall|a: int, b: int|
                0 <= a < b < new.accounts.len() implies new.accounts[a].name != new.accounts[
                b
            ].name by {
                assert(av.accounts[a].name == new.accounts[a].name);
                assert(av.accounts[b].name == new.accounts[b].name);
            }
        }
        if new.valid.children && !(chk.children && !av.valid.children) {
            assert(children_ok(av));
            assert forall|j: int| 0 <= j < new.accounts.len() implies (#[trigger] new.accounts[
                j
            ].valid).spec_is_valid() by {
                assert(new.accounts[j].valid == av.accounts[j].valid);
            }
        }
        if new.valid.settings && !(chk.settings && !av.valid.settings) {
            assert(settings_ok(av));
            assert forall|k: Seq<char>| #[trigger] resolve_in(new.accounts, k) is Some implies
                new.settings.dom().contains(k) && new.settings[k] == resolve_in(
                new.accounts,
                k,
            )->0 by {
                assert(resolve_in(av.accounts, k) == if p.active && p.settings.dom().contains(
                    k,
                ) {
                    Some(p.settings[k])
                } else {
                    resolve_in(av.accounts.drop_last(), k)
                });
                if p.active {
                    if !p.settings.dom().contains(k) {
                        assert(resolve_in(av.accounts, k) is Some);
                        assert(new.settings[k] == av.settings[k]);
                    }
                } else {
                    assert(resolve_in(av.accounts, k) is Some);
                }
            }
        }
    }
    assert(sound(new));
}

/// Popping the highest-priority child of the descendant a path leads to,
/// re-deriving the keys it contributed on every ancestor on the way out,
/// keeps every tracker in the tree truthful.
pub proof fn lemma_deep_pop_sound(av: AccountView, path: Seq<Seq<char>>, chk: Valid)
    requires
        sound(av),
        path.len() > 0,
        deep_target(av, path) is Some,
    ensures
        sound(deep_pop_view(av, path, chk, pop_ks(deep_target(av, path)->0))),
    decreases path.len(),
{
    let t = deep_target(av, path)->0;
    let ks = pop_ks(t);
    let i = first_match(av.accounts, path.last())->0;
    let c = av.accounts[i];
    assert(0 <= i < av.accounts.len() && c.name == path.last()) by {
        lemma_first_match_in_range(av.accounts, path.last());
    }
    let c2 = if path.len() == 1 {
        if c.accounts.len() == 0 {
            c
        } else {
            pop_view(c, chk)
        }
    } else {
        deep_pop_view(c, path.drop_last(), chk, ks)
    };
    let mid = AccountView { accounts: av.accounts.update(i, c2), ..av };
    let new = upd_keys(mid, ks);
    assert(sound(c));
    // the edited child stays truthful, keeps its name and activity, only
    // raises its own flags, and supplies unaffected keys unchanged
    if path.len() == 1 {
        assert(t == c);
        if c.accounts.len() == 0 {
            assert(c2 == c);
        } else {
            lemma_pop_view_sound(c, chk);
            let p = c.accounts.last();
            assert(c2.settings == popped_mid(c).settings);
            assert(forall|k: Seq<char>|
                !ks.contains(k) ==> c2.settings.dom().contains(k) == c.settings.dom().contains(k)
                    && (c.settings.dom().contains(k) ==> c2.settings[k] == c.settings[k]));
            assert(c.valid.spec_is_valid() ==> c2.valid.spec_is_valid());
        }
    } else {
        assert(deep_target(av, path) == deep_target(c, path.drop_last()));
        lemma_deep_pop_sound(c, path.drop_last(), chk);
        assert(c2.active == c.active);
        assert(c2.valid == c.valid);
        assert(forall|k: Seq<char>|
            !ks.contains(k) ==> c2.settings.dom().contains(k) == c.settings.dom().contains(k)
                && (c.settings.dom().contains(k) ==> c2.settings[k] == c.settings[k]));
    }
    assert(sound(c2));
    assert forall|k: Seq<char>| !ks.contains(k) implies resolve_in(mid.accounts, k) == resolve_in(
        av.accounts,
        k,
    ) by {
        lemma_resolve_update_agree(av.accounts, i, c2, k);
    }
    assert(flags_ok(new)) by {
        if new.valid.names {
            assert(names_ok(av));
            assert forall|a: int, bb: int|
                0 <= a < bb < new.accounts.len() implies new.accounts[a].name != new.accounts[
                bb
            ].name by {
                assert(av.accounts[a].name == new.accounts[a].name);
                assert(av.accounts[bb].name == new.accounts[bb].name);
            }
        }
        if new.valid.children {
            assert(children_ok(av));
            assert forall|j: int| 0 <= j < new.accounts.len() implies (#[trigger] new.accounts[
                j
            ].valid).spec_is_valid() by {
                if j == i {
                    assert(av.accounts[i].valid.spec_is_valid());
                } else {
                    assert(new.accounts[j].valid == av.accounts[j].valid);
                }
            }
        }
        if new.valid.settings {
            assert(settings_ok(av));
            assert forall|k: Seq<char>| #[trigger] resolve_in(new.accounts, k) is Some implies
                new.settings.dom().contains(k) && new.settings[k] == resolve_in(
                new.accounts,
                k,
            )->0 by {
                if !ks.contains(k) {
                    assert(resolve_in(av.accounts, k) is Some);
                    assert(new.settings.dom().contains(k) == av.settings.dom().contains(k));
                    assert(new.settings[k] == av.settings[k]);
                }
            }
        }
    }
    assert forall|j: int| 0 <= j < new.accounts.len() implies sound(
        #[trigger] new.accounts[j],
    ) by {
        if j == i {
            assert(new.accounts[j] == c2);
        } else {
            assert(new.accounts[j] == av.accounts[j]);
        }
    }
    assert(sound(new));
    assert(new == deep_pop_view(av, path, chk, ks));
}

/// A first match lies in range and carries the name.
pub proof fn lemma_first_match_in_range(children: Seq<AccountView>, name: Seq<char>)
    requires
        first_match(children, name) is Some,
    ensures
        0 <= first_match(children, name)->0 < children.len(),
        children[first_match(children, name)->0].name == name,
    decreases children.len(),
{
    if children.len() > 0 && children.first().name != name {
        lemma_first_match_in_range(children.drop_first(), name);
    }
}

/// Idempotence: re-deriving every key of the aggregate twice in a row leaves
/// the same aggregate as doing it once — the second pass finds every key
/// already carrying the value the children supply.
pub proof fn lemma_update_all_settings_idempotent(av: AccountView)
    ensures
        ({
            let once = upd_keys(av, av.settings.dom());
            upd_keys(once, once.settings.dom()) == once
        }),
{
    let once = upd_keys(av, av.settings.dom());
    let twice = upd_keys(once, once.settings.dom());
    assert(once.accounts == av.accounts);
    assert(twice.settings =~= once.settings);
    assert(twice =~= once);
}

} // verus!
