//! Checking and incrementally re-deriving an account's aggregate and
//! validity tracker.
//!
//! The update primitives ([`Account::update_setting`],
//! [`Account::update_vec`], [`Account::update_all_settings`]) re-derive given
//! keys of the aggregate from the active children; the check primitives
//! ([`Account::check_valid_names`], [`Account::check_valid_children`],
//! [`Account::check_valid_settings`], [`Account::update_valid`]) recompute
//! the tracker flags exactly.

use vstd::prelude::*;

use crate::account::{
    children_ok, flags_ok, names_ok, resolve_in, settings_ok, sound, upd_key, upd_keys, Account,
    AccountView, Valid,
};
use crate::account::settings_map::lemma_map_of_contains;
use crate::stg::Stg;
use crate::types::errors::InvalidAccountError;

verus! {

/// What [`Account::check_valid_settings`] decides: every child's own
/// `settings` flag is set, and the node's aggregate agrees with what its
/// active children supply.
pub open spec fn settings_check(av: AccountView) -> bool {
    &&& forall|i: int| 0 <= i < av.accounts.len() ==> (#[trigger] av.accounts[i]).valid.settings
    &&& settings_ok(av)
}

/// The views of a sequence of keys.
pub open spec fn key_set(s: Seq<String>) -> Set<Seq<char>> {
    Set::new(|k: Seq<char>| exists|i: int| 0 <= i < s.len() && s[i]@ == k)
}

/// The children supply a value for a key exactly when some active child's
/// aggregate holds the key.
pub proof fn lemma_resolve_some_iff(children: Seq<AccountView>, k: Seq<char>)
    ensures
        resolve_in(children, k) is Some <==> exists|i: int|
            0 <= i < children.len() && (#[trigger] children[i]).active
                && children[i].settings.dom().contains(k),
    decreases children.len(),
{
    if children.len() > 0 {
        lemma_resolve_some_iff(children.drop_last(), k);
        let last = children.last();
        if last.active && last.settings.dom().contains(k) {
            assert(children[children.len() - 1].active && children[children.len()
                - 1].settings.dom().contains(k));
        } else {
            if resolve_in(children, k) is Some {
                let i = choose|i: int|
                    0 <= i < children.drop_last().len() && (#[trigger] children.drop_last()[i]).active
                        && children.drop_last()[i].settings.dom().contains(k);
                assert(children[i].active && children[i].settings.dom().contains(k));
            }
            if exists|i: int|
                0 <= i < children.len() && (#[trigger] children[i]).active
                    && children[i].settings.dom().contains(k) {
                let i = choose|i: int|
                    0 <= i < children.len() && (#[trigger] children[i]).active
                        && children[i].settings.dom().contains(k);
                assert(i < children.len() - 1);
                assert(children.drop_last()[i].active && children.drop_last()[
                    i
                ].settings.dom().contains(k));
            }
        }
    }
}

/// Re-deriving a key preserves aggregate consistency.
pub proof fn lemma_upd_key_settings_ok(av: AccountView, k: Seq<char>)
    requires
        settings_ok(av),
    ensures
        settings_ok(upd_key(av, k)),
{
    let new = upd_key(av, k);
    assert(new.accounts == av.accounts);
    assert forall|k2: Seq<char>| #[trigger] resolve_in(new.accounts, k2) is Some implies
        new.settings.dom().contains(k2) && new.settings[k2] == resolve_in(new.accounts, k2)->0 by {
        if k2 != k {
            assert(resolve_in(av.accounts, k2) matches Some(v) ==> av.settings.dom().contains(k2)
                && av.settings[k2] == v);
        }
    }
}

/// Re-deriving a key keeps the tracker truthful, throughout the tree.
pub proof fn lemma_upd_key_sound(av: AccountView, k: Seq<char>)
    requires
        sound(av),
    ensures
        sound(upd_key(av, k)),
{
    let new = upd_key(av, k);
    assert(new.accounts == av.accounts);
    if av.valid.settings {
        lemma_upd_key_settings_ok(av, k);
    }
    assert(flags_ok(new));
    assert(sound(new));
}

/// Re-deriving keys one at a time agrees with re-deriving them as a set.
pub proof fn lemma_upd_keys_step(av: AccountView, s: Set<Seq<char>>, k: Seq<char>)
    ensures
        upd_key(upd_keys(av, s), k) == upd_keys(av, s.insert(k)),
{
    let mid = upd_keys(av, s);
    assert(mid.accounts == av.accounts);
    assert(upd_key(mid, k).settings =~= upd_keys(av, s.insert(k)).settings);
    assert(upd_key(mid, k) =~= upd_keys(av, s.insert(k)));
}

/// Re-deriving the empty set of keys changes nothing.
pub proof fn lemma_upd_keys_empty(av: AccountView)
    ensures
        upd_keys(av, Set::empty()) == av,
{
    assert(upd_keys(av, Set::empty()).settings =~= av.settings);
    assert(upd_keys(av, Set::empty()) =~= av);
}

/// Appending a child makes it the highest priority: it supplies a key
/// exactly when it is active and holds it, and otherwise the older children
/// decide.
pub proof fn lemma_resolve_push(children: Seq<AccountView>, c: AccountView, k: Seq<char>)
    ensures
        resolve_in(children.push(c), k) == if c.active && c.settings.dom().contains(k) {
            Some(c.settings[k])
        } else {
            resolve_in(children, k)
        },
{
    assert(children.push(c).last() == c);
    assert(children.push(c).drop_last() =~= children);
}

/// The shape of a node right after its highest-priority child was popped:
/// the child is gone, and if it was active, every key of its aggregate has
/// been re-derived from the remaining children.
pub open spec fn popped_mid(av: AccountView) -> AccountView {
    let p = av.accounts.last();
    let base = AccountView { accounts: av.accounts.drop_last(), ..av };
    if p.active {
        upd_keys(base, p.settings.dom())
    } else {
        base
    }
}

/// The shape of a node after [`Account::pop`]: the popped child is folded
/// out, and each flag selected by `chk` that was clear has been recomputed
/// exactly.
pub open spec fn pop_view(av: AccountView, chk: Valid) -> AccountView {
    let mid = popped_mid(av);
    AccountView {
        valid: (Valid {
            names: if chk.names && !av.valid.names {
                names_ok(mid)
            } else {
                av.valid.names
            },
            settings: if chk.settings && !av.valid.settings {
                settings_check(mid)
            } else {
                av.valid.settings
            },
            children: if chk.children && !av.valid.children {
                children_ok(mid)
            } else {
                av.valid.children
            },
        }),
        ..mid
    }
}

impl Account {
    /// Re-derives one key of the aggregate: the key is set to the value the
    /// active children supply, or removed when they supply nothing.
    ///
    /// This is the core recompute primitive; every ancestor on the unwind
    /// path of a deep operation runs it for the keys that changed below.
    pub fn update_setting(&mut self, setting: &String)
        requires
            old(self).wf(),
        ensures
            final(self).wf(),
            final(self)@ == upd_key(old(self)@, setting@),
            sound(old(self)@) ==> sound(final(self)@),
    {
        let found: Option<Stg> = match self.find_in_accounts(setting) {
            Some(v) => Some(v.clone()),
            None => None,
        };
        match found {
            Some(v) => {
                self.settings.insert(setting.clone(), v);
            },
            None => {
                self.settings.remove(setting);
            },
        }
        proof {
            assert(final(self)@.accounts =~= old(self)@.accounts);
            assert(final(self)@ =~= upd_key(old(self)@, setting@));
            if sound(old(self)@) {
                lemma_upd_key_sound(old(self)@, setting@);
            }
        }
    }

    /// Re-derives a group of keys of the aggregate, one
    /// [`Account::update_setting`] at a time.
    pub fn update_vec(&mut self, settings: &Vec<String>)
        requires
            old(self).wf(),
        ensures
            final(self).wf(),
            final(self)@ == upd_keys(old(self)@, key_set(settings@)),
            sound(old(self)@) ==> sound(final(self)@),
    {
        let ghost orig = old(self)@;
        let ghost mut done: Set<Seq<char>> = Set::empty();
        proof {
            lemma_upd_keys_empty(orig);
        }
        let mut j: usize = 0;
        while j < settings.len()
            invariant
                j <= settings@.len(),
                self.wf(),
                self@ == upd_keys(orig, done),
                sound(orig) ==> sound(self@),
                forall|k: Seq<char>|
                    done.contains(k) <==> exists|m: int| 0 <= m < j && settings@[m]@ == k,
            decreases settings@.len() - j,
        {
            let ghost pre = self@;
            self.update_setting(&settings[j]);
            proof {
                lemma_upd_keys_step(orig, done, settings@[j as int]@);
                done = done.insert(settings@[j as int]@);
            }
            j = j + 1;
        }
        proof {
            assert(done =~= key_set(settings@));
        }
    }

    /// Re-derives every key currently present in the aggregate.
    pub fn update_all_settings(&mut self)
        requires
            old(self).wf(),
        ensures
            final(self).wf(),
            final(self)@ == upd_keys(old(self)@, old(self)@.settings.dom()),
            sound(old(self)@) ==> sound(final(self)@),
    {
        let keys = self.settings.keys();
        proof {
            assert forall|k: Seq<char>| #[trigger] key_set(keys@).contains(k)
                == old(self)@.settings.dom().contains(k) by {
                lemma_map_of_contains(self.settings.entries@, k);
                if key_set(keys@).contains(k) {
                    let i = choose|i: int| 0 <= i < keys@.len() && keys@[i]@ == k;
                    assert(self.settings.entries@[i].0@ == k);
                }
                if old(self)@.settings.dom().contains(k) {
                    let i = choose|i: int|
                        0 <= i < self.settings.entries@.len() && self.settings.entries@[i].0@ == k;
                    assert(keys@[i]@ == k);
                }
            }
            assert(key_set(keys@) =~= old(self)@.settings.dom());
        }
        self.update_vec(&keys);
    }

    /// Re-derives one key and reports what happened: `Some(true)` when the
    /// aggregate changed at the key, `Some(false)` when the children supply
    /// the value it already had, and `None` when the key was present nowhere.
    pub fn update_setting_returns(&mut self, setting: &String) -> (r: Option<bool>)
        requires
            old(self).wf(),
        ensures
            final(self).wf(),
            final(self)@ == upd_key(old(self)@, setting@),
            sound(old(self)@) ==> sound(final(self)@),
            match resolve_in(old(self)@.accounts, setting@) {
                Some(v) => r == Some(
                    !(old(self)@.settings.dom().contains(setting@) && old(
                        self,
                    )@.settings[setting@] == v),
                ),
                None => r == if old(self)@.settings.dom().contains(setting@) {
                    Some(true)
                } else {
                    None::<bool>
                },
            },
    {
        let found: Option<Stg> = match self.find_in_accounts(setting) {
            Some(v) => Some(v.clone()),
            None => None,
        };
        let r = match found {
            Some(v) => {
                let old_value = self.settings.insert(setting.clone(), v.clone());
                match old_value {
                    Some(prev) => Some(!prev.eq(&v)),
                    None => Some(true),
                }
            },
            None => {
                match self.settings.remove(setting) {
                    Some(_) => Some(true),
                    None => None,
                }
            },
        };
        proof {
            assert(final(self)@.accounts =~= old(self)@.accounts);
            assert(final(self)@ =~= upd_key(old(self)@, setting@));
            if sound(old(self)@) {
                lemma_upd_key_sound(old(self)@, setting@);
            }
        }
        r
    }

    /// Whether the children's names are pairwise distinct.
    pub fn check_valid_names(&self) -> (r: bool)
        ensures
            r == names_ok(self@),
    {
        let mut i: usize = 0;
        while i < self.accounts.len()
            invariant
                i <= self.accounts@.len(),
                forall|a: int, b: int|
                    0 <= a < b < i ==> self@.accounts[a].name != self@.accounts[b].name,
            decreases self.accounts@.len() - i,
        {
            let mut j: usize = 0;
            while j < i
                invariant
                    j <= i,
                    i < self.accounts@.len(),
                    forall|a: int, b: int|
                        0 <= a < b < i ==> self@.accounts[a].name != self@.accounts[b].name,
                    forall|a: int| 0 <= a < j ==> self@.accounts[a].name != self@.accounts[i as int].name,
                decreases i - j,
            {
                proof {
                    assert(self@.accounts[j as int] == self.accounts@[j as int]@);
                    assert(self@.accounts[i as int] == self.accounts@[i as int]@);
                }
                if self.accounts[j].name.eq(&self.accounts[i].name) {
                    return false;
                }
                j = j + 1;
            }
            i = i + 1;
        }
        true
    }

    /// Whether every child carries an all-true tracker.
    pub fn check_valid_children(&self) -> (r: bool)
        ensures
            r == children_ok(self@),
    {
        let mut i: usize = 0;
        while i < self.accounts.len()
            invariant
                i <= self.accounts@.len(),
                forall|j: int| 0 <= j < i ==> (#[trigger] self@.accounts[j].valid).spec_is_valid(),
            decreases self.accounts@.len() - i,
        {
            proof {
                assert(self@.accounts[i as int] == self.accounts@[i as int]@);
            }
            if !self.accounts[i].valid.is_valid() {
                proof {
                    assert(!(self@.accounts[i as int].valid).spec_is_valid());
                }
                return false;
            }
            i = i + 1;
        }
        true
    }

    /// Whether every child's own `settings` flag is set and the aggregate
    /// agrees with what the active children supply.
    pub fn check_valid_settings(&self) -> (r: bool)
        requires
            self.wf(),
        ensures
            r == settings_check(self@),
    {
        let mut i: usize = 0;
        while i < self.accounts.len()
            invariant
                i <= self.accounts@.len(),
                forall|j: int| 0 <= j < i ==> (#[trigger] self@.accounts[j]).valid.settings,
            decreases self.accounts@.len() - i,
        {
            proof {
                assert(self@.accounts[i as int] == self.accounts@[i as int]@);
            }
            if !self.accounts[i].valid.settings {
                return false;
            }
            i = i + 1;
        }
        let ghost av = self@;
        let mut i: usize = 0;
        while i < self.accounts.len()
            invariant
                i <= self.accounts@.len(),
                self.wf(),
                av == self@,
                forall|j: int| 0 <= j < av.accounts.len() ==> (#[trigger] av.accounts[j]).valid.settings,
                forall|j: int, m: int|
                    0 <= j < i && av.accounts[j].active && 0 <= m
                        < self.accounts@[j].settings.entries@.len() ==> {
                        let k = (#[trigger] self.accounts@[j].settings.entries@[m]).0@;
                        resolve_in(av.accounts, k) matches Some(v) ==> av.settings.dom().contains(k)
                            && av.settings[k] == v
                    },
            decreases self.accounts@.len() - i,
        {
            proof {
                assert(av.accounts[i as int] == self.accounts@[i as int]@);
                assert(self.accounts@[i as int].wf());
            }
            if self.accounts[i].active {
                let mut m: usize = 0;
                while m < self.accounts[i].settings.entries.len()
                    invariant
                        i < self.accounts@.len(),
                        m <= self.accounts@[i as int].settings.entries@.len(),
                        self.wf(),
                        av == self@,
                        av.accounts[i as int] == self.accounts@[i as int]@,
                        av.accounts[i as int].active,
                        self.accounts@[i as int].wf(),
                        forall|j: int| 0 <= j < av.accounts.len() ==> (#[trigger] av.accounts[j]).valid.settings,
                        forall|j: int, m2: int|
                            0 <= j < i && av.accounts[j].active && 0 <= m2
                                < self.accounts@[j].settings.entries@.len() ==> {
                                let k = (#[trigger] self.accounts@[j].settings.entries@[m2]).0@;
                                resolve_in(av.accounts, k) matches Some(v) ==> av.settings.dom().contains(
                                    k,
                                ) && av.settings[k] == v
                            },
                        forall|m2: int|
                            0 <= m2 < m ==> {
                                let k = (#[trigger] self.accounts@[i as int].settings.entries@[m2]).0@;
                                resolve_in(av.accounts, k) matches Some(v) ==> av.settings.dom().contains(
                                    k,
                                ) && av.settings[k] == v
                            },
                    decreases self.accounts@[i as int].settings.entries@.len() - m,
                {
                    let key = &self.accounts[i].settings.entries[m].0;
                    proof {
                        lemma_map_of_contains(self.accounts@[i as int].settings.entries@, key@);
                        assert(av.accounts[i as int].settings.dom().contains(key@));
                        lemma_resolve_some_iff(av.accounts, key@);
                    }
                    let win = self.find_in_accounts(key);
                    match win {
                        Some(w) => {
                            match self.get(key) {
                                Some(a) => {
                                    if !w.eq(a) {
                                        proof {
                                            assert(!settings_ok(av));
                                        }
                                        return false;
                                    }
                                },
                                None => {
                                    proof {
                                        assert(!settings_ok(av));
                                    }
                                    return false;
                                },
                            }
                        },
                        None => {
                            proof {
                                assert(false);
                            }
                        },
                    }
                    m = m + 1;
                }
            }
            i = i + 1;
        }
        proof {
            assert forall|k: Seq<char>| #[trigger] resolve_in(av.accounts, k) is Some
                implies av.settings.dom().contains(k) && av.settings[k] == resolve_in(
                av.accounts,
                k,
            )->0 by {
                lemma_resolve_some_iff(av.accounts, k);
                let j = choose|j: int|
                    0 <= j < av.accounts.len() && (#[trigger] av.accounts[j]).active
                        && av.accounts[j].settings.dom().contains(k);
                assert(av.accounts[j] == self.accounts@[j]@);
                lemma_map_of_contains(self.accounts@[j].settings.entries@, k);
                let m = choose|m: int|
                    0 <= m < self.accounts@[j].settings.entries@.len()
                        && self.accounts@[j].settings.entries@[m].0@ == k;
                assert(resolve_in(av.accounts, (self.accounts@[j].settings.entries@[m]).0@)
                    matches Some(v2) ==> av.settings.dom().contains(k) && av.settings[k] == v2);
            }
        }
        true
    }

    /// Recomputes the tracker flags selected by `valid`, setting each exactly
    /// to whether the property it stands for holds now.
    pub fn update_valid(&mut self, valid: Valid)
        requires
            old(self).wf(),
        ensures
            final(self).wf(),
            final(self)@ == (AccountView {
                valid: (Valid {
                    names: if valid.names {
                        names_ok(old(self)@)
                    } else {
                        old(self)@.valid.names
                    },
                    settings: if valid.settings {
                        settings_check(old(self)@)
                    } else {
                        old(self)@.valid.settings
                    },
                    children: if valid.children {
                        children_ok(old(self)@)
                    } else {
                        old(self)@.valid.children
                    },
                }),
                ..old(self)@
            }),
            sound(old(self)@) ==> sound(final(self)@),
    {
        let names = if valid.names {
            self.check_valid_names()
        } else {
            self.valid.names
        };
        let children = if valid.children {
            self.check_valid_children()
        } else {
            self.valid.children
        };
        let settings = if valid.settings {
            self.check_valid_settings()
        } else {
            self.valid.settings
        };
        self.valid = Valid { names, settings, children };
        proof {
            assert(final(self)@.accounts =~= old(self)@.accounts);
            assert(final(self)@ =~= (AccountView {
                valid: (Valid {
                    names: if valid.names {
                        names_ok(old(self)@)
                    } else {
                        old(self)@.valid.names
                    },
                    settings: if valid.settings {
                        settings_check(old(self)@)
                    } else {
                        old(self)@.valid.settings
                    },
                    children: if valid.children {
                        children_ok(old(self)@)
                    } else {
                        old(self)@.valid.children
                    },
                }),
                ..old(self)@
            }));
            if sound(old(self)@) {
                assert(flags_ok(final(self)@));
                assert(sound(final(self)@));
            }
        }
    }

    /// The keys of the aggregate, as a vector whose views cover exactly the
    /// aggregate's domain.
    pub fn aggregate_keys(&self) -> (r: Vec<String>)
        ensures
            key_set(r@) == self@.settings.dom(),
    {
        let keys = self.settings.keys();
        proof {
            assert forall|k: Seq<char>| #[trigger] key_set(keys@).contains(k)
                == self@.settings.dom().contains(k) by {
                lemma_map_of_contains(self.settings.entries@, k);
                if key_set(keys@).contains(k) {
                    let i = choose|i: int| 0 <= i < keys@.len() && keys@[i]@ == k;
                    assert(self.settings.entries@[i].0@ == k);
                }
                if self@.settings.dom().contains(k) {
                    let i = choose|i: int|
                        0 <= i < self.settings.entries@.len() && self.settings.entries@[i].0@ == k;
                    assert(keys@[i]@ == k);
                }
            }
            assert(key_set(keys@) =~= self@.settings.dom());
        }
        keys
    }

    /// The keys present in children whose own `settings` flag is set, without
    /// duplicates.
    pub fn all_child_settings(&self) -> (r: Vec<String>)
        ensures
            forall|a: int, b: int| 0 <= a < b < r@.len() ==> r@[a]@ != r@[b]@,
            forall|k: Seq<char>|
                #[trigger] key_set(r@).contains(k) <==> exists|j: int|
                    0 <= j < self@.accounts.len() && (#[trigger] self@.accounts[j]).valid.settings
                        && self@.accounts[j].settings.dom().contains(k),
    {
        let mut r: Vec<String> = Vec::new();
        let mut i: usize = 0;
        while i < self.accounts.len()
            invariant
                i <= self.accounts@.len(),
                forall|a: int, b: int| 0 <= a < b < r@.len() ==> r@[a]@ != r@[b]@,
                forall|k: Seq<char>|
                    #[trigger] key_set(r@).contains(k) <==> exists|j: int|
                        0 <= j < i && (#[trigger] self@.accounts[j]).valid.settings
                            && self@.accounts[j].settings.dom().contains(k),
            decreases self.accounts@.len() - i,
        {
            proof {
                assert(self@.accounts[i as int] == self.accounts@[i as int]@);
            }
            if self.accounts[i].valid.settings {
                let mut m: usize = 0;
                while m < self.accounts[i].settings.entries.len()
                    invariant
                        i < self.accounts@.len(),
                        m <= self.accounts@[i as int].settings.entries@.len(),
                        self@.accounts[i as int] == self.accounts@[i as int]@,
                        self@.accounts[i as int].valid.settings,
                        forall|a: int, b: int| 0 <= a < b < r@.len() ==> r@[a]@ != r@[b]@,
                        forall|k: Seq<char>|
                            #[trigger] key_set(r@).contains(k) <==> ((exists|j: int|
                                0 <= j < i && (#[trigger] self@.accounts[j]).valid.settings
                                    && self@.accounts[j].settings.dom().contains(k)) || exists|
                                m2: int,
                            |
                                0 <= m2 < m && (#[trigger] self.accounts@[
                                    i as int
                                ].settings.entries@[m2]).0@ == k),
                    decreases self.accounts@[i as int].settings.entries@.len() - m,
                {
                    let ghost before = r@;
                    let key = &self.accounts[i].settings.entries[m].0;
                    if !crate::account::repair::contains_string(&r, key) {
                        r.push(key.clone());
                    }
                    proof {
                        assert forall|k: Seq<char>| #[trigger] key_set(r@).contains(k) <==> (
                        key_set(before).contains(k) || self.accounts@[
                            i as int
                        ].settings.entries@[m as int].0@ == k) by {
                            if key_set(r@).contains(k) {
                                let w = choose|w: int|
                                    0 <= w < r@.len() && (#[trigger] r@[w])@ == k;
                                if w < before.len() {
                                    assert(before[w]@ == k);
                                }
                            }
                            if key_set(before).contains(k) {
                                let w = choose|w: int|
                                    0 <= w < before.len() && (#[trigger] before[w])@ == k;
                                assert(r@[w]@ == k);
                            }
                            if self.accounts@[i as int].settings.entries@[m as int].0@ == k
                                && !key_set(before).contains(k) {
                                assert(r@[r@.len() - 1]@ == k);
                            }
                        }
                    }
                    m = m + 1;
                }
                proof {
                    assert forall|k: Seq<char>| #[trigger] key_set(r@).contains(k) <==> ((exists|
                        j: int,
                    |
                        0 <= j < i + 1 && (#[trigger] self@.accounts[j]).valid.settings
                            && self@.accounts[j].settings.dom().contains(k))) by {
                        lemma_map_of_contains(self.accounts@[i as int].settings.entries@, k);
                        if exists|j: int|
                            0 <= j < i + 1 && (#[trigger] self@.accounts[j]).valid.settings
                                && self@.accounts[j].settings.dom().contains(k) {
                            let j = choose|j: int|
                                0 <= j < i + 1 && (#[trigger] self@.accounts[j]).valid.settings
                                    && self@.accounts[j].settings.dom().contains(k);
                            if j == i {
                                assert(self@.accounts[i as int].settings.dom().contains(k));
                            }
                        }
                    }
                }
            }
            i = i + 1;
        }
        r
    }

    /// Whether some child carries the given name.
    pub fn has_child_named(&self, name: &String) -> (r: bool)
        ensures
            r == exists|i: int|
                0 <= i < self@.accounts.len() && (#[trigger] self@.accounts[i]).name == name@,
    {
        let mut i: usize = 0;
        while i < self.accounts.len()
            invariant
                i <= self.accounts@.len(),
                forall|j: int| 0 <= j < i ==> (#[trigger] self@.accounts[j]).name != name@,
            decreases self.accounts@.len() - i,
        {
            proof {
                assert(self@.accounts[i as int] == self.accounts@[i as int]@);
            }
            if self.accounts[i].name.eq(name) {
                return true;
            }
            i = i + 1;
        }
        false
    }

    /// Appends a child at the highest-priority end.
    ///
    /// `valid` names the invariants the caller insists on: with `valid.names`
    /// set, a child whose name a sibling already carries is refused with
    /// [`InvalidAccountError::ExistingName`] and nothing changes.  With it
    /// clear the duplicate is admitted and the `names` flag records it.
    ///
    /// When the child is appended: if it is active, every key of its
    /// aggregate overwrites the node's aggregate (a newly appended child is
    /// the new highest priority, so it wins every tie); the `names` and
    /// `children` flags are cleared when the child breaks the property they
    /// stand for; nothing is eagerly repaired.
    pub fn push(&mut self, account: Account, valid: Valid) -> (r: Option<InvalidAccountError>)
        requires
            old(self).wf(),
            account.wf(),
        ensures
            final(self).wf(),
            ({
                let dup = exists|i: int|
                    0 <= i < old(self)@.accounts.len() && (#[trigger] old(self)@.accounts[i]).name
                        == account@.name;
                if valid.names && dup {
                    r == Some(InvalidAccountError::ExistingName) && final(self)@ == old(self)@
                } else {
                    r is None && final(self)@ == (AccountView {
                        settings: if account@.active {
                            old(self)@.settings.union_prefer_right(account@.settings)
                        } else {
                            old(self)@.settings
                        },
                        accounts: old(self)@.accounts.push(account@),
                        valid: (Valid {
                            names: old(self)@.valid.names && !dup,
                            settings: old(self)@.valid.settings,
                            children: old(self)@.valid.children
                                && account@.valid.spec_is_valid(),
                        }),
                        ..old(self)@
                    })
                }
            }),
            sound(old(self)@) && sound(account@) && r is None ==> sound(final(self)@),
    {
        let ghost oldav = old(self)@;
        let ghost childav = account@;
        let dup = self.has_child_named(&account.name);
        if valid.names && dup {
            return Some(InvalidAccountError::ExistingName);
        }
        if dup {
            self.valid.names = false;
        }
        if !account.valid.is_valid() {
            self.valid.children = false;
        }
        if account.active {
            let ghost mid = self@;
            let mut j: usize = 0;
            while j < account.settings.entries.len()
                invariant
                    j <= account.settings.entries@.len(),
                    account.wf(),
                    self.wf(),
                    self@ == (AccountView {
                        settings: mid.settings.union_prefer_right(
                            crate::account::settings_map::map_of(
                                account.settings.entries@.take(j as int),
                            ),
                        ),
                        ..mid
                    }),
                decreases account.settings.entries@.len() - j,
            {
                let key = account.settings.entries[j].0.clone();
                let value = account.settings.entries[j].1.clone();
                let ghost pre = self@;
                self.settings.insert(key, value);
                proof {
                    let entries = account.settings.entries@;
                    assert(entries.take(j + 1).drop_last() =~= entries.take(j as int));
                    assert(entries.take(j + 1).last() == entries[j as int]);
                    assert(self@.accounts =~= pre.accounts);
                    assert(self@.settings =~= mid.settings.union_prefer_right(
                        crate::account::settings_map::map_of(entries.take(j + 1)),
                    ));
                    assert(self@ =~= (AccountView {
                        settings: mid.settings.union_prefer_right(
                            crate::account::settings_map::map_of(entries.take(j + 1)),
                        ),
                        ..mid
                    }));
                }
                j = j + 1;
            }
            proof {
                assert(account.settings.entries@.take(account.settings.entries@.len() as int)
                    =~= account.settings.entries@);
            }
        }
        self.accounts.push(account);
        proof {
            assert(final(self)@.accounts =~= oldav.accounts.push(childav));
            assert(final(self)@ =~= (AccountView {
                settings: if childav.active {
                    oldav.settings.union_prefer_right(childav.settings)
                } else {
                    oldav.settings
                },
                accounts: oldav.accounts.push(childav),
                valid: (Valid {
                    names: oldav.valid.names && !(exists|i: int|
                        0 <= i < oldav.accounts.len() && (#[trigger] oldav.accounts[i]).name
                            == childav.name),
                    settings: oldav.valid.settings,
                    children: oldav.valid.children && childav.valid.spec_is_valid(),
                }),
                ..oldav
            }));
            if sound(oldav) && sound(childav) {
                let newav = final(self)@;
                if newav.valid.settings {
                    assert(settings_ok(oldav));
                    assert forall|k: Seq<char>| #[trigger] resolve_in(newav.accounts, k) is Some
                        implies newav.settings.dom().contains(k) && newav.settings[k]
                        == resolve_in(newav.accounts, k)->0 by {
                        lemma_resolve_push(oldav.accounts, childav, k);
                        if !(childav.active && childav.settings.dom().contains(k)) {
                            assert(resolve_in(oldav.accounts, k) is Some);
                            assert(oldav.settings.dom().contains(k));
                            assert(newav.settings[k] == oldav.settings[k]);
                        }
                    }
                }
                assert forall|i: int| 0 <= i < newav.accounts.len() implies sound(
                    #[trigger] newav.accounts[i],
                ) by {
                    if i < oldav.accounts.len() {
                        assert(newav.accounts[i] == oldav.accounts[i]);
                    } else {
                        assert(newav.accounts[i] == childav);
                    }
                }
                assert(flags_ok(newav));
                assert(sound(newav));
            }
        }
        None
    }

    /// Appends a child at the highest-priority end without touching the
    /// validity tracker.
    ///
    /// The caller asserts that the tracker still describes the result; a
    /// duplicate name or an invalid child silently leaves flags that claim
    /// false things.  [`Account::push`] is the checked form.
    pub fn push_unchecked(&mut self, account: Account)
        requires
            old(self).wf(),
            account.wf(),
        ensures
            final(self).wf(),
            final(self)@ == (AccountView {
                settings: if account@.active {
                    old(self)@.settings.union_prefer_right(account@.settings)
                } else {
                    old(self)@.settings
                },
                accounts: old(self)@.accounts.push(account@),
                ..old(self)@
            }),
    {
        let ghost oldav = old(self)@;
        let ghost childav = account@;
        if account.active {
            let ghost mid = self@;
            let mut j: usize = 0;
            while j < account.settings.entries.len()
                invariant
                    j <= account.settings.entries@.len(),
                    account.wf(),
                    self.wf(),
                    self@ == (AccountView {
                        settings: mid.settings.union_prefer_right(
                            crate::account::settings_map::map_of(
                                account.settings.entries@.take(j as int),
                            ),
                        ),
                        ..mid
                    }),
                decreases account.settings.entries@.len() - j,
            {
                let key = account.settings.entries[j].0.clone();
                let value = account.settings.entries[j].1.clone();
                let ghost pre = self@;
                self.settings.insert(key, value);
                proof {
                    let entries = account.settings.entries@;
                    assert(entries.take(j + 1).drop_last() =~= entries.take(j as int));
                    assert(entries.take(j + 1).last() == entries[j as int]);
                    assert(self@.accounts =~= pre.accounts);
                    assert(self@.settings =~= mid.settings.union_prefer_right(
                        crate::account::settings_map::map_of(entries.take(j + 1)),
                    ));
                    assert(self@ =~= (AccountView {
                        settings: mid.settings.union_prefer_right(
                            crate::account::settings_map::map_of(entries.take(j + 1)),
                        ),
                        ..mid
                    }));
                }
                j = j + 1;
            }
            proof {
                assert(account.settings.entries@.take(account.settings.entries@.len() as int)
                    =~= account.settings.entries@);
            }
        }
        self.accounts.push(account);
        proof {
            assert(final(self)@.accounts =~= oldav.accounts.push(childav));
            assert(final(self)@ =~= (AccountView {
                settings: if childav.active {
                    oldav.settings.union_prefer_right(childav.settings)
                } else {
                    oldav.settings
                },
                accounts: oldav.accounts.push(childav),
                ..oldav
            }));
        }
    }

    /// Removes and returns the highest-priority child, or `None` when there
    /// are no children.
    ///
    /// If the popped child was active, every key of its aggregate is
    /// re-derived from the remaining children (a key no remaining source
    /// supplies is removed: the aggregate keeps no separate record of local
    /// defaults).  Each flag selected by `valid` that was clear is then
    /// recomputed exactly.
    pub fn pop(&mut self, valid: Valid) -> (r: Option<Account>)
        requires
            old(self).wf(),
        ensures
            final(self).wf(),
            old(self)@.accounts.len() == 0 ==> r is None && final(self)@ == old(self)@,
            old(self)@.accounts.len() > 0 ==> (r matches Some(p) && p.wf() && p@ == old(
                self,
            )@.accounts.last() && final(self)@ == pop_view(old(self)@, valid)),
            sound(old(self)@) ==> sound(final(self)@),
    {
        let ghost oldav = old(self)@;
        let popped = match self.accounts.pop() {
            None => {
                proof {
                    assert(final(self)@ =~= oldav);
                }
                return None;
            },
            Some(p) => p,
        };
        proof {
            assert(oldav.accounts.len() > 0);
            assert(old(self).accounts@[old(self).accounts@.len() - 1].wf());
            assert(popped@ == oldav.accounts.last());
            assert(self@.accounts =~= oldav.accounts.drop_last());
            assert(self@ =~= (AccountView { accounts: oldav.accounts.drop_last(), ..oldav }));
        }
        let ghost base = self@;
        if popped.active {
            let keys = popped.settings.keys();
            proof {
                assert forall|k: Seq<char>| #[trigger] key_set(keys@).contains(k)
                    == popped@.settings.dom().contains(k) by {
                    lemma_map_of_contains(popped.settings.entries@, k);
                    if key_set(keys@).contains(k) {
                        let i = choose|i: int| 0 <= i < keys@.len() && keys@[i]@ == k;
                        assert(popped.settings.entries@[i].0@ == k);
                    }
                    if popped@.settings.dom().contains(k) {
                        let i = choose|i: int|
                            0 <= i < popped.settings.entries@.len()
                                && popped.settings.entries@[i].0@ == k;
                        assert(keys@[i]@ == k);
                    }
                }
                assert(key_set(keys@) =~= popped@.settings.dom());
            }
            self.update_vec(&keys);
        }
        proof {
            assert(self@ == popped_mid(oldav));
        }
        let names = if valid.names && !self.valid.names {
            self.check_valid_names()
        } else {
            self.valid.names
        };
        let children = if valid.children && !self.valid.children {
            self.check_valid_children()
        } else {
            self.valid.children
        };
        let settings = if valid.settings && !self.valid.settings {
            self.check_valid_settings()
        } else {
            self.valid.settings
        };
        self.valid = Valid { names, settings, children };
        proof {
            assert(final(self)@.accounts =~= popped_mid(oldav).accounts);
            assert(final(self)@ =~= pop_view(oldav, valid));
            if sound(oldav) {
                let newav = final(self)@;
                let mid = popped_mid(oldav);
                let p = oldav.accounts.last();
                assert forall|i: int| 0 <= i < newav.accounts.len() implies sound(
                    #[trigger] newav.accounts[i],
                ) by {
                    assert(newav.accounts[i] == oldav.accounts[i]);
                }
                if newav.valid.names && !(valid.names && !oldav.valid.names) {
                    assert(names_ok(oldav));
                    assert(names_ok(newav));
                }
                if newav.valid.children && !(valid.children && !oldav.valid.children) {
                    assert(children_ok(oldav));
                    assert(children_ok(newav));
                }
                if newav.valid.settings && !(valid.settings && !oldav.valid.settings) {
                    assert(settings_ok(oldav));
                    assert forall|k: Seq<char>| #[trigger] resolve_in(newav.accounts, k) is Some
                        implies newav.settings.dom().contains(k) && newav.settings[k]
                        == resolve_in(newav.accounts, k)->0 by {
                        assert(oldav.accounts.drop_last() == newav.accounts);
                        assert(resolve_in(oldav.accounts, k) == if p.active
                            && p.settings.dom().contains(k) {
                            Some(p.settings[k])
                        } else {
                            resolve_in(oldav.accounts.drop_last(), k)
                        });
                        if p.active {
                            if !p.settings.dom().contains(k) {
                                assert(resolve_in(oldav.accounts, k) is Some);
                                assert(newav.settings[k] == oldav.settings[k]);
                            }
                        } else {
                            assert(resolve_in(oldav.accounts, k) is Some);
                        }
                    }
                }
                assert(flags_ok(newav));
                assert(sound(newav));
            }
        }
        Some(popped)
    }

    /// Removes and returns the highest-priority child without re-deriving
    /// anything.
    ///
    /// The aggregate keeps the popped child's contributions and the tracker
    /// is not touched; the caller is expected to re-derive and re-check
    /// later, typically after removing several children.  [`Account::pop`]
    /// is the checked form.
    pub fn pop_unchecked(&mut self) -> (r: Option<Account>)
        requires
            old(self).wf(),
        ensures
            final(self).wf(),
            old(self)@.accounts.len() == 0 ==> r is None && final(self)@ == old(self)@,
            old(self)@.accounts.len() > 0 ==> (r matches Some(p) && p.wf() && p@ == old(
                self,
            )@.accounts.last() && final(self)@ == (AccountView {
                accounts: old(self)@.accounts.drop_last(),
                ..old(self)@
            })),
    {
        let r = self.accounts.pop();
        proof {
            if old(self)@.accounts.len() == 0 {
                assert(final(self)@ =~= old(self)@);
            } else {
                assert(old(self).accounts@[old(self).accounts@.len() - 1].wf());
                assert(final(self)@.accounts =~= old(self)@.accounts.drop_last());
                assert(final(self)@ =~= (AccountView {
                    accounts: old(self)@.accounts.drop_last(),
                    ..old(self)@
                }));
            }
        }
        r
    }
}

} // verus!
