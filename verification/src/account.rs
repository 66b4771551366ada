//! The layered-settings tree node [`Account`] and its validity tracker
//! [`Valid`].
//!
//! An account owns a settings map (its *aggregate*: the resolved view of
//! every setting reachable from it), an ordered sequence of child accounts
//! (index order is priority order: the highest index wins), an activity flag
//! and a name.  The three booleans of [`Valid`] track, per node, whether the
//! sibling names are unique, whether the aggregate agrees with what the
//! active children supply, and whether the children themselves carry
//! all-true trackers.  Mutating operations only ever clear these flags or
//! leave them unchanged; only [`Account::update_valid`] and
//! [`Account::fix_valid`] set a flag back to true, after checking or
//! repairing the property it stands for.

pub mod deep;
pub mod incrementable_implementations;
pub mod laws;
pub mod repair;
pub mod settings_map;
pub mod validity;

use vstd::prelude::*;

use crate::account::settings_map::SettingsMap;
use crate::stg::{Stg, StgView};
use crate::types::errors::InvalidAccountError;

verus! {

broadcast use vstd::std_specs::vec::axiom_vec_index_decreases;

/// An account's validity tracker: one flag per way a node can be invalid.
///
/// A flag set to `false` makes no claim; a flag set to `true` claims that the
/// property it stands for holds of the node.
#[derive(Debug, Clone, Copy, PartialEq, Eq, Structural)]
pub struct Valid {
    /// The node's children have pairwise-distinct names.
    pub names: bool,
    /// The node's aggregate agrees with what its active children supply.
    pub settings: bool,
    /// The node's children all carry all-true trackers themselves.
    pub children: bool,
}

impl Valid {
    /// All three flags are set.
    pub open spec fn spec_is_valid(self) -> bool {
        self.names && self.settings && self.children
    }

    /// Creates a tracker from its three flags.
    pub fn new(names: bool, settings: bool, children: bool) -> (r: Valid)
        ensures
            r == (Valid { names, settings, children }),
    {
        Valid { names, settings, children }
    }

    /// Creates a tracker with every flag set.
    pub fn new_true() -> (r: Valid)
        ensures
            r == (Valid { names: true, settings: true, children: true }),
    {
        Valid { names: true, settings: true, children: true }
    }

    /// Creates a tracker with every flag cleared.
    pub fn new_false() -> (r: Valid)
        ensures
            r == (Valid { names: false, settings: false, children: false }),
    {
        Valid { names: false, settings: false, children: false }
    }

    /// Returns `true` when every flag is set.
    pub fn is_valid(&self) -> (r: bool)
        ensures
            r == self.spec_is_valid(),
    {
        self.children && self.settings && self.names
    }

    /// The value of the `names` flag.
    pub fn names(&self) -> (r: bool)
        ensures
            r == self.names,
    {
        self.names
    }

    /// The value of the `settings` flag.
    pub fn settings(&self) -> (r: bool)
        ensures
            r == self.settings,
    {
        self.settings
    }

    /// The value of the `children` flag.
    pub fn children(&self) -> (r: bool)
        ensures
            r == self.children,
    {
        self.children
    }
}

impl Default for Valid {
    /// The default tracker has every flag set.
    fn default() -> (r: Valid)
        ensures
            r == (Valid { names: true, settings: true, children: true }),
    {
        Valid { names: true, settings: true, children: true }
    }
}

/// Trait of the types that can serve as names: the name-conflict repair in
/// [`Account::fix_valid`] derives a fresh candidate from a taken name by
/// incrementing it, re-trying until the candidate is free.
pub trait Incrementable: Sized {
    /// How a value and its increment are related.
    spec fn inc_rel(self, r: Self) -> bool;

    /// Returns the incremented value, leaving the receiver unchanged.
    fn increment(&self) -> (r: Self)
        ensures
            self.inc_rel(r),
    ;

    /// Replaces the value with its increment.
    fn increment_mut(&mut self)
        ensures
            old(self).inc_rel(*final(self)),
    ;
}

/// The mathematical shape of an account: names and keys become character
/// sequences, the settings map becomes a `Map`, and the children become a
/// sequence of shapes.
#[verifier::ext_equal]
pub ghost struct AccountView {
    pub name: Seq<char>,
    pub active: bool,
    pub settings: Map<Seq<char>, StgView>,
    pub accounts: Seq<AccountView>,
    pub valid: Valid,
}

/// A tree node of layered settings.
///
/// The fields are exposed so that specifications can speak about them; the
/// verified operations preserve [`Account::wf`].
#[derive(Debug, PartialEq)]
pub struct Account {
    pub name: String,
    pub active: bool,
    pub settings: SettingsMap,
    pub accounts: Vec<Account>,
    pub valid: Valid,
}

impl View for Account {
    type V = AccountView;

    open spec fn view(&self) -> AccountView {
        self.av()
    }
}

/// The value the node's active children supply for a key: children are
/// scanned from the highest index (highest priority) down, skipping inactive
/// ones, and the first aggregate that holds the key wins.
pub open spec fn resolve_in(children: Seq<AccountView>, k: Seq<char>) -> Option<StgView>
    decreases children.len(),
{
    if children.len() == 0 {
        None
    } else if children.last().active && children.last().settings.dom().contains(k) {
        Some(children.last().settings[k])
    } else {
        resolve_in(children.drop_last(), k)
    }
}

/// The node's children have pairwise-distinct names.
pub open spec fn names_ok(av: AccountView) -> bool {
    forall|i: int, j: int|
        0 <= i < j < av.accounts.len() ==> av.accounts[i].name != av.accounts[j].name
}

/// Every key supplied by an active child resolves, in the node's aggregate,
/// to the value the highest-priority active child supplies.
pub open spec fn settings_ok(av: AccountView) -> bool {
    forall|k: Seq<char>|
        #[trigger] resolve_in(av.accounts, k) matches Some(v) ==> av.settings.dom().contains(k)
            && av.settings[k] == v
}

/// Every child of the node carries an all-true tracker.
pub open spec fn children_ok(av: AccountView) -> bool {
    forall|i: int|
        0 <= i < av.accounts.len() ==> (#[trigger] av.accounts[i].valid).spec_is_valid()
}

/// The node's flags claim nothing false (about this node).
pub open spec fn flags_ok(av: AccountView) -> bool {
    &&& (av.valid.names ==> names_ok(av))
    &&& (av.valid.settings ==> settings_ok(av))
    &&& (av.valid.children ==> children_ok(av))
}

/// Throughout the tree, no flag claims anything false.
pub open spec fn sound(av: AccountView) -> bool
    decreases av,
{
    &&& flags_ok(av)
    &&& forall|i: int| 0 <= i < av.accounts.len() ==> sound(#[trigger] av.accounts[i])
}

/// Throughout the tree, every flag is set and every property holds.
pub open spec fn fully_valid(av: AccountView) -> bool
    decreases av,
{
    &&& av.valid == (Valid { names: true, settings: true, children: true })
    &&& names_ok(av)
    &&& settings_ok(av)
    &&& forall|i: int| 0 <= i < av.accounts.len() ==> fully_valid(#[trigger] av.accounts[i])
}

/// The node's shape after re-deriving one key of its aggregate: the key is
/// set to what the active children supply, or dropped when they supply
/// nothing.
pub open spec fn upd_key(av: AccountView, k: Seq<char>) -> AccountView {
    match resolve_in(av.accounts, k) {
        Some(v) => AccountView { settings: av.settings.insert(k, v), ..av },
        None => AccountView { settings: av.settings.remove(k), ..av },
    }
}

/// The node's shape after re-deriving a set of keys of its aggregate.
pub open spec fn upd_keys(av: AccountView, ks: Set<Seq<char>>) -> AccountView {
    AccountView {
        settings: Map::new(
            |k: Seq<char>|
                if ks.contains(k) {
                    resolve_in(av.accounts, k) is Some
                } else {
                    av.settings.dom().contains(k)
                },
            |k: Seq<char>|
                if ks.contains(k) && resolve_in(av.accounts, k) is Some {
                    resolve_in(av.accounts, k)->0
                } else {
                    av.settings[k]
                },
        ),
        ..av
    }
}

/// The shapes of a sequence of accounts.
pub open spec fn views_of(accounts: Seq<Account>) -> Seq<AccountView>
    decreases accounts,
{
    Seq::new(
        accounts.len(),
        |i: int|
            if 0 <= i < accounts.len() {
                accounts[i].av()
            } else {
                vstd::pervasive::arbitrary()
            },
    )
}

impl Account {
    /// The mathematical shape of this node and its subtree.
    pub open spec fn av(self) -> AccountView
        decreases self,
    {
        AccountView {
            name: self.name@,
            active: self.active,
            settings: self.settings@,
            accounts: views_of(self.accounts@),
            valid: self.valid,
        }
    }

    /// The representation invariant: every settings map in the subtree has
    /// pairwise-distinct keys.
    pub open spec fn wf(self) -> bool
        decreases self,
    {
        &&& self.settings.wf()
        &&& forall|i: int| 0 <= i < self.accounts@.len() ==> (#[trigger] self.accounts@[i]).wf()
    }

    /// Creates an account from its parts, without checking anything.
    ///
    /// The caller asserts the validity claimed by `valid`; nothing is
    /// verified about the flags handed in.  Use [`Account::new`] to create an
    /// account whose tracker has been made accurate.
    pub fn new_unchecked(
        name: String,
        active: bool,
        settings: SettingsMap,
        accounts: Vec<Account>,
        valid: Valid,
    ) -> (r: Account)
        ensures
            r == (Account { name, active, settings, accounts, valid }),
    {
        Account { name, active, settings, accounts, valid }
    }

    /// The account's name.
    pub fn name(&self) -> (r: &String)
        ensures
            r@ == self@.name,
    {
        &self.name
    }

    /// Replaces the account's name, returning the previous one.
    ///
    /// Renaming a node can break the *parent's* name uniqueness; the parent's
    /// tracker is not touched by this operation.
    pub fn rename(&mut self, new_name: String) -> (r: String)
        ensures
            r == old(self).name,
            final(self)@ == (AccountView { name: new_name@, ..old(self)@ }),
            final(self).wf() == old(self).wf(),
            final(self).accounts == old(self).accounts,
            final(self).settings == old(self).settings,
    {
        let mut tmp = new_name;
        core::mem::swap(&mut self.name, &mut tmp);
        proof {
            assert(final(self)@ =~= (AccountView { name: new_name@, ..old(self)@ }));
        }
        tmp
    }

    /// Whether the account is active.
    ///
    /// Inactive accounts keep their contents, but ancestors resolving
    /// settings skip them.
    pub fn active(&self) -> (r: bool)
        ensures
            r == self@.active,
    {
        self.active
    }

    /// Sets the activity flag; returns whether the value changed.
    ///
    /// Toggling activity does not touch any ancestor's aggregate: callers of
    /// this non-deep form must re-derive the affected keys on every ancestor
    /// themselves, or use [`Account::deep_change_activity`].
    pub fn change_activity(&mut self, new_active: bool) -> (r: bool)
        ensures
            r == (old(self)@.active != new_active),
            final(self)@ == (AccountView { active: new_active, ..old(self)@ }),
            final(self).wf() == old(self).wf(),
    {
        let changed = self.active != new_active;
        self.active = new_active;
        proof {
            assert(final(self)@ =~= (AccountView { active: new_active, ..old(self)@ }));
        }
        changed
    }

    /// A reference to the account's validity tracker.
    pub fn valid(&self) -> (r: &Valid)
        ensures
            *r == self@.valid,
    {
        &self.valid
    }

    /// Replaces the validity tracker; returns whether the value changed.
    ///
    /// The caller asserts the claims of the new tracker; nothing is checked.
    /// Handing in flags that claim false things makes later contracts that
    /// assume an accurate tracker inapplicable.
    pub fn change_valid(&mut self, new_valid: Valid) -> (r: bool)
        ensures
            r == (old(self)@.valid != new_valid),
            final(self)@ == (AccountView { valid: new_valid, ..old(self)@ }),
            final(self).wf() == old(self).wf(),
    {
        let changed = !(self.valid == new_valid);
        self.valid = new_valid;
        proof {
            assert(final(self)@ =~= (AccountView { valid: new_valid, ..old(self)@ }));
        }
        changed
    }

    /// A reference to the account's settings map (its aggregate).
    pub fn hashmap(&self) -> (r: &SettingsMap)
        ensures
            *r == self.settings,
            r@ == self@.settings,
    {
        &self.settings
    }

    /// The resolved value for a key: a single lookup into the aggregate,
    /// never a scan of the children.
    pub fn get(&self, setting_name: &String) -> (r: Option<&Stg>)
        requires
            self.wf(),
        ensures
            match r {
                Some(v) => self@.settings.dom().contains(setting_name@) && v@
                    == self@.settings[setting_name@],
                None => !self@.settings.dom().contains(setting_name@),
            },
    {
        self.settings.get(setting_name)
    }

    /// Sets a key of this node's aggregate, returning the value previously
    /// held, if any.
    ///
    /// This is a local edit: neither children nor ancestors are touched, and
    /// the tracker is not updated — overwriting a key that an active child
    /// supplies leaves an aggregate the `settings` flag no longer describes.
    pub fn insert(&mut self, setting_name: String, setting_value: Stg) -> (r: Option<Stg>)
        requires
            old(self).wf(),
        ensures
            final(self).wf(),
            final(self)@ == (AccountView {
                settings: old(self)@.settings.insert(setting_name@, setting_value@),
                ..old(self)@
            }),
            match r {
                Some(v) => old(self)@.settings.dom().contains(setting_name@) && v@ == old(
                    self,
                )@.settings[setting_name@],
                None => !old(self)@.settings.dom().contains(setting_name@),
            },
    {
        let r = self.settings.insert(setting_name, setting_value);
        proof {
            assert(final(self)@ =~= (AccountView {
                settings: old(self)@.settings.insert(setting_name@, setting_value@),
                ..old(self)@
            }));
        }
        r
    }

    /// Removes a key from this node's aggregate, returning the value held,
    /// if any.  A local edit, like [`Account::insert`].
    pub fn remove(&mut self, setting_to_remove: &String) -> (r: Option<Stg>)
        requires
            old(self).wf(),
        ensures
            final(self).wf(),
            final(self)@ == (AccountView {
                settings: old(self)@.settings.remove(setting_to_remove@),
                ..old(self)@
            }),
            match r {
                Some(v) => old(self)@.settings.dom().contains(setting_to_remove@) && v@ == old(
                    self,
                )@.settings[setting_to_remove@],
                None => !old(self)@.settings.dom().contains(setting_to_remove@),
            },
    {
        let r = self.settings.remove(setting_to_remove);
        proof {
            assert(final(self)@ =~= (AccountView {
                settings: old(self)@.settings.remove(setting_to_remove@),
                ..old(self)@
            }));
        }
        r
    }

    /// Whether the aggregate holds a value for the key.
    pub fn contains_key(&self, setting_name: &String) -> (r: bool)
        ensures
            r == self@.settings.dom().contains(setting_name@),
    {
        self.settings.contains_key(setting_name)
    }

    /// The keys of the aggregate, in storage order.
    pub fn keys(&self) -> (r: Vec<String>)
        ensures
            r@.len() == self.settings.entries@.len(),
            forall|i: int| 0 <= i < r@.len() ==> r@[i] == self.settings.entries@[i].0,
    {
        self.settings.keys()
    }

    /// A lower bound on the number of settings the aggregate can hold
    /// without reallocating.
    pub fn capacity(&self) -> (r: usize)
        ensures
            r >= self.settings.entries@.len(),
    {
        self.settings.capacity()
    }

    /// A reference to the child accounts, lowest priority first.
    pub fn accounts(&self) -> (r: &Vec<Account>)
        ensures
            *r == self.accounts,
    {
        &self.accounts
    }

    /// The names of the child accounts, lowest priority first.
    ///
    /// On a truthful tracker with the `names` flag set, the result holds no
    /// duplicate entries.
    pub fn accounts_names(&self) -> (r: Vec<String>)
        ensures
            r@.len() == self@.accounts.len(),
            forall|i: int| 0 <= i < r@.len() ==> r@[i]@ == self@.accounts[i].name,
            sound(self@) && self@.valid.names ==> forall|a: int, b: int|
                0 <= a < b < r@.len() ==> r@[a]@ != r@[b]@,
    {
        let mut r: Vec<String> = Vec::new();
        let mut i: usize = 0;
        while i < self.accounts.len()
            invariant
                i <= self.accounts@.len(),
                r@.len() == i,
                forall|j: int| 0 <= j < i ==> r@[j]@ == self.accounts@[j]@.name,
            decreases self.accounts@.len() - i,
        {
            r.push(self.accounts[i].name.clone());
            i = i + 1;
        }
        proof {
            if sound(self@) && self@.valid.names {
                assert(names_ok(self@));
                assert forall|a: int, b: int| 0 <= a < b < r@.len() implies r@[a]@ != r@[b]@ by {
                    assert(self@.accounts[a].name != self@.accounts[b].name);
                    assert(r@[a]@ == self@.accounts[a].name);
                    assert(r@[b]@ == self@.accounts[b].name);
                }
            }
        }
        r
    }

    /// A mutable reference to the child at an index.
    ///
    /// Editing a child directly can leave this node's aggregate and tracker
    /// stale; the caller is responsible for re-deriving and re-checking.
    pub fn get_mut_account(&mut self, index: usize) -> (r: Option<&mut Account>)
        ensures
            index < old(self).accounts@.len() ==> (r matches Some(a) && *a == old(self).accounts@[
                index as int
            ] && final(self).accounts@ == old(self).accounts@.update(index as int, *final(a))
                && final(self).name == old(self).name && final(self).active == old(self).active
                && final(self).settings == old(self).settings && final(self).valid == old(
                self,
            ).valid),
            index >= old(self).accounts@.len() ==> r is None && *final(self) == *old(self),
    {
        if index < self.accounts.len() {
            Some(&mut self.accounts[index])
        } else {
            None
        }
    }

    /// The number of child accounts.
    pub fn len(&self) -> (r: usize)
        ensures
            r == self@.accounts.len(),
    {
        self.accounts.len()
    }

    /// Whether the account has no children.
    pub fn is_empty(&self) -> (r: bool)
        ensures
            r == (self@.accounts.len() == 0),
    {
        self.accounts.is_empty()
    }

    /// The value the active children supply for a key, scanning from the
    /// highest priority down, or `None` when no active child supplies it.
    pub fn find_in_accounts(&self, setting: &String) -> (r: Option<&Stg>)
        requires
            self.wf(),
        ensures
            match r {
                Some(v) => resolve_in(self@.accounts, setting@) == Some(v@),
                None => resolve_in(self@.accounts, setting@) is None,
            },
    {
        let ghost children = self@.accounts;
        proof {
            assert(children.take(children.len() as int) =~= children);
        }
        let mut i: usize = self.accounts.len();
        while i > 0
            invariant
                i <= self.accounts@.len(),
                self.wf(),
                children == self@.accounts,
                children.len() == self.accounts@.len(),
                resolve_in(children, setting@) == resolve_in(
                    children.take(i as int),
                    setting@,
                ),
            decreases i,
        {
            i = i - 1;
            proof {
                assert(self.accounts@[i as int].wf());
                assert(children[i as int] == self.accounts@[i as int]@);
                assert(children.take(i as int + 1).last() == children[i as int]);
                assert(children.take(i as int + 1).drop_last() =~= children.take(i as int));
            }
            if self.accounts[i].active {
                let found = self.accounts[i].settings.get(setting);
                if found.is_some() {
                    proof {
                        assert(children[i as int].active && children[i as int].settings.dom().contains(setting@));
                        assert(resolve_in(children.take(i as int + 1), setting@) == Some(
                            children[i as int].settings[setting@],
                        ));
                    }
                    return found;
                }
            }
            proof {
                assert(resolve_in(children.take(i as int + 1), setting@) == resolve_in(
                    children.take(i as int),
                    setting@,
                ));
            }
        }
        proof {
            assert(children.take(0) =~= Seq::<AccountView>::empty());
        }
        None
    }

    /// Whether any child account's aggregate holds the key.
    pub fn vec_contains_key(&self, setting: &String) -> (r: bool)
        ensures
            r == exists|i: int|
                0 <= i < self@.accounts.len() && (#[trigger] self@.accounts[i]).settings.dom().contains(
                    setting@,
                ),
    {
        let mut i: usize = 0;
        while i < self.accounts.len()
            invariant
                i <= self.accounts@.len(),
                forall|j: int|
                    0 <= j < i ==> !(#[trigger] self@.accounts[j]).settings.dom().contains(
                        setting@,
                    ),
            decreases self.accounts@.len() - i,
        {
            proof {
                assert(self@.accounts[i as int] == self.accounts@[i as int]@);
            }
            if self.accounts[i].contains_key(setting) {
                proof {
                    assert(self@.accounts[i as int].settings.dom().contains(setting@));
                }
                return true;
            }
            i = i + 1;
        }
        false
    }
}

impl Default for Account {
    /// The default account: empty name, active, no settings, no children,
    /// all-true tracker.
    fn default() -> (r: Account)
        ensures
            r@.name == Seq::<char>::empty(),
            r@.active,
            r@.settings == Map::<Seq<char>, StgView>::empty(),
            r@.accounts == Seq::<AccountView>::empty(),
            r@.valid == (Valid { names: true, settings: true, children: true }),
            r.wf(),
            sound(r@),
            fully_valid(r@),
    {
        let r = Account {
            name: String::new(),
            active: true,
            settings: SettingsMap::new(),
            accounts: Vec::new(),
            valid: Valid::new_true(),
        };
        proof {
            assert(r@.accounts =~= Seq::<AccountView>::empty());
            assert(resolve_in(r@.accounts, arbitrary()) is None);
            assert(forall|k: Seq<char>| resolve_in(r@.accounts, k) is None);
        }
        r
    }
}

} // verus!
