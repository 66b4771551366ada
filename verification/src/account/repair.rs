//! Repairing an invalid account: renaming colliding children, recomputing
//! the aggregate, and fixing invalid children bottom-up.

use vstd::prelude::*;

use crate::account::{
    children_ok, names_ok, resolve_in, settings_ok, sound, upd_keys, Account, AccountView,
    Incrementable, Valid,
};
use crate::account::incrementable_implementations::increment_str;
use crate::account::settings_map::{lemma_map_of_contains, SettingsMap};
use crate::account::validity::{key_set, lemma_resolve_some_iff, settings_check};

verus! {

/// The shape of a node whose aggregate was recomputed from its children:
/// every key an active child supplies carries the supplied value, every
/// other key keeps what the node stored for it, and the `settings` flag is
/// set.
pub open spec fn merge_resolved(av: AccountView) -> AccountView {
    AccountView {
        settings: Map::new(
            |k: Seq<char>|
                av.settings.dom().contains(k) || resolve_in(av.accounts, k) is Some,
            |k: Seq<char>|
                if resolve_in(av.accounts, k) is Some {
                    resolve_in(av.accounts, k)->0
                } else {
                    av.settings[k]
                },
        ),
        valid: (Valid { settings: true, ..av.valid }),
        ..av
    }
}

/// The names of a sequence of children, in order.
pub open spec fn names_of(children: Seq<AccountView>) -> Seq<Seq<char>> {
    children.map_values(|c: AccountView| c.name)
}

/// The name the search settles on, scanning the increment orbit of a
/// candidate: the first name `used` does not contain, or `None` once the
/// fuel runs out.
pub open spec fn fresh_from(cand: Seq<char>, used: Set<Seq<char>>, fuel: nat) -> Option<Seq<char>>
    decreases fuel,
{
    if !used.contains(cand) {
        Some(cand)
    } else if fuel == 0 {
        None
    } else {
        fresh_from(increment_str(cand), used, (fuel - 1) as nat)
    }
}

/// The fresh name picked for a taken `base`: the first name in its increment
/// orbit that `used` does not carry, trying one candidate per used name
/// before giving up — past that many attempts the orbit is cycling through
/// the used names.
pub open spec fn fresh_name_spec(base: Seq<char>, used: Seq<Seq<char>>) -> Option<Seq<char>> {
    fresh_from(increment_str(base), used.to_set(), used.len())
}

/// The children's names after the repair has processed the first `i` of
/// them: a name that collides with an earlier one is replaced by the fresh
/// name picked against every name current at that step, or kept when the
/// search gives up.
pub open spec fn fix_names_upto(names: Seq<Seq<char>>, i: nat) -> Seq<Seq<char>>
    decreases i,
{
    if i == 0 || i > names.len() {
        names
    } else {
        let prev = fix_names_upto(names, (i - 1) as nat);
        let idx = i - 1;
        if exists|j: int| 0 <= j < idx && prev[j] == prev[idx as int] {
            match fresh_name_spec(prev[idx as int], prev) {
                Some(nm) => prev.update(idx as int, nm),
                None => prev,
            }
        } else {
            prev
        }
    }
}

/// The name repair never touches a child it has not reached yet, and keeps
/// the number of children.
pub proof fn lemma_fix_names_upto_frame(names: Seq<Seq<char>>, i: nat)
    ensures
        fix_names_upto(names, i).len() == names.len(),
        forall|j: int| i <= j < names.len() ==> fix_names_upto(names, i)[j] == names[j],
    decreases i,
{
    if !(i == 0 || i > names.len()) {
        lemma_fix_names_upto_frame(names, (i - 1) as nat);
    }
}

/// A name the search returns is indeed absent from `used`.
pub proof fn lemma_fresh_from_free(cand: Seq<char>, used: Set<Seq<char>>, fuel: nat)
    ensures
        fresh_from(cand, used, fuel) matches Some(x) ==> !used.contains(x),
    decreases fuel,
{
    if used.contains(cand) && fuel > 0 {
        lemma_fresh_from_free(increment_str(cand), used, (fuel - 1) as nat);
    }
}

/// Whether the name repair found a fresh name at every step that needed one.
pub open spec fn fix_names_succeeds(names: Seq<Seq<char>>, i: nat) -> bool
    decreases i,
{
    if i == 0 || i > names.len() {
        true
    } else {
        let prev = fix_names_upto(names, (i - 1) as nat);
        let idx = i - 1;
        &&& fix_names_succeeds(names, (i - 1) as nat)
        &&& ((exists|j: int| 0 <= j < idx && prev[j] == prev[idx as int])
            ==> fresh_name_spec(prev[idx as int], prev) is Some)
    }
}

/// When every colliding child found a fresh name, the repaired names are
/// pairwise distinct.
pub proof fn lemma_fix_names_complete(names: Seq<Seq<char>>, i: nat)
    requires
        fix_names_succeeds(names, i),
        i <= names.len(),
    ensures
        forall|a: int, b: int|
            0 <= a < b < i ==> fix_names_upto(names, i)[a] != fix_names_upto(names, i)[b],
    decreases i,
{
    if i > 0 {
        lemma_fix_names_complete(names, (i - 1) as nat);
        lemma_fix_names_upto_frame(names, (i - 1) as nat);
        let prev = fix_names_upto(names, (i - 1) as nat);
        let cur = fix_names_upto(names, i);
        let idx = i - 1;
        assert forall|a: int, b: int| 0 <= a < b < i implies cur[a] != cur[b] by {
            if b < idx {
                assert(cur[a] == prev[a] && cur[b] == prev[b]);
            } else {
                assert(cur[a] == prev[a]);
                if exists|j: int| 0 <= j < idx && prev[j] == prev[idx as int] {
                    let nm = fresh_name_spec(prev[idx as int], prev)->0;
                    lemma_fresh_from_free(
                        increment_str(prev[idx as int]),
                        prev.to_set(),
                        prev.len(),
                    );
                    assert(!prev.to_set().contains(nm));
                    assert(prev.contains(prev[a]));
                    assert(cur[b] == nm);
                } else {
                    assert(cur[b] == prev[idx as int]);
                    assert(prev[a] != prev[idx as int]);
                }
            }
        }
    }
}

/// A node's flags after it was repaired: the aggregate agrees with its
/// children and its flag is set, and the other two flags say exactly whether
/// the property they stand for holds.
pub open spec fn repaired_flags(c: AccountView) -> bool {
    &&& c.valid.settings
    &&& settings_ok(c)
    &&& (c.valid.names <==> names_ok(c))
    &&& (c.valid.children <==> children_ok(c))
}

/// What the children supply does not depend on their names.
pub proof fn lemma_resolve_ignores_names(c1: Seq<AccountView>, c2: Seq<AccountView>, k: Seq<char>)
    requires
        c1.len() == c2.len(),
        forall|i: int|
            0 <= i < c1.len() ==> (#[trigger] c2[i]).active == c1[i].active && c2[i].settings
                == c1[i].settings,
    ensures
        resolve_in(c2, k) == resolve_in(c1, k),
    decreases c1.len(),
{
    if c1.len() > 0 {
        assert(c2.last().active == c1.last().active && c2.last().settings == c1.last().settings);
        assert forall|i: int| 0 <= i < c1.drop_last().len() implies (#[trigger] c2.drop_last()[
            i
        ]).active == c1.drop_last()[i].active && c2.drop_last()[i].settings == c1.drop_last()[
            i
        ].settings by {
            assert(c2[i].active == c1[i].active && c2[i].settings == c1[i].settings);
        }
        lemma_resolve_ignores_names(c1.drop_last(), c2.drop_last(), k);
    }
}

/// A node's tracker stays truthful when only its name changes.
pub proof fn lemma_sound_rename(c: AccountView, c2: AccountView)
    requires
        sound(c),
        c2 == (AccountView { name: c2.name, ..c }),
    ensures
        sound(c2),
{
    assert(c2.accounts == c.accounts);
    assert(c2.settings == c.settings);
    assert(c2.valid == c.valid);
}

/// Whether some element of the vector has the same characters as `s`.
pub(crate) fn contains_string(v: &Vec<String>, s: &String) -> (r: bool)
    ensures
        r == exists|i: int| 0 <= i < v@.len() && (#[trigger] v@[i])@ == s@,
{
    let mut i: usize = 0;
    while i < v.len()
        invariant
            i <= v@.len(),
            forall|j: int| 0 <= j < i ==> (#[trigger] v@[j])@ != s@,
        decreases v@.len() - i,
    {
        if v[i].eq(s) {
            return true;
        }
        i = i + 1;
    }
    false
}

/// A name of `used` has the same characters as `s` exactly when the set of
/// used-name views contains the view of `s`.
proof fn lemma_views_to_set(used: Seq<String>, k: Seq<char>)
    ensures
        used.map_values(|s: String| s@).to_set().contains(k) <==> exists|i: int|
            0 <= i < used.len() && (#[trigger] used[i])@ == k,
{
    let uv = used.map_values(|s: String| s@);
    if uv.to_set().contains(k) {
        let i = choose|i: int| 0 <= i < uv.len() && uv[i] == k;
        assert(used[i]@ == k);
    }
    if exists|i: int| 0 <= i < used.len() && (#[trigger] used[i])@ == k {
        let i = choose|i: int| 0 <= i < used.len() && (#[trigger] used[i])@ == k;
        assert(uv[i] == k);
        assert(uv.contains(k));
    }
}

/// Searches for a name that no element of `used` carries, by repeatedly
/// incrementing `base`: exactly the name [`fresh_name_spec`] picks.
fn fresh_name(base: &String, used: &Vec<String>) -> (r: Option<String>)
    ensures
        match r {
            Some(nm) => fresh_name_spec(base@, used@.map_values(|s: String| s@)) == Some(nm@),
            None => fresh_name_spec(base@, used@.map_values(|s: String| s@)) is None,
        },
{
    let ghost uv = used@.map_values(|s: String| s@);
    let mut candidate = base.increment();
    let mut fuel = used.len();
    loop
        invariant
            uv == used@.map_values(|s: String| s@),
            fuel <= used@.len(),
            fresh_name_spec(base@, uv) == fresh_from(candidate@, uv.to_set(), fuel as nat),
        decreases fuel,
    {
        let taken = contains_string(used, &candidate);
        proof {
            lemma_views_to_set(used@, candidate@);
            assert(taken == uv.to_set().contains(candidate@));
        }
        if !taken {
            return Some(candidate);
        }
        if fuel == 0 {
            return None;
        }
        fuel = fuel - 1;
        candidate = candidate.increment();
    }
}

impl Account {
    /// Renames each child whose name collides with an earlier sibling's to
    /// the fresh name [`fresh_name_spec`] picks against the names current at
    /// that step — so the children's names end up exactly
    /// [`fix_names_upto`] of the old ones — and sets the `names` flag to
    /// whether the names are now pairwise distinct.
    ///
    /// Only children's names and the `names` flag change; children that
    /// carried a name no earlier sibling carried keep it.
    pub fn fix_valid_names(&mut self)
        requires
            old(self).wf(),
        ensures
            final(self).wf(),
            final(self)@.name == old(self)@.name,
            final(self)@.active == old(self)@.active,
            final(self)@.settings == old(self)@.settings,
            final(self)@.valid == (Valid { names: names_ok(final(self)@), ..old(self)@.valid }),
            final(self)@.accounts.len() == old(self)@.accounts.len(),
            names_of(final(self)@.accounts) == fix_names_upto(
                names_of(old(self)@.accounts),
                old(self)@.accounts.len(),
            ),
            fix_names_succeeds(names_of(old(self)@.accounts), old(self)@.accounts.len())
                ==> final(self)@.valid.names && names_ok(final(self)@),
            forall|i: int|
                0 <= i < old(self)@.accounts.len() ==> #[trigger] final(self)@.accounts[i]
                    == (AccountView {
                    name: final(self)@.accounts[i].name,
                    ..old(self)@.accounts[i]
                }),
            names_ok(old(self)@) ==> final(self)@ == (AccountView {
                valid: (Valid { names: true, ..old(self)@.valid }),
                ..old(self)@
            }),
            sound(old(self)@) ==> sound(final(self)@),
    {
        let ghost orig = old(self)@;
        let ghost ns = names_of(orig.accounts);
        proof {
            assert(names_of(self@.accounts) =~= ns);
        }
        let mut i: usize = 0;
        while i < self.accounts.len()
            invariant
                i <= self.accounts@.len(),
                self.wf(),
                self@.name == orig.name,
                self@.active == orig.active,
                self@.settings == orig.settings,
                self@.valid == orig.valid,
                self@.accounts.len() == orig.accounts.len(),
                ns == names_of(orig.accounts),
                names_of(self@.accounts) == fix_names_upto(ns, i as nat),
                forall|j: int|
                    0 <= j < orig.accounts.len() ==> #[trigger] self@.accounts[j] == (AccountView {
                        name: self@.accounts[j].name,
                        ..orig.accounts[j]
                    }),
                forall|j: int|
                    i <= j < orig.accounts.len() ==> (#[trigger] self@.accounts[j]).name
                        == orig.accounts[j].name,
                names_ok(orig) ==> forall|j: int|
                    0 <= j < orig.accounts.len() ==> (#[trigger] self@.accounts[j]).name
                        == orig.accounts[j].name,
            decreases self.accounts@.len() - i,
        {
            let ghost prev = names_of(self@.accounts);
            proof {
                assert(forall|m: int|
                    0 <= m < prev.len() ==> prev[m] == (#[trigger] self@.accounts[m]).name);
            }
            let mut dup = false;
            let mut j: usize = 0;
            while j < i
                invariant
                    j <= i,
                    i < self.accounts@.len(),
                    dup == exists|m: int|
                        0 <= m < j && (#[trigger] self@.accounts[m]).name == self@.accounts[
                            i as int
                        ].name,
                decreases i - j,
            {
                proof {
                    assert(self@.accounts[j as int] == self.accounts@[j as int]@);
                    assert(self@.accounts[i as int] == self.accounts@[i as int]@);
                }
                if self.accounts[j].name.eq(&self.accounts[i].name) {
                    dup = true;
                }
                j = j + 1;
            }
            proof {
                assert(dup == exists|m: int| 0 <= m < i && prev[m] == prev[i as int]) by {
                    if dup {
                        let m = choose|m: int|
                            0 <= m < i && (#[trigger] self@.accounts[m]).name == self@.accounts[
                                i as int
                            ].name;
                        assert(prev[m] == prev[i as int]);
                    }
                    if exists|m: int| 0 <= m < i && prev[m] == prev[i as int] {
                        let m = choose|m: int| 0 <= m < i && prev[m] == prev[i as int];
                        assert(self@.accounts[m].name == self@.accounts[i as int].name);
                    }
                }
            }
            if dup {
                proof {
                    if names_ok(orig) {
                        let m = choose|m: int|
                            0 <= m < i && (#[trigger] self@.accounts[m]).name == self@.accounts[
                                i as int
                            ].name;
                        assert(orig.accounts[m].name == orig.accounts[i as int].name);
                        assert(false);
                    }
                }
                let names_now = self.accounts_names();
                proof {
                    assert(names_now@.map_values(|s: String| s@) =~= prev);
                    assert(self.accounts@[i as int]@ == self@.accounts[i as int]);
                    assert(self.accounts@[i as int].name@ == prev[i as int]);
                }
                match fresh_name(&self.accounts[i].name, &names_now) {
                    Some(nm) => {
                        let ghost pre = self@;
                        let child = &mut self.accounts[i];
                        child.rename(nm);
                        proof {
                            assert(self@.accounts =~= pre.accounts.update(
                                i as int,
                                self@.accounts[i as int],
                            ));
                            assert(self@ =~= (AccountView {
                                accounts: self@.accounts,
                                ..pre
                            }));
                            assert(fresh_name_spec(prev[i as int], prev) == Some(nm@));
                            assert(names_of(self@.accounts) =~= prev.update(i as int, nm@));
                            assert(names_of(self@.accounts) == fix_names_upto(ns, (i + 1) as nat));
                        }
                    },
                    None => {
                        proof {
                            assert(fresh_name_spec(prev[i as int], prev) is None);
                            assert(names_of(self@.accounts) == fix_names_upto(ns, (i + 1) as nat));
                        }
                    },
                }
            } else {
                proof {
                    assert(names_of(self@.accounts) == fix_names_upto(ns, (i + 1) as nat));
                }
            }
            i = i + 1;
        }
        let ok = self.check_valid_names();
        self.valid.names = ok;
        proof {
            let newav = final(self)@;
            assert(newav.accounts =~= self@.accounts);
            assert(names_of(newav.accounts) == fix_names_upto(ns, orig.accounts.len()));
            if fix_names_succeeds(ns, orig.accounts.len()) {
                lemma_fix_names_complete(ns, orig.accounts.len());
                assert forall|a: int, b: int| 0 <= a < b < newav.accounts.len() implies
                    newav.accounts[a].name != newav.accounts[b].name by {
                    assert(names_of(newav.accounts)[a] == newav.accounts[a].name);
                    assert(names_of(newav.accounts)[b] == newav.accounts[b].name);
                }
                assert(names_ok(newav));
            }
            assert(newav =~= (AccountView {
                valid: (Valid { names: names_ok(newav), ..orig.valid }),
                ..self@
            }));
            if names_ok(orig) {
                assert forall|j: int| 0 <= j < orig.accounts.len() implies #[trigger] newav.accounts[j]
                    == orig.accounts[j] by {
                    assert(newav.accounts[j].name == orig.accounts[j].name);
                }
                assert(newav.accounts =~= orig.accounts);
                assert(names_ok(newav));
                assert(newav =~= (AccountView {
                    valid: (Valid { names: true, ..orig.valid }),
                    ..orig
                }));
            }
            if sound(orig) {
                assert forall|idx: int| 0 <= idx < newav.accounts.len() implies sound(
                    #[trigger] newav.accounts[idx],
                ) by {
                    lemma_sound_rename(orig.accounts[idx], newav.accounts[idx]);
                }
                assert forall|i2: int| 0 <= i2 < newav.accounts.len() implies (#[trigger] newav.accounts[
                    i2
                ]).active == orig.accounts[i2].active && newav.accounts[i2].settings
                    == orig.accounts[i2].settings by {}
                if newav.valid.settings {
                    assert(settings_ok(orig));
                    assert forall|k: Seq<char>| #[trigger] resolve_in(newav.accounts, k) is Some
                        implies newav.settings.dom().contains(k) && newav.settings[k]
                        == resolve_in(newav.accounts, k)->0 by {
                        lemma_resolve_ignores_names(orig.accounts, newav.accounts, k);
                        assert(resolve_in(orig.accounts, k) is Some);
                    }
                }
                assert(sound(newav));
            }
        }
    }

    /// Recomputes this node's aggregate from its children: every key an
    /// active child supplies is set to the supplied value, every other key
    /// keeps what the node stored, and the `settings` flag is set.
    pub fn fix_valid_settings(&mut self)
        requires
            old(self).wf(),
        ensures
            final(self).wf(),
            final(self)@ == merge_resolved(old(self)@),
            settings_ok(final(self)@),
            final(self)@.valid.settings,
            sound(old(self)@) ==> sound(final(self)@),
    {
        let ghost orig = old(self)@;
        let mut gathered: Vec<String> = Vec::new();
        let mut i: usize = 0;
        while i < self.accounts.len()
            invariant
                i <= self.accounts@.len(),
                self.wf(),
                self@ == orig,
                forall|k: Seq<char>|
                    #[trigger] key_set(gathered@).contains(k) <==> exists|j: int|
                        0 <= j < i && (#[trigger] orig.accounts[j]).active
                            && orig.accounts[j].settings.dom().contains(k),
            decreases self.accounts@.len() - i,
        {
            let ghost before = gathered@;
            proof {
                assert(orig.accounts[i as int] == self.accounts@[i as int]@);
                assert(self.accounts@[i as int].wf());
            }
            if self.accounts[i].active {
                let mut ks = self.accounts[i].settings.keys();
                let ghost ksv = ks@;
                gathered.append(&mut ks);
                proof {
                    assert(gathered@ =~= before + ksv);
                    assert forall|k: Seq<char>| #[trigger] key_set(gathered@).contains(k) <==> (
                    key_set(before).contains(k) || orig.accounts[
                        i as int
                    ].settings.dom().contains(k)) by {
                        lemma_map_of_contains(self.accounts@[i as int].settings.entries@, k);
                        if key_set(gathered@).contains(k) {
                            let m = choose|m: int|
                                0 <= m < gathered@.len() && (#[trigger] gathered@[m])@ == k;
                            if m < before.len() {
                                assert(before[m]@ == k);
                            } else {
                                assert(ksv[m - before.len()]@ == k);
                                assert(self.accounts@[i as int].settings.entries@[
                                    m - before.len()
                                ].0@ == k);
                            }
                        }
                        if key_set(before).contains(k) {
                            let m = choose|m: int|
                                0 <= m < before.len() && (#[trigger] before[m])@ == k;
                            assert(gathered@[m]@ == k);
                        }
                        if orig.accounts[i as int].settings.dom().contains(k) {
                            let m = choose|m: int|
                                0 <= m < self.accounts@[i as int].settings.entries@.len()
                                    && self.accounts@[i as int].settings.entries@[m].0@ == k;
                            assert(gathered@[before.len() + m]@ == k);
                        }
                    }
                }
            }
            i = i + 1;
        }
        proof {
            assert forall|k: Seq<char>| #[trigger] key_set(gathered@).contains(k) <==> resolve_in(
                orig.accounts,
                k,
            ) is Some by {
                lemma_resolve_some_iff(orig.accounts, k);
            }
        }
        self.update_vec(&gathered);
        self.valid.settings = true;
        proof {
            assert(final(self)@.accounts =~= orig.accounts);
            assert(final(self)@.settings =~= merge_resolved(orig).settings);
            assert(final(self)@ =~= merge_resolved(orig));
            assert forall|k: Seq<char>| #[trigger] resolve_in(final(self)@.accounts, k) is Some
                implies final(self)@.settings.dom().contains(k) && final(self)@.settings[k]
                == resolve_in(final(self)@.accounts, k)->0 by {}
            if sound(orig) {
                assert(sound(final(self)@));
            }
        }
    }

    /// Repairs every child that does not carry an all-true tracker, bottom-up
    /// through [`Account::fix_valid`], and sets the `children` flag to
    /// whether all children now carry all-true trackers.
    fn fix_valid_children(&mut self)
        requires
            old(self).wf(),
        ensures
            final(self).wf(),
            final(self)@.name == old(self)@.name,
            final(self)@.active == old(self)@.active,
            final(self)@.settings == old(self)@.settings,
            final(self)@.valid == (Valid {
                children: children_ok(final(self)@),
                ..old(self)@.valid
            }),
            final(self)@.accounts.len() == old(self)@.accounts.len(),
            forall|i: int|
                0 <= i < old(self)@.accounts.len() ==> (#[trigger] final(self)@.accounts[i]).name
                    == old(self)@.accounts[i].name,
            (forall|i: int|
                0 <= i < old(self)@.accounts.len() ==> sound(#[trigger] old(self)@.accounts[i]))
                ==> forall|i: int|
                0 <= i < final(self)@.accounts.len() ==> sound(#[trigger] final(self)@.accounts[i]),
            (forall|i: int|
                0 <= i < old(self)@.accounts.len() ==> sound(#[trigger] old(self)@.accounts[i]))
                ==> forall|i: int|
                0 <= i < final(self)@.accounts.len() ==> repaired_flags(
                #[trigger] final(self)@.accounts[i],
            ),
            children_ok(old(self)@) ==> final(self)@ == (AccountView {
                valid: (Valid { children: true, ..old(self)@.valid }),
                ..old(self)@
            }),
        decreases *old(self), 0int,
    {
        let ghost orig = old(self)@;
        let mut i: usize = 0;
        while i < self.accounts.len()
            invariant
                i <= self.accounts@.len(),
                self.wf(),
                self@.name == orig.name,
                self@.active == orig.active,
                self@.settings == orig.settings,
                self@.valid == orig.valid,
                self@.accounts.len() == orig.accounts.len(),
                self.accounts@.len() == old(self).accounts@.len(),
                forall|j: int|
                    i <= j < orig.accounts.len() ==> self.accounts@[j] == old(self).accounts@[j],
                forall|j: int|
                    i <= j < orig.accounts.len() ==> #[trigger] self@.accounts[j] == orig.accounts[
                        j
                    ],
                forall|j: int|
                    0 <= j < orig.accounts.len() ==> (#[trigger] self@.accounts[j]).name
                        == orig.accounts[j].name,
                (forall|j: int| 0 <= j < orig.accounts.len() ==> sound(#[trigger] orig.accounts[j]))
                    ==> forall|j: int|
                    0 <= j < i ==> sound(#[trigger] self@.accounts[j]),
                (forall|j: int| 0 <= j < orig.accounts.len() ==> sound(#[trigger] orig.accounts[j]))
                    ==> forall|j: int|
                    0 <= j < i ==> repaired_flags(#[trigger] self@.accounts[j]),
                children_ok(orig) ==> forall|j: int|
                    0 <= j < orig.accounts.len() ==> #[trigger] self@.accounts[j] == orig.accounts[
                        j
                    ],
            decreases self.accounts@.len() - i,
        {
            proof {
                assert(self@.accounts[i as int] == self.accounts@[i as int]@);
            }
            if !self.accounts[i].valid.is_valid() {
                proof {
                    assert(i < old(self).accounts@.len());
                    assert(self.accounts@[i as int] == old(self).accounts@[i as int]);
                    assert(decreases_to!(*old(self) => old(self).accounts));
                    assert(decreases_to!(old(self).accounts => old(self).accounts@));
                    assert(decreases_to!(old(self).accounts@ => old(self).accounts@[i as int]));
                }
                let ghost pre = self@;
                let child = &mut self.accounts[i];
                child.fix_valid(Valid::new_true());
                proof {
                    assert(self@.accounts =~= pre.accounts.update(
                        i as int,
                        self@.accounts[i as int],
                    ));
                    if forall|j: int|
                        0 <= j < orig.accounts.len() ==> sound(#[trigger] orig.accounts[j]) {
                        assert(sound(orig.accounts[i as int]));
                        assert(repaired_flags(self@.accounts[i as int]));
                    }
                }
            } else {
                proof {
                    assert(self@.accounts[i as int] == orig.accounts[i as int]);
                    assert((self@.accounts[i as int].valid).spec_is_valid());
                    if forall|j: int|
                        0 <= j < orig.accounts.len() ==> sound(#[trigger] orig.accounts[j]) {
                        assert(sound(orig.accounts[i as int]));
                        assert(repaired_flags(self@.accounts[i as int]));
                    }
                }
            }
            i = i + 1;
        }
        let ok = self.check_valid_children();
        self.valid.children = ok;
        proof {
            assert(final(self)@.accounts =~= self@.accounts);
            assert(final(self)@ =~= (AccountView {
                valid: (Valid { children: children_ok(final(self)@), ..orig.valid }),
                ..self@
            }));
            if children_ok(orig) {
                assert(final(self)@.accounts =~= orig.accounts);
                assert(final(self)@ =~= (AccountView {
                    valid: (Valid { children: true, ..orig.valid }),
                    ..orig
                }));
            }
        }
    }

    /// Repairs the account bottom-up, for the aspects selected by `valid`:
    /// children that carry a false flag are repaired first, then sibling-name
    /// collisions are resolved through fresh names, then the aggregate is
    /// recomputed from the children.
    ///
    /// Repairing children can change what they supply; when the aggregate is
    /// not being repaired in the same call, its flag is re-checked so that
    /// the tracker stays truthful.
    pub fn fix_valid(&mut self, valid: Valid)
        requires
            old(self).wf(),
        ensures
            final(self).wf(),
            final(self)@.name == old(self)@.name,
            final(self)@.active == old(self)@.active,
            sound(old(self)@) ==> sound(final(self)@),
            sound(old(self)@) && valid.settings ==> final(self)@.valid.settings && settings_ok(
                final(self)@,
            ),
            sound(old(self)@) && valid.names ==> (final(self)@.valid.names <==> names_ok(
                final(self)@,
            )),
            sound(old(self)@) && valid.children ==> (final(self)@.valid.children <==> children_ok(
                final(self)@,
            )),
            sound(old(self)@) && old(self)@.valid.spec_is_valid() && valid.spec_is_valid()
                ==> final(self)@ == old(self)@,
            final(self)@.accounts.len() == old(self)@.accounts.len(),
            !(valid.names && !old(self)@.valid.names) ==> names_of(final(self)@.accounts)
                == names_of(old(self)@.accounts),
            valid.names && !old(self)@.valid.names ==> names_of(final(self)@.accounts)
                == fix_names_upto(names_of(old(self)@.accounts), old(self)@.accounts.len()),
            children_ok(old(self)@) ==> forall|i: int|
                0 <= i < final(self)@.accounts.len() ==> #[trigger] final(self)@.accounts[i]
                    == (AccountView {
                    name: final(self)@.accounts[i].name,
                    ..old(self)@.accounts[i]
                }),
            sound(old(self)@) && valid.children ==> forall|i: int|
                0 <= i < final(self)@.accounts.len() ==> repaired_flags(
                #[trigger] final(self)@.accounts[i],
            ),
            sound(old(self)@) && valid.settings ==> final(self)@.settings == merge_resolved(
                AccountView { accounts: final(self)@.accounts, ..old(self)@ },
            ).settings,
            sound(old(self)@) && valid.names && fix_names_succeeds(
                names_of(old(self)@.accounts),
                old(self)@.accounts.len(),
            ) ==> final(self)@.valid.names && names_ok(final(self)@),
        decreases *old(self), 1int,
    {
        let ghost s0 = self@;
        if self.valid.is_valid() && valid.is_valid() {
            proof {
                assert forall|i: int| 0 <= i < s0.accounts.len() implies #[trigger] s0.accounts[i]
                    == (AccountView { name: s0.accounts[i].name, ..s0.accounts[i] }) by {
                    assert(s0.accounts[i] =~= (AccountView {
                        name: s0.accounts[i].name,
                        ..s0.accounts[i]
                    }));
                }
                if sound(s0) {
                    assert(children_ok(s0));
                    assert forall|i: int| 0 <= i < s0.accounts.len() implies repaired_flags(
                        #[trigger] s0.accounts[i],
                    ) by {
                        assert(sound(s0.accounts[i]));
                        assert((s0.accounts[i].valid).spec_is_valid());
                    }
                    assert(settings_ok(s0));
                    assert(names_ok(s0));
                    let m = merge_resolved(AccountView { accounts: s0.accounts, ..s0 }).settings;
                    assert(s0.settings =~= m) by {
                        assert forall|k: Seq<char>| #[trigger] m.dom().contains(k)
                            == s0.settings.dom().contains(k) && (m.dom().contains(k) ==> m[k]
                            == s0.settings[k]) by {
                            if resolve_in(s0.accounts, k) is Some {
                                assert(s0.settings.dom().contains(k) && s0.settings[k]
                                    == resolve_in(s0.accounts, k)->0);
                            }
                        }
                    }
                }
            }
            return;
        }
        if valid.children && !self.valid.children {
            self.fix_valid_children();
            if !valid.settings && self.valid.settings {
                let ghost pre = self@;
                let b = self.check_valid_settings();
                self.valid.settings = b;
                proof {
                    assert(self@.accounts =~= pre.accounts);
                    assert(self@ =~= (AccountView {
                        valid: (Valid { settings: settings_check(pre), ..pre.valid }),
                        ..pre
                    }));
                }
            }
        }
        let ghost s1 = self@;
        proof {
            // Stage one: children possibly repaired; its flags and frame.
            assert(s1.name == s0.name && s1.active == s0.active);
            assert(s1.settings == s0.settings);
            assert(s1.accounts.len() == s0.accounts.len());
            assert(s1.valid.names == s0.valid.names);
            assert(names_of(s1.accounts) =~= names_of(s0.accounts));
            assert(forall|i: int|
                0 <= i < s0.accounts.len() ==> (#[trigger] s1.accounts[i]).name == s0.accounts[
                    i
                ].name);
            if sound(s0) {
                assert(forall|i: int| 0 <= i < s0.accounts.len() ==> sound(#[trigger] s0.accounts[i]));
                assert(forall|i: int| 0 <= i < s1.accounts.len() ==> sound(#[trigger] s1.accounts[i]));
                if s0.valid.names {
                    assert(names_ok(s1));
                }
                // the children flag of stage one is truthful
                if s1.valid.children {
                    assert(children_ok(s1));
                }
                // when the aggregate is not being repaired later, its flag is
                // already truthful here
                if !valid.settings && s1.valid.settings {
                    assert(settings_ok(s1));
                }
            }
        }
        if valid.names && !self.valid.names {
            self.fix_valid_names();
        }
        let ghost s2 = self@;
        proof {
            assert(s2.name == s1.name && s2.active == s1.active);
            assert(s2.settings == s1.settings);
            assert(s2.valid.settings == s1.valid.settings && s2.valid.children
                == s1.valid.children);
            assert(s2.accounts.len() == s1.accounts.len());
            assert(forall|i: int|
                0 <= i < s1.accounts.len() ==> #[trigger] s2.accounts[i] == (AccountView {
                    name: s2.accounts[i].name,
                    ..s1.accounts[i]
                }));
            assert forall|i: int| 0 <= i < s1.accounts.len() implies (#[trigger] s2.accounts[
                i
            ]).active == s1.accounts[i].active && s2.accounts[i].settings == s1.accounts[
                i
            ].settings && s2.accounts[i].valid == s1.accounts[i].valid by {}
            assert(children_ok(s2) == children_ok(s1)) by {
                if children_ok(s1) {
                    assert forall|i: int| 0 <= i < s2.accounts.len() implies (#[trigger] s2.accounts[
                        i
                    ].valid).spec_is_valid() by {
                        assert(s2.accounts[i].valid == s1.accounts[i].valid);
                    }
                }
                if children_ok(s2) {
                    assert forall|i: int| 0 <= i < s1.accounts.len() implies (#[trigger] s1.accounts[
                        i
                    ].valid).spec_is_valid() by {
                        assert(s2.accounts[i].valid == s1.accounts[i].valid);
                    }
                }
            }
            if sound(s0) {
                assert forall|i: int| 0 <= i < s2.accounts.len() implies sound(
                    #[trigger] s2.accounts[i],
                ) by {
                    lemma_sound_rename(s1.accounts[i], s2.accounts[i]);
                }
                // the names flag of stage two is truthful
                if s2.valid.names {
                    assert(names_ok(s2));
                }
                // aggregate consistency carries over from stage one: what the
                // children supply does not depend on their names
                if s1.valid.settings && settings_ok(s1) {
                    assert forall|k: Seq<char>| #[trigger] resolve_in(s2.accounts, k) is Some
                        implies s2.settings.dom().contains(k) && s2.settings[k] == resolve_in(
                        s2.accounts,
                        k,
                    )->0 by {
                        lemma_resolve_ignores_names(s1.accounts, s2.accounts, k);
                    }
                    assert(settings_ok(s2));
                }
                if s1.valid.children && children_ok(s1) {
                    assert(children_ok(s2));
                }
            }
        }
        if valid.settings {
            self.fix_valid_settings();
        }
        proof {
            let s3 = final(self)@;
            if !valid.settings {
                assert(s3 == s2);
            } else {
                assert(s3 == merge_resolved(s2));
                assert(s3.accounts == s2.accounts);
                assert(s3.valid.names == s2.valid.names && s3.valid.children
                    == s2.valid.children);
            }
            if sound(s0) {
                assert(forall|i: int|
                    0 <= i < s3.accounts.len() ==> sound(#[trigger] s3.accounts[i]));
                if s3.valid.names {
                    assert(names_ok(s2));
                    assert(names_ok(s3));
                }
                if s3.valid.children {
                    assert(children_ok(s2));
                    assert(children_ok(s3));
                }
                if s3.valid.settings {
                    if valid.settings {
                        assert(settings_ok(s3));
                    } else {
                        assert(settings_ok(s2));
                        assert(settings_ok(s3));
                    }
                }
                assert(sound(s3));
                if valid.names {
                    if s0.valid.names {
                        assert(s3.valid.names && names_ok(s3));
                    } else {
                        assert(s3.valid.names == names_ok(s2));
                        if names_ok(s3) {
                            assert(names_ok(s2));
                        }
                    }
                }
                if valid.children {
                    if s0.valid.children {
                        assert(s3.valid.children && children_ok(s3));
                    } else {
                        assert(s3.valid.children == children_ok(s1));
                        assert(children_ok(s1) == children_ok(s2));
                        assert(children_ok(s2) == children_ok(s3));
                    }
                }
                if valid.children {
                    // every child ends repaired: those the children repair
                    // touched by its contract, the rest because their all-true
                    // flags were already truthful
                    assert forall|i: int| 0 <= i < s1.accounts.len() implies repaired_flags(
                        #[trigger] s1.accounts[i],
                    ) by {
                        if s0.valid.children {
                            assert(children_ok(s0));
                            assert(s1.accounts[i] == s0.accounts[i]);
                            assert(sound(s0.accounts[i]));
                            assert((s0.accounts[i].valid).spec_is_valid());
                        }
                    }
                    assert forall|i: int| 0 <= i < s3.accounts.len() implies repaired_flags(
                        #[trigger] s3.accounts[i],
                    ) by {
                        assert(s2.accounts[i] == (AccountView {
                            name: s2.accounts[i].name,
                            ..s1.accounts[i]
                        }));
                        assert(s2.accounts[i].valid == s1.accounts[i].valid);
                        assert(s2.accounts[i].settings == s1.accounts[i].settings);
                        assert(s2.accounts[i].accounts == s1.accounts[i].accounts);
                        assert(s3.accounts[i] == s2.accounts[i]);
                    }
                }
            }
            // the names end exactly as the name repair dictates, and are
            // untouched when it did not run
            assert(s3.accounts.len() == s0.accounts.len());
            assert(names_of(s3.accounts) =~= names_of(s2.accounts));
            if valid.names && !s0.valid.names {
                assert(names_of(s2.accounts) == fix_names_upto(
                    names_of(s1.accounts),
                    s1.accounts.len(),
                ));
                assert(names_of(s3.accounts) == fix_names_upto(
                    names_of(s0.accounts),
                    s0.accounts.len(),
                ));
                if fix_names_succeeds(names_of(s0.accounts), s0.accounts.len()) {
                    lemma_fix_names_complete(names_of(s0.accounts), s0.accounts.len());
                    assert forall|a: int, b: int| 0 <= a < b < s3.accounts.len() implies
                        s3.accounts[a].name != s3.accounts[b].name by {
                        assert(names_of(s3.accounts)[a] == s3.accounts[a].name);
                        assert(names_of(s3.accounts)[b] == s3.accounts[b].name);
                    }
                    assert(names_ok(s3));
                    if sound(s0) {
                        assert(s3.valid.names == names_ok(s3));
                    }
                }
            } else {
                assert(s2 == s1);
                assert(names_of(s3.accounts) == names_of(s0.accounts));
                if sound(s0) && valid.names {
                    assert(s0.valid.names);
                    assert(names_ok(s0));
                    assert forall|a: int, b: int| 0 <= a < b < s3.accounts.len() implies
                        s3.accounts[a].name != s3.accounts[b].name by {
                        assert(names_of(s3.accounts)[a] == s3.accounts[a].name);
                        assert(names_of(s3.accounts)[b] == s3.accounts[b].name);
                        assert(names_of(s0.accounts)[a] == s0.accounts[a].name);
                        assert(names_of(s0.accounts)[b] == s0.accounts[b].name);
                    }
                    assert(names_ok(s3));
                    assert(s3.valid.names);
                }
            }
            // the children keep everything but their names when they were
            // already all-true before the call
            if children_ok(s0) {
                assert(s1.accounts == s0.accounts);
                assert forall|i: int| 0 <= i < s3.accounts.len() implies #[trigger] s3.accounts[i]
                    == (AccountView { name: s3.accounts[i].name, ..s0.accounts[i] }) by {
                    assert(s2.accounts[i] == (AccountView {
                        name: s2.accounts[i].name,
                        ..s1.accounts[i]
                    }));
                    assert(s3.accounts[i] == s2.accounts[i]);
                }
            }
            // the final aggregate is the old one merged with what the final
            // children supply
            if valid.settings {
                assert(s2.settings == s0.settings);
                assert(s2.accounts == s3.accounts);
                assert(s3.settings =~= merge_resolved(
                    AccountView { accounts: s3.accounts, ..s0 },
                ).settings);
            }
        }
    }

    /// Creates an account and repairs it, so that the result carries a
    /// truthful tracker whenever the given children do.
    pub fn new(name: String, active: bool, settings: SettingsMap, accounts: Vec<Account>) -> (r:
        Account)
        requires
            settings.wf(),
            forall|i: int| 0 <= i < accounts@.len() ==> (#[trigger] accounts@[i]).wf(),
        ensures
            r.wf(),
            r@.name == name@,
            r@.active == active,
            r@.accounts.len() == accounts@.len(),
            names_of(r@.accounts) == fix_names_upto(
                names_of(crate::account::views_of(accounts@)),
                accounts@.len(),
            ),
            (forall|i: int| 0 <= i < accounts@.len() ==> sound(#[trigger] accounts@[i]@)) ==> {
                &&& sound(r@)
                &&& r@.valid.settings
                &&& settings_ok(r@)
                &&& (r@.valid.names <==> names_ok(r@))
                &&& (r@.valid.children <==> children_ok(r@))
                &&& r@.settings == merge_resolved(
                    AccountView {
                        name: name@,
                        active,
                        settings: settings@,
                        accounts: r@.accounts,
                        valid: r@.valid,
                    },
                ).settings
            },
            (forall|i: int| 0 <= i < accounts@.len() ==> sound(#[trigger] accounts@[i]@))
                && fix_names_succeeds(names_of(crate::account::views_of(accounts@)), accounts@.len())
                ==> r@.valid.names && names_ok(r@),
            (forall|i: int|
                0 <= i < accounts@.len() ==> sound(#[trigger] accounts@[i]@) && accounts@[
                    i
                ]@.valid.spec_is_valid()) ==> {
                &&& (forall|i: int|
                    0 <= i < accounts@.len() ==> #[trigger] r@.accounts[i] == (AccountView {
                        name: r@.accounts[i].name,
                        ..accounts@[i]@
                    }))
                &&& r@.valid == (Valid { names: names_ok(r@), settings: true, children: true })
            },
    {
        let mut r = Account::new_unchecked(name, active, settings, accounts, Valid::new_false());
        let ghost pre = r@;
        proof {
            assert(forall|i: int|
                0 <= i < r.accounts@.len() ==> (#[trigger] r.accounts@[i]).wf());
            assert(pre.accounts =~= crate::account::views_of(accounts@));
            if forall|i: int| 0 <= i < r.accounts@.len() ==> sound(#[trigger] r.accounts@[i]@) {
                assert forall|i: int| 0 <= i < r@.accounts.len() implies sound(
                    #[trigger] r@.accounts[i],
                ) by {
                    assert(r@.accounts[i] == r.accounts@[i]@);
                }
                assert(sound(r@));
            }
        }
        r.fix_valid(Valid::new_true());
        proof {
            if forall|i: int| 0 <= i < accounts@.len() ==> sound(#[trigger] accounts@[i]@) {
                assert(r@.settings =~= merge_resolved(
                    AccountView {
                        name: name@,
                        active,
                        settings: settings@,
                        accounts: r@.accounts,
                        valid: r@.valid,
                    },
                ).settings);
            }
            if forall|i: int|
                0 <= i < accounts@.len() ==> sound(#[trigger] accounts@[i]@) && (#[trigger] accounts@[
                    i
                ]@.valid).spec_is_valid() {
                assert(children_ok(pre)) by {
                    assert forall|i: int| 0 <= i < pre.accounts.len() implies (#[trigger] pre.accounts[
                        i
                    ].valid).spec_is_valid() by {
                        assert(pre.accounts[i] == accounts@[i]@);
                    }
                }
                assert forall|i: int| 0 <= i < accounts@.len() implies #[trigger] r@.accounts[i]
                    == (AccountView { name: r@.accounts[i].name, ..accounts@[i]@ }) by {
                    assert(pre.accounts[i] == accounts@[i]@);
                }
                assert(children_ok(r@));
                assert(r@.valid == (Valid {
                    names: names_ok(r@),
                    settings: true,
                    children: true,
                }));
            }
        }
        r
    }
}

} // verus!
