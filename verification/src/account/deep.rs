//! The deep (path-addressed) operations.
//!
//! A path is a vector of names whose *last* element names a direct child of
//! the account the operation is invoked on and whose *first* element names
//! the final target: the path is consumed from the end.  Each deep mutation
//! descends to the target, edits it there, and re-derives, on every ancestor
//! along the way back up, exactly the keys the edit below could have changed.

use vstd::prelude::*;

use crate::account::{names_ok, upd_key, upd_keys, Account, AccountView, Valid};
use crate::account::validity::{key_set, pop_view};
use crate::stg::Stg;
use crate::types::errors::{DeepError, InvalidAccountError};

verus! {

/// The views of the names on a path.
pub open spec fn path_views(p: Seq<&String>) -> Seq<Seq<char>> {
    p.map_values(|s: &String| s@)
}

/// The index of the first child carrying the name, if any.
pub open spec fn first_match(children: Seq<AccountView>, name: Seq<char>) -> Option<int>
    decreases children.len(),
{
    if children.len() == 0 {
        None
    } else if children.first().name == name {
        Some(0int)
    } else {
        match first_match(children.drop_first(), name) {
            Some(i) => Some(i + 1),
            None => None,
        }
    }
}

/// When no child carries the name, there is no first match.
pub proof fn lemma_first_match_none(children: Seq<AccountView>, name: Seq<char>)
    requires
        forall|j: int| 0 <= j < children.len() ==> (#[trigger] children[j]).name != name,
    ensures
        first_match(children, name) is None,
    decreases children.len(),
{
    if children.len() > 0 {
        assert(forall|j: int|
            0 <= j < children.drop_first().len() ==> (#[trigger] children.drop_first()[j]).name
                != name);
        lemma_first_match_none(children.drop_first(), name);
    }
}

/// The first match is the least index carrying the name.
pub proof fn lemma_first_match_at(children: Seq<AccountView>, name: Seq<char>, i: int)
    requires
        0 <= i < children.len(),
        children[i].name == name,
        forall|j: int| 0 <= j < i ==> (#[trigger] children[j]).name != name,
    ensures
        first_match(children, name) == Some(i),
    decreases children.len(),
{
    if i == 0 {
    } else {
        assert(forall|j: int|
            0 <= j < i - 1 ==> (#[trigger] children.drop_first()[j]).name != name);
        assert(children.drop_first()[i - 1].name == name);
        lemma_first_match_at(children.drop_first(), name, i - 1);
    }
}

/// The node a path leads to: the last path element names a direct child, the
/// first names the final target.
pub open spec fn deep_target(av: AccountView, path: Seq<Seq<char>>) -> Option<AccountView>
    decreases path.len(),
{
    if path.len() == 0 {
        Some(av)
    } else {
        match first_match(av.accounts, path.last()) {
            Some(i) => deep_target(av.accounts[i], path.drop_last()),
            None => None,
        }
    }
}

/// How many names a deep operation pops off its path: one per level visited,
/// descending while the popped name resolves to a child.
pub open spec fn consumed(av: AccountView, path: Seq<Seq<char>>) -> int
    decreases path.len(),
{
    if path.len() == 0 {
        0
    } else {
        match first_match(av.accounts, path.last()) {
            None => 1,
            Some(i) => 1 + consumed(av.accounts[i], path.drop_last()),
        }
    }
}

/// A deep operation pops at least nothing and at most the whole path.
pub proof fn lemma_consumed_bounds(av: AccountView, path: Seq<Seq<char>>)
    ensures
        0 <= consumed(av, path) <= path.len(),
    decreases path.len(),
{
    if path.len() > 0 {
        match first_match(av.accounts, path.last()) {
            None => {
            },
            Some(i) => {
                lemma_consumed_bounds(av.accounts[i], path.drop_last());
            },
        }
    }
}

/// The tree after a deep insert: the target's aggregate gains the key, and
/// every ancestor on the way out re-derives that one key.
pub open spec fn deep_insert_view(
    av: AccountView,
    path: Seq<Seq<char>>,
    k: Seq<char>,
    v: crate::stg::StgView,
) -> AccountView
    decreases path.len(),
{
    if path.len() == 0 {
        av
    } else {
        let i = first_match(av.accounts, path.last())->0;
        let c = av.accounts[i];
        let c2 = if path.len() == 1 {
            AccountView { settings: c.settings.insert(k, v), ..c }
        } else {
            deep_insert_view(c, path.drop_last(), k, v)
        };
        upd_key(AccountView { accounts: av.accounts.update(i, c2), ..av }, k)
    }
}

/// The tree after a deep remove: the target's aggregate loses the key, and
/// every ancestor on the way out re-derives that one key.
pub open spec fn deep_remove_view(av: AccountView, path: Seq<Seq<char>>, k: Seq<char>) -> AccountView
    decreases path.len(),
{
    if path.len() == 0 {
        av
    } else {
        let i = first_match(av.accounts, path.last())->0;
        let c = av.accounts[i];
        let c2 = if path.len() == 1 {
            AccountView { settings: c.settings.remove(k), ..c }
        } else {
            deep_remove_view(c, path.drop_last(), k)
        };
        upd_key(AccountView { accounts: av.accounts.update(i, c2), ..av }, k)
    }
}

impl Account {
    /// A mutable reference to the child at an index; afterwards the node is
    /// unchanged except that this child's shape is whatever the caller left
    /// behind.
    fn child_mut(&mut self, i: usize) -> (r: &mut Account)
        requires
            i < old(self).accounts@.len(),
        ensures
            *r == old(self).accounts@[i as int],
            final(self).accounts@ == old(self).accounts@.update(i as int, *final(r)),
            final(self)@.name == old(self)@.name,
            final(self)@.active == old(self)@.active,
            final(self)@.settings == old(self)@.settings,
            final(self)@.valid == old(self)@.valid,
            final(self)@.accounts.len() == old(self)@.accounts.len(),
            forall|j: int|
                0 <= j < old(self)@.accounts.len() && j != i
                    ==> #[trigger] final(self)@.accounts[j] == old(self)@.accounts[j],
            final(self)@.accounts[i as int] == final(r)@,
    {
        &mut self.accounts[i]
    }

    /// The position of the first child carrying the name, if any.
    fn find_child_index(&self, name: &String) -> (r: Option<usize>)
        ensures
            match r {
                Some(i) => i < self.accounts@.len() && self@.accounts[i as int].name == name@
                    && first_match(self@.accounts, name@) == Some(i as int),
                None => first_match(self@.accounts, name@) is None,
            },
    {
        let mut j: usize = 0;
        while j < self.accounts.len()
            invariant
                j <= self.accounts@.len(),
                forall|m: int| 0 <= m < j ==> (#[trigger] self@.accounts[m]).name != name@,
            decreases self.accounts@.len() - j,
        {
            proof {
                assert(self@.accounts[j as int] == self.accounts@[j as int]@);
            }
            if self.accounts[j].name.eq(name) {
                proof {
                    lemma_first_match_at(self@.accounts, name@, j as int);
                }
                return Some(j);
            }
            j = j + 1;
        }
        proof {
            lemma_first_match_none(self@.accounts, name@);
        }
        None
    }

    /// A reference to the first child carrying the name, if any.
    pub fn account_from_name(&self, name: &String) -> (r: Option<&Account>)
        ensures
            match r {
                Some(a) => first_match(self@.accounts, name@) is Some && a@ == self@.accounts[
                    first_match(self@.accounts, name@)->0
                ],
                None => first_match(self@.accounts, name@) is None,
            },
    {
        match self.find_child_index(name) {
            Some(i) => {
                proof {
                    assert(self@.accounts[i as int] == self.accounts@[i as int]@);
                }
                Some(&self.accounts[i])
            },
            None => None,
        }
    }

    /// A reference to the descendant the path leads to.
    ///
    /// Fails with [`DeepError::EmptyVec`] when the path is empty (a deep
    /// operation cannot address the account itself) and with
    /// [`DeepError::NotFound`] when some level has no child of the required
    /// name.  The path is consumed: on success it ends empty.
    pub fn deep(&self, account_names: &mut Vec<&String>) -> (r: Result<&Account, DeepError>)
        ensures
            old(account_names)@.len() == 0 ==> r == Err::<&Account, DeepError>(DeepError::EmptyVec)
                && final(account_names)@ == old(account_names)@,
            old(account_names)@.len() > 0 ==> match deep_target(
                self@,
                path_views(old(account_names)@),
            ) {
                Some(t) => (r matches Ok(a) && a@ == t),
                None => r == Err::<&Account, DeepError>(DeepError::NotFound),
            },
            final(account_names)@ == old(account_names)@.take(
                old(account_names)@.len() - consumed(self@, path_views(old(account_names)@)),
            ),
        decreases old(account_names)@.len(),
    {
        let ghost pv = path_views(old(account_names)@);
        let name = match account_names.pop() {
            None => {
                proof {
                    assert(final(account_names)@ =~= old(account_names)@.take(
                        old(account_names)@.len() - consumed(self@, pv),
                    ));
                }
                return Err(DeepError::EmptyVec);
            },
            Some(n) => n,
        };
        proof {
            assert(pv.last() == name@);
            assert(pv.drop_last() =~= path_views(account_names@));
        }
        match self.find_child_index(name) {
            None => {
                proof {
                    assert(consumed(self@, pv) == 1);
                    assert(final(account_names)@ =~= old(account_names)@.take(
                        old(account_names)@.len() - consumed(self@, pv),
                    ));
                }
                Err(DeepError::NotFound)
            },
            Some(i) => {
                proof {
                    assert(self@.accounts[i as int] == self.accounts@[i as int]@);
                }
                let child = &self.accounts[i];
                if account_names.len() == 0 {
                    proof {
                        assert(pv.drop_last().len() == 0);
                        assert(deep_target(self@, pv) == Some(child@));
                        assert(consumed(child@, pv.drop_last()) == 0);
                        assert(consumed(self@, pv) == 1);
                        assert(final(account_names)@ =~= old(account_names)@.take(
                            old(account_names)@.len() - consumed(self@, pv),
                        ));
                    }
                    Ok(child)
                } else {
                    let rr = child.deep(account_names);
                    proof {
                        assert(deep_target(self@, pv) == deep_target(child@, pv.drop_last()));
                        lemma_consumed_bounds(child@, pv.drop_last());
                        assert(consumed(self@, pv) == 1 + consumed(child@, pv.drop_last()));
                        assert(final(account_names)@ =~= old(account_names)@.take(
                            old(account_names)@.len() - consumed(self@, pv),
                        ));
                    }
                    match rr {
                        Ok(a) => Ok(a),
                        Err(e) => {
                            proof {
                                assert(e == DeepError::NotFound);
                            }
                            Err(DeepError::NotFound)
                        },
                    }
                }
            },
        }
    }

    /// A mutable reference to the descendant the path leads to — the same
    /// node [`Account::deep`] resolves for the same path.
    ///
    /// Nothing is revalidated on the way down, and the aggregates of the
    /// ancestors are not re-derived afterwards: whatever the caller does
    /// through the returned reference, the caller is responsible for the
    /// invariant maintenance the specific `deep_*` operations do themselves.
    pub fn deep_mut(&mut self, account_names: &mut Vec<&String>) -> (r: Result<
        &mut Account,
        DeepError,
    >)
        ensures
            old(account_names)@.len() == 0 ==> (r matches Err(e) && e == DeepError::EmptyVec
                && final(self)@ == old(self)@),
            old(account_names)@.len() > 0 ==> match deep_target(
                old(self)@,
                path_views(old(account_names)@),
            ) {
                Some(t) => (r matches Ok(a) && (*a)@ == t),
                None => (r matches Err(e) && e == DeepError::NotFound),
            },
            final(account_names)@ == old(account_names)@.take(
                old(account_names)@.len() - consumed(old(self)@, path_views(old(account_names)@)),
            ),
        decreases old(account_names)@.len(),
    {
        let ghost pv = path_views(old(account_names)@);
        let ghost orig = old(self)@;
        let name = match account_names.pop() {
            None => {
                proof {
                    assert(final(account_names)@ =~= old(account_names)@.take(
                        old(account_names)@.len() - consumed(orig, pv),
                    ));
                }
                return Err(DeepError::EmptyVec);
            },
            Some(n) => n,
        };
        proof {
            assert(pv.last() == name@);
            assert(pv.drop_last() =~= path_views(account_names@));
        }
        match self.find_child_index(name) {
            None => {
                proof {
                    assert(consumed(orig, pv) == 1);
                    assert(final(account_names)@ =~= old(account_names)@.take(
                        old(account_names)@.len() - consumed(orig, pv),
                    ));
                }
                Err(DeepError::NotFound)
            },
            Some(i) => {
                proof {
                    assert(orig.accounts[i as int] == self.accounts@[i as int]@);
                    assert(first_match(orig.accounts, pv.last()) == Some(i as int));
                }
                if account_names.len() == 0 {
                    proof {
                        assert(pv.drop_last().len() == 0);
                        assert(deep_target(orig.accounts[i as int], pv.drop_last()) == Some(
                            orig.accounts[i as int],
                        ));
                        assert(deep_target(orig, pv) == Some(orig.accounts[i as int]));
                        assert(consumed(orig.accounts[i as int], pv.drop_last()) == 0);
                        assert(consumed(orig, pv) == 1);
                        assert(final(account_names)@ =~= old(account_names)@.take(
                            old(account_names)@.len() - consumed(orig, pv),
                        ));
                    }
                    let child = self.child_mut(i);
                    Ok(child)
                } else {
                    proof {
                        assert(deep_target(orig, pv) == deep_target(
                            orig.accounts[i as int],
                            pv.drop_last(),
                        ));
                    }
                    let child = self.child_mut(i);
                    let rr = child.deep_mut(account_names);
                    proof {
                        lemma_consumed_bounds(orig.accounts[i as int], pv.drop_last());
                        assert(consumed(orig, pv) == 1 + consumed(
                            orig.accounts[i as int],
                            pv.drop_last(),
                        ));
                        assert(final(account_names)@ =~= old(account_names)@.take(
                            old(account_names)@.len() - consumed(orig, pv),
                        ));
                    }
                    rr
                }
            },
        }
    }

    /// Inserts a key-value pair into the aggregate of the descendant the
    /// path leads to, then re-derives that key on every ancestor on the way
    /// back out, so that the whole tree resolves it again.
    ///
    /// Returns the value the target previously held for the key, if any.
    pub fn deep_insert(
        &mut self,
        setting_name: &String,
        setting_value: Stg,
        account_names: &mut Vec<&String>,
    ) -> (r: Result<Option<Stg>, DeepError>)
        requires
            old(self).wf(),
        ensures
            final(self).wf(),
            old(account_names)@.len() == 0 ==> r == Err::<Option<Stg>, DeepError>(
                DeepError::EmptyVec,
            ) && final(self)@ == old(self)@,
            old(account_names)@.len() > 0 ==> match deep_target(
                old(self)@,
                path_views(old(account_names)@),
            ) {
                Some(t) => {
                    &&& final(self)@ == deep_insert_view(
                        old(self)@,
                        path_views(old(account_names)@),
                        setting_name@,
                        setting_value@,
                    )
                    &&& match r {
                        Ok(o) => match o {
                            Some(v) => t.settings.dom().contains(setting_name@) && v@
                                == t.settings[setting_name@],
                            None => !t.settings.dom().contains(setting_name@),
                        },
                        Err(_) => false,
                    }
                },
                None => r == Err::<Option<Stg>, DeepError>(DeepError::NotFound) && final(self)@
                    == old(self)@,
            },
            final(account_names)@ == old(account_names)@.take(
                old(account_names)@.len() - consumed(old(self)@, path_views(old(account_names)@)),
            ),
        decreases old(account_names)@.len(),
    {
        let ghost pv = path_views(old(account_names)@);
        let ghost orig = old(self)@;
        let name = match account_names.pop() {
            None => {
                proof {
                    assert(final(account_names)@ =~= old(account_names)@.take(
                        old(account_names)@.len() - consumed(orig, pv),
                    ));
                }
                return Err(DeepError::EmptyVec);
            },
            Some(n) => n,
        };
        proof {
            assert(pv.last() == name@);
            assert(pv.drop_last() =~= path_views(account_names@));
        }
        match self.find_child_index(name) {
            None => {
                proof {
                    assert(consumed(orig, pv) == 1);
                    assert(final(account_names)@ =~= old(account_names)@.take(
                        old(account_names)@.len() - consumed(orig, pv),
                    ));
                }
                Err(DeepError::NotFound)
            },
            Some(i) => {
                proof {
                    assert(orig.accounts[i as int] == self.accounts@[i as int]@);
                    assert(self.accounts@[i as int].wf());
                }
                if account_names.len() == 0 {
                    let child = &mut self.accounts[i];
                    let o = child.insert(setting_name.clone(), setting_value);
                    proof {
                        assert(self@.accounts =~= orig.accounts.update(
                            i as int,
                            self@.accounts[i as int],
                        ));
                        assert(self@ =~= (AccountView {
                            accounts: orig.accounts.update(i as int, self@.accounts[i as int]),
                            ..orig
                        }));
                        assert(first_match(orig.accounts, pv.last()) == Some(i as int));
                        assert(pv.drop_last().len() == 0);
                        assert(deep_target(orig.accounts[i as int], pv.drop_last()) == Some(
                            orig.accounts[i as int],
                        ));
                        assert(deep_target(orig, pv) == Some(orig.accounts[i as int]));
                        assert(consumed(orig.accounts[i as int], pv.drop_last()) == 0);
                        assert(consumed(orig, pv) == 1);
                        assert(final(account_names)@ =~= old(account_names)@.take(
                            old(account_names)@.len() - consumed(orig, pv),
                        ));
                    }
                    self.update_setting(setting_name);
                    proof {
                        assert(final(self)@ == deep_insert_view(orig, pv, setting_name@,
                        setting_value@));
                    }
                    Ok(o)
                } else {
                    let ghost cpre = self.accounts@[i as int]@;
                    let child = &mut self.accounts[i];
                    let rr = child.deep_insert(setting_name, setting_value, account_names);
                    let ghost cpost = (*child)@;
                    proof {
                        assert(self@.accounts =~= orig.accounts.update(i as int, cpost));
                        assert(self@ =~= (AccountView {
                            accounts: orig.accounts.update(i as int, cpost),
                            ..orig
                        }));
                        assert(deep_target(orig, pv) == deep_target(cpre, pv.drop_last()));
                        lemma_consumed_bounds(cpre, pv.drop_last());
                        assert(consumed(orig, pv) == 1 + consumed(cpre, pv.drop_last()));
                        assert(final(account_names)@ =~= old(account_names)@.take(
                            old(account_names)@.len() - consumed(orig, pv),
                        ));
                    }
                    match rr {
                        Ok(o) => {
                            self.update_setting(setting_name);
                            proof {
                                assert(final(self)@ == deep_insert_view(orig, pv, setting_name@,
                                setting_value@));
                            }
                            Ok(o)
                        },
                        Err(e) => {
                            proof {
                                assert(e == DeepError::NotFound);
                                assert(cpost == cpre);
                                assert(orig.accounts.update(i as int, cpost) =~= orig.accounts);
                                assert(self@ =~= orig);
                            }
                            Err(DeepError::NotFound)
                        },
                    }
                }
            },
        }
    }

    /// Removes a key from the aggregate of the descendant the path leads to,
    /// then re-derives that key on every ancestor on the way back out.
    ///
    /// Returns the value the target held for the key, if any.
    pub fn deep_remove(
        &mut self,
        setting_to_remove: &String,
        account_names: &mut Vec<&String>,
    ) -> (r: Result<Option<Stg>, DeepError>)
        requires
            old(self).wf(),
        ensures
            final(self).wf(),
            old(account_names)@.len() == 0 ==> r == Err::<Option<Stg>, DeepError>(
                DeepError::EmptyVec,
            ) && final(self)@ == old(self)@,
            old(account_names)@.len() > 0 ==> match deep_target(
                old(self)@,
                path_views(old(account_names)@),
            ) {
                Some(t) => {
                    &&& final(self)@ == deep_remove_view(
                        old(self)@,
                        path_views(old(account_names)@),
                        setting_to_remove@,
                    )
                    &&& match r {
                        Ok(o) => match o {
                            Some(v) => t.settings.dom().contains(setting_to_remove@) && v@
                                == t.settings[setting_to_remove@],
                            None => !t.settings.dom().contains(setting_to_remove@),
                        },
                        Err(_) => false,
                    }
                },
                None => r == Err::<Option<Stg>, DeepError>(DeepError::NotFound) && final(self)@
                    == old(self)@,
            },
            final(account_names)@ == old(account_names)@.take(
                old(account_names)@.len() - consumed(old(self)@, path_views(old(account_names)@)),
            ),
        decreases old(account_names)@.len(),
    {
        let ghost pv = path_views(old(account_names)@);
        let ghost orig = old(self)@;
        let name = match account_names.pop() {
            None => {
                proof {
                    assert(final(account_names)@ =~= old(account_names)@.take(
                        old(account_names)@.len() - consumed(orig, pv),
                    ));
                }
                return Err(DeepError::EmptyVec);
            },
            Some(n) => n,
        };
        proof {
            assert(pv.last() == name@);
            assert(pv.drop_last() =~= path_views(account_names@));
        }
        match self.find_child_index(name) {
            None => {
                proof {
                    assert(consumed(orig, pv) == 1);
                    assert(final(account_names)@ =~= old(account_names)@.take(
                        old(account_names)@.len() - consumed(orig, pv),
                    ));
                }
                Err(DeepError::NotFound)
            },
            Some(i) => {
                proof {
                    assert(orig.accounts[i as int] == self.accounts@[i as int]@);
                    assert(self.accounts@[i as int].wf());
                }
                if account_names.len() == 0 {
                    let child = &mut self.accounts[i];
                    let o = child.remove(setting_to_remove);
                    proof {
                        assert(self@.accounts =~= orig.accounts.update(
                            i as int,
                            self@.accounts[i as int],
                        ));
                        assert(self@ =~= (AccountView {
                            accounts: orig.accounts.update(i as int, self@.accounts[i as int]),
                            ..orig
                        }));
                        assert(first_match(orig.accounts, pv.last()) == Some(i as int));
                        assert(pv.drop_last().len() == 0);
                        assert(deep_target(orig.accounts[i as int], pv.drop_last()) == Some(
                            orig.accounts[i as int],
                        ));
                        assert(deep_target(orig, pv) == Some(orig.accounts[i as int]));
                        assert(consumed(orig.accounts[i as int], pv.drop_last()) == 0);
                        assert(consumed(orig, pv) == 1);
                        assert(final(account_names)@ =~= old(account_names)@.take(
                            old(account_names)@.len() - consumed(orig, pv),
                        ));
                    }
                    self.update_setting(setting_to_remove);
                    proof {
                        assert(final(self)@ == deep_remove_view(orig, pv, setting_to_remove@));
                    }
                    Ok(o)
                } else {
                    let ghost cpre = self.accounts@[i as int]@;
                    let child = &mut self.accounts[i];
                    let rr = child.deep_remove(setting_to_remove, account_names);
                    let ghost cpost = (*child)@;
                    proof {
                        assert(self@.accounts =~= orig.accounts.update(i as int, cpost));
                        assert(self@ =~= (AccountView {
                            accounts: orig.accounts.update(i as int, cpost),
                            ..orig
                        }));
                        assert(deep_target(orig, pv) == deep_target(cpre, pv.drop_last()));
                        lemma_consumed_bounds(cpre, pv.drop_last());
                        assert(consumed(orig, pv) == 1 + consumed(cpre, pv.drop_last()));
                        assert(final(account_names)@ =~= old(account_names)@.take(
                            old(account_names)@.len() - consumed(orig, pv),
                        ));
                    }
                    match rr {
                        Ok(o) => {
                            self.update_setting(setting_to_remove);
                            proof {
                                assert(final(self)@ == deep_remove_view(orig, pv,
                                setting_to_remove@));
                            }
                            Ok(o)
                        },
                        Err(e) => {
                            proof {
                                assert(e == DeepError::NotFound);
                                assert(cpost == cpre);
                                assert(orig.accounts.update(i as int, cpost) =~= orig.accounts);
                                assert(self@ =~= orig);
                            }
                            Err(DeepError::NotFound)
                        },
                    }
                }
            },
        }
    }
}

/// The tree after a deep activity change: the target's flag is set, and
/// every ancestor on the way out re-derives the keys of the target's
/// aggregate (the keys whose resolution the toggle could have changed).
pub open spec fn deep_activity_view(
    av: AccountView,
    path: Seq<Seq<char>>,
    b: bool,
    ks: Set<Seq<char>>,
) -> AccountView
    decreases path.len(),
{
    if path.len() == 0 {
        av
    } else {
        let i = first_match(av.accounts, path.last())->0;
        let c = av.accounts[i];
        let c2 = if path.len() == 1 {
            AccountView { active: b, ..c }
        } else {
            deep_activity_view(c, path.drop_last(), b, ks)
        };
        upd_keys(AccountView { accounts: av.accounts.update(i, c2), ..av }, ks)
    }
}

/// The tree after a deep rename: the target gets the new name, and its
/// parent's `names` flag is cleared when the new name collides with a
/// sibling's.  No aggregate changes.
pub open spec fn deep_rename_view(av: AccountView, path: Seq<Seq<char>>, nm: Seq<char>) -> AccountView
    decreases path.len(),
{
    if path.len() == 0 {
        av
    } else {
        let i = first_match(av.accounts, path.last())->0;
        let c = av.accounts[i];
        if path.len() == 1 {
            let acc2 = av.accounts.update(i, AccountView { name: nm, ..c });
            AccountView {
                accounts: acc2,
                valid: (Valid {
                    names: av.valid.names && names_ok(AccountView { accounts: acc2, ..av }),
                    ..av.valid
                }),
                ..av
            }
        } else {
            AccountView {
                accounts: av.accounts.update(i, deep_rename_view(c, path.drop_last(), nm)),
                ..av
            }
        }
    }
}

/// Whether some child of the node carries the given node's name.
pub open spec fn pushed_dup(av: AccountView, c: AccountView) -> bool {
    exists|i: int| 0 <= i < av.accounts.len() && (#[trigger] av.accounts[i]).name == c.name
}

/// The shape of a node after [`Account::push`] appended a child.
pub open spec fn pushed_view(av: AccountView, c: AccountView) -> AccountView {
    AccountView {
        settings: if c.active {
            av.settings.union_prefer_right(c.settings)
        } else {
            av.settings
        },
        accounts: av.accounts.push(c),
        valid: (Valid {
            names: av.valid.names && !pushed_dup(av, c),
            settings: av.valid.settings,
            children: av.valid.children && c.valid.spec_is_valid(),
        }),
        ..av
    }
}

/// The keys a pushed child contributes: its aggregate's keys when it is
/// active, none otherwise.
pub open spec fn push_ks(c: AccountView) -> Set<Seq<char>> {
    if c.active {
        c.settings.dom()
    } else {
        Set::empty()
    }
}

/// The tree after a deep push: the pushed child is appended to the target,
/// and every ancestor on the way out re-derives the keys the child
/// contributes.
pub open spec fn deep_push_view(
    av: AccountView,
    path: Seq<Seq<char>>,
    c: AccountView,
    ks: Set<Seq<char>>,
) -> AccountView
    decreases path.len(),
{
    if path.len() == 0 {
        av
    } else {
        let i = first_match(av.accounts, path.last())->0;
        let ch = av.accounts[i];
        let c2 = if path.len() == 1 {
            pushed_view(ch, c)
        } else {
            deep_push_view(ch, path.drop_last(), c, ks)
        };
        upd_keys(AccountView { accounts: av.accounts.update(i, c2), ..av }, ks)
    }
}

/// The tree after a deep pop: the target loses its highest-priority child,
/// and every ancestor on the way out re-derives the keys that child
/// contributed.
pub open spec fn deep_pop_view(
    av: AccountView,
    path: Seq<Seq<char>>,
    chk: Valid,
    ks: Set<Seq<char>>,
) -> AccountView
    decreases path.len(),
{
    if path.len() == 0 {
        av
    } else {
        let i = first_match(av.accounts, path.last())->0;
        let c = av.accounts[i];
        let c2 = if path.len() == 1 {
            if c.accounts.len() == 0 {
                c
            } else {
                pop_view(c, chk)
            }
        } else {
            deep_pop_view(c, path.drop_last(), chk, ks)
        };
        upd_keys(AccountView { accounts: av.accounts.update(i, c2), ..av }, ks)
    }
}

/// The keys a popped child contributed: its aggregate's keys when it existed
/// and was active, none otherwise.
pub open spec fn pop_ks(t: AccountView) -> Set<Seq<char>> {
    if t.accounts.len() > 0 && t.accounts.last().active {
        t.accounts.last().settings.dom()
    } else {
        Set::empty()
    }
}

impl Account {
    /// Sets the activity flag of the descendant the path leads to, then
    /// re-derives, on every ancestor on the way back out, the keys of the
    /// target's aggregate — the keys whose resolution the toggle could have
    /// changed.  Returns whether the flag changed.
    pub fn deep_change_activity(
        &mut self,
        new_active: bool,
        account_names: &mut Vec<&String>,
    ) -> (r: Result<bool, DeepError>)
        requires
            old(self).wf(),
        ensures
            final(self).wf(),
            old(account_names)@.len() == 0 ==> r == Err::<bool, DeepError>(DeepError::EmptyVec)
                && final(self)@ == old(self)@,
            old(account_names)@.len() > 0 ==> match deep_target(
                old(self)@,
                path_views(old(account_names)@),
            ) {
                Some(t) => r == Ok::<bool, DeepError>(t.active != new_active) && final(self)@
                    == deep_activity_view(
                    old(self)@,
                    path_views(old(account_names)@),
                    new_active,
                    t.settings.dom(),
                ),
                None => r == Err::<bool, DeepError>(DeepError::NotFound) && final(self)@ == old(
                    self,
                )@,
            },
            crate::account::sound(old(self)@) ==> crate::account::sound(final(self)@),
            final(account_names)@ == old(account_names)@.take(
                old(account_names)@.len() - consumed(old(self)@, path_views(old(account_names)@)),
            ),
    {
        let r = self.deep_change_activity_helper(new_active, account_names).0;
        proof {
            let pv = path_views(old(account_names)@);
            if crate::account::sound(old(self)@) && old(account_names)@.len() > 0 && deep_target(
                old(self)@,
                pv,
            ) is Some {
                crate::account::laws::lemma_deep_activity_sound(old(self)@, pv, new_active);
            }
        }
        r
    }

    /// The recursive worker of [`Account::deep_change_activity`]; also hands
    /// back the keys of the target's aggregate, which every frame on the way
    /// out re-derives.
    fn deep_change_activity_helper(
        &mut self,
        new_active: bool,
        account_names: &mut Vec<&String>,
    ) -> (r: (Result<bool, DeepError>, Vec<String>))
        requires
            old(self).wf(),
        ensures
            final(self).wf(),
            old(account_names)@.len() == 0 ==> r.0 == Err::<bool, DeepError>(DeepError::EmptyVec)
                && final(self)@ == old(self)@,
            old(account_names)@.len() > 0 ==> match deep_target(
                old(self)@,
                path_views(old(account_names)@),
            ) {
                Some(t) => {
                    &&& r.0 == Ok::<bool, DeepError>(t.active != new_active)
                    &&& key_set(r.1@) == t.settings.dom()
                    &&& final(self)@ == deep_activity_view(
                        old(self)@,
                        path_views(old(account_names)@),
                        new_active,
                        t.settings.dom(),
                    )
                },
                None => r.0 == Err::<bool, DeepError>(DeepError::NotFound) && final(self)@ == old(
                    self,
                )@,
            },
            final(account_names)@ == old(account_names)@.take(
                old(account_names)@.len() - consumed(old(self)@, path_views(old(account_names)@)),
            ),
        decreases old(account_names)@.len(),
    {
        let ghost pv = path_views(old(account_names)@);
        let ghost orig = old(self)@;
        let name = match account_names.pop() {
            None => {
                proof {
                    assert(final(account_names)@ =~= old(account_names)@.take(
                        old(account_names)@.len() - consumed(orig, pv),
                    ));
                }
                return (Err(DeepError::EmptyVec), Vec::new());
            },
            Some(n) => n,
        };
        proof {
            assert(pv.last() == name@);
            assert(pv.drop_last() =~= path_views(account_names@));
        }
        match self.find_child_index(name) {
            None => {
                proof {
                    assert(consumed(orig, pv) == 1);
                    assert(final(account_names)@ =~= old(account_names)@.take(
                        old(account_names)@.len() - consumed(orig, pv),
                    ));
                }
                (Err(DeepError::NotFound), Vec::new())
            },
            Some(i) => {
                proof {
                    assert(orig.accounts[i as int] == self.accounts@[i as int]@);
                    assert(self.accounts@[i as int].wf());
                }
                if account_names.len() == 0 {
                    let child = &mut self.accounts[i];
                    let changed = child.change_activity(new_active);
                    let keys = child.aggregate_keys();
                    proof {
                        assert(self@.accounts =~= orig.accounts.update(
                            i as int,
                            self@.accounts[i as int],
                        ));
                        assert(self@ =~= (AccountView {
                            accounts: orig.accounts.update(i as int, self@.accounts[i as int]),
                            ..orig
                        }));
                        assert(first_match(orig.accounts, pv.last()) == Some(i as int));
                        assert(pv.drop_last().len() == 0);
                        assert(deep_target(orig.accounts[i as int], pv.drop_last()) == Some(
                            orig.accounts[i as int],
                        ));
                        assert(deep_target(orig, pv) == Some(orig.accounts[i as int]));
                        assert(consumed(orig.accounts[i as int], pv.drop_last()) == 0);
                        assert(consumed(orig, pv) == 1);
                        assert(final(account_names)@ =~= old(account_names)@.take(
                            old(account_names)@.len() - consumed(orig, pv),
                        ));
                    }
                    self.update_vec(&keys);
                    proof {
                        assert(final(self)@ == deep_activity_view(orig, pv, new_active,
                        orig.accounts[i as int].settings.dom()));
                    }
                    (Ok(changed), keys)
                } else {
                    let ghost cpre = self.accounts@[i as int]@;
                    let child = &mut self.accounts[i];
                    let rr = child.deep_change_activity_helper(new_active, account_names);
                    let ghost cpost = (*child)@;
                    proof {
                        assert(self@.accounts =~= orig.accounts.update(i as int, cpost));
                        assert(self@ =~= (AccountView {
                            accounts: orig.accounts.update(i as int, cpost),
                            ..orig
                        }));
                        assert(deep_target(orig, pv) == deep_target(cpre, pv.drop_last()));
                        lemma_consumed_bounds(cpre, pv.drop_last());
                        assert(consumed(orig, pv) == 1 + consumed(cpre, pv.drop_last()));
                        assert(final(account_names)@ =~= old(account_names)@.take(
                            old(account_names)@.len() - consumed(orig, pv),
                        ));
                    }
                    let (res, keys) = rr;
                    match res {
                        Ok(changed) => {
                            self.update_vec(&keys);
                            proof {
                                let t = deep_target(cpre, pv.drop_last())->0;
                                assert(final(self)@ == deep_activity_view(orig, pv, new_active,
                                t.settings.dom()));
                            }
                            (Ok(changed), keys)
                        },
                        Err(e) => {
                            proof {
                                assert(e == DeepError::NotFound);
                                assert(cpost == cpre);
                                assert(orig.accounts.update(i as int, cpost) =~= orig.accounts);
                                assert(self@ =~= orig);
                            }
                            (Err(DeepError::NotFound), keys)
                        },
                    }
                }
            },
        }
    }

    /// Renames the descendant the path leads to, returning its previous
    /// name.  A rename can introduce a sibling-name collision: the target's
    /// parent's `names` flag is cleared when it does.  No aggregate changes.
    pub fn deep_rename(&mut self, new_name: &String, account_names: &mut Vec<&String>) -> (r:
        Result<String, DeepError>)
        requires
            old(self).wf(),
        ensures
            final(self).wf(),
            old(account_names)@.len() == 0 ==> r == Err::<String, DeepError>(DeepError::EmptyVec)
                && final(self)@ == old(self)@,
            old(account_names)@.len() > 0 ==> match deep_target(
                old(self)@,
                path_views(old(account_names)@),
            ) {
                Some(t) => (r matches Ok(s) && s@ == t.name && final(self)@ == deep_rename_view(
                    old(self)@,
                    path_views(old(account_names)@),
                    new_name@,
                )),
                None => r == Err::<String, DeepError>(DeepError::NotFound) && final(self)@ == old(
                    self,
                )@,
            },
            final(account_names)@ == old(account_names)@.take(
                old(account_names)@.len() - consumed(old(self)@, path_views(old(account_names)@)),
            ),
        decreases old(account_names)@.len(),
    {
        let ghost pv = path_views(old(account_names)@);
        let ghost orig = old(self)@;
        let name = match account_names.pop() {
            None => {
                proof {
                    assert(final(account_names)@ =~= old(account_names)@.take(
                        old(account_names)@.len() - consumed(orig, pv),
                    ));
                }
                return Err(DeepError::EmptyVec);
            },
            Some(n) => n,
        };
        proof {
            assert(pv.last() == name@);
            assert(pv.drop_last() =~= path_views(account_names@));
        }
        match self.find_child_index(name) {
            None => {
                proof {
                    assert(consumed(orig, pv) == 1);
                    assert(final(account_names)@ =~= old(account_names)@.take(
                        old(account_names)@.len() - consumed(orig, pv),
                    ));
                }
                Err(DeepError::NotFound)
            },
            Some(i) => {
                proof {
                    assert(orig.accounts[i as int] == self.accounts@[i as int]@);
                    assert(self.accounts@[i as int].wf());
                }
                if account_names.len() == 0 {
                    let child = &mut self.accounts[i];
                    let old_name = child.rename(new_name.clone());
                    proof {
                        assert(self@.accounts =~= orig.accounts.update(
                            i as int,
                            self@.accounts[i as int],
                        ));
                        assert(self@ =~= (AccountView {
                            accounts: orig.accounts.update(i as int, self@.accounts[i as int]),
                            ..orig
                        }));
                        assert(first_match(orig.accounts, pv.last()) == Some(i as int));
                        assert(pv.drop_last().len() == 0);
                        assert(deep_target(orig.accounts[i as int], pv.drop_last()) == Some(
                            orig.accounts[i as int],
                        ));
                        assert(deep_target(orig, pv) == Some(orig.accounts[i as int]));
                        assert(consumed(orig.accounts[i as int], pv.drop_last()) == 0);
                        assert(consumed(orig, pv) == 1);
                        assert(final(account_names)@ =~= old(account_names)@.take(
                            old(account_names)@.len() - consumed(orig, pv),
                        ));
                    }
                    let b = self.check_valid_names();
                    let keep = self.valid.names && b;
                    self.valid.names = keep;
                    proof {
                        assert(final(self)@.accounts =~= self@.accounts);
                        assert(final(self)@ =~= deep_rename_view(orig, pv, new_name@));
                    }
                    Ok(old_name)
                } else {
                    let ghost cpre = self.accounts@[i as int]@;
                    let child = &mut self.accounts[i];
                    let rr = child.deep_rename(new_name, account_names);
                    let ghost cpost = (*child)@;
                    proof {
                        assert(self@.accounts =~= orig.accounts.update(i as int, cpost));
                        assert(self@ =~= (AccountView {
                            accounts: orig.accounts.update(i as int, cpost),
                            ..orig
                        }));
                        assert(deep_target(orig, pv) == deep_target(cpre, pv.drop_last()));
                        lemma_consumed_bounds(cpre, pv.drop_last());
                        assert(consumed(orig, pv) == 1 + consumed(cpre, pv.drop_last()));
                        assert(final(account_names)@ =~= old(account_names)@.take(
                            old(account_names)@.len() - consumed(orig, pv),
                        ));
                    }
                    match rr {
                        Ok(s) => {
                            proof {
                                assert(final(self)@ =~= deep_rename_view(orig, pv, new_name@));
                            }
                            Ok(s)
                        },
                        Err(e) => {
                            proof {
                                assert(e == DeepError::NotFound);
                                assert(cpost == cpre);
                                assert(orig.accounts.update(i as int, cpost) =~= orig.accounts);
                                assert(self@ =~= orig);
                            }
                            Err(DeepError::NotFound)
                        },
                    }
                }
            },
        }
    }

    /// Appends a child to the descendant the path leads to, as
    /// [`Account::push`] does there, then re-derives, on every ancestor on
    /// the way back out, the keys the child contributes.
    ///
    /// Returns `Ok(Some(_))` when the target refused the child over a
    /// duplicate name (the tree is then unchanged), `Ok(None)` when it was
    /// appended.
    pub fn deep_push(
        &mut self,
        account: Account,
        valid: Valid,
        account_names: &mut Vec<&String>,
    ) -> (r: Result<Option<InvalidAccountError>, DeepError>)
        requires
            old(self).wf(),
            account.wf(),
        ensures
            final(self).wf(),
            old(account_names)@.len() == 0 ==> r == Err::<Option<InvalidAccountError>, DeepError>(
                DeepError::EmptyVec,
            ) && final(self)@ == old(self)@,
            old(account_names)@.len() > 0 ==> match deep_target(
                old(self)@,
                path_views(old(account_names)@),
            ) {
                Some(t) => {
                    if valid.names && pushed_dup(t, account@) {
                        r == Ok::<Option<InvalidAccountError>, DeepError>(
                            Some(InvalidAccountError::ExistingName),
                        ) && final(self)@ == old(self)@
                    } else {
                        r == Ok::<Option<InvalidAccountError>, DeepError>(None) && final(self)@
                            == deep_push_view(
                            old(self)@,
                            path_views(old(account_names)@),
                            account@,
                            push_ks(account@),
                        )
                    }
                },
                None => r == Err::<Option<InvalidAccountError>, DeepError>(DeepError::NotFound)
                    && final(self)@ == old(self)@,
            },
            final(account_names)@ == old(account_names)@.take(
                old(account_names)@.len() - consumed(old(self)@, path_views(old(account_names)@)),
            ),
    {
        self.deep_push_helper(account, valid, account_names).0
    }

    /// The recursive worker of [`Account::deep_push`]; also hands back the
    /// keys the pushed child contributes, which every frame on the way out
    /// re-derives.
    fn deep_push_helper(
        &mut self,
        account: Account,
        valid: Valid,
        account_names: &mut Vec<&String>,
    ) -> (r: (Result<Option<InvalidAccountError>, DeepError>, Vec<String>))
        requires
            old(self).wf(),
            account.wf(),
        ensures
            final(self).wf(),
            old(account_names)@.len() == 0 ==> r.0 == Err::<Option<InvalidAccountError>, DeepError>(
                DeepError::EmptyVec,
            ) && final(self)@ == old(self)@,
            old(account_names)@.len() > 0 ==> match deep_target(
                old(self)@,
                path_views(old(account_names)@),
            ) {
                Some(t) => {
                    if valid.names && pushed_dup(t, account@) {
                        r.0 == Ok::<Option<InvalidAccountError>, DeepError>(
                            Some(InvalidAccountError::ExistingName),
                        ) && final(self)@ == old(self)@
                    } else {
                        &&& r.0 == Ok::<Option<InvalidAccountError>, DeepError>(None)
                        &&& key_set(r.1@) == push_ks(account@)
                        &&& final(self)@ == deep_push_view(
                            old(self)@,
                            path_views(old(account_names)@),
                            account@,
                            push_ks(account@),
                        )
                    }
                },
                None => r.0 == Err::<Option<InvalidAccountError>, DeepError>(DeepError::NotFound)
                    && final(self)@ == old(self)@,
            },
            final(account_names)@ == old(account_names)@.take(
                old(account_names)@.len() - consumed(old(self)@, path_views(old(account_names)@)),
            ),
        decreases old(account_names)@.len(),
    {
        let ghost pv = path_views(old(account_names)@);
        let ghost orig = old(self)@;
        let ghost cav = account@;
        let name = match account_names.pop() {
            None => {
                proof {
                    assert(final(account_names)@ =~= old(account_names)@.take(
                        old(account_names)@.len() - consumed(orig, pv),
                    ));
                }
                return (Err(DeepError::EmptyVec), Vec::new());
            },
            Some(n) => n,
        };
        proof {
            assert(pv.last() == name@);
            assert(pv.drop_last() =~= path_views(account_names@));
        }
        match self.find_child_index(name) {
            None => {
                proof {
                    assert(consumed(orig, pv) == 1);
                    assert(final(account_names)@ =~= old(account_names)@.take(
                        old(account_names)@.len() - consumed(orig, pv),
                    ));
                }
                (Err(DeepError::NotFound), Vec::new())
            },
            Some(i) => {
                proof {
                    assert(orig.accounts[i as int] == self.accounts@[i as int]@);
                    assert(self.accounts@[i as int].wf());
                }
                if account_names.len() == 0 {
                    let keys = if account.active {
                        account.aggregate_keys()
                    } else {
                        Vec::new()
                    };
                    proof {
                        if !cav.active {
                            assert(key_set(keys@) =~= Set::<Seq<char>>::empty());
                        }
                        assert(key_set(keys@) == push_ks(cav));
                        assert(first_match(orig.accounts, pv.last()) == Some(i as int));
                        assert(pv.drop_last().len() == 0);
                        assert(deep_target(orig.accounts[i as int], pv.drop_last()) == Some(
                            orig.accounts[i as int],
                        ));
                        assert(deep_target(orig, pv) == Some(orig.accounts[i as int]));
                        assert(consumed(orig.accounts[i as int], pv.drop_last()) == 0);
                        assert(consumed(orig, pv) == 1);
                        assert(final(account_names)@ =~= old(account_names)@.take(
                            old(account_names)@.len() - consumed(orig, pv),
                        ));
                    }
                    let child = &mut self.accounts[i];
                    let pr = child.push(account, valid);
                    proof {
                        assert(self@.accounts =~= orig.accounts.update(
                            i as int,
                            self@.accounts[i as int],
                        ));
                        assert(self@ =~= (AccountView {
                            accounts: orig.accounts.update(i as int, self@.accounts[i as int]),
                            ..orig
                        }));
                    }
                    match pr {
                        Some(e) => {
                            proof {
                                assert(self@.accounts[i as int] == orig.accounts[i as int]);
                                assert(orig.accounts.update(
                                    i as int,
                                    self@.accounts[i as int],
                                ) =~= orig.accounts);
                                assert(self@ =~= orig);
                            }
                            (Ok(Some(e)), Vec::new())
                        },
                        None => {
                            proof {
                                assert(self@.accounts[i as int] =~= pushed_view(
                                    orig.accounts[i as int],
                                    cav,
                                ));
                            }
                            self.update_vec(&keys);
                            proof {
                                assert(final(self)@ == deep_push_view(orig, pv, cav,
                                push_ks(cav)));
                            }
                            (Ok(None), keys)
                        },
                    }
                } else {
                    let ghost cpre = self.accounts@[i as int]@;
                    let child = &mut self.accounts[i];
                    let rr = child.deep_push_helper(account, valid, account_names);
                    let ghost cpost = (*child)@;
                    proof {
                        assert(self@.accounts =~= orig.accounts.update(i as int, cpost));
                        assert(self@ =~= (AccountView {
                            accounts: orig.accounts.update(i as int, cpost),
                            ..orig
                        }));
                        assert(deep_target(orig, pv) == deep_target(cpre, pv.drop_last()));
                        lemma_consumed_bounds(cpre, pv.drop_last());
                        assert(consumed(orig, pv) == 1 + consumed(cpre, pv.drop_last()));
                        assert(final(account_names)@ =~= old(account_names)@.take(
                            old(account_names)@.len() - consumed(orig, pv),
                        ));
                    }
                    let (res, keys) = rr;
                    match res {
                        Ok(None) => {
                            self.update_vec(&keys);
                            proof {
                                assert(final(self)@ == deep_push_view(orig, pv, cav,
                                push_ks(cav)));
                            }
                            (Ok(None), keys)
                        },
                        Ok(Some(e)) => {
                            proof {
                                assert(cpost == cpre);
                                assert(orig.accounts.update(i as int, cpost) =~= orig.accounts);
                                assert(self@ =~= orig);
                            }
                            (Ok(Some(e)), keys)
                        },
                        Err(e) => {
                            proof {
                                assert(e == DeepError::NotFound);
                                assert(cpost == cpre);
                                assert(orig.accounts.update(i as int, cpost) =~= orig.accounts);
                                assert(self@ =~= orig);
                            }
                            (Err(DeepError::NotFound), keys)
                        },
                    }
                }
            },
        }
    }

    /// Pops the highest-priority child of the descendant the path leads to,
    /// as [`Account::pop`] does there, then re-derives, on every ancestor on
    /// the way back out, the keys the popped child contributed.
    pub fn deep_pop(&mut self, valid: Valid, account_names: &mut Vec<&String>) -> (r: Result<
        Option<Account>,
        DeepError,
    >)
        requires
            old(self).wf(),
        ensures
            final(self).wf(),
            old(account_names)@.len() == 0 ==> r == Err::<Option<Account>, DeepError>(
                DeepError::EmptyVec,
            ) && final(self)@ == old(self)@,
            old(account_names)@.len() > 0 ==> match deep_target(
                old(self)@,
                path_views(old(account_names)@),
            ) {
                Some(t) => {
                    &&& final(self)@ == deep_pop_view(
                        old(self)@,
                        path_views(old(account_names)@),
                        valid,
                        pop_ks(t),
                    )
                    &&& match r {
                        Ok(o) => if t.accounts.len() == 0 {
                            o is None
                        } else {
                            (o matches Some(p) && p.wf() && p@ == t.accounts.last())
                        },
                        Err(_) => false,
                    }
                },
                None => r == Err::<Option<Account>, DeepError>(DeepError::NotFound)
                    && final(self)@ == old(self)@,
            },
            crate::account::sound(old(self)@) ==> crate::account::sound(final(self)@),
            final(account_names)@ == old(account_names)@.take(
                old(account_names)@.len() - consumed(old(self)@, path_views(old(account_names)@)),
            ),
        decreases old(account_names)@.len(),
    {
        let ghost pv = path_views(old(account_names)@);
        let ghost orig = old(self)@;
        let name = match account_names.pop() {
            None => {
                proof {
                    assert(final(account_names)@ =~= old(account_names)@.take(
                        old(account_names)@.len() - consumed(orig, pv),
                    ));
                }
                return Err(DeepError::EmptyVec);
            },
            Some(n) => n,
        };
        proof {
            assert(pv.last() == name@);
            assert(pv.drop_last() =~= path_views(account_names@));
        }
        match self.find_child_index(name) {
            None => {
                proof {
                    assert(consumed(orig, pv) == 1);
                    assert(final(account_names)@ =~= old(account_names)@.take(
                        old(account_names)@.len() - consumed(orig, pv),
                    ));
                }
                Err(DeepError::NotFound)
            },
            Some(i) => {
                proof {
                    assert(orig.accounts[i as int] == self.accounts@[i as int]@);
                    assert(self.accounts@[i as int].wf());
                }
                if account_names.len() == 0 {
                    proof {
                        assert(first_match(orig.accounts, pv.last()) == Some(i as int));
                        assert(pv.drop_last().len() == 0);
                        assert(deep_target(orig.accounts[i as int], pv.drop_last()) == Some(
                            orig.accounts[i as int],
                        ));
                        assert(deep_target(orig, pv) == Some(orig.accounts[i as int]));
                        assert(consumed(orig.accounts[i as int], pv.drop_last()) == 0);
                        assert(consumed(orig, pv) == 1);
                        assert(final(account_names)@ =~= old(account_names)@.take(
                            old(account_names)@.len() - consumed(orig, pv),
                        ));
                    }
                    let ghost t = orig.accounts[i as int];
                    let child = &mut self.accounts[i];
                    let popped = child.pop(valid);
                    proof {
                        assert(self@.accounts =~= orig.accounts.update(
                            i as int,
                            self@.accounts[i as int],
                        ));
                        assert(self@ =~= (AccountView {
                            accounts: orig.accounts.update(i as int, self@.accounts[i as int]),
                            ..orig
                        }));
                    }
                    match popped {
                        None => {
                            proof {
                                assert(pop_ks(t) =~= Set::<Seq<char>>::empty());
                                crate::account::validity::lemma_upd_keys_empty(self@);
                                assert(self@ == deep_pop_view(orig, pv, valid, pop_ks(t)));
                                if crate::account::sound(orig) {
                                    crate::account::laws::lemma_deep_pop_sound(orig, pv, valid);
                                }
                            }
                            Ok(None)
                        },
                        Some(p) => {
                            if p.active {
                                let keys = p.aggregate_keys();
                                proof {
                                    assert(p@ == t.accounts.last());
                                    assert(key_set(keys@) == pop_ks(t));
                                }
                                self.update_vec(&keys);
                                proof {
                                    assert(final(self)@ == deep_pop_view(orig, pv, valid,
                                    pop_ks(t)));
                                    if crate::account::sound(orig) {
                                        crate::account::laws::lemma_deep_pop_sound(orig, pv, valid);
                                    }
                                }
                            } else {
                                proof {
                                    assert(p@ == t.accounts.last());
                                    assert(pop_ks(t) =~= Set::<Seq<char>>::empty());
                                    crate::account::validity::lemma_upd_keys_empty(self@);
                                    assert(self@ == deep_pop_view(orig, pv, valid, pop_ks(t)));
                                    if crate::account::sound(orig) {
                                        crate::account::laws::lemma_deep_pop_sound(orig, pv, valid);
                                    }
                                }
                            }
                            Ok(Some(p))
                        },
                    }
                } else {
                    let ghost cpre = self.accounts@[i as int]@;
                    let child = &mut self.accounts[i];
                    let rr = child.deep_pop(valid, account_names);
                    let ghost cpost = (*child)@;
                    proof {
                        assert(self@.accounts =~= orig.accounts.update(i as int, cpost));
                        assert(self@ =~= (AccountView {
                            accounts: orig.accounts.update(i as int, cpost),
                            ..orig
                        }));
                        assert(deep_target(orig, pv) == deep_target(cpre, pv.drop_last()));
                        lemma_consumed_bounds(cpre, pv.drop_last());
                        assert(consumed(orig, pv) == 1 + consumed(cpre, pv.drop_last()));
                        assert(final(account_names)@ =~= old(account_names)@.take(
                            old(account_names)@.len() - consumed(orig, pv),
                        ));
                    }
                    match rr {
                        Ok(o) => {
                            let ghost t = deep_target(cpre, pv.drop_last())->0;
                            match o {
                                None => {
                                    proof {
                                        assert(pop_ks(t) =~= Set::<Seq<char>>::empty());
                                        crate::account::validity::lemma_upd_keys_empty(self@);
                                        assert(self@ == deep_pop_view(orig, pv, valid, pop_ks(t)));
                                        if crate::account::sound(orig) {
                                            crate::account::laws::lemma_deep_pop_sound(orig, pv, valid);
                                        }
                                    }
                                    Ok(None)
                                },
                                Some(p) => {
                                    if p.active {
                                        let keys = p.aggregate_keys();
                                        proof {
                                            assert(key_set(keys@) == pop_ks(t));
                                        }
                                        self.update_vec(&keys);
                                        proof {
                                            assert(final(self)@ == deep_pop_view(orig, pv, valid,
                                            pop_ks(t)));
                                            if crate::account::sound(orig) {
                                                crate::account::laws::lemma_deep_pop_sound(orig, pv, valid);
                                            }
                                        }
                                    } else {
                                        proof {
                                            assert(pop_ks(t) =~= Set::<Seq<char>>::empty());
                                            crate::account::validity::lemma_upd_keys_empty(self@);
                                            assert(self@ == deep_pop_view(orig, pv, valid,
                                            pop_ks(t)));
                                            if crate::account::sound(orig) {
                                                crate::account::laws::lemma_deep_pop_sound(orig, pv, valid);
                                            }
                                        }
                                    }
                                    Ok(Some(p))
                                },
                            }
                        },
                        Err(e) => {
                            proof {
                                assert(e == DeepError::NotFound);
                                assert(cpost == cpre);
                                assert(orig.accounts.update(i as int, cpost) =~= orig.accounts);
                                assert(self@ =~= orig);
                            }
                            Err(DeepError::NotFound)
                        },
                    }
                }
            },
        }
    }
}

} // verus!
