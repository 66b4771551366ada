//! Concrete scenarios for the layered-resolution behaviour of accounts.

use hashmap_settings::account::settings_map::SettingsMap;
use hashmap_settings::account::{Account, Valid};
use hashmap_settings::stg::{Setting, Stg, StgTrait};
use hashmap_settings::types::errors::{DeepError, InvalidAccountError};

fn leaf(name: &str, active: bool, pairs: Vec<(&str, Stg)>) -> Account {
    let mut map = SettingsMap::new();
    for (key, value) in pairs {
        map.insert(key.to_string(), value);
    }
    Account::new(name.to_string(), active, map, Vec::new())
}

/// Two active layers supplying the same key: the later push wins.
#[test]
fn layered_override_wins() {
    let mut root = Account::default();
    assert_eq!(root.push(leaf("L1", true, vec![("x", 1.stg())]), Valid::new_true()), None);
    assert_eq!(root.push(leaf("L2", true, vec![("x", 2.stg())]), Valid::new_true()), None);
    let x: i32 = root.get(&"x".to_string()).unstg_panic();
    assert_eq!(x, 2);
}

/// Deactivating the winning layer hands the key back to the layer below.
#[test]
fn deactivation_falls_back() {
    let mut root = Account::default();
    root.push(leaf("L1", true, vec![("x", 1.stg())]), Valid::new_true());
    root.push(leaf("L2", true, vec![("x", 2.stg())]), Valid::new_true());
    let changed = root
        .deep_change_activity(false, &mut vec![&"L2".to_string()])
        .unwrap();
    assert!(changed);
    let x: i32 = root.get(&"x".to_string()).unstg_panic();
    assert_eq!(x, 1);
}

/// Pushing a child whose name a sibling already carries is refused and
/// leaves the tree unchanged.
#[test]
fn duplicate_name_refused() {
    let mut root = Account::default();
    root.push(leaf("L1", true, vec![("x", 1.stg())]), Valid::new_true());
    let before_len = root.len();
    let before_x: i32 = root.get(&"x".to_string()).unstg_panic();
    let refused = root.push(leaf("L1", true, vec![("x", 7.stg())]), Valid::new_true());
    assert_eq!(refused, Some(InvalidAccountError::ExistingName));
    assert_eq!(root.len(), before_len);
    let x: i32 = root.get(&"x".to_string()).unstg_panic();
    assert_eq!(x, before_x);
    assert!(root.valid().is_valid());
}

/// A deep insert lands in the target and is resolved by every ancestor on
/// the way out.
#[test]
fn deep_insert_propagates() {
    let child2 = leaf("child2", true, vec![]);
    let mut map1 = SettingsMap::new();
    map1.insert("z".to_string(), 1.stg());
    let child1 = Account::new("child1".to_string(), true, map1, vec![child2]);
    let mut root = Account::default();
    root.push(child1, Valid::new_true());

    let previous = root
        .deep_insert(
            &"y".to_string(),
            5.stg(),
            &mut vec![&"child2".to_string(), &"child1".to_string()],
        )
        .unwrap();
    assert!(previous.is_none());

    let child1_ref = root.deep(&mut vec![&"child1".to_string()]).unwrap();
    let y_in_child1: i32 = child1_ref.get(&"y".to_string()).unstg_panic();
    assert_eq!(y_in_child1, 5);
    let y_in_root: i32 = root.get(&"y".to_string()).unstg_panic();
    assert_eq!(y_in_root, 5);
}

/// Pushing a duplicate name while waiving the names check, then repairing,
/// renames the new child to the next free counter.
#[test]
fn repair_renames_duplicate() {
    let mut root = Account::default();
    root.push(leaf("item(1)", true, vec![]), Valid::new_true());
    let admitted = root.push(
        leaf("item(1)", true, vec![]),
        Valid::new(false, true, true),
    );
    assert_eq!(admitted, None);
    assert!(!root.valid().names());
    root.fix_valid(Valid::new_true());
    assert!(root.valid().is_valid());
    let names = root.accounts_names();
    assert_eq!(names, vec!["item(1)".to_string(), "item(2)".to_string()]);
}

/// Push immediately followed by pop restores the aggregate at the keys the
/// child exclusively owned.
#[test]
fn push_pop_round_trip() {
    let mut root = Account::default();
    root.push(leaf("base", true, vec![("kept", 1.stg())]), Valid::new_true());
    root.push(leaf("extra", true, vec![("own", 9.stg()), ("kept", 2.stg())]), Valid::new_true());
    let popped = root.pop(Valid::new_true()).unwrap();
    assert_eq!(popped.name(), &"extra".to_string());
    assert!(root.get(&"own".to_string()).is_none());
    let kept: i32 = root.get(&"kept".to_string()).unstg_panic();
    assert_eq!(kept, 1);
    assert!(root.valid().is_valid());
}

/// Re-deriving every key twice gives the same aggregate as doing it once.
#[test]
fn update_all_settings_idempotent() {
    let mut root = Account::default();
    root.insert("local".to_string(), 3.stg());
    root.push(leaf("layer", true, vec![("shared", 4.stg())]), Valid::new_true());
    root.update_all_settings();
    let shared_once: i32 = root.get(&"shared".to_string()).unstg_panic();
    let local_once = root.get(&"local".to_string()).cloned();
    root.update_all_settings();
    let shared_twice: i32 = root.get(&"shared".to_string()).unstg_panic();
    let local_twice = root.get(&"local".to_string()).cloned();
    assert_eq!(shared_once, shared_twice);
    assert_eq!(local_once, local_twice);
}

/// `deep` and `deep_mut` on an unmodified tree reference the same node.
#[test]
fn deep_and_deep_mut_agree() {
    let inner = leaf("inner", true, vec![("mark", 11.stg())]);
    let outer = Account::new("outer".to_string(), true, SettingsMap::new(), vec![inner]);
    let mut root = Account::default();
    root.push(outer, Valid::new_true());

    let name_via_deep = root
        .deep(&mut vec![&"inner".to_string(), &"outer".to_string()])
        .unwrap()
        .name()
        .clone();
    let mark_via_deep: i32 = root
        .deep(&mut vec![&"inner".to_string(), &"outer".to_string()])
        .unwrap()
        .get(&"mark".to_string())
        .unstg_panic();
    let node = root
        .deep_mut(&mut vec![&"inner".to_string(), &"outer".to_string()])
        .unwrap();
    assert_eq!(node.name(), &name_via_deep);
    let mark_via_mut: i32 = node.get(&"mark".to_string()).unstg_panic();
    assert_eq!(mark_via_mut, mark_via_deep);
}

/// Whenever the `names` flag is set, the children's names are unique.
#[test]
fn names_flag_means_unique_names() {
    let mut root = Account::default();
    root.push(leaf("a", true, vec![]), Valid::new_true());
    root.push(leaf("b", true, vec![]), Valid::new_true());
    assert!(root.valid().names());
    let names = root.accounts_names();
    assert_eq!(names, vec!["a".to_string(), "b".to_string()]);
    root.push(leaf("a", true, vec![]), Valid::new(false, true, true));
    assert!(!root.valid().names());
    root.update_valid(Valid::new_true());
    assert!(!root.valid().names());
}

/// Deep operations on an empty path or a missing child report the error and
/// leave the tree alone.
#[test]
fn deep_errors() {
    let mut root = Account::default();
    root.push(leaf("only", true, vec![]), Valid::new_true());
    assert_eq!(root.deep(&mut vec![]), Err(DeepError::EmptyVec));
    assert_eq!(
        root.deep(&mut vec![&"ghost".to_string()]),
        Err(DeepError::NotFound)
    );
    assert_eq!(
        root.deep_insert(&"k".to_string(), 1.stg(), &mut vec![]),
        Err(DeepError::EmptyVec)
    );
    assert_eq!(
        root.deep_remove(&"k".to_string(), &mut vec![&"ghost".to_string()]),
        Err(DeepError::NotFound)
    );
    assert_eq!(root.len(), 1);
}

/// The deep structural operations keep every ancestor's aggregate resolved.
#[test]
fn deep_push_and_pop_propagate() {
    let mid = leaf("mid", true, vec![]);
    let mut root = Account::default();
    root.push(mid, Valid::new_true());

    let pushed = root
        .deep_push(
            leaf("low", true, vec![("v", 6.stg())]),
            Valid::new_true(),
            &mut vec![&"mid".to_string()],
        )
        .unwrap();
    assert!(pushed.is_none());
    let v: i32 = root.get(&"v".to_string()).unstg_panic();
    assert_eq!(v, 6);

    let popped = root
        .deep_pop(Valid::new_true(), &mut vec![&"mid".to_string()])
        .unwrap()
        .unwrap();
    assert_eq!(popped.name(), &"low".to_string());
    assert!(root.get(&"v".to_string()).is_none());
}

/// A deep rename returns the old name and only touches names.
#[test]
fn deep_rename_swaps_name() {
    let mut root = Account::default();
    root.push(leaf("before", true, vec![("w", 8.stg())]), Valid::new_true());
    let old = root
        .deep_rename(&"after".to_string(), &mut vec![&"before".to_string()])
        .unwrap();
    assert_eq!(old, "before".to_string());
    assert_eq!(root.accounts_names(), vec!["after".to_string()]);
    let w: i32 = root.get(&"w".to_string()).unstg_panic();
    assert_eq!(w, 8);
    assert!(root.valid().names());
}

/// The capacity of the aggregate is never below its number of entries.
#[test]
fn capacity_bounds_length() {
    let mut root = Account::default();
    root.insert("one".to_string(), 1.stg());
    root.insert("two".to_string(), 2.stg());
    root.insert("three".to_string(), 3.stg());
    assert!(root.capacity() >= root.hashmap().len());
    assert!(root.contains_key(&"two".to_string()));
    assert_eq!(root.keys().len(), 3);
    assert!(!root.is_empty() || root.len() == 0);
}

/// Local edits on a node do not touch children or ancestors.
#[test]
fn insert_and_remove_are_local() {
    let mut root = Account::default();
    root.push(leaf("kid", true, vec![("k", 1.stg())]), Valid::new_true());
    let previous = root.insert("k".to_string(), 9.stg());
    let k_now: i32 = root.get(&"k".to_string()).unstg_panic();
    assert_eq!(k_now, 9);
    assert_eq!(previous.unwrap().unstg::<i32>(), Ok(1));
    let kid = root.deep(&mut vec![&"kid".to_string()]).unwrap();
    let kid_k: i32 = kid.get(&"k".to_string()).unstg_panic();
    assert_eq!(kid_k, 1);
    let removed = root.remove(&"k".to_string());
    assert_eq!(removed.unwrap().unstg::<i32>(), Ok(9));
    root.update_setting(&"k".to_string());
    let k_back: i32 = root.get(&"k".to_string()).unstg_panic();
    assert_eq!(k_back, 1);
}

/// `all_child_settings` gathers the keys of flagged children, once each.
#[test]
fn all_child_settings_collects_keys() {
    let mut root = Account::default();
    root.push(leaf("a", true, vec![("x", 1.stg()), ("y", 2.stg())]), Valid::new_true());
    root.push(leaf("b", false, vec![("y", 3.stg()), ("z", 4.stg())]), Valid::new_true());
    let mut keys = root.all_child_settings();
    keys.sort();
    assert_eq!(
        keys,
        vec!["x".to_string(), "y".to_string(), "z".to_string()]
    );
    assert!(root.vec_contains_key(&"z".to_string()));
    assert!(!root.vec_contains_key(&"w".to_string()));
    assert!(root.find_in_accounts(&"z".to_string()).is_none());
    let x_win: i32 = root.find_in_accounts(&"x".to_string()).unwrap().clone().unstg_panic();
    assert_eq!(x_win, 1);
}

/// `update_setting_returns` reports whether the aggregate changed.
#[test]
fn update_setting_reports() {
    let mut root = Account::default();
    root.push(leaf("kid", true, vec![("k", 1.stg())]), Valid::new_true());
    assert_eq!(root.update_setting_returns(&"k".to_string()), Some(false));
    root.insert("k".to_string(), 2.stg());
    assert_eq!(root.update_setting_returns(&"k".to_string()), Some(true));
    assert_eq!(root.update_setting_returns(&"absent".to_string()), None);
    root.insert("local".to_string(), 5.stg());
    assert_eq!(root.update_setting_returns(&"local".to_string()), Some(true));
    assert!(root.get(&"local".to_string()).is_none());
}
