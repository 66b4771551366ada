//! The end-to-end examples of the layered-settings account.

use hashmap_settings::account::settings_map::SettingsMap;
use hashmap_settings::account::{Account, Valid};
use hashmap_settings::stg::{Setting, Stg, StgTrait};
use hashmap_settings::types::errors::StgError;

fn settings_from(pairs: Vec<(&str, Stg)>) -> SettingsMap {
    let mut map = SettingsMap::new();
    for (key, value) in pairs {
        map.insert(key.to_string(), value);
    }
    map
}

#[test]
fn stg_example() -> Result<(), StgError> {
    //creating a basic account
    let mut account = Account::default();

    //inserting values of distinct types
    account.insert("Number of trees".to_string(), 5.stg());
    account.insert("Grass color".to_string(), "green".to_string().stg());
    account.insert("Today is good".to_string(), true.stg());

    //getting values from the account
    let today_bool: bool = account.get(&"Today is good".to_string()).unstg()?;
    let grass_color: String = account.get(&"Grass color".to_string()).unstg_panic();
    let trees: i32 = account.get(&"Number of trees".to_string()).unstg()?;

    //example of using the values
    println!(
        "It's {today_bool} that today is a wonderful day,
    the grass is {grass_color} and I can see {trees} trees in the distance"
    );
    Ok(())
}

#[test]
fn doc_example() -> Result<(), StgError> {
    //creating the Parent Account
    let mut account = Account::default();

    //inserting child Accounts
    account.push(
        Account::new(
            "Default".to_string(), //Name of the Account
            true,                  //is the account active
            settings_from(vec![
                ("lines", 3.stg()),
                ("word_repetition", 10.stg()),
                ("word", "default".to_string().stg()),
            ]), //settings
            Vec::new(),            //child Accounts
        ),
        Valid::new_true(),
    );

    account.push(
        Account::new(
            "Global Settings".to_string(),
            true,
            settings_from(vec![
                ("word_repetition", 2.stg()),
                ("word", "global".to_string().stg()),
            ]), //this account is in a layer above the "Default" Account, so it's values will have priority
            Vec::new(),
        ),
        Valid::new_true(),
    ); // we could be getting this from a database

    account.push(
        Account::new(
            "Local Settings".to_string(),
            true,
            settings_from(vec![("word", "local".to_string().stg())]),
            //this account is in a layer that's above "Default" and "Global Settings" Accounts,
            //so it's values will have priority over it
            Vec::new(),
        ),
        Valid::new_true(),
    ); // we could be getting this Account from a local file

    account.push(
        Account::new(
            "Inactive Account".to_string(),
            false, //this account is inactive so its settings will be ignored.
            settings_from(vec![("word", "inactive".to_string().stg())]),
            Vec::new(),
        ),
        Valid::new_true(),
    );

    //getting values from the account
    let word: String = account.get(&"word".to_string()).unstg()?;
    let word_repetition = account.get(&"word_repetition".to_string()).unstg()?;
    let lines = account.get(&"lines".to_string()).unstg()?;

    //example of using the values
    let mut sentence = String::new();
    for _ in 0..word_repetition {
        sentence.push_str(&word);
        sentence.push(' ');
    }
    sentence.pop();
    for _ in 0..lines {
        println!("{sentence}");
    }
    //this will print the following:
    /*
    local local
    local local
    local local
    */

    //values in child accounts are still accessible
    let ref_child_account: &Account =
        account.deep(&mut vec![&"Default".to_string()]).unwrap();
    let inactive_word: String = ref_child_account.get(&"word".to_string()).unstg()?;
    println!("{inactive_word}");
    //this will print "default"

    //this includes inactive accounts
    let ref_child_account: &Account = account
        .deep(&mut vec![&"Inactive Account".to_string()])
        .unwrap();
    let inactive_word: String = ref_child_account.get(&"word".to_string()).unstg()?;
    println!("{inactive_word}");
    //this will print "inactive"
    Ok(())
}

#[test]
fn account_test() {
    let bool_setting = true;
    let i32_setting = 42;
    let mut account = Account::default();
    account.insert("bool_setting".to_string(), bool_setting.stg());
    account.insert("i32_setting".to_string(), i32_setting.stg());
    let i32s: i32 = account
        .get(&"i32_setting".to_string())
        .unwrap()
        .clone()
        .unstg_panic();
    assert_eq!(i32s, 42);
    let stg: Stg = account.get(&"bool_setting".to_string()).unwrap().clone();
    assert!(stg.unstg_panic::<bool>());
}

#[test]
fn partialeq_test() {
    assert!(true.stg() == true.stg());
}

#[test]
fn account_new() {
    let mut account1 = Account::new(
        "name".to_string(),
        Default::default(),
        SettingsMap::new(),
        Vec::new(),
    );
    account1.insert("answer to everything".to_string(), 42.stg());
    account1.insert("true is true".to_string(), true.stg());
    let account2 = Account::new(
        "name".to_string(),
        Default::default(),
        settings_from(vec![
            ("answer to everything", 42.stg()),
            ("true is true", true.stg()),
        ]),
        Vec::new(),
    );
    assert!(account1 == account2);
}
