//! Conversions between concrete values and the type-erased cell.

use hashmap_settings::stg::{Setting, Stg, StgTrait};
use hashmap_settings::types::errors::StgError;
use hashmap_settings::types::example_types::{BoolStg, I32Stg};

#[test]
fn bool_stg_setting() {
    let bool_stg_setting = BoolStg::new(true);
    let stg_fun: Stg = Setting::stg(bool_stg_setting.clone());
    let stg_dot: Stg = bool_stg_setting.clone().stg();
    assert!(stg_fun == stg_dot.clone());
    let bool_stg_from: BoolStg = stg_fun.unstg_panic();
    let bool_stg_into: BoolStg = stg_dot.unstg().unwrap();
    assert_eq!(bool_stg_from, bool_stg_into);
    assert_eq!(bool_stg_setting, bool_stg_from);
    assert_eq!(bool_stg_setting, bool_stg_into);
    assert_eq!(bool_stg_setting.get(), bool_stg_into.get());
    assert!(bool_stg_into.get());
    assert!(bool_stg_from.get());
}

#[test]
fn rust_types_bool_stg_conversion() {
    let bool = true;
    let stg_fun: Stg = Setting::stg(bool);
    let stg_dot: Stg = bool.stg();
    assert_eq!(stg_fun, stg_dot);
    let stg_fu1 = stg_fun.clone();
    let stg_do1 = stg_fun.clone();
    let bool_dot_unstg: bool = stg_fun.unstg_panic();
    let bool_dot_safe_unstg: bool = stg_dot.unstg().unwrap();
    let bool_fun_unstg: bool = stg_fu1.unstg_panic();
    let bool_fun_safe_unstg: bool = stg_do1.unstg().unwrap();
    assert_eq!(bool_dot_unstg, bool);
    assert_eq!(bool_fun_unstg, bool);
    assert_eq!(bool_dot_unstg, bool_dot_safe_unstg);
    assert_eq!(bool_fun_unstg, bool_fun_safe_unstg);
}

#[test]
fn rust_types_implementations_bool_stg_conversion() {
    let bool = true;
    let stg_fun: Stg = bool.stg();
    let stg_dot: Stg = bool.stg();
    assert!(stg_fun == stg_dot);
    let stg_fun_1 = stg_fun.clone();
    let stg_dot_1 = stg_fun.clone();
    let bool_dot_unstg: bool = stg_fun.unstg_panic();
    let bool_dot_safe_unstg: bool = stg_dot.unstg().unwrap();
    let bool_fun_unstg: bool = stg_fun_1.unstg_panic();
    let bool_fun_safe_unstg: bool = stg_dot_1.unstg().unwrap();
    assert!(bool_dot_unstg == bool);
    assert!(bool_fun_unstg == bool);
    assert!(bool_dot_unstg == bool_dot_safe_unstg);
    assert!(bool_fun_unstg == bool_fun_safe_unstg);
}

#[test]
fn wrong_type_extraction() {
    let bool_stg: Stg = true.stg();
    let number = match bool_stg.unstg::<i32>() {
        Ok(x) => x,
        Err(e) => {
            assert_eq!(e, StgError::WrongType);
            404
        },
    };
    assert_eq!(number, 404);
}

#[test]
fn missing_extraction() {
    let account = hashmap_settings::Account::default();
    let looked_up = account.get(&"absent".to_string());
    assert_eq!(looked_up.unstg::<i32>(), Err(StgError::Missing));
}

#[test]
fn i32_stg_roundtrip() {
    let cell = I32Stg::new(-7).stg();
    let back: I32Stg = cell.unstg().unwrap();
    assert_eq!(back.get(), -7);
    let wrong: Result<bool, StgError> = I32Stg::new(3).stg().unstg();
    assert_eq!(wrong, Err(StgError::WrongType));
}

#[test]
fn string_and_char_cells() {
    let text: String = "keep".to_string();
    let cell = text.clone().stg();
    let back: String = cell.unstg().unwrap();
    assert_eq!(back, text);
    let c_cell = 'x'.stg();
    let c: char = c_cell.unstg_panic();
    assert_eq!(c, 'x');
    let unit_cell = ().stg();
    assert!(unit_cell.unstg::<()>().is_ok());
}
