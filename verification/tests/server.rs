use ow_tracker::companion::is_debounced;
use ow_tracker::saves::{has_bool_enabled, pack_bools, KEYS_COUNT, PACKED_LEN};
use ow_tracker::server::{check_fact_update, check_update, AuthRequest, Refusal, User};

fn save(known: &[usize]) -> Vec<u8> {
    let mut bools = vec![false; KEYS_COUNT];
    for &k in known {
        bools[k] = true;
    }
    pack_bools(&bools)
}

#[test]
fn a_save_that_adds_keys_is_taken() {
    assert_eq!(check_update(&save(&[1, 2]), Some((&save(&[1]), true))), Ok(()));
    assert_eq!(check_update(&save(&[373]), Some((&save(&[]), true))), Ok(()));
}

#[test]
fn a_save_is_refused_for_the_first_reason_that_holds() {
    let short = vec![0u8; PACKED_LEN - 1];
    assert_eq!(check_update(&short, None), Err(Refusal::InvalidSave));
    assert_eq!(check_update(&short, Some((&save(&[]), false))), Err(Refusal::InvalidSave));
    assert_eq!(check_update(&save(&[1]), None), Err(Refusal::NotFound));
    assert_eq!(check_update(&save(&[1]), Some((&save(&[1]), false))), Err(Refusal::Unauthorized));
    assert_eq!(check_update(&save(&[1]), Some((&save(&[1]), true))), Err(Refusal::NotModified));
    assert_eq!(check_update(&save(&[2]), Some((&save(&[1]), true))), Err(Refusal::RemovesKeys));
    assert_eq!(check_update(&save(&[]), Some((&save(&[1]), true))), Err(Refusal::RemovesKeys));
}

#[test]
fn a_fact_is_set_in_the_registered_save() {
    let stored = save(&[1]);
    let updated = check_fact_update(5, Some((&stored, true))).unwrap();
    assert_eq!(updated, save(&[1, 5]));
    assert!(has_bool_enabled(&updated, 5));
}

#[test]
fn a_fact_is_refused_for_the_first_reason_that_holds() {
    let stored = save(&[1]);
    assert_eq!(check_fact_update(KEYS_COUNT, None), Err(Refusal::NumTooBig));
    assert_eq!(check_fact_update(KEYS_COUNT, Some((&stored, true))), Err(Refusal::NumTooBig));
    assert_eq!(check_fact_update(0, None), Err(Refusal::NotFound));
    assert_eq!(check_fact_update(0, Some((&stored, false))), Err(Refusal::Unauthorized));
    assert_eq!(check_fact_update(1, Some((&stored, true))), Err(Refusal::NotModified));
}

#[test]
fn a_user_keeps_its_name() {
    assert_eq!(User::new(Some("me".to_string())), User { name: Some("me".to_string()) });
    assert_eq!(User::new(None).name, None);
    assert_eq!(AuthRequest { name: None }, AuthRequest { name: None });
}

#[test]
fn a_second_change_of_one_profile_within_a_second_is_passed_over() {
    assert!(is_debounced("me", "me", 0));
    assert!(is_debounced("me", "me", 999));
    assert!(!is_debounced("me", "me", 1000));
    assert!(!is_debounced("me", "you", 10));
    assert!(!is_debounced("", "me", 10));
}
