use ow_tracker::saves::{
    enable_bool, has_bool_enabled, is_allowed_to_override, is_valid_number_of_keys, pack_bools,
    KEYS_COUNT, PACKED_LEN, PACKED_SIZE,
};

fn bools_of(bits: &[u8]) -> Vec<bool> {
    bits.iter().map(|&n| n != 0).collect::<Vec<_>>()
}

#[test]
fn test_pack_bools() {
    let table = [
        (&[1, 1, 1, 1, 1, 1, 1, 1], vec![255]),
        (&[0, 1, 1, 1, 1, 1, 1, 1], vec![127]),
        (&[0, 1, 0, 0, 0, 0, 0, 0], vec![64]),
        (&[0, 0, 0, 0, 0, 0, 0, 0], vec![0]),
    ];
    for (bools, expected) in table {
        let bools = bools.iter().map(|&n| n != 0).collect::<Vec<_>>();
        assert_eq!(pack_bools(&bools), expected);
    }
}

#[test]
fn test_is_subset_of_old() {
    let table = [
        (&[1, 1, 1, 1, 1, 1, 1, 1], &[1, 1, 1, 1, 1, 1, 1, 1], true),
        (&[0, 1, 1, 1, 1, 1, 1, 1], &[1, 1, 1, 1, 1, 1, 1, 1], true),
        (&[1, 1, 1, 1, 1, 1, 1, 1], &[0, 1, 1, 1, 1, 1, 1, 1], false),
        (&[0, 1, 1, 1, 1, 1, 1, 1], &[0, 1, 1, 1, 1, 1, 1, 1], true),
        (&[0, 0, 0, 0, 0, 0, 0, 0], &[0, 0, 0, 0, 0, 0, 0, 0], true),
    ];
    for (old, new, expected) in table {
        let old = pack_bools(&old.iter().map(|&n| n != 0).collect::<Vec<_>>());
        let new = pack_bools(&new.iter().map(|&n| n != 0).collect::<Vec<_>>());
        assert_eq!(is_allowed_to_override(&old, &new), expected);
    }
}

fn generate_bool(num: usize) -> Vec<bool> {
    assert!(num < KEYS_COUNT);
    let mut res = (0..KEYS_COUNT).map(|_| false).collect::<Vec<_>>();
    res[num] = true;
    res
}

#[test]
fn test_has_bool_enabled() {
    for index in 0..KEYS_COUNT {
        let save = pack_bools(&generate_bool(index));
        println!("packed save: {save:?}");
        assert!(has_bool_enabled(&save, index), "checking for index {index}");
        for i in (0..KEYS_COUNT).filter(|&i| i != index) {
            assert!(
                !has_bool_enabled(&save, i),
                "checking {i} for test {index}, value: {}",
                save[i / PACKED_SIZE],
            );
        }
    }
}

#[test]
fn test_enable_bool() {
    let empty_save = (0..KEYS_COUNT).map(|_| false).collect::<Vec<_>>();

    for i in 0..KEYS_COUNT {
        assert!(!has_bool_enabled(&pack_bools(&empty_save), i));
        assert!(has_bool_enabled(
            &enable_bool(&pack_bools(&empty_save), i),
            i
        ));
        assert!(!has_bool_enabled(
            &enable_bool(&pack_bools(&empty_save), i),
            i + 1
        ));
    }
}

#[test]
fn pack_bools_fills_the_last_unit_with_unset_bits() {
    assert_eq!(pack_bools(&bools_of(&[1, 0, 1])), vec![0b1010_0000]);
    assert_eq!(pack_bools(&bools_of(&[1, 1, 1, 1, 1, 1, 1, 1, 1])), vec![255, 128]);
    assert_eq!(pack_bools(&[]), Vec::<u8>::new());
}

#[test]
fn a_save_of_all_keys_has_the_valid_number_of_keys() {
    let full = pack_bools(&vec![true; KEYS_COUNT]);
    assert_eq!(full.len(), PACKED_LEN);
    assert!(is_valid_number_of_keys(&full));
    assert!(is_valid_number_of_keys(&pack_bools(&vec![false; KEYS_COUNT])));
}

#[test]
fn a_save_with_bits_beyond_the_last_key_is_not_valid() {
    let mut save = pack_bools(&vec![false; KEYS_COUNT]);
    save[PACKED_LEN - 1] = 0b0000_0001;
    assert!(!is_valid_number_of_keys(&save));
    save[PACKED_LEN - 1] = 0b0000_0010;
    assert!(!is_valid_number_of_keys(&save));
    save[PACKED_LEN - 1] = 0b0000_0100;
    assert!(is_valid_number_of_keys(&save));
}

#[test]
fn a_save_of_another_length_is_not_valid() {
    assert!(!is_valid_number_of_keys(&[]));
    assert!(!is_valid_number_of_keys(&vec![0; PACKED_LEN - 1]));
    assert!(!is_valid_number_of_keys(&vec![0; PACKED_LEN + 1]));
}

#[test]
fn override_compares_only_the_units_both_saves_have() {
    assert!(is_allowed_to_override(&[255, 255], &[255]));
    assert!(is_allowed_to_override(&[], &[1, 2, 3]));
    assert!(!is_allowed_to_override(&[0, 1], &[255, 0]));
    assert!(is_allowed_to_override(&[0, 1], &[255, 3]));
}

#[test]
fn has_bool_enabled_wants_a_save_of_full_length() {
    assert!(!has_bool_enabled(&[255], 0));
    assert!(!has_bool_enabled(&vec![255; PACKED_LEN], KEYS_COUNT));
    assert!(has_bool_enabled(&vec![255; PACKED_LEN], KEYS_COUNT - 1));
}

#[test]
fn enable_bool_keeps_what_was_set() {
    assert_eq!(enable_bool(&[0b1000_0000, 0], 9), vec![0b1000_0000, 0b0100_0000]);
    assert_eq!(enable_bool(&[0b1000_0000, 0], 0), vec![0b1000_0000, 0]);
}
