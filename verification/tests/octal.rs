use mahjong_dp::converter::{
    check_ascending32, check_honor_code, check_key, check_suit_code, honor_code_tiles,
    suit_code_tiles,
};
use mahjong_dp::octal::{from_octal, to_octal, to_octal_rev};
use mahjong_dp::search::{find32, find64};

#[test]
fn to_octal_packs_three_bits_per_digit() {
    assert_eq!(to_octal(&[]), 0);
    assert_eq!(to_octal(&[7]), 7);
    assert_eq!(to_octal(&[1, 2, 3]), 0o123);
    assert_eq!(to_octal(&[0, 0, 0, 0, 0, 1, 1, 1, 0]), 0o1110);
    assert_eq!(to_octal(&[6, 0, 1, 0, 0]), 0o60100);
    assert_eq!(to_octal(&[4; 9]), 0o444444444);
}

#[test]
fn to_octal_rev_reads_from_the_end() {
    assert_eq!(to_octal_rev(&[1, 2, 3]), 0o321);
    assert_eq!(to_octal_rev(&[0, 0, 0, 0, 0, 1, 1, 1, 0]), 0o011100000);
    assert_eq!(to_octal_rev(&[]), 0);
}

#[test]
fn from_octal_unpacks_the_low_digits() {
    assert_eq!(from_octal::<9>(0o1110), [0, 0, 0, 0, 0, 1, 1, 1, 0]);
    assert_eq!(from_octal::<5>(0o60100), [6, 0, 1, 0, 0]);
    assert_eq!(from_octal::<3>(0o7654), [6, 5, 4]);
    assert_eq!(from_octal::<0>(0o7654), []);
    assert_eq!(from_octal::<9>(to_octal(&[4, 0, 3, 1, 0, 0, 2, 0, 4])), [4, 0, 3, 1, 0, 0, 2, 0, 4]);
}

#[test]
fn suit_codes_are_canonical_patterns() {
    assert!(check_suit_code(0));
    assert!(check_suit_code(0o000000111));
    assert!(!check_suit_code(0o111000000));
    assert!(check_suit_code(0o100000001));
    assert!(!check_suit_code(0o000000005));
    assert!(check_suit_code(0o000044420));
    assert!(!check_suit_code(0o000044430));
    assert!(!check_suit_code(0o1000000000));
    assert_eq!(suit_code_tiles(0o000044420), 14);
    assert_eq!(suit_code_tiles(0), 0);
}

#[test]
fn honor_codes_account_for_seven_kinds() {
    assert!(check_honor_code(0o70000));
    assert!(check_honor_code(0o60100));
    assert!(!check_honor_code(0o60000));
    assert!(!check_honor_code(0o70100));
    assert!(check_honor_code(0o40003)); // twelve tiles
    assert!(!check_honor_code(0o30004)); // sixteen tiles
    assert!(check_honor_code(0o00700)); // fourteen tiles
    assert!(!check_honor_code(0o100000));
    assert_eq!(honor_code_tiles(0o60100), 2);
    assert_eq!(honor_code_tiles(0o01234), 1 + 2 * 2 + 3 * 3 + 4 * 4);
}

#[test]
fn keys_hold_three_ascending_positions_and_the_tile_total() {
    // patterns of 0, 1 and 2 tiles; honors of 0 and 2 tiles
    let su = vec![0, 0o1, 0o2];
    let ji = vec![0o60100, 0o70000];
    assert!(check_key(&su, &ji, 0 | (1 << 18) | (2 << 36) | (0 << 54), 5));
    assert!(!check_key(&su, &ji, 0 | (1 << 18) | (2 << 36) | (0 << 54), 4));
    assert!(check_key(&su, &ji, 0 | (1 << 18) | (2 << 36) | (1 << 54), 3));
    assert!(!check_key(&su, &ji, 1 | (0 << 18) | (2 << 36) | (1 << 54), 3));
    assert!(!check_key(&su, &ji, 0 | (1 << 18) | (3 << 36) | (1 << 54), 3));
    assert!(!check_key(&su, &ji, 0 | (1 << 18) | (2 << 36) | (2 << 54), 3));
    assert!(check_key(&su, &ji, 2 | (2 << 18) | (2 << 36) | (1 << 54), 6));
}

#[test]
fn ascending_tables_and_search() {
    assert!(check_ascending32(&vec![]));
    assert!(check_ascending32(&vec![5]));
    assert!(check_ascending32(&vec![1, 2, 9]));
    assert!(!check_ascending32(&vec![1, 2, 2]));
    assert!(!check_ascending32(&vec![3, 2]));
    let table = vec![2u32, 3, 5, 7, 11, 13];
    for (i, x) in table.iter().enumerate() {
        assert_eq!(find32(&table, *x), Some(i));
    }
    assert_eq!(find32(&table, 0), None);
    assert_eq!(find32(&table, 4), None);
    assert_eq!(find32(&table, 14), None);
    assert_eq!(find32(&vec![], 1), None);
    let table = vec![10u64, 1 << 40, u64::MAX];
    assert_eq!(find64(&table, 1 << 40), Some(1));
    assert_eq!(find64(&table, u64::MAX), Some(2));
    assert_eq!(find64(&table, 11), None);
}
