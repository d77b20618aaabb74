use mahjong_dp::agari::{melds_to_hand, orphans, pairs_to_hand, within_four};
use mahjong_dp::hand::Hand;

#[test]
fn melds_make_the_tiles_of_runs_and_triplets() {
    // 123m, 789s, 555p, and a triplet of honors
    let hand = melds_to_hand(&vec![0, 20, 21 + 9 + 4, 48]);
    assert_eq!(hand.supai[0], [1, 1, 1, 0, 0, 0, 0, 0, 0]);
    assert_eq!(hand.supai[1], [0, 0, 0, 0, 3, 0, 0, 0, 0]);
    assert_eq!(hand.supai[2], [0, 0, 0, 0, 0, 0, 1, 1, 1]);
    assert_eq!(hand.jihai, [6, 0, 0, 1, 0]);
    assert_eq!(hand.num_tiles(), 12);
}

#[test]
fn melds_may_pile_up_more_than_four_copies() {
    let hand = melds_to_hand(&vec![21, 21, 21, 21]);
    assert_eq!(hand.supai[0][0], 12);
    assert!(!within_four(&hand));
    let hand = melds_to_hand(&vec![0, 0, 0, 0]);
    assert_eq!(hand.supai[0], [4, 4, 4, 0, 0, 0, 0, 0, 0]);
    assert!(within_four(&hand));
    let hand = melds_to_hand(&vec![0, 0, 0, 21]);
    assert_eq!(hand.supai[0][0], 6);
    assert!(!within_four(&hand));
    let hand = melds_to_hand(&vec![48, 48, 48, 48]);
    assert_eq!(hand.jihai, [3, 0, 0, 4, 0]);
    assert!(within_four(&hand));
}

#[test]
fn no_melds_make_the_empty_hand() {
    assert_eq!(melds_to_hand(&vec![]), Hand::new());
}

#[test]
fn seven_pairs_hold_two_of_each_kind() {
    let hand = pairs_to_hand(&vec![0, 8, 9, 26, 27, 30, 33]);
    assert_eq!(hand.supai[0], [2, 0, 0, 0, 0, 0, 0, 0, 2]);
    assert_eq!(hand.supai[1], [2, 0, 0, 0, 0, 0, 0, 0, 0]);
    assert_eq!(hand.supai[2], [0, 0, 0, 0, 0, 0, 0, 0, 2]);
    assert_eq!(hand.jihai, [4, 0, 3, 0, 0]);
    assert_eq!(hand.num_tiles(), 14);
    let hand = pairs_to_hand(&vec![27, 28, 29, 30, 31, 32, 33]);
    assert_eq!(hand.jihai, [0, 0, 7, 0, 0]);
}

#[test]
fn thirteen_orphans_in_both_forms() {
    let hand = orphans(false);
    assert_eq!(hand.supai[0], [2, 0, 0, 0, 0, 0, 0, 0, 1]);
    assert_eq!(hand.supai[1], [1, 0, 0, 0, 0, 0, 0, 0, 1]);
    assert_eq!(hand.supai[2], [1, 0, 0, 0, 0, 0, 0, 0, 1]);
    assert_eq!(hand.jihai, [0, 7, 0, 0, 0]);
    assert_eq!(hand.num_tiles(), 14);
    let hand = orphans(true);
    assert_eq!(hand.supai[0], [1, 0, 0, 0, 0, 0, 0, 0, 1]);
    assert_eq!(hand.jihai, [0, 6, 1, 0, 0]);
    assert_eq!(hand.num_tiles(), 14);
}
