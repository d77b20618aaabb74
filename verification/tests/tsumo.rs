use mahjong_dp::converter::HandConverter;
use mahjong_dp::hand::Hand;
use mahjong_dp::tables::{build_honor_lookup, build_suited_lookup, normalize64};
use mahjong_dp::tsumo::{
    agari_ids, check, compress, discard_value, dp13_to_dp14, dp14_r0, dp14_to_dp13, draw_value,
    headroom_of, next_round, pow123, tsumo_round,
};

fn benchmark_hand() -> Hand {
    Hand {
        supai: [
            [0, 0, 0, 0, 0, 1, 1, 1, 0],
            [0, 0, 0, 0, 1, 1, 0, 0, 0],
            [0, 1, 2, 0, 0, 0, 1, 1, 1],
        ],
        jihai: [6, 0, 1, 0, 0],
    }
}

/// The benchmark hand with the four of pin drawn.
fn drawn_hand() -> Hand {
    let mut hand = benchmark_hand();
    hand.supai[1][3] += 1;
    hand
}

/// The converter that numbers the hands that the benchmark hand of 14 tiles
/// can discard into, and the hands that the benchmark hand of 13 tiles can
/// draw into.
fn small_converter() -> HandConverter {
    let su = build_suited_lookup();
    let ji = build_honor_lookup();
    let base = HandConverter::from_parts(su.clone(), ji.clone(), vec![], vec![]).unwrap();
    let mut k13: Vec<u64> = drawn_hand()
        .for_each_discard_hand()
        .iter()
        .map(|m| base.encode_into_key_fast(&m.0))
        .collect();
    normalize64(&mut k13);
    let mut k14: Vec<u64> = benchmark_hand()
        .for_each_draw_hand()
        .iter()
        .map(|m| base.encode_into_key_fast(&m.0))
        .collect();
    normalize64(&mut k14);
    HandConverter::from_parts(su, ji, k13, k14).unwrap()
}

#[test]
fn draw_value_weighs_each_successor_by_the_tiles_left() {
    let conv = small_converter();
    let ones = vec![1u128; 29];
    assert_eq!(draw_value(&conv, &ones, 5), Some(123));
    let ramp: Vec<u128> = (0..29).map(|id| id + 1).collect();
    assert_eq!(draw_value(&conv, &ramp, 5), Some(1570));
    let mixed: Vec<u128> = (0..29).map(|id| (7 * id + 3) % 11).collect();
    assert_eq!(draw_value(&conv, &mixed, 5), Some(565));
}

#[test]
fn draw_value_needs_every_successor_numbered() {
    let conv = small_converter();
    let ones = vec![1u128; 29];
    // the draws of the other hands of 13 tiles lead out of the small tables
    assert_eq!(draw_value(&conv, &ones, 0), None);
    assert_eq!(dp14_to_dp13(&conv, &ones), None);
}

#[test]
fn discard_value_is_the_best_count_left() {
    let conv = small_converter();
    let id = conv.encode_hand14_fast(&drawn_hand()) as usize;
    let dp13: Vec<u128> = vec![3, 1, 3, 3, 0, 4, 4, 4, 4, 1, 0];
    assert_eq!(discard_value(&conv, &dp13, id), Some(4));
    let dp13: Vec<u128> = vec![9, 0, 0, 0, 0, 0, 0, 0, 0, 0, 0];
    assert_eq!(discard_value(&conv, &dp13, id), Some(9));
    let zeros = vec![0u128; 11];
    assert_eq!(discard_value(&conv, &zeros, id), Some(0));
    assert_eq!(dp13_to_dp14(&conv, &zeros, &[], 1), None);
}

#[test]
fn steps_over_tables_that_are_closed_under_moves() {
    // without hands there is nothing to step over, and nothing uncovered
    let su = build_suited_lookup();
    let ji = build_honor_lookup();
    let conv = HandConverter::from_parts(su, ji, vec![], vec![]).unwrap();
    assert_eq!(dp14_to_dp13(&conv, &[]), Some(vec![]));
    assert_eq!(dp13_to_dp14(&conv, &[], &[], 123), Some(vec![]));
    assert_eq!(tsumo_round(&conv, 1, &[], &[]), Some(vec![]));
    assert_eq!(tsumo_round(&conv, 2, &[], &[]), Some(vec![]));
}

#[test]
fn round_zero_needs_every_winning_hand_numbered() {
    let conv = small_converter();
    assert_eq!(dp14_r0(&conv), None);
}

#[test]
fn check_reads_the_count_of_the_benchmark_hand() {
    let conv = small_converter();
    let table: Vec<u128> = (0..11).map(|id| 100 + id).collect();
    assert_eq!(check(&conv, &table), Some(105));
    assert_eq!(check(&HandConverter::empty(), &vec![]), None);
}

#[test]
fn agari_ids_are_the_positions_that_hold_a_count() {
    assert_eq!(agari_ids(&[0, 1, 0, 0, 1, 1, 0]), vec![1, 4, 5]);
    assert_eq!(agari_ids(&[]), Vec::<u32>::new());
    assert_eq!(agari_ids(&[0, 0]), Vec::<u32>::new());
}

#[test]
fn next_round_follows_the_last_round_on_hand() {
    assert_eq!(next_round(None), 0);
    assert_eq!(next_round(Some(0)), 1);
    assert_eq!(next_round(Some(35)), 36);
}

#[test]
fn pow123_is_the_full_count_of_a_round() {
    assert_eq!(pow123(0), 1);
    assert_eq!(pow123(1), 123);
    assert_eq!(pow123(2), 15129);
    assert_eq!(pow123(18), 41523313845938407018380933934574615769);
}

#[test]
fn headroom_is_the_leading_zeros_up_to_32() {
    assert_eq!(headroom_of(0), 32);
    assert_eq!(headroom_of(1), 32);
    assert_eq!(headroom_of((1u128 << 96) - 1), 32);
    assert_eq!(headroom_of(1u128 << 96), 31);
    assert_eq!(headroom_of(1u128 << 127), 0);
    assert_eq!(headroom_of(u128::MAX), 0);
    assert_eq!(headroom_of(pow123(18)), 3);
}

#[test]
fn compress_packs_a_share_into_32_bits() {
    // a hand that has won holds the full count of its round
    assert_eq!(compress(1, 1), u32::MAX);
    assert_eq!(compress(123, 123), u32::MAX);
    assert_eq!(compress(pow123(17), pow123(17)), u32::MAX);
    assert_eq!(compress(pow123(18), pow123(18)), u32::MAX);
    assert_eq!(compress(0, 123), 0);
    assert_eq!(compress(0, pow123(18)), 0);
    // four winning tiles out of 123
    assert_eq!(compress(4, 123), 139673733);
    assert_eq!(compress(1, 123), 34918433);
    assert_eq!(compress(1, 2), 1 << 31);
    // a large count is shifted by its own headroom only
    let v = pow123(18) / 2;
    let k = headroom_of(v);
    assert_eq!(k, 4);
    assert_eq!(compress(v, pow123(18)) as u128, (v << 4) / (pow123(18) >> 28));
    assert_eq!(compress(v, pow123(18)), 0x8000_0000);
}

#[test]
fn compress_may_round_a_large_share_up() {
    // two counts that stand for nearly the same share, one round apart: the divisor of
    // the earlier one loses more in the shift, and its packed value is the larger one
    let earlier = pow123(15) / 8 - 2;
    let later = 123 * earlier;
    assert_eq!(compress(earlier, pow123(15)), 536870912);
    assert_eq!(compress(later, pow123(16)), 536870911);
    // counts below 2^96 are packed to the floor of their share
    assert_eq!(compress(pow123(13) / 8 - 2, pow123(13)), 536870911);
    assert_eq!(compress(123 * (pow123(13) / 8 - 2), pow123(14)), 536870911);
}

#[test]
fn compress_of_a_large_count_is_the_share_or_one_more() {
    // three quarters of a full count of 2^120
    let full: u128 = 1 << 120;
    assert_eq!(compress(3 * (full / 4), full), 3 << 30);
    // just under a half and just under a quarter of an odd full count: the floors of
    // the shares are 2^31 - 1 and 2^30 - 1, and the shifted divisor gives one more
    let odd = pow123(18);
    assert_eq!(compress(odd / 2, odd), 1 << 31);
    assert_eq!(compress(odd / 4, odd), 1 << 30);
}

#[test]
fn a_round_that_draws_needs_room_for_the_factor_123() {
    let conv = small_converter();
    let mut prev = vec![0u128; 29];
    prev[3] = u128::MAX / 123 + 1;
    assert_eq!(tsumo_round(&conv, 1, &prev, &[]), None);
    // with room, the round fails for the hands whose draws the small tables lack
    prev[3] = u128::MAX / 123;
    assert_eq!(tsumo_round(&conv, 1, &prev, &[]), None);
    assert_eq!(tsumo_round(&conv, 2, &vec![0u128; 11], &[]), None);
}
