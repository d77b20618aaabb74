use mahjong_dp::converter::HandConverter;
use mahjong_dp::hand::Hand;
use mahjong_dp::tables::{build_honor_lookup, build_suited_lookup, normalize64};

fn benchmark_hand() -> Hand {
    Hand {
        supai: [
            [0, 0, 0, 0, 0, 1, 1, 1, 0],
            [0, 0, 0, 0, 1, 1, 0, 0, 0],
            [0, 1, 2, 0, 0, 0, 1, 1, 1],
        ],
        jihai: [6, 0, 1, 0, 0],
    }
}

/// The benchmark hand with the four of pin drawn.
fn drawn_hand() -> Hand {
    let mut hand = benchmark_hand();
    hand.supai[1][3] += 1;
    hand
}

/// The converter that numbers the hands that the benchmark hand of 14 tiles
/// can discard into, and the hands that the benchmark hand of 13 tiles can
/// draw into.
fn small_converter() -> HandConverter {
    let su = build_suited_lookup();
    let ji = build_honor_lookup();
    let base = HandConverter::from_parts(su.clone(), ji.clone(), vec![], vec![]).unwrap();
    let mut k13: Vec<u64> = drawn_hand()
        .for_each_discard_hand()
        .iter()
        .map(|m| base.encode_into_key_fast(&m.0))
        .collect();
    normalize64(&mut k13);
    let mut k14: Vec<u64> = benchmark_hand()
        .for_each_draw_hand()
        .iter()
        .map(|m| base.encode_into_key_fast(&m.0))
        .collect();
    normalize64(&mut k14);
    HandConverter::from_parts(su, ji, k13, k14).unwrap()
}

#[test]
fn small_converter_numbers_the_benchmark_hands() {
    let conv = small_converter();
    assert_eq!(conv.num_hand13(), 11);
    assert_eq!(conv.num_hand14(), 29);
    assert_eq!(conv.hand13_lookup()[5], 3138587964958048411);
    assert_eq!(conv.suited_lookup().len(), 203_122);
    assert_eq!(conv.honor_lookup().len(), 177);
}

#[test]
fn encode_gives_the_position_of_the_key_and_the_translation() {
    let conv = small_converter();
    assert_eq!(conv.encode_into_key(&benchmark_hand()), (3138587964958048411, [0, 1, 2]));
    assert_eq!(conv.try_encode_hand13(&benchmark_hand()), Some((5, [0, 1, 2])));
    assert_eq!(conv.encode_hand13(&benchmark_hand()), (5, [0, 1, 2]));
    assert_eq!(conv.encode_hand13_fast(&benchmark_hand()), 5);
    assert_eq!(conv.encode_into_key_fast(&drawn_hand()), 3138587965709353115);
    let id = conv.encode_hand14_fast(&drawn_hand());
    assert_eq!(conv.hand14_lookup()[id as usize], 3138587965709353115);
    assert_eq!(conv.encode_hand14(&drawn_hand()), (id, [0, 1, 2]));
    assert_eq!(conv.try_encode_hand14_fast(&drawn_hand()), Some(id));
}

#[test]
fn encode_reports_mirrored_suits_as_negative_entries() {
    let conv = small_converter();
    // 123m123p123s with honors: every suit is larger than its mirror image,
    // and the three equal patterns are ordered by their signs
    let hand = Hand {
        supai: [[1, 1, 1, 0, 0, 0, 0, 0, 0]; 3],
        jihai: [5, 0, 1, 1, 0],
    };
    assert_eq!(conv.encode_into_key(&hand), (2990392282885914655, [-3, -2, -1]));
    assert_eq!(conv.encode_into_key_fast(&hand), 2990392282885914655);
    assert_eq!(conv.try_encode_into_key(&hand), Some((2990392282885914655, [-3, -2, -1])));
}

#[test]
fn encode_names_the_suit_of_each_canonical_position() {
    let conv = small_converter();
    // the discard of the six of pin leaves 45p, whose mirror image 56p stands for it
    let mut hand = drawn_hand();
    hand.supai[1][5] -= 1;
    assert_eq!(conv.encode_hand13(&hand), (5, [0, -2, 2]));
    // the same hand with man and sou swapped
    let swapped = Hand { supai: [hand.supai[2], hand.supai[1], hand.supai[0]], jihai: hand.jihai };
    assert_eq!(conv.encode_hand13(&swapped), (5, [2, -2, 0]));
}

#[test]
fn hands_that_differ_by_a_symmetry_share_a_number() {
    let conv = small_converter();
    let hand = benchmark_hand();
    let id = conv.encode_hand13_fast(&hand);
    for perm in [[0, 1, 2], [0, 2, 1], [1, 0, 2], [1, 2, 0], [2, 0, 1], [2, 1, 0]] {
        for flips in 0..8u8 {
            let mut other = Hand { supai: [[0; 9]; 3], jihai: hand.jihai };
            for c in 0..3 {
                let mut row = hand.supai[perm[c]];
                if flips & (1 << c) != 0 {
                    row.reverse();
                }
                other.supai[c] = row;
            }
            assert_eq!(conv.encode_hand13_fast(&other), id);
        }
    }
}

#[test]
fn decode_gives_the_canonical_form() {
    let conv = small_converter();
    assert_eq!(conv.decode_hand13(5), benchmark_hand());
    let mut hand = drawn_hand();
    hand.supai[1][5] -= 1;
    let (id, trans) = conv.encode_hand13(&hand);
    let canonical = conv.decode_hand13(id);
    assert_eq!(canonical.jihai, hand.jihai);
    for c in 0..3 {
        let t = trans[c];
        let mut row = if t >= 0 { hand.supai[t as usize] } else { hand.supai[!t as usize] };
        if t < 0 {
            row.reverse();
        }
        assert_eq!(canonical.supai[c], row);
    }
}

#[test]
fn encode_of_decode_is_the_number() {
    let conv = small_converter();
    for id in 0..conv.num_hand13() as u32 {
        let hand = conv.decode_hand13(id);
        assert_eq!(hand.num_tiles(), 13);
        assert_eq!(conv.encode_hand13_fast(&hand), id);
        assert_eq!(conv.encode_hand13(&hand), (id, [0, 1, 2]));
    }
    for id in 0..conv.num_hand14() as u32 {
        let hand = conv.decode_hand14(id);
        assert_eq!(hand.num_tiles(), 14);
        assert_eq!(conv.encode_hand14_fast(&hand), id);
    }
}

#[test]
fn decode_from_key_unpacks_the_four_fields() {
    let conv = small_converter();
    assert_eq!(conv.decode_from_key(3138587964958048411), benchmark_hand());
}

#[test]
fn try_encode_refuses_a_hand_that_the_tables_do_not_number() {
    let conv = small_converter();
    let mut hand = Hand::new();
    hand.supai[0][0] = 4;
    hand.supai[0][1] = 4;
    hand.supai[0][2] = 4;
    hand.supai[0][3] = 1;
    assert_eq!(hand.num_tiles(), 13);
    assert_eq!(conv.try_encode_hand13(&hand), None);
    assert_eq!(conv.try_encode_hand13_fast(&hand), None);
    assert_eq!(conv.try_encode_hand14_fast(&hand), None);
    // the pattern tables list what the hand is made of, so it has a key
    assert!(conv.try_encode_into_key_fast(&hand).is_some());
    // more than fourteen tiles in one suit: no pattern for it
    hand.supai[0][4] = 4;
    assert_eq!(conv.try_encode_into_key_fast(&hand), None);
    assert_eq!(conv.try_encode_into_key(&hand), None);
}

#[test]
fn empty_converter_numbers_nothing() {
    let conv = HandConverter::empty();
    assert_eq!(conv.num_hand13(), 0);
    assert_eq!(conv.num_hand14(), 0);
    assert_eq!(conv.try_encode_hand13_fast(&benchmark_hand()), None);
}
