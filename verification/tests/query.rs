use mahjong_dp::converter::HandConverter;
use mahjong_dp::hand::Hand;
use mahjong_dp::parse_hand_str;
use mahjong_dp::query::{
    check_tiles, mentsu_answer, mentsu_label, mentsu_query, tsumo_answer, tsumo_query,
    MentsuQuery, TsumoQuery,
};
use mahjong_dp::tables::{build_honor_lookup, build_suited_lookup, normalize64};
use mahjong_dp::{Dimension, Error, Metrics, Tile};

fn benchmark_hand() -> Hand {
    Hand {
        supai: [
            [0, 0, 0, 0, 0, 1, 1, 1, 0],
            [0, 0, 0, 0, 1, 1, 0, 0, 0],
            [0, 1, 2, 0, 0, 0, 1, 1, 1],
        ],
        jihai: [6, 0, 1, 0, 0],
    }
}

fn drawn_hand() -> Hand {
    let mut hand = benchmark_hand();
    hand.supai[1][3] += 1;
    hand
}

fn small_converter() -> HandConverter {
    let su = build_suited_lookup();
    let ji = build_honor_lookup();
    let base = HandConverter::from_parts(su.clone(), ji.clone(), vec![], vec![]).unwrap();
    let mut k13: Vec<u64> = drawn_hand()
        .for_each_discard_hand()
        .iter()
        .map(|m| base.encode_into_key_fast(&m.0))
        .collect();
    normalize64(&mut k13);
    let mut k14: Vec<u64> = benchmark_hand()
        .for_each_draw_hand()
        .iter()
        .map(|m| base.encode_into_key_fast(&m.0))
        .collect();
    normalize64(&mut k14);
    HandConverter::from_parts(su, ji, k13, k14).unwrap()
}

#[test]
fn check_tiles_accepts_hands_and_nothing_else() {
    assert!(check_tiles(&parse_hand_str("678m56p233789s11z").unwrap()));
    assert!(check_tiles(&parse_hand_str("1111m2222m3333m44m").unwrap()));
    assert!(check_tiles(&[]));
    assert!(!check_tiles(&parse_hand_str("11111m").unwrap()));
    assert!(!check_tiles(&parse_hand_str("77777z").unwrap()));
    assert!(!check_tiles(&parse_hand_str("8z").unwrap()));
    assert!(!check_tiles(&[Tile::Supai(3, 0)]));
    assert!(!check_tiles(&[Tile::Supai(0, 9)]));
}

#[test]
fn tsumo_query_names_the_records_of_the_hand() {
    let conv = small_converter();
    let tiles = parse_hand_str("678m56p233789s11z").unwrap();
    assert_eq!(
        tsumo_query(&conv, &tiles),
        Ok(TsumoQuery { thirteen: true, hand_id: 5, start: 90, end: 108 })
    );
    let tiles = parse_hand_str("678m456p233789s11z").unwrap();
    let id = conv.encode_hand14_fast(&drawn_hand());
    assert_eq!(
        tsumo_query(&conv, &tiles),
        Ok(TsumoQuery {
            thirteen: false,
            hand_id: id,
            start: id as u64 * 18,
            end: id as u64 * 18 + 18
        })
    );
}

#[test]
fn tsumo_query_refuses_other_lengths() {
    let conv = small_converter();
    let tiles = parse_hand_str("678m56p233789s1z").unwrap();
    assert_eq!(tsumo_query(&conv, &tiles), Err(Error::InvalidHandLength(12)));
    let tiles = parse_hand_str("678m56p233789s1122z").unwrap();
    assert_eq!(tsumo_query(&conv, &tiles), Err(Error::InvalidHandLength(15)));
    assert_eq!(tsumo_query(&conv, &[]), Err(Error::InvalidHandLength(0)));
}

#[test]
fn queries_report_a_hand_that_the_tables_do_not_number() {
    let conv = small_converter();
    let tiles = parse_hand_str("1111m2222m3333m4m").unwrap();
    assert_eq!(tsumo_query(&conv, &tiles), Err(Error::UnknownHand));
    assert_eq!(mentsu_query(&conv, &tiles, 1), Err(Error::UnknownHand));
}

#[test]
fn tsumo_answer_counts_draws_from_one_for_13_tiles_and_from_zero_for_14() {
    assert_eq!(tsumo_answer(true, &[5, 6, 7]), vec![(1, 5), (2, 6), (3, 7)]);
    assert_eq!(tsumo_answer(false, &[5, 6, 7]), vec![(0, 5), (1, 6), (2, 7)]);
    assert_eq!(tsumo_answer(true, &[]), vec![]);
}

#[test]
fn mentsu_query_names_the_record_of_the_round() {
    let conv = small_converter();
    let tiles = parse_hand_str("678m56p233789s11z").unwrap();
    assert_eq!(
        mentsu_query(&conv, &tiles, 1),
        Ok(MentsuQuery {
            thirteen: true,
            index: 90,
            trans: [0, 1, 2],
            jihai_cnt: [2, 0, 0, 0, 0, 0, 0]
        })
    );
    assert_eq!(mentsu_query(&conv, &tiles, 18).unwrap().index, 107);
    let tiles = parse_hand_str("678m456p233789s11z").unwrap();
    let id = conv.encode_hand14_fast(&drawn_hand()) as u64;
    assert_eq!(mentsu_query(&conv, &tiles, 0).unwrap().index, id * 18);
    assert_eq!(mentsu_query(&conv, &tiles, 17).unwrap().index, id * 18 + 17);
    assert!(!mentsu_query(&conv, &tiles, 17).unwrap().thirteen);
}

#[test]
fn mentsu_query_refuses_draws_outside_the_rounds() {
    let conv = small_converter();
    let tiles = parse_hand_str("678m56p233789s11z").unwrap();
    assert_eq!(mentsu_query(&conv, &tiles, 0), Err(Error::InvalidDrawsLeft(0)));
    assert_eq!(mentsu_query(&conv, &tiles, 19), Err(Error::InvalidDrawsLeft(19)));
    let tiles = parse_hand_str("678m456p233789s11z").unwrap();
    assert_eq!(mentsu_query(&conv, &tiles, 18), Err(Error::InvalidDrawsLeft(18)));
    let tiles = parse_hand_str("678m").unwrap();
    assert_eq!(mentsu_query(&conv, &tiles, 1), Err(Error::InvalidHandLength(3)));
}

#[test]
fn mentsu_query_reports_the_translation_of_a_mirrored_hand() {
    let conv = small_converter();
    // 45p in place of 56p: the mirror image of the benchmark hand in pin
    let tiles = parse_hand_str("678m45p233789s11z").unwrap();
    let q = mentsu_query(&conv, &tiles, 3).unwrap();
    assert_eq!(q.index, 5 * 18 + 2);
    assert_eq!(q.trans, [0, -2, 2]);
}

#[test]
fn mentsu_answer_reads_the_record_in_the_frame_of_the_hand() {
    let mut met = Metrics::new();
    for d in 0..86 {
        met.values[d] = d as u32;
    }
    // canonical suit 0 is sou mirrored, suit 1 is man, suit 2 is pin
    let answer = mentsu_answer(&met, &[-3, 0, 1], &[0, 2, 2, 3, 0, 0, 1]);
    assert_eq!(answer[0], (Dimension::Shuntsu(Tile::Supai(2, 6)), 0));
    assert_eq!(answer[6], (Dimension::Shuntsu(Tile::Supai(2, 0)), 6));
    assert_eq!(answer[7], (Dimension::Shuntsu(Tile::Supai(0, 0)), 7));
    assert_eq!(answer[20], (Dimension::Shuntsu(Tile::Supai(1, 6)), 20));
    assert_eq!(answer[21], (Dimension::Kotsu(Tile::Supai(2, 8)), 21));
    assert_eq!(answer[30], (Dimension::Kotsu(Tile::Supai(0, 0)), 30));
    // honor triplets: the hand holds the first, fifth and sixth honor not at all, the
    // seventh once, the second and third twice, and the fourth three times
    assert_eq!(
        &answer[48..55],
        &[
            (Dimension::Kotsu(Tile::Jihai(0)), 48),
            (Dimension::Kotsu(Tile::Jihai(4)), 48),
            (Dimension::Kotsu(Tile::Jihai(5)), 48),
            (Dimension::Kotsu(Tile::Jihai(6)), 49),
            (Dimension::Kotsu(Tile::Jihai(1)), 50),
            (Dimension::Kotsu(Tile::Jihai(2)), 50),
            (Dimension::Kotsu(Tile::Jihai(3)), 51),
        ]
    );
    assert_eq!(answer[55], (Dimension::Toitsu(Tile::Supai(2, 8)), 53));
    assert_eq!(answer.len(), 21 + 27 + 7 + 27 + 7 + 1);
    assert_eq!(answer[answer.len() - 1], (Dimension::Kokushi, 85));
    assert_eq!(answer[answer.len() - 2], (Dimension::Toitsu(Tile::Jihai(3)), 83));
}

#[test]
fn labels_name_the_tiles_of_an_element() {
    assert_eq!(mentsu_label(&Dimension::Shuntsu(Tile::Supai(0, 0))), "123m");
    assert_eq!(mentsu_label(&Dimension::Shuntsu(Tile::Supai(2, 6))), "789s");
    assert_eq!(mentsu_label(&Dimension::Kotsu(Tile::Supai(1, 4))), "555p");
    assert_eq!(mentsu_label(&Dimension::Kotsu(Tile::Jihai(0))), "111z");
    assert_eq!(mentsu_label(&Dimension::Toitsu(Tile::Supai(2, 8))), "99s");
    assert_eq!(mentsu_label(&Dimension::Toitsu(Tile::Jihai(6))), "77z");
    assert_eq!(mentsu_label(&Dimension::Kokushi), "Kokushi");
}
