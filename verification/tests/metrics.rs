use mahjong_dp::converter::HandConverter;
use mahjong_dp::hand::Hand;
use mahjong_dp::metrics::{
    derive_13_jihai, derive_13_kokushi, derive_13_supai, derive_14_jihai, derive_14_kokushi,
    derive_14_supai, process_13_to_14_jihai, process_13_to_14_kokushi, process_13_to_14_supai,
    process_14_to_13_jihai,
    process_14_to_13_kokushi, process_14_to_13_supai, seed,
};
use mahjong_dp::tables::{build_honor_lookup, build_suited_lookup, normalize64};

fn benchmark_hand() -> Hand {
    Hand {
        supai: [
            [0, 0, 0, 0, 0, 1, 1, 1, 0],
            [0, 0, 0, 0, 1, 1, 0, 0, 0],
            [0, 1, 2, 0, 0, 0, 1, 1, 1],
        ],
        jihai: [6, 0, 1, 0, 0],
    }
}

/// The benchmark hand with the four of pin drawn.
fn drawn_hand() -> Hand {
    let mut hand = benchmark_hand();
    hand.supai[1][3] += 1;
    hand
}

/// The converter that numbers the hands that the benchmark hand of 14 tiles
/// can discard into, and the hands that the benchmark hand of 13 tiles can
/// draw into.
fn small_converter() -> HandConverter {
    let su = build_suited_lookup();
    let ji = build_honor_lookup();
    let base = HandConverter::from_parts(su.clone(), ji.clone(), vec![], vec![]).unwrap();
    let mut k13: Vec<u64> = drawn_hand()
        .for_each_discard_hand()
        .iter()
        .map(|m| base.encode_into_key_fast(&m.0))
        .collect();
    normalize64(&mut k13);
    let mut k14: Vec<u64> = benchmark_hand()
        .for_each_draw_hand()
        .iter()
        .map(|m| base.encode_into_key_fast(&m.0))
        .collect();
    normalize64(&mut k14);
    HandConverter::from_parts(su, ji, k13, k14).unwrap()
}


struct Lcg(u64);

impl Lcg {
    fn next(&mut self) -> u32 {
        self.0 = self.0.wrapping_mul(6364136223846793005).wrapping_add(1442695040888963407);
        ((self.0 >> 33) & 0xffff_ffff) as u32
    }
}

struct Tables13 {
    tsumo: Vec<u128>,
    supai: Vec<[[u32; 2]; 3]>,
    jihai: Vec<[u32; 5]>,
    kokushi: Vec<u32>,
}

fn tables13() -> Tables13 {
    let mut rng = Lcg(7);
    let tsumo: Vec<u128> = (0..11).map(|_| (rng.next() % 5) as u128).collect();
    let mut supai = vec![[[0u32; 2]; 3]; 11];
    for record in supai.iter_mut() {
        for suit in record.iter_mut() {
            for v in suit.iter_mut() {
                *v = rng.next() >> 2;
            }
        }
    }
    let mut jihai = vec![[0u32; 5]; 11];
    for record in jihai.iter_mut() {
        for v in record.iter_mut() {
            *v = rng.next() >> 2;
        }
    }
    let kokushi: Vec<u32> = (0..11).map(|_| rng.next() >> 2).collect();
    Tables13 { tsumo, supai, jihai, kokushi }
}

struct Tables14 {
    supai: Vec<[[u32; 2]; 3]>,
    jihai: Vec<[u32; 5]>,
    kokushi: Vec<u32>,
}

fn tables14() -> Tables14 {
    let mut rng = Lcg(11);
    let mut supai = vec![[[0u32; 2]; 3]; 29];
    for record in supai.iter_mut() {
        for suit in record.iter_mut() {
            for v in suit.iter_mut() {
                *v = rng.next() >> 2;
            }
        }
    }
    let mut jihai = vec![[0u32; 5]; 29];
    for record in jihai.iter_mut() {
        for v in record.iter_mut() {
            *v = rng.next() >> 2;
        }
    }
    let kokushi: Vec<u32> = (0..29).map(|_| rng.next() >> 2).collect();
    Tables14 { supai, jihai, kokushi }
}

#[test]
fn tables_of_the_tests_hold_the_expected_values() {
    let t = tables13();
    assert_eq!(t.tsumo, vec![3, 1, 3, 3, 0, 4, 4, 4, 4, 1, 0]);
    assert_eq!(t.supai[0], [[300188268, 104123408], [341185820, 121786487], [33947240, 479108351]]);
    assert_eq!(t.jihai[0], [284576445, 34297812, 50221933, 36220458, 27988283]);
    assert_eq!(t.kokushi[0], 55074685);
    assert_eq!(t.kokushi[10], 463920396);
}

#[test]
fn suited_record_of_a_hand_of_14_averages_the_best_discards() {
    let conv = small_converter();
    let t = tables13();
    let id = conv.encode_hand14_fast(&drawn_hand()) as usize;
    assert_eq!(
        derive_14_supai(&conv, &t.supai, &t.tsumo, id),
        Some([[246848611, 366236627], [266979612, 302973346], [259926812, 303916241]])
    );
}

#[test]
fn honor_record_of_a_hand_of_14_averages_the_best_discards() {
    let conv = small_converter();
    let t = tables13();
    let id = conv.encode_hand14_fast(&drawn_hand()) as usize;
    assert_eq!(
        derive_14_jihai(&conv, &t.jihai, &t.tsumo, id),
        Some([171061156, 114185677, 285474066, 363941277, 139630741])
    );
}

#[test]
fn orphan_value_of_a_hand_of_14_averages_the_best_discards() {
    let conv = small_converter();
    let t = tables13();
    let id = conv.encode_hand14_fast(&drawn_hand()) as usize;
    assert_eq!(derive_14_kokushi(&conv, &t.kokushi, &t.tsumo, id), Some(422337670));
}

#[test]
fn unique_best_discard_hands_its_record_on() {
    let conv = small_converter();
    let t = tables13();
    let id = conv.encode_hand14_fast(&drawn_hand()) as usize;
    // the hand left by the discard of the drawn tile is the benchmark hand, number 5
    let mut tsumo = vec![0u128; 11];
    tsumo[5] = 1;
    // two discards lead to number 5: one keeps the frame, one mirrors the pin
    let a = t.supai[5];
    let got = derive_14_supai(&conv, &t.supai, &tsumo, id).unwrap();
    assert_eq!(got[0], a[0]);
    assert_eq!(got[2], a[2]);
    assert_eq!(got[1][0], ((a[1][0] as u64 + a[1][1] as u64) / 2) as u32);
    assert_eq!(got[1][1], ((a[1][0] as u64 + a[1][1] as u64) / 2) as u32);
    assert_eq!(derive_14_kokushi(&conv, &t.kokushi, &tsumo, id), Some(t.kokushi[5]));
    assert_eq!(derive_14_jihai(&conv, &t.jihai, &tsumo, id), Some(t.jihai[5]));
    // a single best discard: the two of sou, held twice, leads to number 1
    let mut tsumo = vec![0u128; 11];
    tsumo[1] = 7;
    assert_eq!(derive_14_supai(&conv, &t.supai, &tsumo, id), Some(t.supai[1]));
    assert_eq!(derive_14_kokushi(&conv, &t.kokushi, &tsumo, id), Some(t.kokushi[1]));
}

#[test]
fn records_of_a_hand_of_13_average_over_the_wall() {
    let conv = small_converter();
    let t = tables14();
    assert_eq!(
        derive_13_supai(&conv, &t.supai, 5),
        Some([[339462530, 269044833], [207605917, 215910549], [273007805, 293162730]])
    );
    assert_eq!(
        derive_13_jihai(&conv, &t.jihai, 5),
        Some([263483899, 213614129, 231455534, 293254228, 206895246])
    );
    assert_eq!(derive_13_kokushi(&conv, &t.kokushi, 5), Some(235802386));
}

#[test]
fn constant_tables_stay_constant() {
    let conv = small_converter();
    let id = conv.encode_hand14_fast(&drawn_hand()) as usize;
    let tsumo = vec![2u128; 11];
    assert_eq!(derive_14_kokushi(&conv, &vec![1000; 11], &tsumo, id), Some(1000));
    assert_eq!(derive_14_supai(&conv, &vec![[[77; 2]; 3]; 11], &tsumo, id), Some([[77; 2]; 3]));
    assert_eq!(derive_14_jihai(&conv, &vec![[5; 5]; 11], &tsumo, id), Some([5; 5]));
    assert_eq!(derive_13_kokushi(&conv, &vec![u32::MAX; 29], 5), Some(u32::MAX));
    assert_eq!(derive_13_supai(&conv, &vec![[[9; 2]; 3]; 29], 5), Some([[9; 2]; 3]));
    assert_eq!(derive_13_jihai(&conv, &vec![[123; 5]; 29], 5), Some([123; 5]));
}

#[test]
fn derivations_need_every_successor_numbered() {
    let conv = small_converter();
    let t13 = tables13();
    let t14 = tables14();
    assert_eq!(derive_13_kokushi(&conv, &t14.kokushi, 0), None);
    assert_eq!(derive_13_supai(&conv, &t14.supai, 0), None);
    assert_eq!(derive_13_jihai(&conv, &t14.jihai, 0), None);
    assert_eq!(derive_14_kokushi(&conv, &t13.kokushi, &t13.tsumo, 0), None);
    let mut out = vec![0u32; 11];
    assert!(!process_14_to_13_kokushi(&conv, &t14.kokushi, &mut out));
    let mut out = vec![[[0u32; 2]; 3]; 11];
    assert!(!process_14_to_13_supai(&conv, &t14.supai, &mut out));
    let mut out = vec![[0u32; 5]; 11];
    assert!(!process_14_to_13_jihai(&conv, &t14.jihai, &mut out));
    let mut out = vec![0u32; 29];
    assert!(!process_13_to_14_kokushi(&conv, &t13.kokushi, &mut out, &t13.tsumo, &[]));
    let mut out = vec![[[0u32; 2]; 3]; 29];
    assert!(!process_13_to_14_supai(&conv, &t13.supai, &mut out, &t13.tsumo, &[]));
    let mut out = vec![[0u32; 5]; 29];
    assert!(!process_13_to_14_jihai(&conv, &t13.jihai, &mut out, &t13.tsumo, &[]));
}

#[test]
fn steps_over_empty_tables_succeed() {
    let su = build_suited_lookup();
    let ji = build_honor_lookup();
    let conv = HandConverter::from_parts(su, ji, vec![], vec![]).unwrap();
    let mut out: Vec<u32> = vec![];
    assert!(process_14_to_13_kokushi(&conv, &[], &mut out));
    assert!(process_13_to_14_kokushi(&conv, &[], &mut out, &[], &[]));
}

#[test]
fn seed_overwrites_the_seeded_records() {
    let mut out = vec![1u32, 2, 3, 4];
    seed(&mut out, &[(2, 30), (0, 10), (2, 31)]);
    assert_eq!(out, vec![10, 2, 31, 4]);
}
