use mahjong_dp::converter::HandConverter;
use mahjong_dp::tables::{
    build_hand_lookup, build_honor_lookup, build_suited_lookup, dedup32, honor_buckets,
    normalize64, suited_buckets, NUM_HONOR, NUM_SUITED,
};

#[test]
fn suited_lookup_lists_every_canonical_pattern() {
    let start = std::time::Instant::now();
    let su = build_suited_lookup();
    println!("suited lookup built in {:?}", start.elapsed());
    assert_eq!(su.len(), 203_122);
    assert_eq!(su.len(), NUM_SUITED);
    assert_eq!(&su[..5], &[0, 1, 2, 3, 4]);
    assert_eq!(&su[su.len() - 3..], &[71565340, 71565396, 73400348]);
    assert!(su.windows(2).all(|w| w[0] < w[1]));
    assert_eq!(su.binary_search(&0o000000111), Ok(31));
    // 111000000 is larger than its mirror image 000000111
    assert!(su.binary_search(&0o111000000).is_err());
}

#[test]
fn honor_lookup_lists_every_multiplicity_vector() {
    let ji = build_honor_lookup();
    assert_eq!(ji.len(), 177);
    assert_eq!(ji.len(), NUM_HONOR);
    assert_eq!(&ji[..5], &[448, 840, 896, 1232, 1281]);
    assert_eq!(&ji[ji.len() - 3..], &[24640, 25088, 28672]);
    assert_eq!(ji[ji.len() - 1], 0o70000);
}

#[test]
fn buckets_split_the_tables_by_tile_count() {
    let su = build_suited_lookup();
    let ji = build_honor_lookup();
    let su_memo = suited_buckets(&su);
    let ji_memo = honor_buckets(&ji);
    let su_sizes: Vec<usize> = su_memo.iter().map(|b| b.len()).collect();
    assert_eq!(
        su_sizes,
        vec![1, 5, 25, 85, 255, 646, 1478, 3030, 5725, 9955, 16159, 24483, 34915, 46860, 59500]
    );
    let ji_sizes: Vec<usize> = ji_memo.iter().map(|b| b.len()).collect();
    assert_eq!(ji_sizes, vec![1, 1, 2, 3, 5, 6, 9, 11, 14, 16, 19, 20, 23, 23, 24]);
}

#[test]
fn hand_lookup_of_small_hands() {
    let su = build_suited_lookup();
    let ji = build_honor_lookup();
    let su_memo = suited_buckets(&su);
    let ji_memo = honor_buckets(&ji);
    let none = build_hand_lookup(&su, &ji, &su_memo, &ji_memo, 0);
    assert_eq!(none, vec![3170534137668829184]);
    let one = build_hand_lookup(&su, &ji, &su_memo, &ji_memo, 1);
    assert_eq!(
        one,
        vec![
            3152519739159347200,
            3170534206388305920,
            3170534481266212864,
            3170535855655747584,
            3170542727603421184,
            3170576743744405504
        ]
    );
    let two = build_hand_lookup(&su, &ji, &su_memo, &ji_memo, 2);
    assert_eq!(two.len(), 47);
    assert_eq!(two[0], 3080462145121419264);
    let three = build_hand_lookup(&su, &ji, &su_memo, &ji_memo, 3);
    assert_eq!(three.len(), 298);
    assert_eq!(three[0], 2900318160026599424);
    assert!(three.windows(2).all(|w| w[0] < w[1]));
}

#[test]
fn dedup_keeps_one_of_each_value() {
    let mut v = vec![1, 1, 2, 3, 3, 3, 7];
    dedup32(&mut v);
    assert_eq!(v, vec![1, 2, 3, 7]);
    let mut empty: Vec<u32> = vec![];
    dedup32(&mut empty);
    assert!(empty.is_empty());
}

#[test]
fn normalize_sorts_and_drops_repeats() {
    let mut v = vec![9, 3, 9, 1, 3];
    normalize64(&mut v);
    assert_eq!(v, vec![1, 3, 9]);
}

#[test]
fn from_parts_refuses_tables_that_are_not_well_formed() {
    let su = build_suited_lookup();
    let ji = build_honor_lookup();
    assert!(HandConverter::from_parts(su.clone(), ji.clone(), vec![], vec![]).is_some());
    // not ascending
    assert!(HandConverter::from_parts(vec![1, 0], ji.clone(), vec![], vec![]).is_none());
    // not a canonical suit pattern
    assert!(HandConverter::from_parts(vec![0o111000000], ji.clone(), vec![], vec![]).is_none());
    // a count above four
    assert!(HandConverter::from_parts(vec![5], ji.clone(), vec![], vec![]).is_none());
    // honor kinds do not add up to seven
    assert!(HandConverter::from_parts(su.clone(), vec![0o60000], vec![], vec![]).is_none());
    // a key of a hand of one tile is no key of a hand of 13
    assert!(HandConverter::from_parts(su.clone(), ji.clone(), vec![3152519739159347200], vec![])
        .is_none());
}
