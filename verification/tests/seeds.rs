use mahjong_dp::converter::HandConverter;
use mahjong_dp::seeds::{agari_entries, construct_agari_metrics, tally_entries};
use mahjong_dp::tables::{build_honor_lookup, build_suited_lookup};

fn marks(list: &[(usize, u8)]) -> [u8; 86] {
    let mut m = [0u8; 86];
    for (d, v) in list {
        m[*d] = *v;
    }
    m
}

#[test]
fn tally_of_a_hand_with_one_shape_is_the_shape() {
    let entries = vec![(7u32, marks(&[(0, 1), (21, 2), (22, 4), (51, 1), (82, 1)]))];
    let seeds = tally_entries(&entries);
    assert_eq!(seeds.len(), 1);
    assert_eq!(seeds[0].0, 7);
    for d in 0..86 {
        let want = match d {
            0 | 51 | 82 => 1 << 30,
            21 => 1 << 31,
            22 => u32::MAX,
            _ => 0,
        };
        assert_eq!(seeds[0].1.values[d], want, "dimension {}", d);
    }
}

#[test]
fn tally_shares_a_dimension_among_the_shapes_of_a_hand() {
    let entries = vec![
        (3u32, marks(&[(0, 1), (53, 1)])),
        (9u32, marks(&[(85, 1)])),
        (3u32, marks(&[(21, 1), (53, 1)])),
        (3u32, marks(&[(21, 1), (54, 1)])),
    ];
    let seeds = tally_entries(&entries);
    assert_eq!(seeds.len(), 2);
    assert_eq!(seeds[0].0, 3);
    assert_eq!(seeds[1].0, 9);
    assert_eq!(seeds[0].1.values[0], (1u32 << 30) / 3);
    assert_eq!(seeds[0].1.values[21], ((2u64 << 30) / 3) as u32);
    assert_eq!(seeds[0].1.values[53], ((2u64 << 30) / 3) as u32);
    assert_eq!(seeds[0].1.values[54], (1u32 << 30) / 3);
    assert_eq!(seeds[0].1.values[85], 0);
    assert_eq!(seeds[1].1.values[85], 1 << 30);
}

#[test]
fn tally_of_nothing_is_empty() {
    assert!(tally_entries(&vec![]).is_empty());
}

#[test]
fn seeds_need_every_winning_hand_numbered() {
    let su = build_suited_lookup();
    let ji = build_honor_lookup();
    let conv = HandConverter::from_parts(su, ji, vec![], vec![]).unwrap();
    assert!(agari_entries(&conv).is_none());
    assert!(construct_agari_metrics(&conv).is_none());
}
