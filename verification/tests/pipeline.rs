use mahjong_dp::hand::Hand;
use mahjong_dp::pipeline::{
    accounted_mass, column_jihai, column_supai, compact_tsumo, dimension_class, interleave,
    is_written, jihai_dims, project_jihai, project_kokushi, project_supai, resume_shard,
    seed_table, shard_count, shard_range, shard_source, supai_dims, DimensionClass, SHARD_SIZE,
};
use mahjong_dp::tsumo::pow123;
use mahjong_dp::{Dimension, Metrics, Tile};

#[test]
fn dimension_classes() {
    assert_eq!(dimension_class(&Dimension::Shuntsu(Tile::Supai(1, 2))), DimensionClass::Suited);
    assert_eq!(dimension_class(&Dimension::Kotsu(Tile::Supai(0, 8))), DimensionClass::Suited);
    assert_eq!(dimension_class(&Dimension::Toitsu(Tile::Supai(2, 0))), DimensionClass::Suited);
    assert_eq!(dimension_class(&Dimension::Kotsu(Tile::Jihai(3))), DimensionClass::Honor);
    assert_eq!(dimension_class(&Dimension::Toitsu(Tile::Jihai(2))), DimensionClass::Honor);
    assert_eq!(dimension_class(&Dimension::Kokushi), DimensionClass::Orphans);
}

#[test]
fn supai_dims_pair_each_rank_with_its_mirror_rank() {
    assert_eq!(supai_dims(&Dimension::Shuntsu(Tile::Supai(0, 1))), [[1, 5], [8, 12], [15, 19]]);
    assert_eq!(supai_dims(&Dimension::Shuntsu(Tile::Supai(2, 3))), [[3, 3], [10, 10], [17, 17]]);
    assert_eq!(supai_dims(&Dimension::Kotsu(Tile::Supai(0, 0))), [[21, 29], [30, 38], [39, 47]]);
    assert_eq!(supai_dims(&Dimension::Toitsu(Tile::Supai(0, 4))), [[57, 57], [66, 66], [75, 75]]);
    assert_eq!(supai_dims(&Dimension::Toitsu(Tile::Supai(1, 8))), [[61, 53], [70, 62], [79, 71]]);
}

#[test]
fn jihai_dims_are_the_five_buckets() {
    assert_eq!(jihai_dims(&Dimension::Kotsu(Tile::Jihai(0))), [48, 49, 50, 51, 52]);
    assert_eq!(jihai_dims(&Dimension::Toitsu(Tile::Jihai(3))), [80, 81, 82, 83, 84]);
}

fn record(base: u32) -> Metrics {
    let mut m = Metrics::new();
    for d in 0..86 {
        m.values[d] = base + d as u32;
    }
    m
}

#[test]
fn projections_pick_the_dimensions_of_a_task() {
    let seeds = vec![(4u32, record(1000)), (9u32, record(2000))];
    let dims = supai_dims(&Dimension::Shuntsu(Tile::Supai(0, 1)));
    assert_eq!(
        project_supai(&seeds, &dims),
        vec![
            (4, [[1001, 1005], [1008, 1012], [1015, 1019]]),
            (9, [[2001, 2005], [2008, 2012], [2015, 2019]])
        ]
    );
    let dims = jihai_dims(&Dimension::Toitsu(Tile::Jihai(0)));
    assert_eq!(
        project_jihai(&seeds, &dims),
        vec![(4, [1080, 1081, 1082, 1083, 1084]), (9, [2080, 2081, 2082, 2083, 2084])]
    );
    assert_eq!(project_kokushi(&seeds), vec![(4, 1085), (9, 2085)]);
}

#[test]
fn seed_table_is_zero_but_for_the_seeds() {
    assert_eq!(seed_table(5, 0u32, &[(3, 7), (1, 9)]), vec![0, 9, 0, 7, 0]);
    assert_eq!(seed_table(2, [0u32; 5], &[]), vec![[0; 5]; 2]);
}

#[test]
fn mirrored_direction_is_written_unless_it_is_the_same_dimension() {
    let dims = supai_dims(&Dimension::Shuntsu(Tile::Supai(0, 3)));
    assert!(is_written(&dims, 0, 0));
    assert!(!is_written(&dims, 0, 1));
    let dims = supai_dims(&Dimension::Shuntsu(Tile::Supai(0, 2)));
    assert!(is_written(&dims, 1, 0));
    assert!(is_written(&dims, 1, 1));
}

#[test]
fn columns_of_tables() {
    let table = vec![[[1u32, 2], [3, 4], [5, 6]], [[7, 8], [9, 10], [11, 12]]];
    assert_eq!(column_supai(&table, 1, 0), vec![3, 9]);
    assert_eq!(column_supai(&table, 2, 1), vec![6, 12]);
    let table = vec![[1u32, 2, 3, 4, 5], [6, 7, 8, 9, 10]];
    assert_eq!(column_jihai(&table, 4), vec![5, 10]);
}

#[test]
fn shards_split_the_hands_in_runs_of_the_shard_size() {
    assert_eq!(SHARD_SIZE, 1 << 21);
    assert_eq!(shard_count(0), 0);
    assert_eq!(shard_count(1), 1);
    assert_eq!(shard_count(SHARD_SIZE), 1);
    assert_eq!(shard_count(SHARD_SIZE + 1), 2);
    assert_eq!(shard_count(322565293), 154);
    assert_eq!(shard_count(923597122), 441);
    assert_eq!(shard_range(322565293, 0), (0, SHARD_SIZE));
    assert_eq!(shard_range(322565293, 153), (153 * SHARD_SIZE, 322565293));
    assert_eq!(shard_range(SHARD_SIZE, 0), (0, SHARD_SIZE));
}

#[test]
fn merge_resumes_after_the_last_whole_shard() {
    assert_eq!(resume_shard(0), Some(0));
    assert_eq!(resume_shard(18 * SHARD_SIZE), Some(1));
    assert_eq!(resume_shard(5 * 18 * SHARD_SIZE), Some(5));
    assert_eq!(resume_shard(18 * SHARD_SIZE + 18), None);
}

#[test]
fn shard_sources_run_through_rounds_and_dimensions() {
    assert_eq!(shard_source(0, 0), (0, 0));
    assert_eq!(shard_source(85, 0), (0, 85));
    assert_eq!(shard_source(86, 0), (2, 0));
    assert_eq!(shard_source(86, 1), (3, 0));
    assert_eq!(shard_source(18 * 86 - 1, 1), (35, 85));
}

#[test]
fn interleave_puts_the_rounds_of_a_hand_side_by_side() {
    let size = 3;
    let shards: Vec<Vec<u32>> = (0..18 * 86)
        .map(|k| (0..size).map(|h| (k * 10 + h) as u32).collect())
        .collect();
    let out = interleave(&shards, size);
    assert_eq!(out.len(), size * 18);
    for h in 0..size {
        for r in 0..18 {
            for d in 0..86 {
                assert_eq!(out[h * 18 + r].values[d], ((r * 86 + d) * 10 + h) as u32);
            }
        }
    }
    assert!(interleave(&shards, 0).is_empty());
}

#[test]
fn compact_tsumo_packs_each_round_against_its_full_count() {
    // a hand that wins at once, a hand with four winning tiles, a dead hand
    let rounds13: Vec<Vec<u128>> =
        (0..18).map(|r| vec![pow123(r + 1), 4 * pow123(r), 0]).collect();
    let out = compact_tsumo(&rounds13, 1);
    assert_eq!(out.len(), 3 * 18);
    for r in 0..18 {
        assert_eq!(out[r], u32::MAX);
        assert_eq!(out[2 * 18 + r], 0);
    }
    assert_eq!(out[18], 139673733);
    assert_eq!(out[18 + 1], 139673733);
    let rounds14: Vec<Vec<u128>> = (0..18).map(|r| vec![pow123(r)]).collect();
    assert_eq!(compact_tsumo(&rounds14, 0), vec![u32::MAX; 18]);
}

#[test]
fn accounted_mass_of_a_standard_shape_is_fourteen_tiles() {
    // 123m 123p 123s 111z 22z
    let hand = Hand {
        supai: [[1, 1, 1, 0, 0, 0, 0, 0, 0]; 3],
        jihai: [5, 0, 1, 1, 0],
    };
    let mut m = Metrics::new();
    m.values[0] = 1 << 30;
    m.values[7] = 1 << 30;
    m.values[14] = 1 << 30;
    m.values[51] = 1 << 30;
    m.values[82] = 1 << 30;
    assert_eq!(accounted_mass(&m, &hand), 14 << 30);
}

#[test]
fn accounted_mass_weighs_each_kind_of_dimension() {
    let hand = Hand { supai: [[0; 9]; 3], jihai: [1, 2, 0, 3, 1] };
    let mut m = Metrics::new();
    m.values[20] = 1;
    m.values[47] = 10;
    m.values[49] = 100;
    m.values[79] = 1000;
    m.values[83] = 10000;
    m.values[85] = 100000;
    assert_eq!(
        accounted_mass(&m, &hand),
        3 + 10 * 3 + 100 * 3 * 2 + 1000 * 2 + 10000 * 2 * 3 + 100000 * 14
    );
}
