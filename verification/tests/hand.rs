use mahjong_dp::hand::Hand;
use mahjong_dp::parse_hand_str;
use mahjong_dp::Tile;

fn benchmark_hand() -> Hand {
    Hand {
        supai: [
            [0, 0, 0, 0, 0, 1, 1, 1, 0],
            [0, 0, 0, 0, 1, 1, 0, 0, 0],
            [0, 1, 2, 0, 0, 0, 1, 1, 1],
        ],
        jihai: [6, 0, 1, 0, 0],
    }
}

#[test]
fn new_hand_is_empty() {
    let hand = Hand::new();
    assert_eq!(hand.supai, [[0; 9]; 3]);
    assert_eq!(hand.jihai, [7, 0, 0, 0, 0]);
    assert_eq!(hand.num_tiles(), 0);
}

#[test]
fn from_tiles_counts_suited_tiles_and_buckets_honors() {
    let tiles = parse_hand_str("678m56p233789s11z").unwrap();
    assert_eq!(tiles.len(), 13);
    let hand = Hand::from_tiles(&tiles);
    assert_eq!(hand, benchmark_hand());
    assert_eq!(hand.num_tiles(), 13);
}

#[test]
fn from_tiles_with_jihai_cnt_reports_each_honor_kind() {
    let tiles = vec![
        Tile::Jihai(0),
        Tile::Jihai(0),
        Tile::Jihai(0),
        Tile::Jihai(4),
        Tile::Jihai(6),
        Tile::Jihai(6),
        Tile::Supai(1, 8),
    ];
    let (hand, cnt) = Hand::from_tiles_with_jihai_cnt(&tiles);
    assert_eq!(cnt, [3, 0, 0, 0, 1, 0, 2]);
    assert_eq!(hand.jihai, [4, 1, 1, 1, 0]);
    assert_eq!(hand.supai[1][8], 1);
    assert_eq!(hand.num_tiles(), 7);
}

#[test]
fn num_tiles_weighs_honor_buckets_by_multiplicity() {
    let hand = Hand { supai: [[0; 9]; 3], jihai: [3, 1, 1, 1, 1] };
    assert_eq!(hand.num_tiles(), 1 + 2 + 3 + 4);
}

#[test]
fn draws_of_a_hand_of_13_count_the_123_unseen_tiles() {
    let moves = benchmark_hand().for_each_draw_hand();
    let mults: Vec<u8> = moves.iter().map(|m| m.1).collect();
    assert_eq!(
        mults,
        vec![
            4, 4, 4, 4, 4, 3, 3, 3, 4, 4, 4, 4, 4, 3, 3, 4, 4, 4, 4, 3, 2, 4, 4, 4, 3, 3, 3, 24, 2
        ]
    );
    assert_eq!(mults.iter().map(|m| *m as u32).sum::<u32>(), 123);
    for (next, _) in moves.iter() {
        assert_eq!(next.num_tiles(), 14);
    }
}

#[test]
fn draw_into_a_suited_tile_adds_one_copy() {
    let moves = benchmark_hand().for_each_draw_hand();
    let (first, mult) = moves[0];
    assert_eq!(mult, 4);
    assert_eq!(first.supai[0], [1, 0, 0, 0, 0, 1, 1, 1, 0]);
    assert_eq!(first.jihai, [6, 0, 1, 0, 0]);
}

#[test]
fn draw_of_an_honor_moves_one_kind_up_a_bucket() {
    let moves = benchmark_hand().for_each_draw_hand();
    let n = moves.len();
    let (fresh, fresh_mult) = moves[n - 2];
    assert_eq!(fresh.jihai, [5, 1, 1, 0, 0]);
    assert_eq!(fresh_mult, 24);
    let (third, third_mult) = moves[n - 1];
    assert_eq!(third.jihai, [6, 0, 0, 1, 0]);
    assert_eq!(third_mult, 2);
}

#[test]
fn no_draw_into_a_tile_held_four_times() {
    let mut hand = Hand::new();
    hand.supai[2][4] = 4;
    let moves = hand.for_each_draw_hand();
    assert_eq!(moves.len(), 26 + 1);
    assert!(moves.iter().all(|m| m.0.supai[2][4] == 4));
    assert_eq!(moves.iter().map(|m| m.1 as u32).sum::<u32>(), 136 - 4);
}

#[test]
fn discards_of_a_hand_of_14_count_its_tiles() {
    let mut hand = benchmark_hand();
    hand.supai[1][3] += 1;
    let moves = hand.for_each_discard_hand();
    let mults: Vec<u8> = moves.iter().map(|m| m.1).collect();
    assert_eq!(mults, vec![1, 1, 1, 1, 1, 1, 1, 2, 1, 1, 1, 2]);
    assert_eq!(mults.iter().map(|m| *m as u32).sum::<u32>(), 14);
    for (next, _) in moves.iter() {
        assert_eq!(next.num_tiles(), 13);
    }
}

#[test]
fn discard_of_an_honor_counts_every_tile_of_its_bucket() {
    let hand = Hand { supai: [[0; 9]; 3], jihai: [3, 0, 2, 2, 0] };
    let moves = hand.for_each_discard_hand();
    assert_eq!(moves.len(), 2);
    assert_eq!(moves[0].0.jihai, [3, 1, 1, 2, 0]);
    assert_eq!(moves[0].1, 4);
    assert_eq!(moves[1].0.jihai, [3, 0, 3, 1, 0]);
    assert_eq!(moves[1].1, 6);
}
