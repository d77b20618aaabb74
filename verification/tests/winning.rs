use itertools::Itertools;
use mahjong_dp::agari::{melds_to_hand, orphans, pairs_to_hand, within_four};
use mahjong_dp::converter::HandConverter;
use mahjong_dp::hand::Hand;
use mahjong_dp::pipeline::accounted_mass;
use mahjong_dp::seeds::{agari_entries, construct_agari_metrics};
use mahjong_dp::tables::{build_honor_lookup, build_suited_lookup, normalize64};
use mahjong_dp::tsumo::{agari_ids, compress, discard_value, dp14_r0, draw_value, pow123};
use mahjong_dp::Metrics;

/// The keys of all winning hands, and of the hands that the given hands of
/// 13 tiles can draw into.
fn winning_keys(base: &HandConverter, extra13: &[Hand]) -> Vec<u64> {
    let mut keys: Vec<u64> = Vec::new();
    for melds in (0..49usize).combinations_with_replacement(4) {
        let hand = melds_to_hand(&melds);
        if !within_four(&hand) {
            continue;
        }
        for k in 0..27 {
            if hand.supai[k / 9][k % 9] + 2 <= 4 {
                let mut full = hand;
                full.supai[k / 9][k % 9] += 2;
                keys.push(base.encode_into_key_fast(&full));
            }
        }
        let mut full = hand;
        full.jihai[0] -= 1;
        full.jihai[2] += 1;
        keys.push(base.encode_into_key_fast(&full));
    }
    for kinds in (0..34usize).combinations(7) {
        keys.push(base.encode_into_key_fast(&pairs_to_hand(&kinds)));
    }
    keys.push(base.encode_into_key_fast(&orphans(false)));
    keys.push(base.encode_into_key_fast(&orphans(true)));
    for hand in extra13 {
        for (next, _) in hand.for_each_draw_hand() {
            keys.push(base.encode_into_key_fast(&next));
        }
    }
    normalize64(&mut keys);
    keys
}

fn hand_of(supai: [[u8; 9]; 3], jihai: [u8; 5]) -> Hand {
    Hand { supai, jihai }
}

/// 19m19p19s and six honors with the one of man doubled: waits for the
/// seventh honor.
fn orphans_waiting() -> Hand {
    hand_of(
        [
            [2, 0, 0, 0, 0, 0, 0, 0, 1],
            [1, 0, 0, 0, 0, 0, 0, 0, 1],
            [1, 0, 0, 0, 0, 0, 0, 0, 1],
        ],
        [1, 6, 0, 0, 0],
    )
}

/// 123m456m789m123p and one honor: waits for the honor.
fn single_wait() -> Hand {
    hand_of(
        [[1; 9], [1, 1, 1, 0, 0, 0, 0, 0, 0], [0; 9]],
        [6, 1, 0, 0, 0],
    )
}

/// 678m56p233789s11z: one tile from waiting.
fn not_waiting() -> Hand {
    hand_of(
        [
            [0, 0, 0, 0, 0, 1, 1, 1, 0],
            [0, 0, 0, 0, 1, 1, 0, 0, 0],
            [0, 1, 2, 0, 0, 0, 1, 1, 1],
        ],
        [6, 0, 1, 0, 0],
    )
}

fn winning_converter() -> HandConverter {
    let su = build_suited_lookup();
    let ji = build_honor_lookup();
    let base = HandConverter::from_parts(su.clone(), ji.clone(), vec![], vec![]).unwrap();
    let extra = [orphans_waiting(), single_wait(), not_waiting()];
    let k14 = winning_keys(&base, &extra);
    let mut k13: Vec<u64> = extra.iter().map(|h| base.encode_into_key_fast(h)).collect();
    normalize64(&mut k13);
    HandConverter::from_parts(su, ji, k13, k14).unwrap()
}

fn seed_of(seeds: &[(u32, Metrics)], id: u32) -> Option<&Metrics> {
    let found: Vec<&(u32, Metrics)> = seeds.iter().filter(|s| s.0 == id).collect();
    assert!(found.len() <= 1);
    found.first().map(|s| &s.1)
}

#[test]
fn round_zero_marks_the_winning_hands() {
    let conv = winning_converter();
    let table = dp14_r0(&conv).unwrap();
    assert_eq!(table.len(), conv.num_hand14());
    assert!(table.iter().all(|v| *v == 0 || *v == 1));

    // the winning hand 123m123p123s11122z holds the full count, packed to the largest value
    let won = hand_of([[1, 1, 1, 0, 0, 0, 0, 0, 0]; 3], [5, 0, 1, 1, 0]);
    let id = conv.encode_hand14_fast(&won) as usize;
    assert_eq!(table[id], 1);
    assert_eq!(compress(table[id], pow123(0)), u32::MAX);

    // seven pairs and thirteen orphans
    let pairs = hand_of([[2, 0, 2, 0, 2, 0, 2, 0, 2], [0, 2, 0, 2, 0, 0, 0, 0, 0], [0; 9]], [7, 0, 0, 0, 0]);
    assert_eq!(table[conv.encode_hand14_fast(&pairs) as usize], 1);
    assert_eq!(table[conv.encode_hand14_fast(&orphans(true)) as usize], 1);
    let mut doubled_elsewhere = orphans(false);
    doubled_elsewhere.supai[0][0] -= 1;
    doubled_elsewhere.supai[2][8] += 1;
    assert_eq!(table[conv.encode_hand14_fast(&doubled_elsewhere) as usize], 1);

    // the hands that are in the tables for their draws only have not won
    let mut drawn = not_waiting();
    drawn.supai[1][3] += 1;
    assert_eq!(table[conv.encode_hand14_fast(&drawn) as usize], 0);
    let ids = agari_ids(&table);
    assert_eq!(ids.len(), 249_537);
    assert!(ids.len() < table.len());
    assert_eq!(ids.len(), table.iter().filter(|v| **v == 1).count());
}

#[test]
fn first_draw_of_a_waiting_hand_counts_its_winning_tiles() {
    let conv = winning_converter();
    let table = dp14_r0(&conv).unwrap();
    // thirteen orphans waiting for one honor: four tiles out of 123
    let id = conv.encode_hand13_fast(&orphans_waiting()) as usize;
    assert_eq!(draw_value(&conv, &table, id), Some(4));
    assert_eq!(compress(4, pow123(1)), 139673733);
    // a single wait for an honor of which one is held
    let id = conv.encode_hand13_fast(&single_wait()) as usize;
    assert_eq!(draw_value(&conv, &table, id), Some(3));
    // no draw completes the hand
    let id = conv.encode_hand13_fast(&not_waiting()) as usize;
    assert_eq!(draw_value(&conv, &table, id), Some(0));
    assert_eq!(compress(0, pow123(1)), 0);
}

#[test]
fn discard_of_a_tile_drawn_leaves_the_hand_drawn_from() {
    let conv = winning_converter();
    // of the discards of the hands of 14 tiles only a few lead into the small table
    let mut drawn = not_waiting();
    drawn.supai[1][3] += 1;
    let id = conv.encode_hand14_fast(&drawn) as usize;
    assert_eq!(discard_value(&conv, &[5, 6, 7], id), None);
}

#[test]
fn seeds_of_a_hand_with_one_shape_mark_its_elements() {
    let conv = winning_converter();
    let seeds = construct_agari_metrics(&conv).unwrap();

    // 123m123p123s11122z is numbered in its mirrored form 789m789p789s11122z
    let won = hand_of([[1, 1, 1, 0, 0, 0, 0, 0, 0]; 3], [5, 0, 1, 1, 0]);
    let (id, trans) = conv.encode_hand14(&won);
    assert_eq!(trans, [-3, -2, -1]);
    let canonical = conv.decode_hand14(id);
    assert_eq!(canonical.supai, [[0, 0, 0, 0, 0, 0, 1, 1, 1]; 3]);
    let m = seed_of(&seeds, id).unwrap();
    for d in 0..86 {
        let want = match d {
            6 | 13 | 20 | 51 | 82 => 1 << 30,
            _ => 0,
        };
        assert_eq!(m.values[d], want, "dimension {}", d);
    }
    assert_eq!(accounted_mass(m, &canonical), 14 << 30);
}

#[test]
fn seeds_of_seven_suited_pairs_mark_the_seven_pairs() {
    let conv = winning_converter();
    let seeds = construct_agari_metrics(&conv).unwrap();
    let pairs = hand_of([[2, 0, 2, 0, 2, 0, 2, 0, 2], [0, 2, 0, 2, 0, 0, 0, 0, 0], [0; 9]], [7, 0, 0, 0, 0]);
    let id = conv.encode_hand14_fast(&pairs);
    let canonical = conv.decode_hand14(id);
    assert_eq!(canonical.num_tiles(), 14);
    let m = seed_of(&seeds, id).unwrap();
    let mut marked = 0;
    for d in 0..86 {
        let want = if (53..80).contains(&d) && canonical.supai[(d - 53) / 9][(d - 53) % 9] == 2 {
            marked += 1;
            1 << 30
        } else {
            0
        };
        assert_eq!(m.values[d], want, "dimension {}", d);
    }
    assert_eq!(marked, 7);
    assert_eq!(accounted_mass(m, &canonical), 14 << 30);
}

#[test]
fn seeds_of_thirteen_orphans_mark_the_last_dimension() {
    let conv = winning_converter();
    let seeds = construct_agari_metrics(&conv).unwrap();
    for honor in [false, true] {
        let id = conv.encode_hand14_fast(&orphans(honor));
        let m = seed_of(&seeds, id).unwrap();
        for d in 0..85 {
            assert_eq!(m.values[d], 0);
        }
        assert_eq!(m.values[85], 1 << 30);
        assert_eq!(accounted_mass(m, &conv.decode_hand14(id)), 14 << 30);
    }
}

#[test]
fn seeds_share_the_dimensions_of_a_hand_with_several_shapes() {
    let conv = winning_converter();
    let seeds = construct_agari_metrics(&conv).unwrap();
    // 111222333m 456p 99s: three triplets or three runs in man
    let hand = hand_of(
        [[0; 9], [0, 0, 0, 1, 1, 1, 0, 0, 0], [0, 0, 0, 0, 0, 0, 3, 3, 3]],
        [7, 0, 0, 0, 0],
    );
    let mut hand = hand;
    hand.supai[0][8] = 2;
    let (id, trans) = conv.encode_hand14(&hand);
    let canonical = conv.decode_hand14(id);
    let m = seed_of(&seeds, id).unwrap();
    // whatever the frame, the two shapes share the hand half and half
    let mut halves = 0;
    let mut wholes = 0;
    for d in 0..86 {
        match m.values[d] {
            0 => {},
            v if v == 1 << 29 => halves += 1,
            v if v == 1 << 30 => wholes += 1,
            v if v == 3 << 29 => halves += 3,
            v => panic!("dimension {} holds {}", d, v),
        }
    }
    assert_eq!(trans.len(), 3);
    assert_eq!(wholes, 2);
    assert_eq!(halves, 3 + 3);
    assert_eq!(accounted_mass(m, &canonical), 14 << 30);
}

#[test]
fn every_seed_accounts_for_fourteen_tiles_up_to_rounding() {
    let conv = winning_converter();
    let seeds = construct_agari_metrics(&conv).unwrap();
    let table = dp14_r0(&conv).unwrap();
    assert!(seeds.len() <= agari_ids(&table).len());
    for (id, m) in seeds.iter().step_by(997) {
        assert_eq!(table[*id as usize], 1);
        let mass = accounted_mass(m, &conv.decode_hand14(*id));
        assert!(mass <= 14 << 30);
        assert!(mass + 86 * 21 > 14 << 30, "hand {} accounts for {}", id, mass);
    }
}

#[test]
fn entries_come_one_per_shape() {
    let conv = winning_converter();
    let entries = agari_entries(&conv).unwrap();
    // the last two entries are those of thirteen orphans
    let n = entries.len();
    assert_eq!(entries[n - 1].0, conv.encode_hand14_fast(&orphans(true)));
    assert_eq!(entries[n - 2].0, conv.encode_hand14_fast(&orphans(false)));
    assert_eq!(entries[n - 1].1[85], 1);
    // every entry of four melds and a pair marks five elements, every entry of seven
    // pairs marks seven or, with honors, the suited pairs and the honor bucket
    for (_, marks) in entries.iter() {
        let total: u32 = marks.iter().map(|v| *v as u32).sum();
        assert!(total >= 1 && total <= 7);
    }
}

#[test]
fn hand_one_discard_from_waiting_gains_with_the_first_draw() {
    // 123m456m789m123p and an honor and the nine of sou: the discard of either lone tile
    // leaves a hand that waits for the other
    let mut full = single_wait();
    full.supai[2][8] += 1;
    let left: Vec<Hand> = full.for_each_discard_hand().iter().map(|m| m.0).collect();
    let su = build_suited_lookup();
    let ji = build_honor_lookup();
    let base = HandConverter::from_parts(su.clone(), ji.clone(), vec![], vec![]).unwrap();
    let k14 = winning_keys(&base, &left);
    let mut k13: Vec<u64> = left.iter().map(|h| base.encode_into_key_fast(h)).collect();
    normalize64(&mut k13);
    let conv = HandConverter::from_parts(su, ji, k13, k14).unwrap();

    let round0 = dp14_r0(&conv).unwrap();
    let id = conv.encode_hand14_fast(&full) as usize;
    assert_eq!(round0[id], 0);
    let round1: Vec<u128> =
        (0..conv.num_hand13()).map(|i| draw_value(&conv, &round0, i).unwrap()).collect();
    // the hand that waits for the honor wins with three tiles, the one that waits for
    // the nine of sou with three as well
    assert_eq!(round1[conv.encode_hand13_fast(&single_wait()) as usize], 3);
    assert_eq!(discard_value(&conv, &round1, id), Some(3));
    assert!(discard_value(&conv, &round1, id).unwrap() > 123 * round0[id]);
}

#[test]
fn draw_step_keeps_the_order_of_tables() {
    let conv = winning_converter();
    let id = conv.encode_hand13_fast(&not_waiting()) as usize;
    let n = conv.num_hand14();
    let a: Vec<u128> = (0..n as u128).map(|i| (i * 7919) % 1000).collect();
    let b: Vec<u128> = a.iter().enumerate().map(|(i, v)| 123 * v + (i as u128 % 5)).collect();
    let va = draw_value(&conv, &a, id).unwrap();
    let vb = draw_value(&conv, &b, id).unwrap();
    assert!(123 * va <= vb);
}
