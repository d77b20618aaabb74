use crate::average::{
    is_only_best, lemma_single_best,
    average_of_all, average_of_best, best_average, full_average, lemma_best_has_weight, term_wf,
    terms_view, weight_all, Term, TermView,
};
use crate::converter::{is_flipped, sign_of, HandConverter};
use crate::hand::{moves_view, sum_mult, Hand, HandView};
use crate::tsumo::{all_covered13, all_covered14, discards_covered, draws_covered};
use vstd::prelude::*;

verus! {

/// The suit that an entry of a translation names.
pub open spec fn trans_suit(v: i8) -> int {
    if v >= 0 {
        v as int
    } else {
        -1 - v
    }
}

/// The slot of the suit that an entry of a translation names, in direction `o`.
pub open spec fn trans_slot(v: i8, o: int) -> int {
    2 * trans_suit(v) + o
}

/// The direction in which a record is read for direction `o` of the suit
/// that an entry of a translation names: the other one where the entry is
/// negative.
pub open spec fn trans_dir(v: i8, o: int) -> int {
    if v < 0 {
        1 - o
    } else {
        o
    }
}

/// The value that a hand holds, in its own frame, for suit `s` read in
/// direction `o` (0 as it stands, 1 mirrored), from the record of its
/// canonical form: the suit stands at its canonical position, and is read the
/// other way round where the canonical form mirrors it.
pub open spec fn suited_value(
    conv: HandConverter,
    record: [[u32; 2]; 3],
    h: HandView,
    s: int,
    o: int,
) -> int {
    record[conv.suit_rank(h, s)][if is_flipped(h.supai[s]) {
        1 - o
    } else {
        o
    }] as int
}

/// What a move to a hand contributes to the six suited slots of its
/// predecessor: for each suit and direction, the weight of the move times the
/// value that the hand holds there. Slot `2 s + o` is suit `s` in direction `o`.
pub open spec fn suited_term(
    conv: HandConverter,
    table: Seq<[[u32; 2]; 3]>,
    rank: int,
    mv: (HandView, u8),
    id: int,
) -> TermView {
    TermView {
        rank,
        weight: mv.1 as int,
        values: Seq::new(6, |j: int| mv.1 * suited_value(conv, table[id], mv.0, j / 2, j % 2)),
    }
}

/// The contributions of the discards of a hand of 14 tiles, each ranked by
/// the count of the hand of 13 tiles that it leaves.
pub open spec fn suited_discard_terms(
    conv: HandConverter,
    metrics_13: Seq<[[u32; 2]; 3]>,
    tsumo_13: Seq<u128>,
    moves: Seq<(HandView, u8)>,
) -> Seq<TermView> {
    Seq::new(
        moves.len(),
        |k: int|
            suited_term(
                conv,
                metrics_13,
                tsumo_13[conv.id13(moves[k].0)] as int,
                moves[k],
                conv.id13(moves[k].0),
            ),
    )
}

/// The contributions of the draws of a hand of 13 tiles.
pub open spec fn suited_draw_terms(
    conv: HandConverter,
    metrics_14: Seq<[[u32; 2]; 3]>,
    moves: Seq<(HandView, u8)>,
) -> Seq<TermView> {
    Seq::new(
        moves.len(),
        |k: int| suited_term(conv, metrics_14, 0, moves[k], conv.id14(moves[k].0)),
    )
}

/// The weighted values of one record in the frame that a translation leads
/// back to.
fn suited_values(record: &[[u32; 2]; 3], trans: &[i8; 3], cnt: u8) -> (vals: [u64; 6])
    requires
        forall|i: int| 0 <= i < 3 ==> -3 <= #[trigger] trans[i] <= 2,
        trans_suit(trans[0]) != trans_suit(trans[1]),
        trans_suit(trans[0]) != trans_suit(trans[2]),
        trans_suit(trans[1]) != trans_suit(trans[2]),
    ensures
        forall|i: int, o: int|
            0 <= i < 3 && 0 <= o < 2 ==> vals[#[trigger] trans_slot(trans[i], o)] == cnt
                * record[i][trans_dir(trans[i], o)],
{
    let mut vals = [0u64; 6];
    for i in 0..3usize
        invariant
            forall|i: int| 0 <= i < 3 ==> -3 <= #[trigger] trans[i] <= 2,
            trans_suit(trans[0]) != trans_suit(trans[1]),
            trans_suit(trans[0]) != trans_suit(trans[2]),
            trans_suit(trans[1]) != trans_suit(trans[2]),
            forall|k: int, o: int|
                0 <= k < i && 0 <= o < 2 ==> vals[#[trigger] trans_slot(trans[k], o)] == cnt
                    * record[k][trans_dir(trans[k], o)],
    {
        let v = trans[i];
        let s: usize = if v >= 0 {
            v as usize
        } else {
            (-1 - v) as usize
        };
        let d: usize = if v >= 0 {
            0
        } else {
            1
        };
        let ghost before = vals;
        assert(cnt * record[i as int][d as int] <= 0xff * 0xffff_ffff) by (nonlinear_arith)
            requires
                0 <= cnt <= 0xff,
                0 <= record[i as int][d as int] <= 0xffff_ffff,
        ;
        assert(cnt * record[i as int][1 - d] <= 0xff * 0xffff_ffff) by (nonlinear_arith)
            requires
                0 <= cnt <= 0xff,
                0 <= record[i as int][1 - d] <= 0xffff_ffff,
        ;
        vals[2 * s] = (cnt as u64) * (record[i][d] as u64);
        vals[2 * s + 1] = (cnt as u64) * (record[i][1 - d] as u64);
        proof {
            assert forall|k: int, o: int| 0 <= k < i + 1 && 0 <= o < 2 implies vals[#[trigger] trans_slot(
                trans[k],
                o,
            )] == cnt * record[k][trans_dir(trans[k], o)] by {
                if k < i {
                    assert(trans_suit(trans[k]) != trans_suit(trans[i as int]));
                    assert(before[trans_slot(trans[k], o)] == cnt * record[k][trans_dir(
                        trans[k],
                        o,
                    )]);
                }
            }
        }
    }
    vals
}

/// The term of one move from the record of the hand that it leads to.
fn suited_term_of(
    conv: &HandConverter,
    record: &[[u32; 2]; 3],
    rank: u128,
    next: &Hand,
    cnt: u8,
    trans: &[i8; 3],
    Ghost(table): Ghost<Seq<[[u32; 2]; 3]>>,
    Ghost(id): Ghost<int>,
) -> (t: Term<6>)
    requires
        conv.wf(),
        next@.wf(),
        conv.covers_patterns(next@),
        *record == table[id],
        forall|i: int|
            0 <= i < 3 ==> trans[conv.suit_rank(next@, i)] == #[trigger] conv.suit_entry(next@, i).1,
    ensures
        t@ == suited_term(*conv, table, rank as int, (next@, cnt), id),
        term_wf(t@, 6),
{
    proof {
        conv.lemma_frame(next@);
        let r0 = conv.suit_rank(next@, 0);
        let r1 = conv.suit_rank(next@, 1);
        let r2 = conv.suit_rank(next@, 2);
        assert(conv.suit_entry(next@, 0).1 == sign_of(0, is_flipped(next@.supai[0])));
        assert(conv.suit_entry(next@, 1).1 == sign_of(1, is_flipped(next@.supai[1])));
        assert(conv.suit_entry(next@, 2).1 == sign_of(2, is_flipped(next@.supai[2])));
        assert(trans[r0] == sign_of(0, is_flipped(next@.supai[0])));
        assert(trans[r1] == sign_of(1, is_flipped(next@.supai[1])));
        assert(trans[r2] == sign_of(2, is_flipped(next@.supai[2])));
    }
    let vals = suited_values(record, trans, cnt);
    let t = Term { rank, weight: cnt as u64, values: vals };
    proof {
        let want = suited_term(*conv, table, rank as int, (next@, cnt), id);
        assert forall|j: int| 0 <= j < 6 implies t@.values[j] == want.values[j] && 0
            <= t@.values[j] <= cnt * 0xffff_ffff by {
            let s = j / 2;
            let o = j % 2;
            let i = conv.suit_rank(next@, s);
            assert(trans[i] == sign_of(s, is_flipped(next@.supai[s])));
            assert(trans_suit(trans[i]) == s);
            let d = trans_dir(trans[i], o);
            assert(vals[trans_slot(trans[i], o)] == cnt * record[i][d]);
            assert(cnt * record[i][d] <= cnt * 0xffff_ffff) by (nonlinear_arith)
                requires
                    0 <= cnt,
                    0 <= record[i][d] <= 0xffff_ffff,
            ;
        }
        assert(t@.values =~= want.values);
    }
    t
}

/// A record of six slots as three suits of two directions.
fn suited_record(flat: &[u32; 6]) -> (record: [[u32; 2]; 3])
    ensures
        forall|s: int, o: int|
            0 <= s < 3 && 0 <= o < 2 ==> #[trigger] record[s][o] == flat[2 * s + o],
{
    [[flat[0], flat[1]], [flat[2], flat[3]], [flat[4], flat[5]]]
}

/// The suited record of one hand of 14 tiles from the records of the hands
/// of 13 tiles: the average over the discards that leave the hands with the
/// best count, each weighted by the number of tiles that it stands for, of
/// the values that the hand left holds in this hand's frame.
pub fn derive_14_supai(
    conv: &HandConverter,
    metrics_13: &[[[u32; 2]; 3]],
    tsumo_13: &[u128],
    hand_id: usize,
) -> (r: Option<[[u32; 2]; 3]>)
    requires
        conv.wf(),
        tsumo_13@.len() == conv.hand13_table().len(),
        metrics_13@.len() == conv.hand13_table().len(),
        hand_id < conv.hand14_table().len(),
    ensures
        r is Some <==> all_covered13(*conv, conv.hand14(hand_id as int).discards()),
        r is Some ==> forall|s: int, o: int|
            0 <= s < 3 && 0 <= o < 2 ==> #[trigger] r.unwrap()[s][o] == best_average(
                suited_discard_terms(
                    *conv,
                    metrics_13@,
                    tsumo_13@,
                    conv.hand14(hand_id as int).discards(),
                ),
                2 * s + o,
            ),
{
    proof {
        conv.lemma_table_sizes();
    }
    let hand = conv.decode_hand14(hand_id as u32);
    let moves = hand.for_each_discard_hand();
    let ghost mv = hand@.discards();
    let ghost want = suited_discard_terms(*conv, metrics_13@, tsumo_13@, mv);
    let mut terms: Vec<Term<6>> = Vec::new();
    for k in 0..moves.len()
        invariant
            conv.wf(),
            tsumo_13@.len() == conv.hand13_table().len(),
            metrics_13@.len() == conv.hand13_table().len(),
            mv == moves_view(moves@),
            mv == conv.hand14(hand_id as int).discards(),
            want == suited_discard_terms(*conv, metrics_13@, tsumo_13@, mv),
            forall|i: int| 0 <= i < moves@.len() ==> hand@.is_move(#[trigger] mv[i], -1),
            forall|i: int| 0 <= i < k ==> conv.covers13((#[trigger] mv[i]).0),
            terms@.len() == k,
            forall|i: int| 0 <= i < k ==> (#[trigger] terms@[i])@ == want[i],
            forall|i: int| 0 <= i < k ==> term_wf(#[trigger] want[i], 6),
    {
        let next = moves[k].0;
        let cnt = moves[k].1;
        proof {
            assert(mv[k as int] == (next@, cnt));
            assert(hand@.is_move(mv[k as int], -1));
        }
        let (id, trans) = match conv.try_encode_hand13(&next) {
            Some(e) => e,
            None => {
                assert(!conv.covers13(mv[k as int].0));
                return None;
            },
        };
        proof {
            conv.lemma_decode_of_encode13(next@);
        }
        let t = suited_term_of(
            conv,
            &metrics_13[id as usize],
            tsumo_13[id as usize],
            &next,
            cnt,
            &trans,
            Ghost(metrics_13@),
            Ghost(id as int),
        );
        terms.push(t);
    }
    proof {
        assert(terms_view(terms@) =~= want);
        assert(moves@.len() > 0) by {
            if moves@.len() == 0 {
                assert(sum_mult(mv) == 0);
            }
        }
        assert forall|i: int| 0 <= i < want.len() implies (#[trigger] want[i]).weight >= 1
            && want[i].rank >= 0 by {
            assert(hand@.is_move(mv[i], -1));
        }
        lemma_best_has_weight(want);
    }
    let flat = average_of_best(&terms);
    Some(suited_record(&flat))
}

/// The suited record of one hand of 13 tiles from the records of the hands
/// of 14 tiles: the average over the 123 tiles of the wall of the values that
/// the hand drawn into holds in this hand's frame.
pub fn derive_13_supai(conv: &HandConverter, metrics_14: &[[[u32; 2]; 3]], hand_id: usize) -> (r:
    Option<[[u32; 2]; 3]>)
    requires
        conv.wf(),
        metrics_14@.len() == conv.hand14_table().len(),
        hand_id < conv.hand13_table().len(),
    ensures
        r is Some <==> all_covered14(*conv, conv.hand13(hand_id as int).draws()),
        r is Some ==> forall|s: int, o: int|
            0 <= s < 3 && 0 <= o < 2 ==> #[trigger] r.unwrap()[s][o] == full_average(
                suited_draw_terms(*conv, metrics_14@, conv.hand13(hand_id as int).draws()),
                123,
                2 * s + o,
            ),
{
    proof {
        conv.lemma_table_sizes();
    }
    let hand = conv.decode_hand13(hand_id as u32);
    let moves = hand.for_each_draw_hand();
    let ghost mv = hand@.draws();
    let ghost want = suited_draw_terms(*conv, metrics_14@, mv);
    let mut terms: Vec<Term<6>> = Vec::new();
    for k in 0..moves.len()
        invariant
            conv.wf(),
            metrics_14@.len() == conv.hand14_table().len(),
            mv == moves_view(moves@),
            mv == conv.hand13(hand_id as int).draws(),
            want == suited_draw_terms(*conv, metrics_14@, mv),
            forall|i: int| 0 <= i < moves@.len() ==> hand@.is_move(#[trigger] mv[i], 1),
            forall|i: int| 0 <= i < k ==> conv.covers14((#[trigger] mv[i]).0),
            terms@.len() == k,
            forall|i: int| 0 <= i < k ==> (#[trigger] terms@[i])@ == want[i],
            forall|i: int| 0 <= i < k ==> term_wf(#[trigger] want[i], 6),
    {
        let next = moves[k].0;
        let cnt = moves[k].1;
        proof {
            assert(mv[k as int] == (next@, cnt));
            assert(hand@.is_move(mv[k as int], 1));
        }
        let (id, trans) = match conv.try_encode_hand14(&next) {
            Some(e) => e,
            None => {
                assert(!conv.covers14(mv[k as int].0));
                return None;
            },
        };
        proof {
            conv.lemma_decode_of_encode14(next@);
        }
        let t = suited_term_of(
            conv,
            &metrics_14[id as usize],
            0,
            &next,
            cnt,
            &trans,
            Ghost(metrics_14@),
            Ghost(id as int),
        );
        terms.push(t);
    }
    proof {
        assert(terms_view(terms@) =~= want);
        lemma_weight_is_sum_mult(want, mv);
    }
    let flat = average_of_all(&terms, 123);
    Some(suited_record(&flat))
}

/// Terms that weigh what their moves count weigh together what the moves
/// count together.
pub proof fn lemma_weight_is_sum_mult(terms: Seq<TermView>, moves: Seq<(HandView, u8)>)
    requires
        terms.len() == moves.len(),
        forall|k: int| 0 <= k < terms.len() ==> (#[trigger] terms[k]).weight == moves[k].1,
    ensures
        weight_all(terms) == sum_mult(moves),
    decreases terms.len(),
{
    if terms.len() > 0 {
        let rest = terms.drop_last();
        let mrest = moves.drop_last();
        assert forall|k: int| 0 <= k < rest.len() implies (#[trigger] rest[k]).weight
            == mrest[k].1 by {
            assert(rest[k] == terms[k]);
        }
        lemma_weight_is_sum_mult(rest, mrest);
        assert(terms.last() == terms[terms.len() - 1]);
    }
}

/// What a discard contributes to honor bucket `i` of its hand of 14 tiles.
///
/// Where the bucket keeps its kinds, the weight of the move times the value
/// of the bucket in the hand left. Where the discard took a kind out of the
/// bucket, that kind now sits one bucket lower: of the tiles that the move
/// stands for, `i` belong to it and read the lower bucket, the others read
/// the bucket itself.
pub open spec fn honor_discard_value(
    record: [u32; 5],
    parent: Seq<u8>,
    mv: (HandView, u8),
    i: int,
) -> int {
    if parent[i] <= mv.0.jihai[i] {
        mv.1 * record[i]
    } else {
        (mv.1 - i) * record[i] + i * record[i - 1]
    }
}

/// What a draw contributes to honor bucket `i` of its hand of 13 tiles.
///
/// Where the bucket keeps its kinds, the weight of the move times the value
/// of the bucket in the hand drawn into. Where the draw took a kind out of
/// the bucket, that kind now sits one bucket higher: the bucket reads the
/// mean over its kinds, one of which reads the higher bucket.
pub open spec fn honor_draw_value(record: [u32; 5], parent: Seq<u8>, mv: (HandView, u8), i: int) -> int {
    if parent[i] <= mv.0.jihai[i] {
        mv.1 * record[i]
    } else {
        (mv.1 * ((parent[i] - 1) * record[i] + record[i + 1])) / (parent[i] as int)
    }
}

/// The contributions of the discards of a hand of 14 tiles to its five honor
/// buckets, each ranked by the count of the hand of 13 tiles that it leaves.
pub open spec fn honor_discard_terms(
    conv: HandConverter,
    metrics_13: Seq<[u32; 5]>,
    tsumo_13: Seq<u128>,
    parent: Seq<u8>,
    moves: Seq<(HandView, u8)>,
) -> Seq<TermView> {
    Seq::new(
        moves.len(),
        |k: int|
            TermView {
                rank: tsumo_13[conv.id13(moves[k].0)] as int,
                weight: moves[k].1 as int,
                values: Seq::new(
                    5,
                    |i: int|
                        honor_discard_value(metrics_13[conv.id13(moves[k].0)], parent, moves[k], i),
                ),
            },
    )
}

/// The contributions of the draws of a hand of 13 tiles to its five honor buckets.
pub open spec fn honor_draw_terms(
    conv: HandConverter,
    metrics_14: Seq<[u32; 5]>,
    parent: Seq<u8>,
    moves: Seq<(HandView, u8)>,
) -> Seq<TermView> {
    Seq::new(
        moves.len(),
        |k: int|
            TermView {
                rank: 0,
                weight: moves[k].1 as int,
                values: Seq::new(
                    5,
                    |i: int|
                        honor_draw_value(metrics_14[conv.id14(moves[k].0)], parent, moves[k], i),
                ),
            },
    )
}

/// The contributions of the discards of a hand of 14 tiles to the value of
/// thirteen orphans.
pub open spec fn orphan_discard_terms(
    conv: HandConverter,
    metrics_13: Seq<u32>,
    tsumo_13: Seq<u128>,
    moves: Seq<(HandView, u8)>,
) -> Seq<TermView> {
    Seq::new(
        moves.len(),
        |k: int|
            TermView {
                rank: tsumo_13[conv.id13(moves[k].0)] as int,
                weight: moves[k].1 as int,
                values: seq![moves[k].1 * metrics_13[conv.id13(moves[k].0)]],
            },
    )
}

/// The contributions of the draws of a hand of 13 tiles to the value of
/// thirteen orphans.
pub open spec fn orphan_draw_terms(
    conv: HandConverter,
    metrics_14: Seq<u32>,
    moves: Seq<(HandView, u8)>,
) -> Seq<TermView> {
    Seq::new(
        moves.len(),
        |k: int|
            TermView {
                rank: 0,
                weight: moves[k].1 as int,
                values: seq![moves[k].1 * metrics_14[conv.id14(moves[k].0)]],
            },
    )
}

/// The term of one discard for the five honor buckets.
fn honor_discard_term_of(
    record: &[u32; 5],
    rank: u128,
    parent: &[u8; 5],
    next: &Hand,
    cnt: u8,
    Ghost(from): Ghost<HandView>,
) -> (t: Term<5>)
    requires
        from.jihai == parent@,
        from.is_move((next@, cnt), -1),
    ensures
        t@.rank == rank,
        t@.weight == cnt,
        t@.values == Seq::new(
            5,
            |i: int| honor_discard_value(*record, parent@, (next@, cnt), i),
        ),
        term_wf(t@, 5),
{
    let mut vals = [0u64; 5];
    for i in 0..5usize
        invariant
            from.jihai == parent@,
            from.is_move((next@, cnt), -1),
            forall|k: int|
                0 <= k < i ==> #[trigger] vals[k] == honor_discard_value(
                    *record,
                    parent@,
                    (next@, cnt),
                    k,
                ) && vals[k] <= cnt * 0xffff_ffff,
    {
        let m = record[i] as u64;
        if parent[i] <= next.jihai[i] {
            assert(cnt * m <= cnt * 0xffff_ffff) by (nonlinear_arith)
                requires
                    0 <= cnt,
                    0 <= m <= 0xffff_ffff,
            ;
            vals[i] = (cnt as u64) * m;
        } else {
            proof {
                assert(from.loses_at_most_one_kind((next@, cnt), -1));
                assert(from.jihai[i as int] > next@.jihai[i as int]);
                assert(i >= 1 && cnt >= i);
            }
            let low = record[i - 1] as u64;
            assert((cnt - i) * m + i * low <= cnt * 0xffff_ffff) by (nonlinear_arith)
                requires
                    0 <= i <= cnt,
                    0 <= m <= 0xffff_ffff,
                    0 <= low <= 0xffff_ffff,
            ;
            assert(0 <= (cnt - i) * m && 0 <= i * low) by (nonlinear_arith)
                requires
                    0 <= i <= cnt,
                    0 <= m,
                    0 <= low,
            ;
            vals[i] = ((cnt as u64) - (i as u64)) * m + (i as u64) * low;
        }
    }
    let t = Term { rank, weight: cnt as u64, values: vals };
    proof {
        assert(t@.values =~= Seq::new(
            5,
            |i: int| honor_discard_value(*record, parent@, (next@, cnt), i),
        ));
    }
    t
}

/// The term of one draw for the five honor buckets.
fn honor_draw_term_of(
    record: &[u32; 5],
    parent: &[u8; 5],
    next: &Hand,
    cnt: u8,
    Ghost(from): Ghost<HandView>,
) -> (t: Term<5>)
    requires
        from.jihai == parent@,
        from.wf(),
        from.is_move((next@, cnt), 1),
    ensures
        t@.rank == 0,
        t@.weight == cnt,
        t@.values == Seq::new(5, |i: int| honor_draw_value(*record, parent@, (next@, cnt), i)),
        term_wf(t@, 5),
{
    let mut vals = [0u64; 5];
    proof {
        from.lemma_bucket_bounds();
    }
    for i in 0..5usize
        invariant
            from.jihai == parent@,
            from.is_move((next@, cnt), 1),
            forall|k: int| 0 <= k < 5 ==> #[trigger] parent@[k] <= 7,
            forall|k: int|
                0 <= k < i ==> #[trigger] vals[k] == honor_draw_value(
                    *record,
                    parent@,
                    (next@, cnt),
                    k,
                ) && vals[k] <= cnt * 0xffff_ffff,
    {
        let m = record[i] as u64;
        if parent[i] <= next.jihai[i] {
            assert(cnt * m <= cnt * 0xffff_ffff) by (nonlinear_arith)
                requires
                    0 <= cnt,
                    0 <= m <= 0xffff_ffff,
            ;
            vals[i] = (cnt as u64) * m;
        } else {
            proof {
                assert(from.loses_at_most_one_kind((next@, cnt), 1));
                assert(from.jihai[i as int] > next@.jihai[i as int]);
                assert(i <= 3);
                assert(parent@[i as int] <= 7);
            }
            let high = record[i + 1] as u64;
            let j = parent[i] as u64;
            let ghost x = (j - 1) * m + high;
            assert(0 <= x <= j * 0xffff_ffff) by (nonlinear_arith)
                requires
                    1 <= j <= 7,
                    0 <= m <= 0xffff_ffff,
                    0 <= high <= 0xffff_ffff,
                    x == (j - 1) * m + high,
            ;
            assert((j - 1) * m <= 6 * 0xffff_ffff) by (nonlinear_arith)
                requires
                    1 <= j <= 7,
                    0 <= m <= 0xffff_ffff,
            ;
            assert(0 <= cnt * x <= 0xff * 7 * 0xffff_ffff && (cnt * x) / (j as int) <= cnt
                * 0xffff_ffff) by (nonlinear_arith)
                requires
                    0 <= cnt <= 0xff,
                    1 <= j <= 7,
                    0 <= x <= j * 0xffff_ffff,
            ;
            vals[i] = (cnt as u64) * ((j - 1) * m + high) / j;
        }
    }
    let t = Term { rank: 0, weight: cnt as u64, values: vals };
    proof {
        assert(t@.values =~= Seq::new(
            5,
            |i: int| honor_draw_value(*record, parent@, (next@, cnt), i),
        ));
    }
    t
}

/// The honor record of one hand of 14 tiles from the records of the hands of
/// 13 tiles: per bucket, the average over the discards that leave the hands
/// with the best count of what each contributes to the bucket.
pub fn derive_14_jihai(
    conv: &HandConverter,
    metrics_13: &[[u32; 5]],
    tsumo_13: &[u128],
    hand_id: usize,
) -> (r: Option<[u32; 5]>)
    requires
        conv.wf(),
        tsumo_13@.len() == conv.hand13_table().len(),
        metrics_13@.len() == conv.hand13_table().len(),
        hand_id < conv.hand14_table().len(),
    ensures
        r is Some <==> all_covered13(*conv, conv.hand14(hand_id as int).discards()),
        r is Some ==> forall|i: int|
            0 <= i < 5 ==> #[trigger] r.unwrap()[i] == best_average(
                honor_discard_terms(
                    *conv,
                    metrics_13@,
                    tsumo_13@,
                    conv.hand14(hand_id as int).jihai,
                    conv.hand14(hand_id as int).discards(),
                ),
                i,
            ),
{
    proof {
        conv.lemma_table_sizes();
    }
    let hand = conv.decode_hand14(hand_id as u32);
    let moves = hand.for_each_discard_hand();
    let ghost mv = hand@.discards();
    let ghost want = honor_discard_terms(*conv, metrics_13@, tsumo_13@, hand@.jihai, mv);
    let mut terms: Vec<Term<5>> = Vec::new();
    for k in 0..moves.len()
        invariant
            conv.wf(),
            tsumo_13@.len() == conv.hand13_table().len(),
            metrics_13@.len() == conv.hand13_table().len(),
            hand@ == conv.hand14(hand_id as int),
            mv == moves_view(moves@),
            mv == hand@.discards(),
            want == honor_discard_terms(*conv, metrics_13@, tsumo_13@, hand@.jihai, mv),
            forall|i: int| 0 <= i < moves@.len() ==> hand@.is_move(#[trigger] mv[i], -1),
            forall|i: int| 0 <= i < k ==> conv.covers13((#[trigger] mv[i]).0),
            terms@.len() == k,
            forall|i: int| 0 <= i < k ==> (#[trigger] terms@[i])@ == want[i],
            forall|i: int| 0 <= i < k ==> term_wf(#[trigger] want[i], 5),
    {
        let next = moves[k].0;
        let cnt = moves[k].1;
        proof {
            assert(mv[k as int] == (next@, cnt));
            assert(hand@.is_move(mv[k as int], -1));
        }
        let id = match conv.try_encode_hand13_fast(&next) {
            Some(id) => id,
            None => {
                assert(!conv.covers13(mv[k as int].0));
                return None;
            },
        };
        proof {
            conv.lemma_decode_of_encode13(next@);
        }
        let t = honor_discard_term_of(
            &metrics_13[id as usize],
            tsumo_13[id as usize],
            &hand.jihai,
            &next,
            cnt,
            Ghost(hand@),
        );
        proof {
            assert(t@.values =~= want[k as int].values);
        }
        terms.push(t);
    }
    proof {
        assert(terms_view(terms@) =~= want);
        assert(moves@.len() > 0) by {
            if moves@.len() == 0 {
                assert(sum_mult(mv) == 0);
            }
        }
        assert forall|i: int| 0 <= i < want.len() implies (#[trigger] want[i]).weight >= 1
            && want[i].rank >= 0 by {
            assert(hand@.is_move(mv[i], -1));
        }
        lemma_best_has_weight(want);
    }
    Some(average_of_best(&terms))
}

/// The honor record of one hand of 13 tiles from the records of the hands of
/// 14 tiles: per bucket, the average over the 123 tiles of the wall of what
/// each draw contributes to the bucket.
pub fn derive_13_jihai(conv: &HandConverter, metrics_14: &[[u32; 5]], hand_id: usize) -> (r: Option<
    [u32; 5],
>)
    requires
        conv.wf(),
        metrics_14@.len() == conv.hand14_table().len(),
        hand_id < conv.hand13_table().len(),
    ensures
        r is Some <==> all_covered14(*conv, conv.hand13(hand_id as int).draws()),
        r is Some ==> forall|i: int|
            0 <= i < 5 ==> #[trigger] r.unwrap()[i] == full_average(
                honor_draw_terms(
                    *conv,
                    metrics_14@,
                    conv.hand13(hand_id as int).jihai,
                    conv.hand13(hand_id as int).draws(),
                ),
                123,
                i,
            ),
{
    proof {
        conv.lemma_table_sizes();
    }
    let hand = conv.decode_hand13(hand_id as u32);
    let moves = hand.for_each_draw_hand();
    let ghost mv = hand@.draws();
    let ghost want = honor_draw_terms(*conv, metrics_14@, hand@.jihai, mv);
    let mut terms: Vec<Term<5>> = Vec::new();
    for k in 0..moves.len()
        invariant
            conv.wf(),
            metrics_14@.len() == conv.hand14_table().len(),
            hand@ == conv.hand13(hand_id as int),
            hand@.wf(),
            mv == moves_view(moves@),
            mv == hand@.draws(),
            want == honor_draw_terms(*conv, metrics_14@, hand@.jihai, mv),
            forall|i: int| 0 <= i < moves@.len() ==> hand@.is_move(#[trigger] mv[i], 1),
            forall|i: int| 0 <= i < k ==> conv.covers14((#[trigger] mv[i]).0),
            terms@.len() == k,
            forall|i: int| 0 <= i < k ==> (#[trigger] terms@[i])@ == want[i],
            forall|i: int| 0 <= i < k ==> term_wf(#[trigger] want[i], 5),
    {
        let next = moves[k].0;
        let cnt = moves[k].1;
        proof {
            assert(mv[k as int] == (next@, cnt));
            assert(hand@.is_move(mv[k as int], 1));
        }
        let id = match conv.try_encode_hand14_fast(&next) {
            Some(id) => id,
            None => {
                assert(!conv.covers14(mv[k as int].0));
                return None;
            },
        };
        proof {
            conv.lemma_decode_of_encode14(next@);
        }
        let t = honor_draw_term_of(&metrics_14[id as usize], &hand.jihai, &next, cnt, Ghost(hand@));
        proof {
            assert(t@.values =~= want[k as int].values);
        }
        terms.push(t);
    }
    proof {
        assert(terms_view(terms@) =~= want);
        lemma_weight_is_sum_mult(want, mv);
    }
    Some(average_of_all(&terms, 123))
}

/// The value of thirteen orphans for one hand of 14 tiles from the values
/// for the hands of 13 tiles: the average over the discards that leave the
/// hands with the best count.
pub fn derive_14_kokushi(
    conv: &HandConverter,
    metrics_13: &[u32],
    tsumo_13: &[u128],
    hand_id: usize,
) -> (r: Option<u32>)
    requires
        conv.wf(),
        tsumo_13@.len() == conv.hand13_table().len(),
        metrics_13@.len() == conv.hand13_table().len(),
        hand_id < conv.hand14_table().len(),
    ensures
        r is Some <==> all_covered13(*conv, conv.hand14(hand_id as int).discards()),
        r is Some ==> r.unwrap() == best_average(
            orphan_discard_terms(
                *conv,
                metrics_13@,
                tsumo_13@,
                conv.hand14(hand_id as int).discards(),
            ),
            0,
        ),
{
    proof {
        conv.lemma_table_sizes();
    }
    let hand = conv.decode_hand14(hand_id as u32);
    let moves = hand.for_each_discard_hand();
    let ghost mv = hand@.discards();
    let ghost want = orphan_discard_terms(*conv, metrics_13@, tsumo_13@, mv);
    let mut terms: Vec<Term<1>> = Vec::new();
    for k in 0..moves.len()
        invariant
            conv.wf(),
            tsumo_13@.len() == conv.hand13_table().len(),
            metrics_13@.len() == conv.hand13_table().len(),
            mv == moves_view(moves@),
            mv == conv.hand14(hand_id as int).discards(),
            want == orphan_discard_terms(*conv, metrics_13@, tsumo_13@, mv),
            forall|i: int| 0 <= i < moves@.len() ==> hand@.is_move(#[trigger] mv[i], -1),
            forall|i: int| 0 <= i < k ==> conv.covers13((#[trigger] mv[i]).0),
            terms@.len() == k,
            forall|i: int| 0 <= i < k ==> (#[trigger] terms@[i])@ == want[i],
            forall|i: int| 0 <= i < k ==> term_wf(#[trigger] want[i], 1),
    {
        let next = moves[k].0;
        let cnt = moves[k].1;
        proof {
            assert(mv[k as int] == (next@, cnt));
            assert(hand@.is_move(mv[k as int], -1));
        }
        let id = match conv.try_encode_hand13_fast(&next) {
            Some(id) => id,
            None => {
                assert(!conv.covers13(mv[k as int].0));
                return None;
            },
        };
        proof {
            conv.lemma_decode_of_encode13(next@);
        }
        let m = metrics_13[id as usize] as u64;
        assert(cnt * m <= cnt * 0xffff_ffff) by (nonlinear_arith)
            requires
                0 <= cnt,
                0 <= m <= 0xffff_ffff,
        ;
        let t = Term { rank: tsumo_13[id as usize], weight: cnt as u64, values: [(cnt as u64) * m] };
        proof {
            assert(t@.values =~= want[k as int].values);
        }
        terms.push(t);
    }
    proof {
        assert(terms_view(terms@) =~= want);
        assert(moves@.len() > 0) by {
            if moves@.len() == 0 {
                assert(sum_mult(mv) == 0);
            }
        }
        assert forall|i: int| 0 <= i < want.len() implies (#[trigger] want[i]).weight >= 1
            && want[i].rank >= 0 by {
            assert(hand@.is_move(mv[i], -1));
        }
        lemma_best_has_weight(want);
    }
    let out = average_of_best(&terms);
    Some(out[0])
}

/// The value of thirteen orphans for one hand of 13 tiles from the values
/// for the hands of 14 tiles: the average over the 123 tiles of the wall.
pub fn derive_13_kokushi(conv: &HandConverter, metrics_14: &[u32], hand_id: usize) -> (r: Option<
    u32,
>)
    requires
        conv.wf(),
        metrics_14@.len() == conv.hand14_table().len(),
        hand_id < conv.hand13_table().len(),
    ensures
        r is Some <==> all_covered14(*conv, conv.hand13(hand_id as int).draws()),
        r is Some ==> r.unwrap() == full_average(
            orphan_draw_terms(*conv, metrics_14@, conv.hand13(hand_id as int).draws()),
            123,
            0,
        ),
{
    proof {
        conv.lemma_table_sizes();
    }
    let hand = conv.decode_hand13(hand_id as u32);
    let moves = hand.for_each_draw_hand();
    let ghost mv = hand@.draws();
    let ghost want = orphan_draw_terms(*conv, metrics_14@, mv);
    let mut terms: Vec<Term<1>> = Vec::new();
    for k in 0..moves.len()
        invariant
            conv.wf(),
            metrics_14@.len() == conv.hand14_table().len(),
            mv == moves_view(moves@),
            mv == conv.hand13(hand_id as int).draws(),
            want == orphan_draw_terms(*conv, metrics_14@, mv),
            forall|i: int| 0 <= i < moves@.len() ==> hand@.is_move(#[trigger] mv[i], 1),
            forall|i: int| 0 <= i < k ==> conv.covers14((#[trigger] mv[i]).0),
            terms@.len() == k,
            forall|i: int| 0 <= i < k ==> (#[trigger] terms@[i])@ == want[i],
            forall|i: int| 0 <= i < k ==> term_wf(#[trigger] want[i], 1),
    {
        let next = moves[k].0;
        let cnt = moves[k].1;
        proof {
            assert(mv[k as int] == (next@, cnt));
            assert(hand@.is_move(mv[k as int], 1));
        }
        let id = match conv.try_encode_hand14_fast(&next) {
            Some(id) => id,
            None => {
                assert(!conv.covers14(mv[k as int].0));
                return None;
            },
        };
        proof {
            conv.lemma_decode_of_encode14(next@);
        }
        let m = metrics_14[id as usize] as u64;
        assert(cnt * m <= cnt * 0xffff_ffff) by (nonlinear_arith)
            requires
                0 <= cnt,
                0 <= m <= 0xffff_ffff,
        ;
        let t = Term { rank: 0, weight: cnt as u64, values: [(cnt as u64) * m] };
        proof {
            assert(t@.values =~= want[k as int].values);
        }
        terms.push(t);
    }
    proof {
        assert(terms_view(terms@) =~= want);
        lemma_weight_is_sum_mult(want, mv);
    }
    let out = average_of_all(&terms, 123);
    Some(out[0])
}

/// The record that a list of seeds holds for a hand: that of the last entry
/// with its number.
pub open spec fn seeded<P>(seeds: Seq<(u32, P)>, id: int) -> Option<P>
    decreases seeds.len(),
{
    if seeds.len() == 0 {
        None
    } else if seeds.last().0 == id {
        Some(seeds.last().1)
    } else {
        seeded(seeds.drop_last(), id)
    }
}

/// Overwrites the records of the seeded hands with their seeds.
pub fn seed<P: Copy>(output: &mut Vec<P>, seeds: &[(u32, P)])
    requires
        forall|k: int| 0 <= k < seeds@.len() ==> (#[trigger] seeds@[k]).0 < old(output)@.len(),
    ensures
        final(output)@.len() == old(output)@.len(),
        forall|id: int|
            0 <= id < final(output)@.len() ==> #[trigger] final(output)@[id] == match seeded(
                seeds@,
                id,
            ) {
                Some(record) => record,
                None => old(output)@[id],
            },
{
    assert(seeds@.take(0) =~= Seq::empty());
    for k in 0..seeds.len()
        invariant
            output@.len() == old(output)@.len(),
            forall|k: int| 0 <= k < seeds@.len() ==> (#[trigger] seeds@[k]).0 < output@.len(),
            forall|id: int|
                0 <= id < output@.len() ==> #[trigger] output@[id] == match seeded(
                    seeds@.take(k as int),
                    id,
                ) {
                    Some(record) => record,
                    None => old(output)@[id],
                },
    {
        let (hi, record) = seeds[k];
        proof {
            assert(seeds@.take(k + 1).drop_last() == seeds@.take(k as int));
            assert(seeds@.take(k + 1).last() == seeds@[k as int]);
        }
        output.set(hi as usize, record);
    }
    assert(seeds@.take(seeds@.len() as int) == seeds@);
}

/// Whether a record is the suited record that a hand of 14 tiles derives
/// from the hands of 13 tiles.
pub open spec fn is_suited_record_14(
    conv: HandConverter,
    metrics_13: Seq<[[u32; 2]; 3]>,
    tsumo_13: Seq<u128>,
    id: int,
    record: [[u32; 2]; 3],
) -> bool {
    forall|s: int, o: int|
        0 <= s < 3 && 0 <= o < 2 ==> #[trigger] record[s][o] == best_average(
            suited_discard_terms(conv, metrics_13, tsumo_13, conv.hand14(id).discards()),
            2 * s + o,
        )
}

/// Whether a record is the suited record that a hand of 13 tiles derives
/// from the hands of 14 tiles.
pub open spec fn is_suited_record_13(
    conv: HandConverter,
    metrics_14: Seq<[[u32; 2]; 3]>,
    id: int,
    record: [[u32; 2]; 3],
) -> bool {
    forall|s: int, o: int|
        0 <= s < 3 && 0 <= o < 2 ==> #[trigger] record[s][o] == full_average(
            suited_draw_terms(conv, metrics_14, conv.hand13(id).draws()),
            123,
            2 * s + o,
        )
}

/// Whether a record is the honor record that a hand of 14 tiles derives from
/// the hands of 13 tiles.
pub open spec fn is_honor_record_14(
    conv: HandConverter,
    metrics_13: Seq<[u32; 5]>,
    tsumo_13: Seq<u128>,
    id: int,
    record: [u32; 5],
) -> bool {
    forall|i: int|
        0 <= i < 5 ==> #[trigger] record[i] == best_average(
            honor_discard_terms(
                conv,
                metrics_13,
                tsumo_13,
                conv.hand14(id).jihai,
                conv.hand14(id).discards(),
            ),
            i,
        )
}

/// Whether a record is the honor record that a hand of 13 tiles derives from
/// the hands of 14 tiles.
pub open spec fn is_honor_record_13(
    conv: HandConverter,
    metrics_14: Seq<[u32; 5]>,
    id: int,
    record: [u32; 5],
) -> bool {
    forall|i: int|
        0 <= i < 5 ==> #[trigger] record[i] == full_average(
            honor_draw_terms(conv, metrics_14, conv.hand13(id).jihai, conv.hand13(id).draws()),
            123,
            i,
        )
}

/// Whether a value is the value of thirteen orphans that a hand of 14 tiles
/// derives from the hands of 13 tiles.
pub open spec fn is_orphan_value_14(
    conv: HandConverter,
    metrics_13: Seq<u32>,
    tsumo_13: Seq<u128>,
    id: int,
    value: u32,
) -> bool {
    value == best_average(
        orphan_discard_terms(conv, metrics_13, tsumo_13, conv.hand14(id).discards()),
        0,
    )
}

/// Whether a value is the value of thirteen orphans that a hand of 13 tiles
/// derives from the hands of 14 tiles.
pub open spec fn is_orphan_value_13(
    conv: HandConverter,
    metrics_14: Seq<u32>,
    id: int,
    value: u32,
) -> bool {
    value == full_average(orphan_draw_terms(conv, metrics_14, conv.hand13(id).draws()), 123, 0)
}

/// The suited records of the hands of 14 tiles from those of the hands of 13
/// tiles: every hand discards towards the best count, and the winning hands
/// keep their seeds. The first index of a record is the suit, the second the
/// direction. `false` comes back where the tables do not number a hand that a
/// discard leaves.
pub fn process_13_to_14_supai(
    conv: &HandConverter,
    metrics_13: &[[[u32; 2]; 3]],
    output: &mut Vec<[[u32; 2]; 3]>,
    tsumo_13: &[u128],
    agari_metrics: &[(u32, [[u32; 2]; 3])],
) -> (ok: bool)
    requires
        conv.wf(),
        tsumo_13@.len() == conv.hand13_table().len(),
        metrics_13@.len() == conv.hand13_table().len(),
        old(output)@.len() == conv.hand14_table().len(),
        forall|k: int|
            0 <= k < agari_metrics@.len() ==> (#[trigger] agari_metrics@[k]).0
                < conv.hand14_table().len(),
    ensures
        final(output)@.len() == conv.hand14_table().len(),
        ok <==> discards_covered(*conv),
        ok ==> forall|id: int|
            0 <= id < final(output)@.len() ==> match seeded(agari_metrics@, id) {
                Some(record) => #[trigger] final(output)@[id] == record,
                None => is_suited_record_14(*conv, metrics_13@, tsumo_13@, id, final(output)@[id]),
            },
{
    let n = output.len();
    for id in 0..n
        invariant
            conv.wf(),
            n == conv.hand14_table().len(),
            tsumo_13@.len() == conv.hand13_table().len(),
            metrics_13@.len() == conv.hand13_table().len(),
            output@.len() == n,
            forall|k: int|
                0 <= k < agari_metrics@.len() ==> (#[trigger] agari_metrics@[k]).0 < n,
            forall|i: int|
                0 <= i < id ==> all_covered13(*conv, #[trigger] conv.hand14(i).discards()),
            forall|i: int|
                0 <= i < id ==> is_suited_record_14(*conv, metrics_13@, tsumo_13@, i, #[trigger] output@[i]),
    {
        match derive_14_supai(conv, metrics_13, tsumo_13, id) {
            Some(record) => {
                output.set(id, record);
            },
            None => {
                assert(!all_covered13(*conv, conv.hand14(id as int).discards()));
                return false;
            },
        }
    }
    seed(output, agari_metrics);
    true
}

/// The honor records of the hands of 14 tiles from those of the hands of 13
/// tiles: every hand discards towards the best count, and the winning hands
/// keep their seeds. `false` comes back where the tables do not number a hand
/// that a discard leaves.
pub fn process_13_to_14_jihai(
    conv: &HandConverter,
    metrics_13: &[[u32; 5]],
    output: &mut Vec<[u32; 5]>,
    tsumo_13: &[u128],
    agari_metrics: &[(u32, [u32; 5])],
) -> (ok: bool)
    requires
        conv.wf(),
        tsumo_13@.len() == conv.hand13_table().len(),
        metrics_13@.len() == conv.hand13_table().len(),
        old(output)@.len() == conv.hand14_table().len(),
        forall|k: int|
            0 <= k < agari_metrics@.len() ==> (#[trigger] agari_metrics@[k]).0
                < conv.hand14_table().len(),
    ensures
        final(output)@.len() == conv.hand14_table().len(),
        ok <==> discards_covered(*conv),
        ok ==> forall|id: int|
            0 <= id < final(output)@.len() ==> match seeded(agari_metrics@, id) {
                Some(record) => #[trigger] final(output)@[id] == record,
                None => is_honor_record_14(*conv, metrics_13@, tsumo_13@, id, final(output)@[id]),
            },
{
    let n = output.len();
    for id in 0..n
        invariant
            conv.wf(),
            n == conv.hand14_table().len(),
            tsumo_13@.len() == conv.hand13_table().len(),
            metrics_13@.len() == conv.hand13_table().len(),
            output@.len() == n,
            forall|k: int|
                0 <= k < agari_metrics@.len() ==> (#[trigger] agari_metrics@[k]).0 < n,
            forall|i: int|
                0 <= i < id ==> all_covered13(*conv, #[trigger] conv.hand14(i).discards()),
            forall|i: int|
                0 <= i < id ==> is_honor_record_14(*conv, metrics_13@, tsumo_13@, i, #[trigger] output@[i]),
    {
        match derive_14_jihai(conv, metrics_13, tsumo_13, id) {
            Some(record) => {
                output.set(id, record);
            },
            None => {
                assert(!all_covered13(*conv, conv.hand14(id as int).discards()));
                return false;
            },
        }
    }
    seed(output, agari_metrics);
    true
}

/// The values of thirteen orphans of the hands of 14 tiles from those of the
/// hands of 13 tiles: every hand discards towards the best count, and the
/// winning hands keep their seeds. `false` comes back where the tables do not
/// number a hand that a discard leaves.
pub fn process_13_to_14_kokushi(
    conv: &HandConverter,
    metrics_13: &[u32],
    output: &mut Vec<u32>,
    tsumo_13: &[u128],
    agari_metrics: &[(u32, u32)],
) -> (ok: bool)
    requires
        conv.wf(),
        tsumo_13@.len() == conv.hand13_table().len(),
        metrics_13@.len() == conv.hand13_table().len(),
        old(output)@.len() == conv.hand14_table().len(),
        forall|k: int|
            0 <= k < agari_metrics@.len() ==> (#[trigger] agari_metrics@[k]).0
                < conv.hand14_table().len(),
    ensures
        final(output)@.len() == conv.hand14_table().len(),
        ok <==> discards_covered(*conv),
        ok ==> forall|id: int|
            0 <= id < final(output)@.len() ==> match seeded(agari_metrics@, id) {
                Some(record) => #[trigger] final(output)@[id] == record,
                None => is_orphan_value_14(*conv, metrics_13@, tsumo_13@, id, final(output)@[id]),
            },
{
    let n = output.len();
    for id in 0..n
        invariant
            conv.wf(),
            n == conv.hand14_table().len(),
            tsumo_13@.len() == conv.hand13_table().len(),
            metrics_13@.len() == conv.hand13_table().len(),
            output@.len() == n,
            forall|k: int|
                0 <= k < agari_metrics@.len() ==> (#[trigger] agari_metrics@[k]).0 < n,
            forall|i: int|
                0 <= i < id ==> all_covered13(*conv, #[trigger] conv.hand14(i).discards()),
            forall|i: int|
                0 <= i < id ==> is_orphan_value_14(*conv, metrics_13@, tsumo_13@, i, #[trigger] output@[i]),
    {
        match derive_14_kokushi(conv, metrics_13, tsumo_13, id) {
            Some(record) => {
                output.set(id, record);
            },
            None => {
                assert(!all_covered13(*conv, conv.hand14(id as int).discards()));
                return false;
            },
        }
    }
    seed(output, agari_metrics);
    true
}

/// The suited records of the hands of 13 tiles from those of the hands of 14
/// tiles: every hand draws one of the 123 tiles of the wall. `false` comes
/// back where the tables do not number a hand that a draw leads to.
pub fn process_14_to_13_supai(conv: &HandConverter, metrics_14: &[[[u32; 2]; 3]], output: &mut Vec<[[u32; 2]; 3]>) -> (ok:
    bool)
    requires
        conv.wf(),
        metrics_14@.len() == conv.hand14_table().len(),
        old(output)@.len() == conv.hand13_table().len(),
    ensures
        final(output)@.len() == conv.hand13_table().len(),
        ok <==> draws_covered(*conv),
        ok ==> forall|id: int|
            0 <= id < final(output)@.len() ==> is_suited_record_13(
                *conv,
                metrics_14@,
                id,
                #[trigger] final(output)@[id],
            ),
{
    let n = output.len();
    for id in 0..n
        invariant
            conv.wf(),
            n == conv.hand13_table().len(),
            metrics_14@.len() == conv.hand14_table().len(),
            output@.len() == n,
            forall|i: int| 0 <= i < id ==> all_covered14(*conv, #[trigger] conv.hand13(i).draws()),
            forall|i: int| 0 <= i < id ==> is_suited_record_13(*conv, metrics_14@, i, #[trigger] output@[i]),
    {
        match derive_13_supai(conv, metrics_14, id) {
            Some(record) => {
                output.set(id, record);
            },
            None => {
                assert(!all_covered14(*conv, conv.hand13(id as int).draws()));
                return false;
            },
        }
    }
    true
}

/// The honor records of the hands of 13 tiles from those of the hands of 14
/// tiles: every hand draws one of the 123 tiles of the wall. `false` comes
/// back where the tables do not number a hand that a draw leads to.
pub fn process_14_to_13_jihai(conv: &HandConverter, metrics_14: &[[u32; 5]], output: &mut Vec<[u32; 5]>) -> (ok:
    bool)
    requires
        conv.wf(),
        metrics_14@.len() == conv.hand14_table().len(),
        old(output)@.len() == conv.hand13_table().len(),
    ensures
        final(output)@.len() == conv.hand13_table().len(),
        ok <==> draws_covered(*conv),
        ok ==> forall|id: int|
            0 <= id < final(output)@.len() ==> is_honor_record_13(
                *conv,
                metrics_14@,
                id,
                #[trigger] final(output)@[id],
            ),
{
    let n = output.len();
    for id in 0..n
        invariant
            conv.wf(),
            n == conv.hand13_table().len(),
            metrics_14@.len() == conv.hand14_table().len(),
            output@.len() == n,
            forall|i: int| 0 <= i < id ==> all_covered14(*conv, #[trigger] conv.hand13(i).draws()),
            forall|i: int| 0 <= i < id ==> is_honor_record_13(*conv, metrics_14@, i, #[trigger] output@[i]),
    {
        match derive_13_jihai(conv, metrics_14, id) {
            Some(record) => {
                output.set(id, record);
            },
            None => {
                assert(!all_covered14(*conv, conv.hand13(id as int).draws()));
                return false;
            },
        }
    }
    true
}

/// The values of thirteen orphans of the hands of 13 tiles from those of the
/// hands of 14 tiles: every hand draws one of the 123 tiles of the wall.
/// `false` comes back where the tables do not number a hand that a draw leads
/// to.
pub fn process_14_to_13_kokushi(conv: &HandConverter, metrics_14: &[u32], output: &mut Vec<u32>) -> (ok:
    bool)
    requires
        conv.wf(),
        metrics_14@.len() == conv.hand14_table().len(),
        old(output)@.len() == conv.hand13_table().len(),
    ensures
        final(output)@.len() == conv.hand13_table().len(),
        ok <==> draws_covered(*conv),
        ok ==> forall|id: int|
            0 <= id < final(output)@.len() ==> is_orphan_value_13(
                *conv,
                metrics_14@,
                id,
                #[trigger] final(output)@[id],
            ),
{
    let n = output.len();
    for id in 0..n
        invariant
            conv.wf(),
            n == conv.hand13_table().len(),
            metrics_14@.len() == conv.hand14_table().len(),
            output@.len() == n,
            forall|i: int| 0 <= i < id ==> all_covered14(*conv, #[trigger] conv.hand13(i).draws()),
            forall|i: int| 0 <= i < id ==> is_orphan_value_13(*conv, metrics_14@, i, #[trigger] output@[i]),
    {
        match derive_13_kokushi(conv, metrics_14, id) {
            Some(record) => {
                output.set(id, record);
            },
            None => {
                assert(!all_covered14(*conv, conv.hand13(id as int).draws()));
                return false;
            },
        }
    }
    true
}

/// Where one discard of a hand of 14 tiles leaves a better hand than all
/// others, the suited record of the hand holds, for every suit and direction,
/// the value that the hand left holds there in the frame of the hand.
pub proof fn lemma_unique_discard_suited(
    conv: HandConverter,
    metrics_13: Seq<[[u32; 2]; 3]>,
    tsumo_13: Seq<u128>,
    moves: Seq<(HandView, u8)>,
    k: int,
    s: int,
    o: int,
)
    requires
        is_only_best(suited_discard_terms(conv, metrics_13, tsumo_13, moves), k),
        moves[k].1 >= 1,
        0 <= s < 3,
        0 <= o < 2,
    ensures
        best_average(suited_discard_terms(conv, metrics_13, tsumo_13, moves), 2 * s + o)
            == suited_value(conv, metrics_13[conv.id13(moves[k].0)], moves[k].0, s, o),
{
    let terms = suited_discard_terms(conv, metrics_13, tsumo_13, moves);
    lemma_single_best(terms, k, 2 * s + o);
    let cnt = moves[k].1 as int;
    let v = suited_value(conv, metrics_13[conv.id13(moves[k].0)], moves[k].0, s, o);
    assert(terms[k].values[2 * s + o] == cnt * v);
    assert((cnt * v) / cnt == v) by (nonlinear_arith)
        requires
            cnt >= 1,
    ;
}

/// Where one discard of a hand of 14 tiles leaves a better hand than all
/// others, the value of thirteen orphans of the hand is that of the hand left.
pub proof fn lemma_unique_discard_orphans(
    conv: HandConverter,
    metrics_13: Seq<u32>,
    tsumo_13: Seq<u128>,
    moves: Seq<(HandView, u8)>,
    k: int,
)
    requires
        is_only_best(orphan_discard_terms(conv, metrics_13, tsumo_13, moves), k),
        moves[k].1 >= 1,
    ensures
        best_average(orphan_discard_terms(conv, metrics_13, tsumo_13, moves), 0)
            == metrics_13[conv.id13(moves[k].0)],
{
    let terms = orphan_discard_terms(conv, metrics_13, tsumo_13, moves);
    lemma_single_best(terms, k, 0);
    let cnt = moves[k].1 as int;
    let v = metrics_13[conv.id13(moves[k].0)] as int;
    assert(terms[k].values[0] == cnt * v);
    assert((cnt * v) / cnt == v) by (nonlinear_arith)
        requires
            cnt >= 1,
    ;
}

} // verus!
