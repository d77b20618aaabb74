use crate::agari::{
    add_pair, bump, bump_honor, is_agari, is_orphans, is_seven_pairs, is_standard_agari,
    lemma_agari_wf, lemma_bump_honor, lemma_melds_hand, lemma_standard_shape, melds_hand,
    melds_to_hand, orphans, orphans_hand, pairs_hand, pairs_to_hand, within_four,
};
use crate::combinatorics::{
    choices, choices_left, is_choice, is_multichoice, multichoices, multichoices_left,
    next_choice, next_multichoice,
};
use crate::converter::HandConverter;
use crate::hand::{lemma_sum_mult_prefix, moves_view, sum_mult, Hand, HandView};
use vstd::arithmetic::power2::{lemma2_to64, lemma_pow2_adds, lemma_pow2_pos, lemma_pow2_unfold, pow2};
use vstd::bits::lemma_u128_shr_is_div;
use vstd::prelude::*;
use vstd::std_specs::bits::{axiom_u32_leading_zeros, u32_leading_zeros};

verus! {

/// Number of tiles outside a hand of 13: the denominator of one draw.
pub const WALL: u128 = 123;

/// Every count of a table leaves room for a factor of 123.
pub open spec fn scalable(table: Seq<u128>) -> bool {
    forall|i: int| 0 <= i < table.len() ==> #[trigger] table[i] <= u128::MAX / 123
}

/// The count of a hand of 13 after a draw: over its draws, the number of
/// tiles in the wall that give the successor times the successor's count.
pub open spec fn draw_sum(conv: HandConverter, dp14: Seq<int>, moves: Seq<(HandView, u8)>) -> int
    decreases moves.len(),
{
    if moves.len() == 0 {
        0
    } else {
        draw_sum(conv, dp14, moves.drop_last()) + moves.last().1 * dp14[conv.id14(moves.last().0)]
    }
}

/// A table of counts as numbers without a bound.
pub open spec fn ints(table: Seq<u128>) -> Seq<int> {
    Seq::new(table.len(), |i: int| table[i] as int)
}

/// The count of a hand of 14 before a discard: the largest count among the
/// hands that a discard can leave.
pub open spec fn discard_max(conv: HandConverter, dp13: Seq<int>, moves: Seq<(HandView, u8)>) -> int
    decreases moves.len(),
{
    if moves.len() == 0 {
        0
    } else {
        let rest = discard_max(conv, dp13, moves.drop_last());
        let v = dp13[conv.id13(moves.last().0)];
        if v > rest {
            v
        } else {
            rest
        }
    }
}

/// One more entry of a list holds a value where the entries before hold it
/// or the new entry is the value.
pub proof fn lemma_take_contains(s: Seq<u32>, k: int, x: u32)
    requires
        0 <= k < s.len(),
    ensures
        s.take(k + 1).contains(x) <==> s.take(k).contains(x) || s[k] == x,
{
    let short = s.take(k);
    let long = s.take(k + 1);
    if short.contains(x) {
        let j = choose|j: int| 0 <= j < short.len() && short[j] == x;
        assert(long[j] == x);
    }
    if s[k] == x {
        assert(long[k] == x);
    }
    if long.contains(x) {
        let j = choose|j: int| 0 <= j < long.len() && long[j] == x;
        if j < k {
            assert(short[j] == x);
        }
    }
}

/// Whether the tables number every hand of a list of moves as one of 14 tiles.
pub open spec fn all_covered14(conv: HandConverter, moves: Seq<(HandView, u8)>) -> bool {
    forall|i: int| 0 <= i < moves.len() ==> conv.covers14((#[trigger] moves[i]).0)
}

/// Whether the tables number every hand of a list of moves as one of 13 tiles.
pub open spec fn all_covered13(conv: HandConverter, moves: Seq<(HandView, u8)>) -> bool {
    forall|i: int| 0 <= i < moves.len() ==> conv.covers13((#[trigger] moves[i]).0)
}

/// Whether the tables number, for every hand of 13 tiles that they number,
/// the hands that it can draw into.
pub open spec fn draws_covered(conv: HandConverter) -> bool {
    forall|id: int|
        0 <= id < conv.hand13_table().len() ==> all_covered14(
            conv,
            #[trigger] conv.hand13(id).draws(),
        )
}

/// Whether the tables number, for every hand of 14 tiles that they number,
/// the hands that a discard can leave.
pub open spec fn discards_covered(conv: HandConverter) -> bool {
    forall|id: int|
        0 <= id < conv.hand14_table().len() ==> all_covered13(
            conv,
            #[trigger] conv.hand14(id).discards(),
        )
}

/// Complete tables number every hand that a draw or a discard leads to.
pub proof fn lemma_complete_moves_covered(conv: HandConverter)
    requires
        conv.wf(),
        conv.is_complete(),
    ensures
        draws_covered(conv),
        discards_covered(conv),
{
    assert forall|id: int| 0 <= id < conv.hand13_table().len() implies all_covered14(
        conv,
        #[trigger] conv.hand13(id).draws(),
    ) by {
        conv.lemma_encode_of_decode13(id);
        let h = conv.hand13(id);
        h.lemma_draws_wf(31);
        assert forall|i: int| 0 <= i < h.draws().len() implies conv.covers14(
            (#[trigger] h.draws()[i]).0,
        ) by {
            assert(h.is_move(h.draws()[i], 1));
            conv.lemma_complete_covers(h.draws()[i].0);
        }
    }
    assert forall|id: int| 0 <= id < conv.hand14_table().len() implies all_covered13(
        conv,
        #[trigger] conv.hand14(id).discards(),
    ) by {
        conv.lemma_encode_of_decode14(id);
        let h = conv.hand14(id);
        h.lemma_discards_wf(31);
        assert forall|i: int| 0 <= i < h.discards().len() implies conv.covers13(
            (#[trigger] h.discards()[i]).0,
        ) by {
            assert(h.is_move(h.discards()[i], -1));
            conv.lemma_complete_covers(h.discards()[i].0);
        }
    }
}

/// The count of one hand of 13 from the counts of the hands of 14, where the
/// tables number every hand that it can draw into.
pub fn draw_value(conv: &HandConverter, dp14: &[u128], hand_id: usize) -> (r: Option<u128>)
    requires
        conv.wf(),
        dp14@.len() == conv.hand14_table().len(),
        hand_id < conv.hand13_table().len(),
        scalable(dp14@),
    ensures
        r is Some <==> all_covered14(*conv, conv.hand13(hand_id as int).draws()),
        r is Some ==> r.unwrap() == draw_sum(*conv, ints(dp14@), conv.hand13(hand_id as int).draws()),
{
    proof {
        conv.lemma_table_sizes();
    }
    let hand = conv.decode_hand13(hand_id as u32);
    let moves = hand.for_each_draw_hand();
    let ghost mv = hand@.draws();
    let mut total: u128 = 0;
    assert(mv.take(0) =~= Seq::empty());
    for k in 0..moves.len()
        invariant
            conv.wf(),
            dp14@.len() == conv.hand14_table().len(),
            scalable(dp14@),
            mv == moves_view(moves@),
            mv == conv.hand13(hand_id as int).draws(),
            sum_mult(mv) == 123,
            forall|i: int| 0 <= i < moves@.len() ==> hand@.is_move(#[trigger] mv[i], 1),
            forall|i: int| 0 <= i < k ==> conv.covers14((#[trigger] mv[i]).0),
            total == draw_sum(*conv, ints(dp14@), mv.take(k as int)),
            total <= sum_mult(mv.take(k as int)) * (u128::MAX / 123),
    {
        let next = moves[k].0;
        let cnt = moves[k].1;
        proof {
            assert(mv[k as int] == (next@, cnt));
            assert(hand@.is_move(mv[k as int], 1));
            lemma_sum_mult_prefix(mv, k as int);
            lemma_sum_mult_prefix(mv, k + 1);
            assert(mv.take(k + 1).drop_last() == mv.take(k as int));
        }
        let id = match conv.try_encode_hand14_fast(&next) {
            Some(id) => id,
            None => {
                assert(!conv.covers14(mv[k as int].0));
                return None;
            },
        };
        proof {
            conv.lemma_decode_of_encode14(next@);
        }
        let v = dp14[id as usize];
        proof {
            assert(mv.take(k + 1).last() == mv[k as int]);
            assert(draw_sum(*conv, ints(dp14@), mv.take(k + 1)) == draw_sum(*conv, ints(dp14@),
                mv.take(k as int),
            ) + cnt * ints(dp14@)[conv.id14(next@)]);
            assert(v * cnt == cnt * v) by (nonlinear_arith);
            let bound = u128::MAX / 123;
            let before = sum_mult(mv.take(k as int));
            assert(v <= bound);
            assert(v * cnt <= cnt * bound) by (nonlinear_arith)
                requires
                    0 <= v <= bound,
                    0 <= cnt,
            ;
            assert(before * bound + cnt * bound == (before + cnt) * bound) by (nonlinear_arith);
            assert((before + cnt) * bound <= 123 * bound) by (nonlinear_arith)
                requires
                    before + cnt <= 123,
                    bound >= 0,
            ;
        }
        total += v * (cnt as u128);
    }
    assert(mv.take(moves@.len() as int) == mv);
    Some(total)
}

/// The counts of the hands of 13 from those of the hands of 14: a hand of 13
/// draws one tile at random from the wall. `None` comes back where the
/// tables do not number a hand that a draw leads to.
pub fn dp14_to_dp13(conv: &HandConverter, dp14: &[u128]) -> (r: Option<Vec<u128>>)
    requires
        conv.wf(),
        dp14@.len() == conv.hand14_table().len(),
        scalable(dp14@),
    ensures
        r is Some <==> draws_covered(*conv),
        r is Some ==> {
            &&& r.unwrap()@.len() == conv.hand13_table().len()
            &&& forall|i: int|
                0 <= i < r.unwrap()@.len() ==> #[trigger] r.unwrap()@[i] == draw_sum(*conv, ints(dp14@),
                    conv.hand13(i).draws(),
                )
        },
{
    let n = conv.num_hand13();
    let mut dp13: Vec<u128> = Vec::with_capacity(n);
    for id in 0..n
        invariant
            conv.wf(),
            n == conv.hand13_table().len(),
            dp14@.len() == conv.hand14_table().len(),
            scalable(dp14@),
            dp13@.len() == id,
            forall|i: int|
                0 <= i < id ==> all_covered14(*conv, #[trigger] conv.hand13(i).draws()),
            forall|i: int|
                0 <= i < id ==> #[trigger] dp13@[i] == draw_sum(*conv, ints(dp14@),
                    conv.hand13(i).draws(),
                ),
    {
        match draw_value(conv, dp14, id) {
            Some(v) => {
                dp13.push(v);
            },
            None => {
                assert(!all_covered14(*conv, conv.hand13(id as int).draws()));
                return None;
            },
        }
    }
    Some(dp13)
}

/// The count of one hand of 14 from the counts of the hands of 13, where the
/// tables number every hand that a discard can leave.
pub fn discard_value(conv: &HandConverter, dp13: &[u128], hand_id: usize) -> (r: Option<u128>)
    requires
        conv.wf(),
        dp13@.len() == conv.hand13_table().len(),
        hand_id < conv.hand14_table().len(),
    ensures
        r is Some <==> all_covered13(*conv, conv.hand14(hand_id as int).discards()),
        r is Some ==> r.unwrap() == discard_max(*conv, ints(dp13@),
            conv.hand14(hand_id as int).discards(),
        ),
{
    proof {
        conv.lemma_table_sizes();
    }
    let hand = conv.decode_hand14(hand_id as u32);
    let moves = hand.for_each_discard_hand();
    let ghost mv = hand@.discards();
    let mut best: u128 = 0;
    assert(mv.take(0) =~= Seq::empty());
    for k in 0..moves.len()
        invariant
            conv.wf(),
            dp13@.len() == conv.hand13_table().len(),
            mv == moves_view(moves@),
            mv == conv.hand14(hand_id as int).discards(),
            forall|i: int| 0 <= i < moves@.len() ==> hand@.is_move(#[trigger] mv[i], -1),
            forall|i: int| 0 <= i < k ==> conv.covers13((#[trigger] mv[i]).0),
            best == discard_max(*conv, ints(dp13@), mv.take(k as int)),
    {
        let next = moves[k].0;
        proof {
            assert(mv[k as int] == (next@, moves[k as int].1));
            assert(hand@.is_move(mv[k as int], -1));
            assert(mv.take(k + 1).drop_last() == mv.take(k as int));
        }
        let id = match conv.try_encode_hand13_fast(&next) {
            Some(id) => id,
            None => {
                assert(!conv.covers13(mv[k as int].0));
                return None;
            },
        };
        proof {
            conv.lemma_decode_of_encode13(next@);
        }
        let v = dp13[id as usize];
        proof {
            assert(mv.take(k + 1).last() == mv[k as int]);
        }
        if v > best {
            best = v;
        }
    }
    assert(mv.take(moves@.len() as int) == mv);
    Some(best)
}

/// The counts of the hands of 14 from those of the hands of 13: a hand of 14
/// discards the tile that leaves the best hand, and a winning hand keeps the
/// full count `one` of its round. `None` comes back where the tables do not
/// number a hand that a discard leaves.
pub fn dp13_to_dp14(conv: &HandConverter, dp13: &[u128], agari_hands: &[u32], one: u128) -> (r:
    Option<Vec<u128>>)
    requires
        conv.wf(),
        dp13@.len() == conv.hand13_table().len(),
        forall|k: int|
            0 <= k < agari_hands@.len() ==> #[trigger] agari_hands@[k] < conv.hand14_table().len(),
    ensures
        r is Some <==> discards_covered(*conv),
        r is Some ==> {
            &&& r.unwrap()@.len() == conv.hand14_table().len()
            &&& forall|i: int|
                0 <= i < r.unwrap()@.len() ==> #[trigger] r.unwrap()@[i] == if agari_hands@.contains(
                    i as u32,
                ) {
                    one as int
                } else {
                    discard_max(*conv, ints(dp13@), conv.hand14(i).discards())
                }
        },
{
    let n = conv.num_hand14();
    let mut dp14: Vec<u128> = Vec::with_capacity(n);
    for id in 0..n
        invariant
            conv.wf(),
            n == conv.hand14_table().len(),
            dp13@.len() == conv.hand13_table().len(),
            dp14@.len() == id,
            forall|i: int|
                0 <= i < id ==> all_covered13(*conv, #[trigger] conv.hand14(i).discards()),
            forall|i: int|
                0 <= i < id ==> #[trigger] dp14@[i] == discard_max(*conv, ints(dp13@),
                    conv.hand14(i).discards(),
                ),
    {
        match discard_value(conv, dp13, id) {
            Some(v) => {
                dp14.push(v);
            },
            None => {
                assert(!all_covered13(*conv, conv.hand14(id as int).discards()));
                return None;
            },
        }
    }
    let ghost derived = dp14@;
    for k in 0..agari_hands.len()
        invariant
            n == conv.hand14_table().len(),
            n <= u32::MAX,
            derived.len() == n,
            dp14@.len() == n,
            forall|k: int| 0 <= k < agari_hands@.len() ==> #[trigger] agari_hands@[k] < n,
            forall|i: int|
                0 <= i < n ==> #[trigger] dp14@[i] == if agari_hands@.take(k as int).contains(
                    i as u32,
                ) {
                    one
                } else {
                    derived[i]
                },
    {
        let hi = agari_hands[k];
        let ghost prev = dp14@;
        dp14.set(hi as usize, one);
        proof {
            assert forall|i: int| 0 <= i < n implies #[trigger] dp14@[i] == if agari_hands@.take(
                k + 1,
            ).contains(i as u32) {
                one
            } else {
                derived[i]
            } by {
                lemma_take_contains(agari_hands@, k as int, i as u32);
                assert(prev[i] == if agari_hands@.take(k as int).contains(i as u32) {
                    one
                } else {
                    derived[i]
                });
            }
        }
    }
    assert(agari_hands@.take(agari_hands@.len() as int) == agari_hands@);
    Some(dp14)
}

/// Whether a number of a hand of 14 tiles is that of a winning hand.
pub open spec fn is_agari_id(conv: HandConverter, id: int) -> bool {
    exists|h: HandView| is_agari(h) && #[trigger] conv.id14(h) == id
}

/// A table that holds one at numbers of winning hands only, and zero elsewhere.
pub open spec fn marks_agari_only(conv: HandConverter, res: Seq<u128>) -> bool {
    forall|id: int|
        0 <= id < res.len() ==> #[trigger] res[id] == 0 || (res[id] == 1 && is_agari_id(conv, id))
}

/// A table that holds one wherever an earlier table of the same length did.
pub open spec fn keeps_marks(before: Seq<u128>, after: Seq<u128>) -> bool {
    &&& before.len() == after.len()
    &&& forall|id: int| 0 <= id < before.len() && before[id] == 1 ==> #[trigger] after[id] == 1
}

/// Whether the tables number every winning hand.
pub open spec fn agari_covered(conv: HandConverter) -> bool {
    forall|h: HandView| is_agari(h) ==> #[trigger] conv.covers14(h)
}

/// Complete tables number every winning hand.
pub proof fn lemma_complete_agari_covered(conv: HandConverter)
    requires
        conv.wf(),
        conv.is_complete(),
    ensures
        agari_covered(conv),
{
    assert forall|h: HandView| is_agari(h) implies #[trigger] conv.covers14(h) by {
        lemma_agari_wf(h);
        conv.lemma_complete_covers(h);
    }
}

/// Marks the number of one winning hand, where the tables number it.
fn mark_agari(conv: &HandConverter, res: &mut Vec<u128>, hand: &Hand) -> (ok: bool)
    requires
        conv.wf(),
        old(res)@.len() == conv.hand14_table().len(),
        marks_agari_only(*conv, old(res)@),
        is_agari(hand@),
    ensures
        ok == conv.covers14(hand@),
        marks_agari_only(*conv, final(res)@),
        keeps_marks(old(res)@, final(res)@),
        ok ==> 0 <= conv.id14(hand@) < final(res)@.len() && final(res)@[conv.id14(hand@)] == 1,
{
    proof {
        lemma_agari_wf(hand@);
    }
    match conv.try_encode_hand14_fast(hand) {
        Some(id) => {
            proof {
                conv.lemma_decode_of_encode14(hand@);
            }
            res.set(id as usize, 1);
            true
        },
        None => false,
    }
}

/// The hands that four melds make with the pairs that fit are all numbered.
pub open spec fn standard_covered(conv: HandConverter, melds: Seq<usize>, upto: int) -> bool {
    forall|p: int|
        0 <= p < upto && (#[trigger] add_pair(melds_hand(melds), p)).wf() ==> conv.covers14(
            add_pair(melds_hand(melds), p),
        )
}

/// The hands that four melds make with the pairs that fit are all marked.
pub open spec fn standard_marked(
    conv: HandConverter,
    res: Seq<u128>,
    melds: Seq<usize>,
    upto: int,
) -> bool {
    forall|p: int|
        0 <= p < upto && (#[trigger] add_pair(melds_hand(melds), p)).wf() ==> {
            &&& 0 <= conv.id14(add_pair(melds_hand(melds), p)) < res.len()
            &&& res[conv.id14(add_pair(melds_hand(melds), p))] == 1
        }
}

/// A table that keeps the marks of an earlier one keeps the hands of four
/// melds marked.
proof fn lemma_keeps_standard(
    conv: HandConverter,
    before: Seq<u128>,
    after: Seq<u128>,
    melds: Seq<usize>,
    upto: int,
)
    requires
        keeps_marks(before, after),
        standard_marked(conv, before, melds, upto),
    ensures
        standard_marked(conv, after, melds, upto),
{
    assert forall|p: int|
        0 <= p < upto && (#[trigger] add_pair(melds_hand(melds), p)).wf() implies {
        &&& 0 <= conv.id14(add_pair(melds_hand(melds), p)) < after.len()
        &&& after[conv.id14(add_pair(melds_hand(melds), p))] == 1
    } by {
        assert(before[conv.id14(add_pair(melds_hand(melds), p))] == 1);
    }
}

/// Marks the numbers of the winning hands that four melds make with each
/// pair, where the tables number them all.
fn mark_standard(conv: &HandConverter, res: &mut Vec<u128>, melds: &Vec<usize>) -> (ok: bool)
    requires
        conv.wf(),
        old(res)@.len() == conv.hand14_table().len(),
        marks_agari_only(*conv, old(res)@),
        is_multichoice(melds@, 49, 4),
    ensures
        ok == standard_covered(*conv, melds@, 28),
        marks_agari_only(*conv, final(res)@),
        keeps_marks(old(res)@, final(res)@),
        ok ==> standard_marked(*conv, final(res)@, melds@, 28),
{
    let hand = melds_to_hand(melds);
    let ghost mh = hand@;
    proof {
        lemma_melds_hand(melds@);
        assert forall|p: int| 0 <= p < 28 implies (forall|s: int, n: int|
            0 <= s < 3 && 0 <= n < 9 ==> #[trigger] mh.supai[s][n] <= 4) || !(#[trigger] add_pair(
            mh,
            p,
        )).wf() by {
            lemma_standard_shape(melds@, p);
        }
    }
    if !within_four(&hand) {
        return true;
    }
    for k in 0..27usize
        invariant
            conv.wf(),
            res@.len() == conv.hand14_table().len(),
            marks_agari_only(*conv, res@),
            keeps_marks(old(res)@, res@),
            is_multichoice(melds@, 49, 4),
            hand@ == melds_hand(melds@),
            mh == hand@,
            forall|s: int, n: int| 0 <= s < 3 && 0 <= n < 9 ==> #[trigger] mh.supai[s][n] <= 4,
            standard_covered(*conv, melds@, k as int),
            standard_marked(*conv, res@, melds@, k as int),
    {
        let suit = k / 9;
        let num = k % 9;
        let cnt = hand.supai[suit][num];
        proof {
            lemma_standard_shape(melds@, k as int);
            assert(mh.supai[suit as int][num as int] <= 4);
        }
        if cnt + 2 <= 4 {
            let mut full = hand;
            full.supai[suit][num] = cnt + 2;
            proof {
                assert(full@.supai =~= bump(mh, suit as int, num as int, 2).supai);
                assert(full@ == add_pair(mh, k as int));
                assert(full@.wf()) by {
                    assert forall|s: int, n: int| 0 <= s < 3 && 0 <= n < 9 implies #[trigger] mh.supai[s][n]
                        + if k < 27 && s == k / 9 && n == k % 9 {
                        2int
                    } else {
                        0int
                    } <= 4 by {}
                }
                assert(is_standard_agari(full@));
            }
            let ghost before = res@;
            if !mark_agari(conv, res, &full) {
                return false;
            }
            proof {
                lemma_keeps_standard(*conv, before, res@, melds@, k as int);
            }
        } else {
            proof {
                assert(!add_pair(mh, k as int).wf()) by {
                    if add_pair(mh, k as int).wf() {
                        assert(mh.supai[suit as int][num as int] + if k < 27 && suit == k / 9 && num
                            == k % 9 {
                            2int
                        } else {
                            0int
                        } <= 4);
                    }
                }
            }
        }
    }
    let mut full = hand;
    proof {
        lemma_bump_honor(mh, 2);
        lemma_standard_shape(melds@, 27);
    }
    full.jihai[2] += 1;
    full.jihai[0] -= 1;
    proof {
        assert(full@.jihai =~= bump_honor(mh, 2).jihai);
        assert(full@.supai =~= mh.supai);
        assert(full@ == add_pair(mh, 27));
        assert(full@.wf()) by {
            assert forall|s: int, n: int| 0 <= s < 3 && 0 <= n < 9 implies #[trigger] mh.supai[s][n]
                + 0int <= 4 by {}
        }
        assert(is_standard_agari(full@));
    }
    let ghost before = res@;
    if !mark_agari(conv, res, &full) {
        return false;
    }
    proof {
        lemma_keeps_standard(*conv, before, res@, melds@, 27);
    }
    true
}

/// The counts of the hands of 14 tiles with no draw left: one for a winning
/// hand, zero for any other. `None` comes back where the tables do not number
/// a winning hand.
pub fn dp14_r0(conv: &HandConverter) -> (r: Option<Vec<u128>>)
    requires
        conv.wf(),
    ensures
        r is Some <==> agari_covered(*conv),
        r is Some ==> {
            &&& r.unwrap()@.len() == conv.hand14_table().len()
            &&& forall|id: int|
                0 <= id < r.unwrap()@.len() ==> #[trigger] r.unwrap()@[id] == if is_agari_id(
                    *conv,
                    id,
                ) {
                    1u128
                } else {
                    0u128
                }
        },
{
    let n = conv.num_hand14();
    let mut res: Vec<u128> = vec![0u128; n];

    // four melds and a pair
    let mut it = multichoices(49, 4);
    let ghost all = multichoices_left(it);
    let ghost mut done: int = 0;
    loop
        invariant
            conv.wf(),
            res@.len() == conv.hand14_table().len(),
            marks_agari_only(*conv, res@),
            0 <= done <= all.len(),
            multichoices_left(it) == all.skip(done),
            forall|t: Seq<usize>| #[trigger] all.contains(t) <==> is_multichoice(t, 49, 4),
            forall|j: int| 0 <= j < done ==> standard_covered(*conv, #[trigger] all[j], 28),
            forall|j: int| 0 <= j < done ==> standard_marked(*conv, res@, #[trigger] all[j], 28),
        ensures
            done == all.len(),
        decreases all.len() - done,
    {
        match next_multichoice(&mut it) {
            Some(melds) => {
                proof {
                    assert(all.skip(done)[0] == all[done]);
                    assert(all.contains(all[done]));
                    assert(all.skip(done).skip(1) == all.skip(done + 1));
                }
                let ghost before = res@;
                if !mark_standard(conv, &mut res, &melds) {
                    proof {
                        let p = choose|p: int|
                            0 <= p < 28 && (#[trigger] add_pair(melds_hand(melds@), p)).wf()
                                && !conv.covers14(add_pair(melds_hand(melds@), p));
                        assert(is_standard_agari(add_pair(melds_hand(melds@), p)));
                    }
                    return None;
                }
                proof {
                    assert forall|j: int| 0 <= j < done + 1 implies standard_marked(
                        *conv,
                        res@,
                        #[trigger] all[j],
                        28,
                    ) by {
                        if j < done {
                            lemma_keeps_standard(*conv, before, res@, all[j], 28);
                        }
                    }
                    done = done + 1;
                }
            },
            None => {
                break ;
            },
        }
    }

    // seven pairs
    let mut pit = choices(34, 7);
    let ghost pall = choices_left(pit);
    let ghost mut pdone: int = 0;
    loop
        invariant
            conv.wf(),
            res@.len() == conv.hand14_table().len(),
            marks_agari_only(*conv, res@),
            done == all.len(),
            0 <= pdone <= pall.len(),
            choices_left(pit) == pall.skip(pdone),
            forall|t: Seq<usize>| #[trigger] all.contains(t) <==> is_multichoice(t, 49, 4),
            forall|t: Seq<usize>| #[trigger] pall.contains(t) <==> is_choice(t, 34, 7),
            forall|j: int| 0 <= j < done ==> standard_covered(*conv, #[trigger] all[j], 28),
            forall|j: int| 0 <= j < done ==> standard_marked(*conv, res@, #[trigger] all[j], 28),
            forall|j: int|
                0 <= j < pdone ==> {
                    &&& conv.covers14(#[trigger] pairs_hand(pall[j]))
                    &&& 0 <= conv.id14(pairs_hand(pall[j])) < res@.len()
                    &&& res@[conv.id14(pairs_hand(pall[j]))] == 1
                },
        ensures
            pdone == pall.len(),
        decreases pall.len() - pdone,
    {
        match next_choice(&mut pit) {
            Some(kinds) => {
                proof {
                    assert(pall.skip(pdone)[0] == pall[pdone]);
                    assert(pall.contains(pall[pdone]));
                    assert(pall.skip(pdone).skip(1) == pall.skip(pdone + 1));
                }
                let hand = pairs_to_hand(&kinds);
                assert(is_seven_pairs(hand@));
                let ghost before = res@;
                if !mark_agari(conv, &mut res, &hand) {
                    return None;
                }
                proof {
                    assert forall|j: int| 0 <= j < done implies standard_marked(
                        *conv,
                        res@,
                        #[trigger] all[j],
                        28,
                    ) by {
                        lemma_keeps_standard(*conv, before, res@, all[j], 28);
                    }
                    assert forall|j: int| 0 <= j < pdone + 1 implies {
                        &&& conv.covers14(#[trigger] pairs_hand(pall[j]))
                        &&& 0 <= conv.id14(pairs_hand(pall[j])) < res@.len()
                        &&& res@[conv.id14(pairs_hand(pall[j]))] == 1
                    } by {
                        if j < pdone {
                            assert(before[conv.id14(pairs_hand(pall[j]))] == 1);
                        }
                    }
                    pdone = pdone + 1;
                }
            },
            None => {
                break ;
            },
        }
    }

    // thirteen orphans
    let first = orphans(false);
    assert(is_orphans(first@));
    if !mark_agari(conv, &mut res, &first) {
        return None;
    }
    let second = orphans(true);
    assert(is_orphans(second@));
    let ghost before = res@;
    if !mark_agari(conv, &mut res, &second) {
        return None;
    }
    proof {
        assert(before[conv.id14(orphans_hand(false))] == 1);
        assert forall|h: HandView| is_agari(h) implies #[trigger] conv.covers14(h)
            && 0 <= conv.id14(h) < res@.len() && res@[conv.id14(h)] == 1 by {
            if is_standard_agari(h) {
                let (melds, p) = choose|melds: Seq<usize>, p: int|
                    is_multichoice(melds, 49, 4) && 0 <= p < 28 && #[trigger] add_pair(
                        melds_hand(melds),
                        p,
                    ) == h && h.wf();
                assert(all.contains(melds));
                let j = choose|j: int| 0 <= j < all.len() && all[j] == melds;
                assert(standard_covered(*conv, all[j], 28));
                assert(standard_marked(*conv, res@, all[j], 28));
                assert(add_pair(melds_hand(all[j]), p).wf());
            } else if is_seven_pairs(h) {
                let kinds = choose|kinds: Seq<usize>|
                    is_choice(kinds, 34, 7) && #[trigger] pairs_hand(kinds) == h;
                assert(pall.contains(kinds));
                let j = choose|j: int| 0 <= j < pall.len() && pall[j] == kinds;
                assert(res@[conv.id14(pairs_hand(pall[j]))] == 1);
            }
        }
        assert forall|id: int| 0 <= id < res@.len() implies #[trigger] res@[id] == if is_agari_id(
            *conv,
            id,
        ) {
            1u128
        } else {
            0u128
        } by {
            if is_agari_id(*conv, id) {
                let h = choose|h: HandView| is_agari(h) && #[trigger] conv.id14(h) == id;
                assert(conv.covers14(h));
            }
        }
    }
    Some(res)
}

/// The full count of a round: 123 to the power of the number of draws made.
pub open spec fn wall_pow(k: nat) -> int
    decreases k,
{
    if k == 0 {
        1
    } else {
        123 * wall_pow((k - 1) as nat)
    }
}

/// The full count after eighteen draws fits in 128 bits.
pub proof fn lemma_wall_pow_bounds(k: nat)
    requires
        k <= 18,
    ensures
        1 <= wall_pow(k) <= 41523313845938407018380933934574615769,
        k <= 17 ==> wall_pow(k) <= 337587917446653715596592958817679803,
        k <= 17 ==> wall_pow(k) * 123 <= u128::MAX,
{
    lemma_wall_pow_positive(k);
    assert(wall_pow(17) == 337587917446653715596592958817679803) by {
        assert(wall_pow(0) == 1);
        assert(wall_pow(1) == 123);
        assert(wall_pow(2) == 123 * wall_pow(1));
        assert(wall_pow(3) == 123 * wall_pow(2));
        assert(wall_pow(4) == 123 * wall_pow(3));
        assert(wall_pow(5) == 123 * wall_pow(4));
        assert(wall_pow(6) == 123 * wall_pow(5));
        assert(wall_pow(7) == 123 * wall_pow(6));
        assert(wall_pow(8) == 123 * wall_pow(7));
        assert(wall_pow(9) == 123 * wall_pow(8));
        assert(wall_pow(10) == 123 * wall_pow(9));
        assert(wall_pow(11) == 123 * wall_pow(10));
        assert(wall_pow(12) == 123 * wall_pow(11));
        assert(wall_pow(13) == 123 * wall_pow(12));
        assert(wall_pow(14) == 123 * wall_pow(13));
        assert(wall_pow(15) == 123 * wall_pow(14));
        assert(wall_pow(16) == 123 * wall_pow(15));
        assert(wall_pow(17) == 123 * wall_pow(16));
    }
    assert(wall_pow(18) == 123 * wall_pow(17));
    if k <= 17 {
        lemma_wall_pow_grows(k, 17);
    } else {
        lemma_wall_pow_grows(k, 18);
    }
}

/// A later round has no smaller full count.
pub proof fn lemma_wall_pow_grows(j: nat, k: nat)
    requires
        j <= k,
    ensures
        wall_pow(j) <= wall_pow(k),
    decreases k,
{
    if j < k {
        lemma_wall_pow_grows(j, (k - 1) as nat);
        lemma_wall_pow_positive((k - 1) as nat);
    }
}

/// The full count of the round after `k` draws.
pub fn pow123(k: u32) -> (p: u128)
    requires
        k <= 18,
    ensures
        p == wall_pow(k as nat),
{
    let mut p: u128 = 1;
    for i in 0..k
        invariant
            k <= 18,
            p == wall_pow(i as nat),
    {
        proof {
            lemma_wall_pow_bounds(i as nat);
        }
        p = p * 123;
    }
    p
}

/// The table of round zero: one for the number of a winning hand, zero elsewhere.
pub open spec fn agari_table(conv: HandConverter) -> Seq<int> {
    Seq::new(
        conv.hand14_table().len(),
        |i: int|
            if is_agari_id(conv, i) {
                1int
            } else {
                0int
            },
    )
}

/// The table of a round. Even rounds hold the hands of 14 tiles before a
/// discard, odd rounds the hands of 13 tiles before a draw; the entry of a
/// hand counts the ways to win within the draws made so far, out of
/// `wall_pow` of their number.
pub open spec fn tsumo_table(conv: HandConverter, round: nat) -> Seq<int>
    decreases round,
{
    if round == 0 {
        agari_table(conv)
    } else if round % 2 == 1 {
        Seq::new(
            conv.hand13_table().len(),
            |i: int| draw_sum(conv, tsumo_table(conv, (round - 1) as nat), conv.hand13(i).draws()),
        )
    } else {
        Seq::new(
            conv.hand14_table().len(),
            |i: int|
                if is_agari_id(conv, i) {
                    wall_pow(round / 2)
                } else {
                    discard_max(
                        conv,
                        tsumo_table(conv, (round - 1) as nat),
                        conv.hand14(i).discards(),
                    )
                },
        )
    }
}

/// Bounds on the counts of the successors give bounds on the count after a draw.
pub proof fn lemma_draw_sum_bounds(
    conv: HandConverter,
    dp14: Seq<int>,
    moves: Seq<(HandView, u8)>,
    lo: int,
    hi: int,
)
    requires
        forall|i: int|
            0 <= i < moves.len() ==> lo <= dp14[conv.id14((#[trigger] moves[i]).0)] <= hi,
    ensures
        lo * sum_mult(moves) <= draw_sum(conv, dp14, moves) <= hi * sum_mult(moves),
    decreases moves.len(),
{
    if moves.len() > 0 {
        let rest = moves.drop_last();
        assert forall|i: int| 0 <= i < rest.len() implies lo <= dp14[conv.id14(
            (#[trigger] rest[i]).0,
        )] <= hi by {
            assert(rest[i] == moves[i]);
        }
        lemma_draw_sum_bounds(conv, dp14, rest, lo, hi);
        let e = moves.last();
        assert(e == moves[moves.len() - 1]);
        let v = dp14[conv.id14(e.0)];
        let m = e.1 as int;
        let sm = sum_mult(rest);
        assert(lo * (sm + m) == lo * sm + lo * m) by (nonlinear_arith);
        assert(hi * (sm + m) == hi * sm + hi * m) by (nonlinear_arith);
        assert(lo * m <= m * v <= hi * m) by (nonlinear_arith)
            requires
                lo <= v <= hi,
                0 <= m,
        ;
    } else {
        assert(lo * 0 == 0 && hi * 0 == 0) by (nonlinear_arith);
    }
}

/// Where every successor counts 123 times as much in one table as in
/// another, so does the count after a draw.
pub proof fn lemma_draw_sum_grows(
    conv: HandConverter,
    a: Seq<int>,
    b: Seq<int>,
    moves: Seq<(HandView, u8)>,
)
    requires
        forall|i: int|
            0 <= i < moves.len() ==> 123 * a[conv.id14((#[trigger] moves[i]).0)] <= b[conv.id14(
                moves[i].0,
            )],
    ensures
        123 * draw_sum(conv, a, moves) <= draw_sum(conv, b, moves),
    decreases moves.len(),
{
    if moves.len() > 0 {
        let rest = moves.drop_last();
        assert forall|i: int| 0 <= i < rest.len() implies 123 * a[conv.id14(
            (#[trigger] rest[i]).0,
        )] <= b[conv.id14(rest[i].0)] by {
            assert(rest[i] == moves[i]);
        }
        lemma_draw_sum_grows(conv, a, b, rest);
        let e = moves.last();
        assert(e == moves[moves.len() - 1]);
        let va = a[conv.id14(e.0)];
        let vb = b[conv.id14(e.0)];
        let m = e.1 as int;
        assert(123 * (m * va) <= m * vb) by (nonlinear_arith)
            requires
                123 * va <= vb,
                0 <= m,
        ;
    }
}

/// Bounds on the counts of the successors give bounds on the count before a
/// discard.
pub proof fn lemma_discard_max_bounds(
    conv: HandConverter,
    dp13: Seq<int>,
    moves: Seq<(HandView, u8)>,
    hi: int,
)
    requires
        0 <= hi,
        forall|i: int| 0 <= i < moves.len() ==> dp13[conv.id13((#[trigger] moves[i]).0)] <= hi,
    ensures
        0 <= discard_max(conv, dp13, moves) <= hi,
        forall|i: int|
            0 <= i < moves.len() ==> dp13[conv.id13((#[trigger] moves[i]).0)] <= discard_max(
                conv,
                dp13,
                moves,
            ),
    decreases moves.len(),
{
    if moves.len() > 0 {
        let rest = moves.drop_last();
        assert forall|i: int| 0 <= i < rest.len() implies dp13[conv.id13(
            (#[trigger] rest[i]).0,
        )] <= hi by {
            assert(rest[i] == moves[i]);
        }
        lemma_discard_max_bounds(conv, dp13, rest, hi);
        assert(moves.last() == moves[moves.len() - 1]);
        assert forall|i: int| 0 <= i < moves.len() implies dp13[conv.id13(
            (#[trigger] moves[i]).0,
        )] <= discard_max(conv, dp13, moves) by {
            if i < rest.len() {
                assert(rest[i] == moves[i]);
            }
        }
    }
}

/// Where every successor counts 123 times as much in one table as in
/// another, so does the count before a discard.
pub proof fn lemma_discard_max_grows(
    conv: HandConverter,
    a: Seq<int>,
    b: Seq<int>,
    moves: Seq<(HandView, u8)>,
)
    requires
        forall|i: int|
            0 <= i < moves.len() ==> 123 * a[conv.id13((#[trigger] moves[i]).0)] <= b[conv.id13(
                moves[i].0,
            )],
    ensures
        123 * discard_max(conv, a, moves) <= discard_max(conv, b, moves),
    decreases moves.len(),
{
    if moves.len() > 0 {
        let rest = moves.drop_last();
        assert forall|i: int| 0 <= i < rest.len() implies 123 * a[conv.id13(
            (#[trigger] rest[i]).0,
        )] <= b[conv.id13(rest[i].0)] by {
            assert(rest[i] == moves[i]);
        }
        lemma_discard_max_grows(conv, a, b, rest);
        assert(moves.last() == moves[moves.len() - 1]);
    }
}

/// Whether the tables agree with themselves: they are well-formed and number
/// every hand that a draw or a discard leads to.
pub open spec fn closed_under_moves(conv: HandConverter) -> bool {
    conv.wf() && draws_covered(conv) && discards_covered(conv)
}

/// The draws of a numbered hand of 13 tiles count the 123 tiles outside it.
pub proof fn lemma_draws_of_numbered_hand(conv: HandConverter, id: int)
    requires
        conv.wf(),
        0 <= id < conv.hand13_table().len(),
    ensures
        sum_mult(conv.hand13(id).draws()) == 123,
{
    conv.lemma_encode_of_decode13(id);
    conv.hand13(id).lemma_draws_total();
}

/// The discards of a numbered hand of 14 tiles count its 14 tiles.
pub proof fn lemma_discards_of_numbered_hand(conv: HandConverter, id: int)
    requires
        conv.wf(),
        0 <= id < conv.hand14_table().len(),
    ensures
        sum_mult(conv.hand14(id).discards()) == 14,
{
    conv.lemma_encode_of_decode14(id);
    conv.hand14(id).lemma_discards_total();
}

/// The number of every successor of a numbered hand lies within its table.
pub proof fn lemma_move_ids(conv: HandConverter, id: int)
    requires
        closed_under_moves(conv),
    ensures
        0 <= id < conv.hand13_table().len() ==> {
            &&& sum_mult(conv.hand13(id).draws()) == 123
            &&& forall|k: int|
                0 <= k < conv.hand13(id).draws().len() ==> 0 <= conv.id14(
                    (#[trigger] conv.hand13(id).draws()[k]).0,
                ) < conv.hand14_table().len()
        },
        0 <= id < conv.hand14_table().len() ==> {
            &&& sum_mult(conv.hand14(id).discards()) == 14
            &&& forall|k: int|
                0 <= k < conv.hand14(id).discards().len() ==> 0 <= conv.id13(
                    (#[trigger] conv.hand14(id).discards()[k]).0,
                ) < conv.hand13_table().len()
        },
{
    if 0 <= id < conv.hand13_table().len() {
        conv.lemma_encode_of_decode13(id);
        let h = conv.hand13(id);
        h.lemma_draws_total();
        h.lemma_draws_wf(31);
        assert(all_covered14(conv, h.draws()));
        assert forall|k: int| 0 <= k < h.draws().len() implies 0 <= conv.id14(
            (#[trigger] h.draws()[k]).0,
        ) < conv.hand14_table().len() by {
            assert(h.is_move(h.draws()[k], 1));
            conv.lemma_decode_of_encode14(h.draws()[k].0);
        }
    }
    if 0 <= id < conv.hand14_table().len() {
        conv.lemma_encode_of_decode14(id);
        let h = conv.hand14(id);
        h.lemma_discards_total();
        h.lemma_discards_wf(31);
        assert(all_covered13(conv, h.discards()));
        assert forall|k: int| 0 <= k < h.discards().len() implies 0 <= conv.id13(
            (#[trigger] h.discards()[k]).0,
        ) < conv.hand13_table().len() by {
            assert(h.is_move(h.discards()[k], -1));
            conv.lemma_decode_of_encode13(h.discards()[k].0);
        }
    }
}

/// Every count of a round lies between zero and the full count of the round.
pub proof fn lemma_tsumo_table_bounds(conv: HandConverter, round: nat)
    requires
        closed_under_moves(conv),
    ensures
        tsumo_table(conv, round).len() == if round % 2 == 0 {
            conv.hand14_table().len()
        } else {
            conv.hand13_table().len()
        },
        forall|i: int|
            0 <= i < tsumo_table(conv, round).len() ==> 0 <= #[trigger] tsumo_table(conv, round)[i]
                <= wall_pow((round + 1) / 2),
    decreases round,
{
    if round > 0 {
        lemma_tsumo_table_bounds(conv, (round - 1) as nat);
        let prev = tsumo_table(conv, (round - 1) as nat);
        let cur = tsumo_table(conv, round);
        if round % 2 == 1 {
            let top = wall_pow(((round - 1) / 2) as nat);
            assert(wall_pow((round + 1) / 2) == 123 * top);
            assert forall|i: int| 0 <= i < cur.len() implies 0 <= #[trigger] cur[i] <= wall_pow(
                (round + 1) / 2,
            ) by {
                lemma_move_ids(conv, i);
                let moves = conv.hand13(i).draws();
                assert forall|k: int| 0 <= k < moves.len() implies 0 <= prev[conv.id14(
                    (#[trigger] moves[k]).0,
                )] <= top by {
                    let j = conv.id14(moves[k].0);
                    assert(0 <= prev[j] <= wall_pow(round / 2));
                }
                lemma_draw_sum_bounds(conv, prev, moves, 0, top);
                assert(0 * sum_mult(moves) == 0) by (nonlinear_arith);
            }
        } else {
            let top = wall_pow(round / 2);
            lemma_wall_pow_positive(round / 2);
            assert forall|i: int| 0 <= i < cur.len() implies 0 <= #[trigger] cur[i] <= wall_pow(
                (round + 1) / 2,
            ) by {
                lemma_move_ids(conv, i);
                let moves = conv.hand14(i).discards();
                assert forall|k: int| 0 <= k < moves.len() implies prev[conv.id13(
                    (#[trigger] moves[k]).0,
                )] <= top by {
                    let j = conv.id13(moves[k].0);
                    assert(0 <= prev[j] <= wall_pow(round / 2));
                }
                lemma_discard_max_bounds(conv, prev, moves, top);
            }
        }
    }
}

/// The full count of a round is positive.
pub proof fn lemma_wall_pow_positive(k: nat)
    ensures
        wall_pow(k) >= 1,
    decreases k,
{
    if k > 0 {
        lemma_wall_pow_positive((k - 1) as nat);
    }
}

/// The chance to win does not shrink with one more draw: the count of a hand
/// two rounds later is at least 123 times its count now.
pub proof fn lemma_tsumo_monotone(conv: HandConverter, round: nat)
    requires
        closed_under_moves(conv),
    ensures
        tsumo_table(conv, round).len() == tsumo_table(conv, round + 2).len(),
        forall|i: int|
            0 <= i < tsumo_table(conv, round).len() ==> 123 * #[trigger] tsumo_table(
                conv,
                round,
            )[i] <= tsumo_table(conv, round + 2)[i],
    decreases round,
{
    lemma_tsumo_table_bounds(conv, round);
    lemma_tsumo_table_bounds(conv, round + 1);
    lemma_tsumo_table_bounds(conv, round + 2);
    let cur = tsumo_table(conv, round);
    let mid = tsumo_table(conv, round + 1);
    let next = tsumo_table(conv, round + 2);
    if round == 0 {
        assert forall|i: int| 0 <= i < cur.len() implies 123 * #[trigger] cur[i] <= next[i] by {
            assert(wall_pow(1) == 123 * wall_pow(0));
        }
    } else {
        lemma_tsumo_monotone(conv, (round - 1) as nat);
        let before = tsumo_table(conv, (round - 1) as nat);
        assert(tsumo_table(conv, ((round - 1) as nat + 2) as nat) == mid);
        if round % 2 == 1 {
            assert forall|i: int| 0 <= i < cur.len() implies 123 * #[trigger] cur[i] <= next[i] by {
                lemma_move_ids(conv, i);
                let moves = conv.hand13(i).draws();
                assert forall|k: int| 0 <= k < moves.len() implies 123 * before[conv.id14(
                    (#[trigger] moves[k]).0,
                )] <= mid[conv.id14(moves[k].0)] by {
                    let j = conv.id14(moves[k].0);
                    assert(123 * before[j] <= mid[j]);
                }
                lemma_draw_sum_grows(conv, before, mid, moves);
            }
        } else {
            assert(wall_pow((round + 2) / 2) == 123 * wall_pow(round / 2));
            assert forall|i: int| 0 <= i < cur.len() implies 123 * #[trigger] cur[i] <= next[i] by {
                lemma_move_ids(conv, i);
                let moves = conv.hand14(i).discards();
                assert forall|k: int| 0 <= k < moves.len() implies 123 * before[conv.id13(
                    (#[trigger] moves[k]).0,
                )] <= mid[conv.id13(moves[k].0)] by {
                    let j = conv.id13(moves[k].0);
                    assert(123 * before[j] <= mid[j]);
                }
                lemma_discard_max_grows(conv, before, mid, moves);
            }
        }
    }
}

/// A hand of 13 tiles that no draw completes cannot win with its next draw.
pub proof fn lemma_not_tenpai_is_zero(conv: HandConverter, id: int)
    requires
        closed_under_moves(conv),
        0 <= id < conv.hand13_table().len(),
        forall|k: int|
            0 <= k < conv.hand13(id).draws().len() ==> !is_agari_id(
                conv,
                conv.id14((#[trigger] conv.hand13(id).draws()[k]).0),
            ),
    ensures
        tsumo_table(conv, 1)[id] == 0,
        packed(0, wall_pow(1) as u128) == 0,
{
    assert(wall_pow(1) == 123 * wall_pow(0));
    lemma_packable(0, 123);
    assert(0u128 * 0x1_0000_0000 / 123 == 0);
    lemma_move_ids(conv, id);
    let moves = conv.hand13(id).draws();
    let t0 = tsumo_table(conv, 0);
    assert forall|k: int| 0 <= k < moves.len() implies 0 <= t0[conv.id14(
        (#[trigger] moves[k]).0,
    )] <= 0 by {
        let j = conv.id14(moves[k].0);
        assert(!is_agari_id(conv, j));
    }
    lemma_draw_sum_bounds(conv, t0, moves, 0, 0);
    assert(0 * sum_mult(moves) == 0) by (nonlinear_arith);
}

/// Where one successor alone holds a count, the count after a draw is that
/// count times the number of tiles that give the successor.
pub proof fn lemma_draw_sum_single(
    conv: HandConverter,
    dp14: Seq<int>,
    moves: Seq<(HandView, u8)>,
    k: int,
)
    requires
        0 <= k < moves.len(),
        forall|j: int|
            0 <= j < moves.len() && j != k ==> dp14[conv.id14((#[trigger] moves[j]).0)] == 0,
    ensures
        draw_sum(conv, dp14, moves) == moves[k].1 * dp14[conv.id14(moves[k].0)],
    decreases moves.len(),
{
    let rest = moves.drop_last();
    let e = moves.last();
    assert(e == moves[moves.len() - 1]);
    if k == moves.len() - 1 {
        assert forall|j: int| 0 <= j < rest.len() implies 0 <= dp14[conv.id14(
            (#[trigger] rest[j]).0,
        )] <= 0 by {
            assert(rest[j] == moves[j]);
        }
        lemma_draw_sum_bounds(conv, dp14, rest, 0, 0);
        assert(0 * sum_mult(rest) == 0) by (nonlinear_arith);
    } else {
        assert forall|j: int| 0 <= j < rest.len() && j != k implies dp14[conv.id14(
            (#[trigger] rest[j]).0,
        )] == 0 by {
            assert(rest[j] == moves[j]);
        }
        lemma_draw_sum_single(conv, dp14, rest, k);
        assert(rest[k] == moves[k]);
        assert(dp14[conv.id14(e.0)] == 0);
        assert(e.1 * 0 == 0) by (nonlinear_arith);
    }
}

/// A hand of 13 tiles that one draw alone completes wins with its next draw
/// in as many ways as there are tiles in the wall that make that draw.
pub proof fn lemma_single_wait(conv: HandConverter, id: int, k: int)
    requires
        closed_under_moves(conv),
        0 <= id < conv.hand13_table().len(),
        0 <= k < conv.hand13(id).draws().len(),
        is_agari_id(conv, conv.id14(conv.hand13(id).draws()[k].0)),
        forall|j: int|
            0 <= j < conv.hand13(id).draws().len() && j != k ==> !is_agari_id(
                conv,
                conv.id14((#[trigger] conv.hand13(id).draws()[j]).0),
            ),
    ensures
        tsumo_table(conv, 1)[id] == conv.hand13(id).draws()[k].1,
{
    lemma_move_ids(conv, id);
    let moves = conv.hand13(id).draws();
    let t0 = tsumo_table(conv, 0);
    assert forall|j: int| 0 <= j < moves.len() && j != k implies t0[conv.id14(
        (#[trigger] moves[j]).0,
    )] == 0 by {
        let x = conv.id14(moves[j].0);
        assert(!is_agari_id(conv, x));
    }
    lemma_draw_sum_single(conv, t0, moves, k);
    let w = conv.id14(moves[k].0);
    assert(0 <= w < conv.hand14_table().len());
    assert(t0[w] == 1);
    assert(t0 == tsumo_table(conv, 0));
    assert(tsumo_table(conv, 1)[id] == draw_sum(conv, t0, moves));
    assert(draw_sum(conv, t0, moves) == moves[k].1 * t0[w]);
    assert(moves[k].1 * 1 == moves[k].1);
}

/// A count that is positive stays positive two rounds later.
pub proof fn lemma_tsumo_stays_positive(conv: HandConverter, round: nat, steps: nat, id: int)
    requires
        closed_under_moves(conv),
        0 <= id < tsumo_table(conv, round).len(),
        tsumo_table(conv, round)[id] > 0,
    ensures
        tsumo_table(conv, round + 2 * steps).len() == tsumo_table(conv, round).len(),
        tsumo_table(conv, round + 2 * steps)[id] > 0,
    decreases steps,
{
    if steps > 0 {
        lemma_tsumo_stays_positive(conv, round, (steps - 1) as nat, id);
        lemma_tsumo_monotone(conv, round + 2 * (steps - 1) as nat);
        assert(round + 2 * (steps - 1) as nat + 2 == round + 2 * steps);
    }
}

/// A hand of 14 tiles that has not won, and that a discard leaves one draw
/// from winning, can win within the seventeen draws of the last round though
/// it cannot with none.
pub proof fn lemma_tenpai_gains(conv: HandConverter, id: int, k: int)
    requires
        closed_under_moves(conv),
        0 <= id < conv.hand14_table().len(),
        !is_agari_id(conv, id),
        0 <= k < conv.hand14(id).discards().len(),
        tsumo_table(conv, 1)[conv.id13(conv.hand14(id).discards()[k].0)] > 0,
    ensures
        tsumo_table(conv, 0)[id] == 0,
        tsumo_table(conv, 34)[id] > 0,
{
    lemma_tsumo_table_bounds(conv, 1);
    lemma_tsumo_table_bounds(conv, 2);
    lemma_move_ids(conv, id);
    let moves = conv.hand14(id).discards();
    let t1 = tsumo_table(conv, 1);
    lemma_wall_pow_positive(1);
    assert forall|j: int| 0 <= j < moves.len() implies t1[conv.id13((#[trigger] moves[j]).0)]
        <= wall_pow(1) by {
        let x = conv.id13(moves[j].0);
        assert(0 <= t1[x] <= wall_pow(1));
    }
    lemma_discard_max_bounds(conv, t1, moves, wall_pow(1));
    assert(t1[conv.id13(moves[k].0)] <= discard_max(conv, t1, moves));
    assert(tsumo_table(conv, 2)[id] > 0);
    lemma_tsumo_stays_positive(conv, 2, 16, id);
}

/// The numbers of the winning hands: the positions of a table of round zero
/// that hold a count.
pub fn agari_ids(dp0: &[u128]) -> (ids: Vec<u32>)
    requires
        dp0@.len() <= u32::MAX,
    ensures
        forall|k: int| 0 <= k < ids@.len() ==> #[trigger] ids@[k] < dp0@.len(),
        forall|i: int| 0 <= i < dp0@.len() ==> (ids@.contains(i as u32) <==> #[trigger] dp0@[i] > 0),
        forall|a: int, b: int| 0 <= a < b < ids@.len() ==> ids@[a] < ids@[b],
{
    let mut ids: Vec<u32> = Vec::new();
    for hi in 0..dp0.len()
        invariant
            dp0@.len() <= u32::MAX,
            forall|k: int| 0 <= k < ids@.len() ==> #[trigger] ids@[k] < hi,
            forall|i: int| 0 <= i < hi ==> (ids@.contains(i as u32) <==> #[trigger] dp0@[i] > 0),
            forall|a: int, b: int| 0 <= a < b < ids@.len() ==> ids@[a] < ids@[b],
    {
        let ghost before = ids@;
        if dp0[hi] > 0 {
            ids.push(hi as u32);
            proof {
                assert(ids@[ids@.len() - 1] == hi as u32);
            }
        }
        proof {
            assert forall|i: int| 0 <= i < hi + 1 implies (ids@.contains(i as u32)
                <==> #[trigger] dp0@[i] > 0) by {
                if i < hi {
                    if before.contains(i as u32) {
                        let k = choose|k: int| 0 <= k < before.len() && before[k] == i as u32;
                        assert(ids@[k] == i as u32);
                    }
                    if ids@.contains(i as u32) {
                        let k = choose|k: int| 0 <= k < ids@.len() && ids@[k] == i as u32;
                        assert(k < before.len());
                        assert(before[k] == i as u32);
                    }
                } else {
                    if ids@.contains(i as u32) {
                        let k = choose|k: int| 0 <= k < ids@.len() && ids@[k] == i as u32;
                        if k < before.len() {
                            assert(before[k] < hi);
                        }
                    }
                }
            }
        }
    }
    ids
}

/// What a draw makes of a table of the hands of 14 tiles.
pub open spec fn draw_step(conv: HandConverter, prev: Seq<int>) -> Seq<int> {
    Seq::new(conv.hand13_table().len(), |i: int| draw_sum(conv, prev, conv.hand13(i).draws()))
}

/// What a discard makes of a table of the hands of 13 tiles, where the listed
/// winning hands keep the full count `one`.
pub open spec fn discard_step(conv: HandConverter, prev: Seq<int>, agari: Seq<u32>, one: int) -> Seq<
    int,
> {
    Seq::new(
        conv.hand14_table().len(),
        |i: int|
            if agari.contains(i as u32) {
                one
            } else {
                discard_max(conv, prev, conv.hand14(i).discards())
            },
    )
}

/// Whether a list names the winning hands, all of them and no other.
pub open spec fn lists_agari(conv: HandConverter, agari: Seq<u32>) -> bool {
    &&& forall|k: int| 0 <= k < agari.len() ==> #[trigger] agari[k] < conv.hand14_table().len()
    &&& forall|i: int|
        0 <= i < conv.hand14_table().len() ==> (agari.contains(i as u32) <==> #[trigger] is_agari_id(
            conv,
            i,
        ))
}

/// One round of the computation: from the table of the round before to the
/// table of round `round`. An odd round draws, an even round discards.
/// `None` comes back where the tables do not number a hand that a move leads
/// to, or where a count of the round before leaves no room for a draw.
pub fn tsumo_round(conv: &HandConverter, round: usize, prev: &[u128], agari_hands: &[u32]) -> (r:
    Option<Vec<u128>>)
    requires
        conv.wf(),
        1 <= round < 36,
        prev@.len() == if round % 2 == 1 {
            conv.hand14_table().len()
        } else {
            conv.hand13_table().len()
        },
        forall|k: int|
            0 <= k < agari_hands@.len() ==> #[trigger] agari_hands@[k] < conv.hand14_table().len(),
    ensures
        r is Some <==> if round % 2 == 1 {
            scalable(prev@) && draws_covered(*conv)
        } else {
            discards_covered(*conv)
        },
        r is Some ==> ints(r.unwrap()@) == if round % 2 == 1 {
            draw_step(*conv, ints(prev@))
        } else {
            discard_step(*conv, ints(prev@), agari_hands@, wall_pow((round / 2) as nat))
        },
{
    if round % 2 == 1 {
        let bound = u128::MAX / 123;
        for i in 0..prev.len()
            invariant
                round % 2 == 1,
                bound == u128::MAX / 123,
                forall|k: int| 0 <= k < i ==> #[trigger] prev@[k] <= u128::MAX / 123,
        {
            if prev[i] > bound {
                assert(!(prev@[i as int] <= u128::MAX / 123));
                return None;
            }
        }
        match dp14_to_dp13(conv, prev) {
            Some(next) => {
                assert(ints(next@) =~= draw_step(*conv, ints(prev@)));
                Some(next)
            },
            None => None,
        }
    } else {
        let one = pow123((round / 2) as u32);
        match dp13_to_dp14(conv, prev, agari_hands, one) {
            Some(next) => {
                assert(ints(next@) =~= discard_step(
                    *conv,
                    ints(prev@),
                    agari_hands@,
                    wall_pow((round / 2) as nat),
                ));
                Some(next)
            },
            None => None,
        }
    }
}

/// Rounds computed one from the other, starting from the table of the
/// winning hands, are the tables of the rounds, and no count outgrows the
/// room that the next draw needs.
pub proof fn lemma_round_is_table(conv: HandConverter, round: nat, prev: Seq<u128>, agari: Seq<u32>)
    requires
        closed_under_moves(conv),
        1 <= round < 36,
        ints(prev) == tsumo_table(conv, (round - 1) as nat),
        lists_agari(conv, agari),
    ensures
        round % 2 == 1 ==> scalable(prev) && draw_step(conv, ints(prev)) == tsumo_table(conv, round),
        round % 2 == 0 ==> discard_step(conv, ints(prev), agari, wall_pow(round / 2))
            == tsumo_table(conv, round),
{
    lemma_tsumo_table_bounds(conv, (round - 1) as nat);
    let t = tsumo_table(conv, (round - 1) as nat);
    if round % 2 == 1 {
        lemma_wall_pow_bounds(round / 2);
        assert forall|i: int| 0 <= i < prev.len() implies #[trigger] prev[i] <= u128::MAX / 123 by {
            assert(ints(prev)[i] == prev[i]);
            assert(0 <= t[i] <= wall_pow(round / 2));
        }
        assert(draw_step(conv, ints(prev)) =~= tsumo_table(conv, round));
    } else {
        assert(discard_step(conv, ints(prev), agari, wall_pow(round / 2)) =~= tsumo_table(
            conv,
            round,
        ));
    }
}

/// The round to compute next, from the last round whose table is on hand.
pub fn next_round(last: Option<usize>) -> (round: usize)
    requires
        last is Some ==> last.unwrap() < usize::MAX,
    ensures
        round == match last {
            Some(r) => r + 1,
            None => 0,
        },
{
    match last {
        Some(r) => r + 1,
        None => 0,
    }
}

/// The number of bits by which a count is shifted up before the division:
/// its leading zeros, and no more than 32.
pub open spec fn headroom(v: u128) -> u32 {
    if v < 0x1_0000_0000_0000_0000_0000_0000 {
        32
    } else {
        u32_leading_zeros((v >> 96) as u32)
    }
}

/// Whether the packing of a count against a full count divides by a number
/// that is not zero.
pub open spec fn packable(v: u128, div: u128) -> bool {
    (div >> ((32 - headroom(v)) as u128)) != 0
}

/// The 32-bit fixed-point value of a count out of a full count: the count
/// shifted up by its headroom, divided by the full count shifted down by what
/// is missing to 32 bits, and cut off at the largest value.
pub open spec fn packed(v: u128, div: u128) -> int {
    let k = headroom(v);
    let q = (v << (k as u128)) / (div >> ((32 - k) as u128));
    if q > u32::MAX {
        u32::MAX as int
    } else {
        q as int
    }
}

/// The headroom of a count.
pub fn headroom_of(v: u128) -> (k: u32)
    ensures
        k == headroom(v),
        k <= 32,
{
    assert(v < 0x1_0000_0000_0000_0000_0000_0000 <==> (v >> 96) == 0) by (bit_vector);
    assert((v >> 96) <= 0xffff_ffff) by (bit_vector);
    let top = (v >> 96) as u32;
    if top == 0 {
        32
    } else {
        proof {
            axiom_u32_leading_zeros(top);
        }
        top.leading_zeros()
    }
}

/// Packs a count out of a full count into 32 bits of fixed point, so that
/// the full count itself gives the largest value.
pub fn compress(v: u128, div: u128) -> (p: u32)
    requires
        packable(v, div),
    ensures
        p == packed(v, div),
{
    let k = headroom_of(v);
    let q = (v << k) / (div >> (32 - k));
    if q > 0xffff_ffff {
        0xffff_ffff
    } else {
        q as u32
    }
}

/// A count that does not exceed its full count can be packed, and a small
/// count is packed to the floor of its share of `2^32`.
pub proof fn lemma_packable(v: u128, div: u128)
    requires
        0 < div,
        v <= div,
    ensures
        packable(v, div),
        v < 0x1_0000_0000_0000_0000_0000_0000 ==> packed(v, div) == if v * 0x1_0000_0000 / (
        div as int) > u32::MAX {
            u32::MAX as int
        } else {
            v * 0x1_0000_0000 / (div as int)
        },
{
    if v < 0x1_0000_0000_0000_0000_0000_0000 {
        assert(div >> 0u128 == div) by (bit_vector);
        assert(v << 32u128 == v * 0x1_0000_0000) by (bit_vector)
            requires
                v < 0x1_0000_0000_0000_0000_0000_0000,
        ;
    } else {
        let top = (v >> 96) as u32;
        assert((v >> 96) <= 0xffff_ffff) by (bit_vector);
        assert(top != 0) by {
            assert(v < 0x1_0000_0000_0000_0000_0000_0000 <==> (v >> 96) == 0) by (bit_vector);
        }
        axiom_u32_leading_zeros(top);
        let k = u32_leading_zeros(top);
        assert(k < 32);
        assert((top >> ((31 - k) as u32)) & 1u32 != 0u32);
        let s = (32 - k) as u128;
        assert((div >> s) != 0) by (bit_vector)
            requires
                v <= div,
                top == (v >> 96) as u32,
                k < 32,
                (top >> ((31 - k) as u32)) & 1u32 != 0u32,
                s == (32 - k) as u128,
        ;
    }
}

/// A count that is its own full count is packed to the largest value.
pub proof fn lemma_full_count_packs_to_max(v: u128)
    requires
        0 < v,
    ensures
        packed(v, v) == u32::MAX,
{
    lemma_packable(v, v);
    if v < 0x1_0000_0000_0000_0000_0000_0000 {
        assert(v * 0x1_0000_0000 / (v as int) == 0x1_0000_0000) by (nonlinear_arith)
            requires
                0 < v,
        ;
    } else {
        let top = (v >> 96) as u32;
        assert((v >> 96) <= 0xffff_ffff) by (bit_vector);
        axiom_u32_leading_zeros(top);
        assert(top != 0) by {
            assert(v < 0x1_0000_0000_0000_0000_0000_0000 <==> (v >> 96) == 0) by (bit_vector);
        }
        let k = u32_leading_zeros(top);
        assert(k < 32);
        let s = (32 - k) as u128;
        let a = v << (k as u128);
        let b = v >> s;
        assert(top >> ((32 - k) as u32) == 0);
        assert(b < 0x1_0000_0000_0000_0000_0000_0000 && (b << 32) <= a) by (bit_vector)
            requires
                top == (v >> 96) as u32,
                k < 32,
                top >> ((32 - k) as u32) == 0,
                s == (32 - k) as u128,
                a == v << (k as u128),
                b == v >> s,
        ;
        assert(b << 32 == b * 0x1_0000_0000) by (bit_vector)
            requires
                b < 0x1_0000_0000_0000_0000_0000_0000,
        ;
        assert(b != 0);
        assert(a / b >= 0x1_0000_0000) by (nonlinear_arith)
            requires
                b * 0x1_0000_0000 <= a,
                0 < b,
        ;
    }
}

/// A hand that has won holds the largest packed value in every round of the
/// hands of 14 tiles.
pub proof fn lemma_winning_hand_packs_to_max(conv: HandConverter, round: nat, id: int)
    requires
        round % 2 == 0,
        round <= 36,
        0 <= id < conv.hand14_table().len(),
        is_agari_id(conv, id),
    ensures
        tsumo_table(conv, round)[id] == wall_pow(round / 2),
        packed(wall_pow(round / 2) as u128, wall_pow(round / 2) as u128) == u32::MAX,
{
    lemma_wall_pow_bounds(round / 2);
    lemma_wall_pow_positive(round / 2);
    lemma_full_count_packs_to_max(wall_pow(round / 2) as u128);
}

/// With no draw left a hand holds the largest packed value where it has won,
/// and zero where it has not.
pub proof fn lemma_round_zero_packed(conv: HandConverter, id: int)
    requires
        0 <= id < conv.hand14_table().len(),
    ensures
        packed(tsumo_table(conv, 0)[id] as u128, 1) == if is_agari_id(conv, id) {
            u32::MAX as int
        } else {
            0
        },
{
    if is_agari_id(conv, id) {
        lemma_full_count_packs_to_max(1);
    } else {
        lemma_packable(0, 1);
        assert(0u128 * 0x1_0000_0000 / 1 == 0);
    }
}

/// Of two shares, the larger has no smaller floor in any unit.
pub proof fn lemma_share_floor_order(v: int, div: int, v2: int, div2: int, unit: int)
    requires
        0 <= v,
        0 <= v2,
        0 < div,
        0 < div2,
        0 <= unit,
        v * div2 <= v2 * div,
    ensures
        (v * unit) / div <= (v2 * unit) / div2,
{
    let a = (v * unit) / div;
    let b = (v2 * unit) / div2;
    assert(0 <= a && a * div <= v * unit) by (nonlinear_arith)
        requires
            a == (v * unit) / div,
            0 < div,
            0 <= v,
            0 <= unit,
    ;
    assert(v2 * unit < (b + 1) * div2) by (nonlinear_arith)
        requires
            b == (v2 * unit) / div2,
            0 < div2,
    ;
    assert(a * div * div2 <= v2 * unit * div) by (nonlinear_arith)
        requires
            a * div <= v * unit,
            v * div2 <= v2 * div,
            0 <= unit,
            0 < div2,
            0 <= a,
    ;
    assert(a * div2 <= v2 * unit) by (nonlinear_arith)
        requires
            a * div * div2 <= v2 * unit * div,
            0 < div,
    ;
    assert(a < b + 1) by (nonlinear_arith)
        requires
            a * div2 <= v2 * unit,
            v2 * unit < (b + 1) * div2,
            0 < div2,
    ;
}

/// Packing keeps the order of shares whose counts are below `2^96`: where
/// one count out of its full count is no larger a share than another out of
/// its own, it is packed to no larger a value.
pub proof fn lemma_packed_keeps_order(v: u128, div: u128, v2: u128, div2: u128)
    requires
        0 < div,
        0 < div2,
        v <= div,
        v2 <= div2,
        v < 0x1_0000_0000_0000_0000_0000_0000,
        v2 < 0x1_0000_0000_0000_0000_0000_0000,
        v * div2 <= v2 * div,
    ensures
        packed(v, div) <= packed(v2, div2),
{
    lemma_packable(v, div);
    lemma_packable(v2, div2);
    lemma_share_floor_order(v as int, div as int, v2 as int, div2 as int, 0x1_0000_0000);
}

/// Shifting a count up by bits that it leaves free multiplies it by a power
/// of two.
pub proof fn lemma_shift_up(v: u128, k: u128)
    requires
        k < 32,
        (v << k) >> k == v,
    ensures
        (v << k) == v * pow2(k as nat),
    decreases k,
{
    if k == 0 {
        assert(v << 0u128 == v) by (bit_vector);
        lemma2_to64();
    } else {
        let j = (k - 1) as u128;
        let y = v << j;
        assert((v << k) == ((v << j) << 1u128)) by (bit_vector)
            requires
                0 < k < 32,
                k == j + 1,
        ;
        assert(((v << j) >> j) == v) by (bit_vector)
            requires
                0 < k < 32,
                k == j + 1,
                (v << k) >> k == v,
        ;
        assert((v << j) < 0x8000_0000_0000_0000_0000_0000_0000_0000) by (bit_vector)
            requires
                0 < k < 32,
                k == j + 1,
                (v << k) >> k == v,
        ;
        assert(y << 1u128 == y * 2) by (bit_vector)
            requires
                y < 0x8000_0000_0000_0000_0000_0000_0000_0000,
        ;
        lemma_shift_up(v, j);
        lemma_pow2_unfold(k as nat);
        let pk = pow2(k as nat);
        let pj = pow2(j as nat);
        assert(v * pk == 2 * (v * pj)) by (nonlinear_arith)
            requires
                pk == 2 * pj,
        ;
    }
}

/// A packed value is the floor of the count's share of `2^32` or one more,
/// cut off at the largest value.
pub proof fn lemma_packed_near_share(v: u128, div: u128)
    requires
        0 < div,
        v <= div,
    ensures
        packed(v, div) >= if v * 0x1_0000_0000 / (div as int) > u32::MAX {
            u32::MAX as int
        } else {
            v * 0x1_0000_0000 / (div as int)
        },
        packed(v, div) <= if v * 0x1_0000_0000 / (div as int) + 1 > u32::MAX {
            u32::MAX as int
        } else {
            v * 0x1_0000_0000 / (div as int) + 1
        },
{
    lemma_packable(v, div);
    if v >= 0x1_0000_0000_0000_0000_0000_0000 {
        let top = (v >> 96) as u32;
        assert((v >> 96) <= 0xffff_ffff) by (bit_vector);
        axiom_u32_leading_zeros(top);
        assert(top != 0) by {
            assert(v < 0x1_0000_0000_0000_0000_0000_0000 <==> (v >> 96) == 0) by (bit_vector);
        }
        let k = u32_leading_zeros(top);
        assert(k < 32);
        let ku = k as u128;
        let s = (32 - k) as u128;
        let a = v << ku;
        let b = div >> s;
        assert(top >> ((32 - k) as u32) == 0);
        assert((top >> ((31 - k) as u32)) & 1u32 != 0u32);
        assert((a >> ku) == v && b >= 0x8000_0000_0000_0000_0000_0000) by (bit_vector)
            requires
                top == (v >> 96) as u32,
                k < 32,
                ku == k as u128,
                top >> ((32 - k) as u32) == 0,
                (top >> ((31 - k) as u32)) & 1u32 != 0u32,
                s == (32 - k) as u128,
                a == v << ku,
                b == div >> s,
                v <= div,
        ;
        lemma_shift_up(v, ku);
        lemma_u128_shr_is_div(div, s);
        lemma_pow2_adds(k as nat, s as nat);
        lemma2_to64();
        lemma_pow2_pos(k as nat);
        lemma_pow2_pos(s as nat);
        let pk = pow2(k as nat) as int;
        let ps = pow2(s as nat) as int;
        let unit = 0x1_0000_0000int;
        assert(pk * ps == unit);
        assert(a == v * pk);
        assert(b == div as int / ps);
        let x = v * unit / (div as int);
        let q = a as int / (b as int);
        lemma_near_share(v as int, div as int, a as int, b as int, pk, ps);
    }
}

/// The arithmetic of `lemma_packed_near_share`: dividing a count scaled by
/// one factor of the unit by the full count divided by the other factor
/// gives the floor of the share or one more.
proof fn lemma_near_share(v: int, div: int, a: int, b: int, pk: int, ps: int)
    requires
        0 <= v <= div,
        0 < pk,
        0 < ps,
        a == v * pk,
        b == div / ps,
        a < 0x1_0000_0000_0000_0000_0000_0000_0000_0000,
        b >= 0x8000_0000_0000_0000_0000_0000,
    ensures
        v * (pk * ps) / div <= a / b <= v * (pk * ps) / div + 1,
{
    let unit = pk * ps;
    let x = v * unit / div;
    let q = a / b;
    assert(v * unit == a * ps) by (nonlinear_arith)
        requires
            a == v * pk,
            unit == pk * ps,
    ;
    assert(0 <= unit) by (nonlinear_arith)
        requires
            unit == pk * ps,
            0 < pk,
            0 < ps,
    ;
    assert(b * ps <= div < b * ps + ps) by (nonlinear_arith)
        requires
            b == div / ps,
            0 < ps,
    ;
    assert(0 <= x && x * div <= v * unit < (x + 1) * div) by (nonlinear_arith)
        requires
            x == v * unit / div,
            0 < div,
            0 <= v,
            0 <= unit,
    ;
    assert(0 <= q && q * b <= a < (q + 1) * b) by (nonlinear_arith)
        requires
            q == a / b,
            0 < b,
            0 <= a,
    ;
    // The floor of the share is no more than the quotient.
    assert(x * b * ps <= x * div) by (nonlinear_arith)
        requires
            b * ps <= div,
            0 <= x,
    ;
    assert(x * b <= a) by (nonlinear_arith)
        requires
            x * b * ps <= a * ps,
            0 < ps,
    ;
    assert(x < q + 1) by (nonlinear_arith)
        requires
            x * b <= a,
            a < (q + 1) * b,
            0 < b,
    ;
    // The quotient is no more than the floor and one.
    assert(q <= b + 1) by (nonlinear_arith)
        requires
            q * b <= a,
            a < 0x1_0000_0000_0000_0000_0000_0000_0000_0000,
            b >= 0x8000_0000_0000_0000_0000_0000,
            0 <= q,
    ;
    if q >= 1 {
        assert((q - 1) * div <= (q - 1) * (b * ps + ps)) by (nonlinear_arith)
            requires
                div < b * ps + ps,
                q >= 1,
        ;
        assert((q - 1) * (b * ps + ps) <= q * b * ps) by (nonlinear_arith)
            requires
                q <= b + 1,
                0 < ps,
                q >= 1,
        ;
        assert(q * b * ps <= a * ps) by (nonlinear_arith)
            requires
                q * b <= a,
                0 < ps,
        ;
        assert(q - 1 < x + 1) by (nonlinear_arith)
            requires
                (q - 1) * div <= v * unit,
                v * unit < (x + 1) * div,
                0 < div,
        ;
    }
}

/// Packing loses at most one unit of order: where one count out of its full
/// count is no larger a share than another out of its own, it is packed to no
/// more than the other's value and one.
pub proof fn lemma_packed_nearly_keeps_order(v: u128, div: u128, v2: u128, div2: u128)
    requires
        0 < div,
        v <= div,
        0 < div2,
        v2 <= div2,
        v * div2 <= v2 * div,
    ensures
        packed(v, div) <= packed(v2, div2) + 1,
{
    lemma_packed_near_share(v, div);
    lemma_packed_near_share(v2, div2);
    lemma_share_floor_order(v as int, div as int, v2 as int, div2 as int, 0x1_0000_0000);
}

/// The packed chance to win does not shrink by more than one unit with one
/// more draw, in any round.
pub proof fn lemma_packed_nearly_monotone(conv: HandConverter, round: nat, id: int)
    requires
        closed_under_moves(conv),
        (round + 1) / 2 + 1 <= 18,
        0 <= id < tsumo_table(conv, round).len(),
    ensures
        0 <= tsumo_table(conv, round)[id] <= wall_pow((round + 1) / 2),
        0 <= tsumo_table(conv, round + 2)[id] <= wall_pow((round + 1) / 2 + 1),
        packed(tsumo_table(conv, round)[id] as u128, wall_pow((round + 1) / 2) as u128) <= packed(
            tsumo_table(conv, round + 2)[id] as u128,
            wall_pow((round + 1) / 2 + 1) as u128,
        ) + 1,
{
    let k = (round + 1) / 2;
    lemma_tsumo_table_bounds(conv, round);
    lemma_tsumo_table_bounds(conv, round + 2);
    lemma_tsumo_monotone(conv, round);
    lemma_wall_pow_bounds(k);
    lemma_wall_pow_bounds(k + 1);
    assert((round + 3) / 2 == k + 1);
    let v = tsumo_table(conv, round)[id];
    let v2 = tsumo_table(conv, round + 2)[id];
    let d = wall_pow(k);
    let d2 = wall_pow(k + 1);
    assert(d2 == 123 * d);
    assert(123 * v <= v2);
    assert(v * d2 <= v2 * d) by (nonlinear_arith)
        requires
            d2 == 123 * d,
            123 * v <= v2,
            0 < d,
            0 <= v,
    ;
    lemma_packed_nearly_keeps_order(v as u128, d as u128, v2 as u128, d2 as u128);
}

/// The full count after thirteen draws is below `2^96`.
pub proof fn lemma_wall_pow_small(k: nat)
    requires
        k <= 13,
    ensures
        1 <= wall_pow(k) <= 1474913153392179474539944683,
{
    lemma_wall_pow_positive(k);
    assert(wall_pow(13) == 1474913153392179474539944683) by {
        assert(wall_pow(0) == 1);
        assert(wall_pow(1) == 123);
        assert(wall_pow(2) == 123 * wall_pow(1));
        assert(wall_pow(3) == 123 * wall_pow(2));
        assert(wall_pow(4) == 123 * wall_pow(3));
        assert(wall_pow(5) == 123 * wall_pow(4));
        assert(wall_pow(6) == 123 * wall_pow(5));
        assert(wall_pow(7) == 123 * wall_pow(6));
        assert(wall_pow(8) == 123 * wall_pow(7));
        assert(wall_pow(9) == 123 * wall_pow(8));
        assert(wall_pow(10) == 123 * wall_pow(9));
        assert(wall_pow(11) == 123 * wall_pow(10));
        assert(wall_pow(12) == 123 * wall_pow(11));
        assert(wall_pow(13) == 123 * wall_pow(12));
    }
    lemma_wall_pow_grows(k, 13);
}

/// The packed chance to win does not shrink with one more draw, as long as
/// the full count of the later round is below `2^96`: up to thirteen draws.
pub proof fn lemma_packed_monotone(conv: HandConverter, round: nat, id: int)
    requires
        closed_under_moves(conv),
        (round + 1) / 2 + 1 <= 13,
        0 <= id < tsumo_table(conv, round).len(),
    ensures
        0 <= tsumo_table(conv, round)[id] <= wall_pow((round + 1) / 2),
        0 <= tsumo_table(conv, round + 2)[id] <= wall_pow((round + 1) / 2 + 1),
        packed(tsumo_table(conv, round)[id] as u128, wall_pow((round + 1) / 2) as u128) <= packed(
            tsumo_table(conv, round + 2)[id] as u128,
            wall_pow((round + 1) / 2 + 1) as u128,
        ),
{
    let k = (round + 1) / 2;
    lemma_tsumo_table_bounds(conv, round);
    lemma_tsumo_table_bounds(conv, round + 2);
    lemma_tsumo_monotone(conv, round);
    lemma_wall_pow_small(k);
    lemma_wall_pow_small(k + 1);
    assert((round + 3) / 2 == k + 1);
    let v = tsumo_table(conv, round)[id];
    let v2 = tsumo_table(conv, round + 2)[id];
    let d = wall_pow(k);
    let d2 = wall_pow(k + 1);
    assert(d2 == 123 * d);
    assert(123 * v <= v2);
    assert(v * d2 <= v2 * d) by (nonlinear_arith)
        requires
            d2 == 123 * d,
            123 * v <= v2,
            0 < d,
            0 <= v,
    ;
    lemma_packed_keeps_order(v as u128, d as u128, v2 as u128, d2 as u128);
}

/// The hand `678m56p233789s11z`, which the chances to win are checked on.
pub open spec fn benchmark_hand() -> HandView {
    HandView {
        supai: seq![
            seq![0u8, 0u8, 0u8, 0u8, 0u8, 1u8, 1u8, 1u8, 0u8],
            seq![0u8, 0u8, 0u8, 0u8, 1u8, 1u8, 0u8, 0u8, 0u8],
            seq![0u8, 1u8, 2u8, 0u8, 0u8, 0u8, 1u8, 1u8, 1u8],
        ],
        jihai: seq![6u8, 0u8, 1u8, 0u8, 0u8],
    }
}

/// The count that a table of the hands of 13 tiles holds for the hand
/// `678m56p233789s11z`, where the tables number the hand.
pub fn check(conv: &HandConverter, table: &Vec<u128>) -> (r: Option<u128>)
    requires
        conv.wf(),
        table@.len() == conv.hand13_table().len(),
    ensures
        r is Some <==> conv.covers13(benchmark_hand()),
        r is Some ==> r.unwrap() == table@[conv.id13(benchmark_hand())],
{
    let hand = Hand {
        supai: [
            [0, 0, 0, 0, 0, 1, 1, 1, 0],
            [0, 0, 0, 0, 1, 1, 0, 0, 0],
            [0, 1, 2, 0, 0, 0, 1, 1, 1],
        ],
        jihai: [6, 0, 1, 0, 0],
    };
    proof {
        let want = benchmark_hand();
        assert(hand@.supai[0] =~= want.supai[0]);
        assert(hand@.supai[1] =~= want.supai[1]);
        assert(hand@.supai[2] =~= want.supai[2]);
        assert(hand@.supai =~= want.supai);
        assert(hand@.jihai =~= want.jihai);
        assert forall|s: int| 0 <= s < 3 implies crate::hand::suit_wf(
            #[trigger] hand@.supai[s],
        ) by {}
    }
    match conv.try_encode_hand13_fast(&hand) {
        Some(id) => {
            proof {
                conv.lemma_decode_of_encode13(hand@);
            }
            Some(table[id as usize])
        },
        None => None,
    }
}

} // verus!
