use crate::combinatorics::{is_choice, is_multichoice};
use crate::hand::{honor_kinds, suit_total, suit_wf, Hand, HandView};
use vstd::prelude::*;

verus! {

/// Number of meld slots: 21 runs, 27 suited triplets, and one slot that
/// stands for a triplet of any honor.
pub const MELD_SLOTS: usize = 49;

/// Number of pair slots: 27 suited pairs, and one slot that stands for a
/// pair of any honor.
pub const PAIR_SLOTS: usize = 28;

/// Number of tile kinds: 27 suited tiles and 7 honors.
pub const TILE_KINDS: usize = 34;

/// The hand without tiles.
pub open spec fn empty_hand() -> HandView {
    HandView {
        supai: Seq::new(3, |s: int| Seq::new(9, |n: int| 0u8)),
        jihai: seq![7u8, 0u8, 0u8, 0u8, 0u8],
    }
}

/// Three rows of nine counts and five buckets, whatever they hold.
pub open spec fn shaped(h: HandView) -> bool {
    &&& h.supai.len() == 3
    &&& h.supai[0].len() == 9
    &&& h.supai[1].len() == 9
    &&& h.supai[2].len() == 9
    &&& h.jihai.len() == 5
}

/// A hand with `d` more copies of one suited tile.
pub open spec fn bump(h: HandView, s: int, n: int, d: int) -> HandView {
    h.with_suited(s, n, (h.supai[s][n] + d) as u8)
}

/// A hand with one more honor kind held `m` times, taken from the kinds
/// that were not held.
pub open spec fn bump_honor(h: HandView, m: int) -> HandView {
    h.with_honor_moved(0, m)
}

/// A hand with the tiles of the meld of slot `m` added: a run from slots
/// `0..21`, a suited triplet from slots `21..48`, an honor triplet from slot 48.
pub open spec fn add_meld(h: HandView, m: int) -> HandView {
    if m < 21 {
        bump(bump(bump(h, m / 7, m % 7, 1), m / 7, m % 7 + 1, 1), m / 7, m % 7 + 2, 1)
    } else if m < 48 {
        bump(h, (m - 21) / 9, (m - 21) % 9, 3)
    } else {
        bump_honor(h, 3)
    }
}

/// A hand with the tiles of the pair of slot `p` added: a suited pair from
/// slots `0..27`, an honor pair from slot 27.
pub open spec fn add_pair(h: HandView, p: int) -> HandView {
    if p < 27 {
        bump(h, p / 9, p % 9, 2)
    } else {
        bump_honor(h, 2)
    }
}

/// The tiles of a list of melds.
pub open spec fn melds_hand(melds: Seq<usize>) -> HandView
    decreases melds.len(),
{
    if melds.len() == 0 {
        empty_hand()
    } else {
        add_meld(melds_hand(melds.drop_last()), melds.last() as int)
    }
}

/// The tiles of a list of pairs, each named by its tile kind: suited tiles
/// `0..27`, then the honors.
pub open spec fn pairs_hand(kinds: Seq<usize>) -> HandView
    decreases kinds.len(),
{
    if kinds.len() == 0 {
        empty_hand()
    } else {
        add_pair(
            pairs_hand(kinds.drop_last()),
            if kinds.last() < 27 {
                kinds.last() as int
            } else {
                27
            },
        )
    }
}

/// The thirteen terminals and honors once each, and one terminal twice
/// (`honor` false) or one honor twice (`honor` true).
pub open spec fn orphans_hand(honor: bool) -> HandView {
    let ends = seq![1u8, 0u8, 0u8, 0u8, 0u8, 0u8, 0u8, 0u8, 1u8];
    if honor {
        HandView { supai: seq![ends, ends, ends], jihai: seq![0u8, 6u8, 1u8, 0u8, 0u8] }
    } else {
        HandView {
            supai: seq![seq![2u8, 0u8, 0u8, 0u8, 0u8, 0u8, 0u8, 0u8, 1u8], ends, ends],
            jihai: seq![0u8, 7u8, 0u8, 0u8, 0u8],
        }
    }
}

/// Four melds and a pair.
pub open spec fn is_standard_agari(h: HandView) -> bool {
    exists|melds: Seq<usize>, p: int|
        is_multichoice(melds, 49, 4) && 0 <= p < 28 && #[trigger] add_pair(melds_hand(melds), p)
            == h && h.wf()
}

/// Seven pairs of different tile kinds.
pub open spec fn is_seven_pairs(h: HandView) -> bool {
    exists|kinds: Seq<usize>| is_choice(kinds, 34, 7) && #[trigger] pairs_hand(kinds) == h
}

/// Thirteen orphans in one of the two forms that stand for all of them.
pub open spec fn is_orphans(h: HandView) -> bool {
    h == orphans_hand(false) || h == orphans_hand(true)
}

/// A winning hand of 14 tiles, as the enumeration of winning shapes gives it.
pub open spec fn is_agari(h: HandView) -> bool {
    is_standard_agari(h) || is_seven_pairs(h) || is_orphans(h)
}

/// Adding copies of a suited tile adds as many tiles.
pub proof fn lemma_bump(h: HandView, s: int, n: int, d: int)
    requires
        shaped(h),
        0 <= s < 3,
        0 <= n < 9,
        0 <= h.supai[s][n] + d <= 255,
    ensures
        shaped(bump(h, s, n, d)),
        bump(h, s, n, d).num_tiles() == h.num_tiles() + d,
        bump(h, s, n, d).jihai == h.jihai,
        forall|t: int, m: int|
            0 <= t < 3 && 0 <= m < 9 ==> #[trigger] bump(h, s, n, d).supai[t][m] == h.supai[t][m]
                + if t == s && m == n {
                d
            } else {
                0
            },
{
    let next = bump(h, s, n, d);
    assert(n == 0 || n == 1 || n == 2 || n == 3 || n == 4 || n == 5 || n == 6 || n == 7 || n == 8);
    assert(suit_total(next.supai[s]) == suit_total(h.supai[s]) + d);
    assert(s == 0 || s == 1 || s == 2);
}

/// Taking up one more honor kind `m` times adds `m` tiles.
pub proof fn lemma_bump_honor(h: HandView, m: int)
    requires
        shaped(h),
        1 <= m < 5,
        h.jihai[0] > 0,
        h.jihai[m] < 255,
    ensures
        shaped(bump_honor(h, m)),
        bump_honor(h, m).num_tiles() == h.num_tiles() + m,
        bump_honor(h, m).supai == h.supai,
        honor_kinds(bump_honor(h, m).jihai) == honor_kinds(h.jihai),
        bump_honor(h, m).jihai[0] == h.jihai[0] - 1,
        bump_honor(h, m).jihai[m] == h.jihai[m] + 1,
        forall|i: int| 1 <= i < 5 && i != m ==> bump_honor(h, m).jihai[i] == h.jihai[i],
{
    assert(m == 1 || m == 2 || m == 3 || m == 4);
}

/// The tiles of up to four melds: three tiles each, at most seven honor
/// triplets among them, no count above three per meld.
pub proof fn lemma_melds_hand(melds: Seq<usize>)
    requires
        melds.len() <= 4,
        forall|i: int| 0 <= i < melds.len() ==> #[trigger] melds[i] < 49,
    ensures
        shaped(melds_hand(melds)),
        melds_hand(melds).num_tiles() == 3 * melds.len(),
        forall|s: int, n: int|
            0 <= s < 3 && 0 <= n < 9 ==> #[trigger] melds_hand(melds).supai[s][n] <= 3
                * melds.len(),
        melds_hand(melds).jihai[1] == 0 && melds_hand(melds).jihai[2] == 0 && melds_hand(
            melds,
        ).jihai[4] == 0,
        melds_hand(melds).jihai[3] <= melds.len(),
        melds_hand(melds).jihai[0] + melds_hand(melds).jihai[3] == 7,
    decreases melds.len(),
{
    if melds.len() > 0 {
        let prev = melds_hand(melds.drop_last());
        let m = melds.last() as int;
        lemma_melds_hand(melds.drop_last());
        if m < 21 {
            let s = m / 7;
            let n = m % 7;
            assert(prev.supai[s][n] <= 9 && prev.supai[s][n + 1] <= 9 && prev.supai[s][n + 2] <= 9);
            lemma_bump(prev, s, n, 1);
            let a = bump(prev, s, n, 1);
            assert(a.supai[s][n + 1] == prev.supai[s][n + 1]);
            lemma_bump(a, s, n + 1, 1);
            let b = bump(a, s, n + 1, 1);
            assert(b.supai[s][n + 2] == prev.supai[s][n + 2]);
            lemma_bump(b, s, n + 2, 1);
            let c = bump(b, s, n + 2, 1);
            assert forall|t: int, r: int| 0 <= t < 3 && 0 <= r < 9 implies #[trigger] c.supai[t][r]
                <= prev.supai[t][r] + 1 by {
                assert(b.supai[t][r] <= a.supai[t][r] + 1);
                assert(a.supai[t][r] <= prev.supai[t][r] + 1);
                if t == s && r == n {
                    assert(b.supai[t][r] == a.supai[t][r]);
                    assert(c.supai[t][r] == b.supai[t][r]);
                } else if t == s && r == n + 1 {
                    assert(a.supai[t][r] == prev.supai[t][r]);
                    assert(c.supai[t][r] == b.supai[t][r]);
                } else if t == s && r == n + 2 {
                    assert(a.supai[t][r] == prev.supai[t][r]);
                    assert(b.supai[t][r] == a.supai[t][r]);
                } else {
                    assert(a.supai[t][r] == prev.supai[t][r]);
                    assert(b.supai[t][r] == a.supai[t][r]);
                    assert(c.supai[t][r] == b.supai[t][r]);
                }
            }
        } else if m < 48 {
            let s = (m - 21) / 9;
            let n = (m - 21) % 9;
            assert(prev.supai[s][n] <= 9);
            lemma_bump(prev, s, n, 3);
        } else {
            lemma_bump_honor(prev, 3);
        }
    }
}

/// A hand of four melds and a pair has fourteen tiles, and is well-formed
/// where no suited tile occurs more than four times.
pub proof fn lemma_standard_shape(melds: Seq<usize>, p: int)
    requires
        melds.len() == 4,
        forall|i: int| 0 <= i < melds.len() ==> #[trigger] melds[i] < 49,
        0 <= p < 28,
    ensures
        shaped(add_pair(melds_hand(melds), p)),
        add_pair(melds_hand(melds), p).num_tiles() == 14,
        honor_kinds(add_pair(melds_hand(melds), p).jihai) == 7,
        add_pair(melds_hand(melds), p).wf() <==> (forall|s: int, n: int|
            0 <= s < 3 && 0 <= n < 9 ==> #[trigger] melds_hand(melds).supai[s][n] + if p < 27 && s
                == p / 9 && n == p % 9 {
                2int
            } else {
                0int
            } <= 4),
{
    let mh = melds_hand(melds);
    let h = add_pair(mh, p);
    lemma_melds_hand(melds);
    if p < 27 {
        assert(mh.supai[p / 9][p % 9] <= 12);
        lemma_bump(mh, p / 9, p % 9, 2);
    } else {
        lemma_bump_honor(mh, 2);
    }
    let cond = forall|s: int, n: int|
        0 <= s < 3 && 0 <= n < 9 ==> #[trigger] mh.supai[s][n] + if p < 27 && s == p / 9 && n == p
            % 9 {
            2int
        } else {
            0int
        } <= 4;
    if h.wf() {
        assert forall|s: int, n: int| 0 <= s < 3 && 0 <= n < 9 implies #[trigger] mh.supai[s][n]
            + if p < 27 && s == p / 9 && n == p % 9 {
            2int
        } else {
            0int
        } <= 4 by {
            assert(suit_wf(h.supai[s]));
            assert(h.supai[s][n] <= 4);
        }
    }
    if cond {
        assert forall|s: int| 0 <= s < 3 implies suit_wf(#[trigger] h.supai[s]) by {
            assert forall|n: int| 0 <= n < 9 implies #[trigger] h.supai[s][n] <= 4 by {
                assert(mh.supai[s][n] + if p < 27 && s == p / 9 && n == p % 9 {
                    2int
                } else {
                    0int
                } <= 4);
            }
        }
    }
}

/// The hand that a list of up to four melds makes, before the pair.
pub fn melds_to_hand(melds: &Vec<usize>) -> (hand: Hand)
    requires
        melds@.len() <= 4,
        forall|i: int| 0 <= i < melds@.len() ==> #[trigger] melds@[i] < 49,
    ensures
        hand@ == melds_hand(melds@),
{
    let mut hand = Hand::new();
    assert(hand@.supai =~~= empty_hand().supai);
    assert(melds@.take(0) =~= Seq::empty());
    for k in 0..melds.len()
        invariant
            melds@.len() <= 4,
            forall|i: int| 0 <= i < melds@.len() ==> #[trigger] melds@[i] < 49,
            hand@ == melds_hand(melds@.take(k as int)),
    {
        let i = melds[k];
        proof {
            assert(melds@.take(k + 1).drop_last() == melds@.take(k as int));
            assert(melds@.take(k as int).len() == k);
            lemma_melds_hand(melds@.take(k as int));
        }
        let ghost prev = hand@;
        if i < 21 {
            let suit = i / 7;
            let num = i % 7;
            proof {
                lemma_bump(prev, suit as int, num as int, 1);
                lemma_bump(bump(prev, suit as int, num as int, 1), suit as int, num + 1, 1);
            }
            hand.supai[suit][num] += 1;
            assert(hand@.supai =~= bump(prev, suit as int, num as int, 1).supai);
            let ghost a = hand@;
            hand.supai[suit][num + 1] += 1;
            assert(hand@.supai =~= bump(a, suit as int, num + 1, 1).supai);
            let ghost b = hand@;
            hand.supai[suit][num + 2] += 1;
            assert(hand@.supai =~= bump(b, suit as int, num + 2, 1).supai);
        } else if i < 21 + 27 {
            let suit = (i - 21) / 9;
            let num = (i - 21) % 9;
            hand.supai[suit][num] += 3;
            assert(hand@.supai =~= bump(prev, suit as int, num as int, 3).supai);
        } else {
            hand.jihai[3] += 1;
            hand.jihai[0] -= 1;
            assert(hand@.jihai =~= bump_honor(prev, 3).jihai);
            assert(hand@.supai =~= prev.supai);
        }
    }
    assert(melds@.take(melds@.len() as int) == melds@);
    hand
}

/// Whether no suited tile of a hand occurs more than four times.
pub fn within_four(hand: &Hand) -> (ok: bool)
    ensures
        ok <==> forall|s: int, n: int| 0 <= s < 3 && 0 <= n < 9 ==> #[trigger] hand@.supai[s][n] <= 4,
{
    for s in 0..3usize
        invariant
            forall|t: int, n: int| 0 <= t < s && 0 <= n < 9 ==> #[trigger] hand@.supai[t][n] <= 4,
    {
        for n in 0..9usize
            invariant
                0 <= s < 3,
                forall|t: int, m: int|
                    0 <= t < s && 0 <= m < 9 ==> #[trigger] hand@.supai[t][m] <= 4,
                forall|m: int| 0 <= m < n ==> #[trigger] hand@.supai[s as int][m] <= 4,
        {
            if hand.supai[s][n] > 4 {
                assert(!(hand@.supai[s as int][n as int] <= 4));
                return false;
            }
        }
    }
    true
}

/// The tiles of pairs of different kinds: two tiles per kind, no suited
/// tile more than twice, and no more honor pairs than honors among the kinds.
pub proof fn lemma_pairs_hand(kinds: Seq<usize>)
    requires
        is_choice(kinds, 34, kinds.len() as int),
    ensures
        shaped(pairs_hand(kinds)),
        pairs_hand(kinds).num_tiles() == 2 * kinds.len(),
        forall|s: int, n: int|
            0 <= s < 3 && 0 <= n < 9 ==> {
                let c = #[trigger] pairs_hand(kinds).supai[s][n];
                (c == 0 || c == 2) && (c == 2 ==> kinds.len() > 0 && 9 * s + n <= kinds.last())
            },
        pairs_hand(kinds).jihai[1] == 0 && pairs_hand(kinds).jihai[3] == 0 && pairs_hand(
            kinds,
        ).jihai[4] == 0,
        pairs_hand(kinds).jihai[0] + pairs_hand(kinds).jihai[2] == 7,
        pairs_hand(kinds).jihai[2] > 0 ==> kinds.len() > 0 && pairs_hand(kinds).jihai[2]
            <= kinds.last() - 26,
        pairs_hand(kinds).wf(),
    decreases kinds.len(),
{
    let h = pairs_hand(kinds);
    if kinds.len() > 0 {
        let rest = kinds.drop_last();
        let prev = pairs_hand(rest);
        let v = kinds.last() as int;
        assert(is_choice(rest, 34, rest.len() as int)) by {
            assert forall|i: int| 0 <= i < rest.len() implies #[trigger] rest[i] < 34 by {
                assert(kinds[i] < 34);
            }
        }
        lemma_pairs_hand(rest);
        assert(kinds[kinds.len() - 1] < 34);
        if rest.len() > 0 {
            assert(rest.last() == kinds[kinds.len() - 2]);
            assert(kinds[kinds.len() - 2] < kinds[kinds.len() - 1]);
        }
        if v < 27 {
            assert(prev.supai[v / 9][v % 9] == 0) by {
                let c = prev.supai[v / 9][v % 9];
                if c == 2 {
                    assert(9 * (v / 9) + v % 9 <= rest.last());
                }
            }
            lemma_bump(prev, v / 9, v % 9, 2);
            assert(prev.jihai[2] == 0);
        } else {
            lemma_bump_honor(prev, 2);
        }
    }
    assert forall|s: int| 0 <= s < 3 implies suit_wf(#[trigger] h.supai[s]) by {
        assert forall|n: int| 0 <= n < 9 implies #[trigger] h.supai[s][n] <= 4 by {
            let c = h.supai[s][n];
            assert(c == 0 || c == 2);
        }
    }
}

/// The hand that pairs of different tile kinds make.
pub fn pairs_to_hand(kinds: &Vec<usize>) -> (hand: Hand)
    requires
        is_choice(kinds@, 34, kinds@.len() as int),
    ensures
        hand@ == pairs_hand(kinds@),
        hand@.wf(),
{
    let mut hand = Hand::new();
    assert(hand@.supai =~~= empty_hand().supai);
    assert(kinds@.take(0) =~= Seq::empty());
    for k in 0..kinds.len()
        invariant
            is_choice(kinds@, 34, kinds@.len() as int),
            hand@ == pairs_hand(kinds@.take(k as int)),
    {
        let v = kinds[k];
        proof {
            let pre = kinds@.take(k as int);
            let cur = kinds@.take(k + 1);
            assert(cur.drop_last() == pre);
            assert(is_choice(pre, 34, pre.len() as int)) by {
                assert forall|i: int| 0 <= i < pre.len() implies #[trigger] pre[i] < 34 by {
                    assert(kinds@[i] < 34);
                }
            }
            assert(is_choice(cur, 34, cur.len() as int)) by {
                assert forall|i: int| 0 <= i < cur.len() implies #[trigger] cur[i] < 34 by {
                    assert(kinds@[i] < 34);
                }
            }
            lemma_pairs_hand(pre);
            lemma_pairs_hand(cur);
            assert(kinds@[k as int] < 34);
        }
        let ghost prev = hand@;
        if v < 27 {
            hand.supai[v / 9][v % 9] += 2;
            assert(hand@.supai =~= bump(prev, v as int / 9, v as int % 9, 2).supai);
        } else {
            proof {
                lemma_bump_honor(prev, 2);
            }
            hand.jihai[0] -= 1;
            hand.jihai[2] += 1;
            assert(hand@.jihai =~= bump_honor(prev, 2).jihai);
            assert(hand@.supai =~= prev.supai);
        }
    }
    assert(kinds@.take(kinds@.len() as int) == kinds@);
    proof {
        lemma_pairs_hand(kinds@);
    }
    hand
}

/// The hand of thirteen orphans with a terminal doubled, or with an honor
/// doubled.
pub fn orphans(honor: bool) -> (hand: Hand)
    ensures
        hand@ == orphans_hand(honor),
        hand@.wf(),
        hand@.num_tiles() == 14,
{
    let mut hand = Hand {
        supai: [
            [1, 0, 0, 0, 0, 0, 0, 0, 1],
            [1, 0, 0, 0, 0, 0, 0, 0, 1],
            [1, 0, 0, 0, 0, 0, 0, 0, 1],
        ],
        jihai: [0, 7, 0, 0, 0],
    };
    if honor {
        hand.jihai[1] -= 1;
        hand.jihai[2] += 1;
    } else {
        hand.supai[0][0] += 1;
    }
    proof {
        let want = orphans_hand(honor);
        assert(hand@.supai[0] =~= want.supai[0]);
        assert(hand@.supai[1] =~= want.supai[1]);
        assert(hand@.supai[2] =~= want.supai[2]);
        assert(hand@.supai =~= want.supai);
        assert(hand@.jihai =~= want.jihai);
        assert forall|s: int| 0 <= s < 3 implies suit_wf(#[trigger] hand@.supai[s]) by {}
    }
    hand
}

/// Every winning hand is a well-formed hand of fourteen tiles.
pub proof fn lemma_agari_wf(h: HandView)
    requires
        is_agari(h),
    ensures
        h.wf(),
        h.num_tiles() == 14,
{
    if is_standard_agari(h) {
        let (melds, p) = choose|melds: Seq<usize>, p: int|
            is_multichoice(melds, 49, 4) && 0 <= p < 28 && #[trigger] add_pair(
                melds_hand(melds),
                p,
            ) == h && h.wf();
        lemma_standard_shape(melds, p);
    } else if is_seven_pairs(h) {
        let kinds = choose|kinds: Seq<usize>|
            is_choice(kinds, 34, 7) && #[trigger] pairs_hand(kinds) == h;
        lemma_pairs_hand(kinds);
    } else {
        let a = orphans_hand(false);
        let b = orphans_hand(true);
        assert forall|s: int| 0 <= s < 3 implies suit_wf(#[trigger] a.supai[s]) by {}
        assert forall|s: int| 0 <= s < 3 implies suit_wf(#[trigger] b.supai[s]) by {}
    }
}

} // verus!
