use crate::converter::HandConverter;
use crate::error::Error;
use crate::hand::{count_tile, honor_counts, tile_wf, tiles_hand, Hand};
use crate::metrics::trans_suit;
use crate::types::{Dimension, Metrics, Tile};
use vstd::prelude::*;
use vstd::string::StringExecFns;

verus! {

/// A list of tiles that makes a hand: every tile is one of the 34 kinds, and
/// no kind comes more than four times.
pub open spec fn tiles_valid(tiles: Seq<Tile>) -> bool {
    &&& forall|i: int| 0 <= i < tiles.len() ==> tile_wf(#[trigger] tiles[i])
    &&& forall|t: Tile| tile_wf(t) ==> #[trigger] count_tile(tiles, t) <= 4
}

/// The hand of a valid list of tiles is well-formed, and has as many tiles
/// as the list.
pub proof fn lemma_tiles_hand_wf(tiles: Seq<Tile>)
    requires
        tiles_valid(tiles),
    ensures
        forall|s: int| 0 <= s < 3 ==> crate::hand::suit_wf(#[trigger] tiles_hand(tiles).supai[s]),
        forall|k: int| 0 <= k < 7 ==> #[trigger] honor_counts(tiles)[k] <= 4,
{
    assert forall|s: int| 0 <= s < 3 implies crate::hand::suit_wf(
        #[trigger] tiles_hand(tiles).supai[s],
    ) by {
        assert forall|n: int| 0 <= n < 9 implies #[trigger] tiles_hand(tiles).supai[s][n] <= 4 by {
            assert(tile_wf(Tile::Supai(s as u8, n as u8)));
            assert(count_tile(tiles, Tile::Supai(s as u8, n as u8)) <= 4);
        }
    }
    assert forall|k: int| 0 <= k < 7 implies #[trigger] honor_counts(tiles)[k] <= 4 by {
        assert(tile_wf(Tile::Jihai(k as u8)));
        assert(count_tile(tiles, Tile::Jihai(k as u8)) <= 4);
    }
}

/// Which records of a table of packed counts answer a question about a hand.
#[derive(Clone, Copy, Debug, PartialEq, Eq)]
pub struct TsumoQuery {
    /// Whether the hand has 13 tiles, and the table to read is that of the
    /// hands of 13 tiles.
    pub thirteen: bool,
    /// The number of the hand.
    pub hand_id: u32,
    /// The first record to read.
    pub start: u64,
    /// The record after the last to read.
    pub end: u64,
}

/// Which record of a table of metrics answers a question about a hand, and
/// what it takes to read the record in the frame of the hand.
#[derive(Clone, Copy, Debug, PartialEq, Eq)]
pub struct MentsuQuery {
    /// Whether the hand has 13 tiles, and the table to read is that of the
    /// hands of 13 tiles.
    pub thirteen: bool,
    /// The record to read.
    pub index: u64,
    /// For each canonical position, the suit of the hand that stands there.
    pub trans: [i8; 3],
    /// Number of copies that the hand holds of each honor kind.
    pub jihai_cnt: [usize; 7],
}

/// The records to read for the chance of a hand to win within each number of
/// draws.
pub fn tsumo_query(conv: &HandConverter, tiles: &[Tile]) -> (r: Result<TsumoQuery, Error>)
    requires
        conv.wf(),
        tiles_valid(tiles@),
    ensures
        match r {
            Ok(q) => {
                &&& tiles@.len() == 13 || tiles@.len() == 14
                &&& q.thirteen == (tiles@.len() == 13)
                &&& q.thirteen ==> conv.covers13(tiles_hand(tiles@)) && q.hand_id == conv.id13(
                    tiles_hand(tiles@),
                )
                &&& !q.thirteen ==> conv.covers14(tiles_hand(tiles@)) && q.hand_id == conv.id14(
                    tiles_hand(tiles@),
                )
                &&& q.start == q.hand_id * 18
                &&& q.end == q.start + 18
            },
            Err(e) => if tiles@.len() != 13 && tiles@.len() != 14 {
                e == Error::InvalidHandLength(tiles@.len() as usize)
            } else {
                &&& e == Error::UnknownHand
                &&& tiles@.len() == 13 ==> !conv.covers13(tiles_hand(tiles@))
                &&& tiles@.len() == 14 ==> !conv.covers14(tiles_hand(tiles@))
            },
        },
{
    let n = tiles.len();
    if n != 13 && n != 14 {
        return Err(Error::InvalidHandLength(n));
    }
    proof {
        lemma_tiles_hand_wf(tiles@);
        conv.lemma_table_sizes();
    }
    let hand = Hand::from_tiles(tiles);
    let found = if n == 13 {
        conv.try_encode_hand13_fast(&hand)
    } else {
        conv.try_encode_hand14_fast(&hand)
    };
    match found {
        Some(id) => {
            proof {
                if n == 13 {
                    conv.lemma_decode_of_encode13(hand@);
                } else {
                    conv.lemma_decode_of_encode14(hand@);
                }
            }
            let start = (id as u64) * 18;
            Ok(TsumoQuery { thirteen: n == 13, hand_id: id, start, end: start + 18 })
        },
        None => Err(Error::UnknownHand),
    }
}

/// The first tiles of a list hold a kind no more often than the whole list.
pub proof fn lemma_count_tile_prefix(tiles: Seq<Tile>, k: int, t: Tile)
    requires
        0 <= k <= tiles.len(),
    ensures
        count_tile(tiles.take(k), t) <= count_tile(tiles, t),
        k < tiles.len() ==> count_tile(tiles.take(k + 1), t) == count_tile(tiles.take(k), t) + if tiles[k]
            == t {
            1nat
        } else {
            0nat
        },
    decreases tiles.len() - k,
{
    if k < tiles.len() {
        assert(tiles.take(k + 1).drop_last() == tiles.take(k));
        lemma_count_tile_prefix(tiles, k + 1, t);
    } else {
        assert(tiles.take(k) == tiles);
    }
}

/// Whether a list of tiles makes a hand.
pub fn check_tiles(tiles: &[Tile]) -> (ok: bool)
    ensures
        ok == tiles_valid(tiles@),
{
    let mut supai = [[0u8; 9]; 3];
    let mut jihai = [0u8; 7];
    assert(tiles@.take(0) =~= Seq::empty());
    for i in 0..tiles.len()
        invariant
            forall|k: int| 0 <= k < i ==> tile_wf(#[trigger] tiles@[k]),
            forall|s: int, n: int|
                0 <= s < 3 && 0 <= n < 9 ==> #[trigger] supai[s][n] == count_tile(
                    tiles@.take(i as int),
                    Tile::Supai(s as u8, n as u8),
                ) && supai[s][n] <= 4,
            forall|k: int|
                0 <= k < 7 ==> #[trigger] jihai[k] == count_tile(
                    tiles@.take(i as int),
                    Tile::Jihai(k as u8),
                ) && jihai[k] <= 4,
    {
        let ghost before_s = supai;
        let ghost before_j = jihai;
        proof {
            assert forall|t: Tile|
                #[trigger] count_tile(tiles@.take(i + 1), t) == count_tile(
                    tiles@.take(i as int),
                    t,
                ) + if tiles@[i as int] == t {
                    1nat
                } else {
                    0nat
                } by {
                lemma_count_tile_prefix(tiles@, i as int, t);
            }
        }
        match tiles[i] {
            Tile::Supai(suit, num) => {
                if suit >= 3 || num >= 9 {
                    assert(!tile_wf(tiles@[i as int]));
                    return false;
                }
                if supai[suit as usize][num as usize] >= 4 {
                    proof {
                        let t = Tile::Supai(suit, num);
                        assert(before_s[suit as int][num as int] == count_tile(
                            tiles@.take(i as int),
                            Tile::Supai(suit as int as u8, num as int as u8),
                        ));
                        lemma_count_tile_prefix(tiles@, i + 1, t);
                        assert(tile_wf(t) && count_tile(tiles@, t) > 4);
                    }
                    return false;
                }
                supai[suit as usize][num as usize] += 1;
                proof {
                    assert forall|s: int, n: int| 0 <= s < 3 && 0 <= n < 9 implies #[trigger] supai[s][n]
                        == count_tile(tiles@.take(i + 1), Tile::Supai(s as u8, n as u8))
                        && supai[s][n] <= 4 by {
                        assert(before_s[s][n] == count_tile(
                            tiles@.take(i as int),
                            Tile::Supai(s as u8, n as u8),
                        ));
                    }
                    assert forall|k: int| 0 <= k < 7 implies #[trigger] jihai[k] == count_tile(
                        tiles@.take(i + 1),
                        Tile::Jihai(k as u8),
                    ) && jihai[k] <= 4 by {
                        assert(before_j[k] == count_tile(tiles@.take(i as int), Tile::Jihai(k as u8)));
                    }
                }
            },
            Tile::Jihai(kind) => {
                if kind >= 7 {
                    assert(!tile_wf(tiles@[i as int]));
                    return false;
                }
                if jihai[kind as usize] >= 4 {
                    proof {
                        let t = Tile::Jihai(kind);
                        assert(before_j[kind as int] == count_tile(
                            tiles@.take(i as int),
                            Tile::Jihai(kind as int as u8),
                        ));
                        lemma_count_tile_prefix(tiles@, i + 1, t);
                        assert(tile_wf(t) && count_tile(tiles@, t) > 4);
                    }
                    return false;
                }
                jihai[kind as usize] += 1;
                proof {
                    assert forall|s: int, n: int| 0 <= s < 3 && 0 <= n < 9 implies #[trigger] supai[s][n]
                        == count_tile(tiles@.take(i + 1), Tile::Supai(s as u8, n as u8))
                        && supai[s][n] <= 4 by {
                        assert(before_s[s][n] == count_tile(
                            tiles@.take(i as int),
                            Tile::Supai(s as u8, n as u8),
                        ));
                    }
                    assert forall|k: int| 0 <= k < 7 implies #[trigger] jihai[k] == count_tile(
                        tiles@.take(i + 1),
                        Tile::Jihai(k as u8),
                    ) && jihai[k] <= 4 by {
                        assert(before_j[k] == count_tile(tiles@.take(i as int), Tile::Jihai(k as u8)));
                    }
                }
            },
        }
    }
    proof {
        assert(tiles@.take(tiles@.len() as int) == tiles@);
        assert forall|t: Tile| tile_wf(t) implies #[trigger] count_tile(tiles@, t) <= 4 by {
            match t {
                Tile::Supai(s, n) => {
                    assert(supai[s as int][n as int] == count_tile(
                        tiles@,
                        Tile::Supai(s as int as u8, n as int as u8),
                    ));
                },
                Tile::Jihai(k) => {
                    assert(jihai[k as int] == count_tile(tiles@, Tile::Jihai(k as int as u8)));
                },
            }
        }
    }
    true
}

/// The answer to a question about the chance to win: for each record read,
/// the number of draws left that it stands for, and its value in fixed point
/// with 32 fractional bits. The first record of a hand of 13 tiles stands for
/// one draw left, that of a hand of 14 tiles for none.
pub fn tsumo_answer(thirteen: bool, probs: &[u32]) -> (answer: Vec<(u32, u32)>)
    requires
        probs@.len() < u32::MAX,
    ensures
        answer@.len() == probs@.len(),
        forall|i: int|
            0 <= i < answer@.len() ==> #[trigger] answer@[i] == ((if thirteen {
                i + 1
            } else {
                i
            }) as u32, probs@[i]),
{
    let mut answer: Vec<(u32, u32)> = Vec::new();
    for round in 0..probs.len()
        invariant
            probs@.len() < u32::MAX,
            answer@.len() == round,
            forall|i: int|
                0 <= i < round ==> #[trigger] answer@[i] == ((if thirteen {
                    i + 1
                } else {
                    i
                }) as u32, probs@[i]),
    {
        let draws_left = if thirteen {
            round as u32 + 1
        } else {
            round as u32
        };
        answer.push((draws_left, probs[round]));
    }
    answer
}

/// The record to read for the chance that each structural element appears
/// in the winning hand, with a given number of draws left: from 1 to 18 for
/// a hand of 13 tiles, from 0 to 17 for a hand of 14 tiles.
pub fn mentsu_query(conv: &HandConverter, tiles: &[Tile], draws_left: usize) -> (r: Result<
    MentsuQuery,
    Error,
>)
    requires
        conv.wf(),
        tiles_valid(tiles@),
    ensures
        match r {
            Ok(q) => {
                let h = tiles_hand(tiles@);
                &&& tiles@.len() == 13 || tiles@.len() == 14
                &&& q.thirteen == (tiles@.len() == 13)
                &&& q.thirteen ==> 1 <= draws_left <= 18 && conv.covers13(h) && q.index == conv.id13(
                    h,
                ) * 18 + draws_left - 1
                &&& !q.thirteen ==> draws_left < 18 && conv.covers14(h) && q.index == conv.id14(h)
                    * 18 + draws_left
                &&& forall|i: int|
                    0 <= i < 3 ==> q.trans[conv.suit_rank(h, i)] == #[trigger] conv.suit_entry(h, i).1
                &&& q.jihai_cnt@ == honor_counts(tiles@)
            },
            Err(e) => if tiles@.len() == 13 {
                if draws_left < 1 || draws_left > 18 {
                    e == Error::InvalidDrawsLeft(draws_left)
                } else {
                    e == Error::UnknownHand && !conv.covers13(tiles_hand(tiles@))
                }
            } else if tiles@.len() == 14 {
                if draws_left >= 18 {
                    e == Error::InvalidDrawsLeft(draws_left)
                } else {
                    e == Error::UnknownHand && !conv.covers14(tiles_hand(tiles@))
                }
            } else {
                e == Error::InvalidHandLength(tiles@.len() as usize)
            },
        },
{
    let n = tiles.len();
    if n == 13 {
        if draws_left < 1 || draws_left > 18 {
            return Err(Error::InvalidDrawsLeft(draws_left));
        }
    } else if n == 14 {
        if draws_left >= 18 {
            return Err(Error::InvalidDrawsLeft(draws_left));
        }
    } else {
        return Err(Error::InvalidHandLength(n));
    }
    proof {
        lemma_tiles_hand_wf(tiles@);
    }
    let (hand, jihai_cnt) = Hand::from_tiles_with_jihai_cnt(tiles);
    let found = if n == 13 {
        conv.try_encode_hand13(&hand)
    } else {
        conv.try_encode_hand14(&hand)
    };
    match found {
        Some((id, trans)) => {
            let base = (id as u64) * 18;
            let index = if n == 13 {
                base + (draws_left as u64) - 1
            } else {
                base + (draws_left as u64)
            };
            Ok(MentsuQuery { thirteen: n == 13, index, trans, jihai_cnt })
        },
        None => Err(Error::UnknownHand),
    }
}

/// The rank at which the hand shows what the canonical form shows at rank
/// `n` of canonical suit `s`: the mirror rank within `span` where the
/// translation mirrors the suit.
pub open spec fn shown_rank(trans: [i8; 3], s: int, n: int, span: int) -> int {
    if trans[s] < 0 {
        span - n
    } else {
        n
    }
}

/// The honor kinds among the first `n` that a hand holds exactly `b` times,
/// in ascending order.
pub open spec fn kinds_held(cnt: Seq<usize>, b: int, n: nat) -> Seq<u8>
    decreases n,
{
    if n == 0 {
        Seq::empty()
    } else {
        let rest = kinds_held(cnt, b, (n - 1) as nat);
        if cnt[n - 1] == b {
            rest.push((n - 1) as u8)
        } else {
            rest
        }
    }
}

/// What dimension `d` of a record says about a hand: the element of the hand
/// that the dimension stands for, with the value of the dimension.
///
/// A suited dimension names a tile of the canonical form; the hand shows it
/// in the suit that the translation names, at the mirror rank where the
/// translation mirrors the suit. An honor dimension stands for a bucket, and
/// speaks of every honor kind that the hand holds as often as the bucket
/// says. Honor tiles carry the kind of the honor.
pub open spec fn dimension_answers(
    d: int,
    value: u32,
    trans: [i8; 3],
    cnt: Seq<usize>,
) -> Seq<(Dimension, u32)> {
    if d < 21 {
        seq![
            (
                Dimension::Shuntsu(
                    Tile::Supai(
                        trans_suit(trans[d / 7]) as u8,
                        shown_rank(trans, d / 7, d % 7, 6) as u8,
                    ),
                ),
                value,
            ),
        ]
    } else if d < 48 {
        seq![
            (
                Dimension::Kotsu(
                    Tile::Supai(
                        trans_suit(trans[(d - 21) / 9]) as u8,
                        shown_rank(trans, (d - 21) / 9, (d - 21) % 9, 8) as u8,
                    ),
                ),
                value,
            ),
        ]
    } else if d < 53 {
        kinds_held(cnt, d - 48, 7).map_values(|k: u8| (Dimension::Kotsu(Tile::Jihai(k)), value))
    } else if d < 80 {
        seq![
            (
                Dimension::Toitsu(
                    Tile::Supai(
                        trans_suit(trans[(d - 53) / 9]) as u8,
                        shown_rank(trans, (d - 53) / 9, (d - 53) % 9, 8) as u8,
                    ),
                ),
                value,
            ),
        ]
    } else if d < 85 {
        kinds_held(cnt, d - 80, 7).map_values(|k: u8| (Dimension::Toitsu(Tile::Jihai(k)), value))
    } else {
        seq![(Dimension::Kokushi, value)]
    }
}

/// What the first `n` dimensions of a record say about a hand.
pub open spec fn answers_upto(values: Seq<u32>, trans: [i8; 3], cnt: Seq<usize>, n: nat) -> Seq<
    (Dimension, u32),
>
    decreases n,
{
    if n == 0 {
        Seq::empty()
    } else {
        answers_upto(values, trans, cnt, (n - 1) as nat) + dimension_answers(
            n - 1,
            values[n - 1],
            trans,
            cnt,
        )
    }
}

/// A translation whose entries name suits.
pub open spec fn trans_wf(trans: [i8; 3]) -> bool {
    forall|i: int| 0 <= i < 3 ==> -3 <= #[trigger] trans[i] <= 2
}

/// The suit and the rank at which the hand shows a suited tile of the
/// canonical form.
fn shown_tile(trans: &[i8; 3], s: u8, n: u8, span: u8) -> (t: Tile)
    requires
        trans_wf(*trans),
        s < 3,
        n <= span,
    ensures
        t == Tile::Supai(
            trans_suit(trans[s as int]) as u8,
            shown_rank(*trans, s as int, n as int, span as int) as u8,
        ),
{
    let v = trans[s as usize];
    if v < 0 {
        Tile::Supai((-1 - v) as u8, span - n)
    } else {
        Tile::Supai(v as u8, n)
    }
}

/// The answer to a question about structural elements: for each dimension of
/// the record read, in the order of the dimensions, the elements of the hand
/// that the dimension stands for, each with the value of the dimension in
/// fixed point with 30 fractional bits.
pub fn mentsu_answer(met: &Metrics, trans: &[i8; 3], jihai_cnt: &[usize; 7]) -> (answer: Vec<
    (Dimension, u32),
>)
    requires
        trans_wf(*trans),
    ensures
        answer@ == answers_upto(met.values@, *trans, jihai_cnt@, 86),
{
    let mut answer: Vec<(Dimension, u32)> = Vec::new();
    for i in 0..86usize
        invariant
            trans_wf(*trans),
            answer@ == answers_upto(met.values@, *trans, jihai_cnt@, i as nat),
    {
        let p = met.values[i];
        let ghost before = answer@;
        let ghost want = dimension_answers(i as int, p, *trans, jihai_cnt@);
        let d = i as u8;
        if d < 21 {
            answer.push((Dimension::Shuntsu(shown_tile(trans, d / 7, d % 7, 6)), p));
            assert(answer@ =~= before + want);
        } else if d < 48 {
            answer.push((Dimension::Kotsu(shown_tile(trans, (d - 21) / 9, (d - 21) % 9, 8)), p));
            assert(answer@ =~= before + want);
        } else if d < 53 {
            let b = (d - 48) as usize;
            assert(before + kinds_held(jihai_cnt@, b as int, 0).map_values(
                |k: u8| (Dimension::Kotsu(Tile::Jihai(k)), p),
            ) =~= before);
            for ji in 0..7usize
                invariant
                    answer@ == before + kinds_held(jihai_cnt@, b as int, ji as nat).map_values(
                        |k: u8| (Dimension::Kotsu(Tile::Jihai(k)), p),
                    ),
            {
                let ghost held = kinds_held(jihai_cnt@, b as int, ji as nat);
                if jihai_cnt[ji] == b {
                    answer.push((Dimension::Kotsu(Tile::Jihai(ji as u8)), p));
                    assert(answer@ =~= before + held.push(ji as u8).map_values(
                        |k: u8| (Dimension::Kotsu(Tile::Jihai(k)), p),
                    ));
                }
            }
        } else if d < 80 {
            answer.push((Dimension::Toitsu(shown_tile(trans, (d - 53) / 9, (d - 53) % 9, 8)), p));
            assert(answer@ =~= before + want);
        } else if d < 85 {
            let b = (d - 80) as usize;
            assert(before + kinds_held(jihai_cnt@, b as int, 0).map_values(
                |k: u8| (Dimension::Toitsu(Tile::Jihai(k)), p),
            ) =~= before);
            for ji in 0..7usize
                invariant
                    answer@ == before + kinds_held(jihai_cnt@, b as int, ji as nat).map_values(
                        |k: u8| (Dimension::Toitsu(Tile::Jihai(k)), p),
                    ),
            {
                let ghost held = kinds_held(jihai_cnt@, b as int, ji as nat);
                if jihai_cnt[ji] == b {
                    answer.push((Dimension::Toitsu(Tile::Jihai(ji as u8)), p));
                    assert(answer@ =~= before + held.push(ji as u8).map_values(
                        |k: u8| (Dimension::Toitsu(Tile::Jihai(k)), p),
                    ));
                }
            }
        } else {
            answer.push((Dimension::Kokushi, p));
            assert(answer@ =~= before + want);
        }
    }
    answer
}

/// The character of a rank: the digit one above it.
pub open spec fn rank_char(n: int) -> char {
    if n == 0 {
        '1'
    } else if n == 1 {
        '2'
    } else if n == 2 {
        '3'
    } else if n == 3 {
        '4'
    } else if n == 4 {
        '5'
    } else if n == 5 {
        '6'
    } else if n == 6 {
        '7'
    } else if n == 7 {
        '8'
    } else {
        '9'
    }
}

/// The letter of a suit.
pub open spec fn suit_char(s: int) -> char {
    if s == 0 {
        'm'
    } else if s == 1 {
        'p'
    } else {
        's'
    }
}

/// An element of a hand that has a name: a run that fits in its suit, a
/// triplet or a pair of a tile of the 34 kinds, or thirteen orphans.
pub open spec fn nameable(d: Dimension) -> bool {
    match d {
        Dimension::Shuntsu(Tile::Supai(s, n)) => s < 3 && n < 7,
        Dimension::Shuntsu(Tile::Jihai(_)) => false,
        Dimension::Kotsu(t) => tile_wf(t),
        Dimension::Toitsu(t) => tile_wf(t),
        Dimension::Kokushi => true,
    }
}

/// The name of an element of a hand: its tiles as digits and the letter of
/// their suit, such as `123m`, `555p` or `77z`, and `Kokushi` for thirteen
/// orphans.
pub open spec fn label_chars(d: Dimension) -> Seq<char> {
    match d {
        Dimension::Shuntsu(Tile::Supai(s, n)) => seq![
            rank_char(n as int),
            rank_char(n + 1),
            rank_char(n + 2),
            suit_char(s as int),
        ],
        Dimension::Shuntsu(Tile::Jihai(_)) => Seq::empty(),
        Dimension::Kotsu(Tile::Supai(s, n)) => seq![
            rank_char(n as int),
            rank_char(n as int),
            rank_char(n as int),
            suit_char(s as int),
        ],
        Dimension::Kotsu(Tile::Jihai(k)) => seq![
            rank_char(k as int),
            rank_char(k as int),
            rank_char(k as int),
            'z',
        ],
        Dimension::Toitsu(Tile::Supai(s, n)) => seq![
            rank_char(n as int),
            rank_char(n as int),
            suit_char(s as int),
        ],
        Dimension::Toitsu(Tile::Jihai(k)) => seq![rank_char(k as int), rank_char(k as int), 'z'],
        Dimension::Kokushi => seq!['K', 'o', 'k', 'u', 's', 'h', 'i'],
    }
}

/// The digit of a rank, as text.
fn rank_text(n: u8) -> (text: &'static str)
    requires
        n < 9,
    ensures
        text@ == seq![rank_char(n as int)],
{
    proof {
        reveal_strlit("1");
        reveal_strlit("2");
        reveal_strlit("3");
        reveal_strlit("4");
        reveal_strlit("5");
        reveal_strlit("6");
        reveal_strlit("7");
        reveal_strlit("8");
        reveal_strlit("9");
    }
    let text = if n == 0 {
        "1"
    } else if n == 1 {
        "2"
    } else if n == 2 {
        "3"
    } else if n == 3 {
        "4"
    } else if n == 4 {
        "5"
    } else if n == 5 {
        "6"
    } else if n == 6 {
        "7"
    } else if n == 7 {
        "8"
    } else {
        "9"
    };
    assert(text@ =~= seq![rank_char(n as int)]);
    text
}

/// The letter of the suit of a tile, as text.
fn suit_text(t: &Tile) -> (text: &'static str)
    requires
        tile_wf(*t),
    ensures
        text@ == seq![match *t {
            Tile::Supai(s, _) => suit_char(s as int),
            Tile::Jihai(_) => 'z',
        }],
{
    proof {
        reveal_strlit("m");
        reveal_strlit("p");
        reveal_strlit("s");
        reveal_strlit("z");
    }
    let text = match t {
        Tile::Supai(s, _) => if *s == 0 {
            "m"
        } else if *s == 1 {
            "p"
        } else {
            "s"
        },
        Tile::Jihai(_) => "z",
    };
    assert(text@ =~= seq![match *t {
        Tile::Supai(s, _) => suit_char(s as int),
        Tile::Jihai(_) => 'z',
    }]);
    text
}

/// The rank of a suited tile, or the kind of an honor.
fn tile_rank(t: &Tile) -> (n: u8)
    ensures
        n == match *t {
            Tile::Supai(_, n) => n,
            Tile::Jihai(k) => k,
        },
{
    match t {
        Tile::Supai(_, n) => *n,
        Tile::Jihai(k) => *k,
    }
}

/// The name of an element of a hand.
pub fn mentsu_label(d: &Dimension) -> (label: String)
    requires
        nameable(*d),
    ensures
        label@ == label_chars(*d),
{
    let mut label = String::new();
    match d {
        Dimension::Shuntsu(t) => {
            let n = tile_rank(t);
            label.append(rank_text(n));
            label.append(rank_text(n + 1));
            label.append(rank_text(n + 2));
            label.append(suit_text(t));
        },
        Dimension::Kotsu(t) => {
            let n = tile_rank(t);
            label.append(rank_text(n));
            label.append(rank_text(n));
            label.append(rank_text(n));
            label.append(suit_text(t));
        },
        Dimension::Toitsu(t) => {
            let n = tile_rank(t);
            label.append(rank_text(n));
            label.append(rank_text(n));
            label.append(suit_text(t));
        },
        Dimension::Kokushi => {
            proof {
                reveal_strlit("Kokushi");
            }
            label.append("Kokushi");
        },
    }
    assert(label@ =~= label_chars(*d));
    label
}

} // verus!
