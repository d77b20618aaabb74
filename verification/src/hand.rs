use crate::types::Tile;
use vstd::prelude::*;

verus! {

/// Number of distinct 13-tile hands up to symmetry.
pub const NUM_HAND13: usize = 322565293;

/// Number of distinct 14-tile hands up to symmetry.
pub const NUM_HAND14: usize = 923597122;

/// A hand as a counted multiset of tiles.
///
/// `supai[s][n]` is the number of tiles of suit `s` and rank `n` held;
/// `jihai[k]` is the number of honor kinds held exactly `k` times.
#[derive(Clone, Copy, Debug, PartialEq, Eq)]
pub struct Hand {
    pub supai: [[u8; 9]; 3],
    pub jihai: [u8; 5],
}

/// The mathematical value of a [`Hand`].
pub struct HandView {
    pub supai: Seq<Seq<u8>>,
    pub jihai: Seq<u8>,
}

/// Sum of the nine rank counts of one suit.
pub open spec fn suit_total(s: Seq<u8>) -> int {
    s[0] + s[1] + s[2] + s[3] + s[4] + s[5] + s[6] + s[7] + s[8]
}

/// Number of honor tiles that a multiplicity vector stands for.
pub open spec fn honor_total(j: Seq<u8>) -> int {
    j[1] + 2 * j[2] + 3 * j[3] + 4 * j[4]
}

/// Number of honor kinds that a multiplicity vector accounts for.
pub open spec fn honor_kinds(j: Seq<u8>) -> int {
    j[0] + j[1] + j[2] + j[3] + j[4]
}

/// Nine rank counts, none above four.
pub open spec fn suit_wf(s: Seq<u8>) -> bool {
    &&& s.len() == 9
    &&& forall|n: int| 0 <= n < 9 ==> #[trigger] s[n] <= 4
}

/// Five multiplicity buckets that account for all seven honor kinds.
pub open spec fn honor_wf(j: Seq<u8>) -> bool {
    &&& j.len() == 5
    &&& honor_kinds(j) == 7
}

/// Total of the multiplicities of a list of successor hands.
pub open spec fn sum_mult(moves: Seq<(HandView, u8)>) -> int
    decreases moves.len(),
{
    if moves.len() == 0 {
        0
    } else {
        sum_mult(moves.drop_last()) + moves.last().1
    }
}

impl HandView {
    /// Three suits of nine counts of at most four, and five honor buckets
    /// that account for the seven kinds.
    pub open spec fn wf(self) -> bool {
        &&& self.supai.len() == 3
        &&& forall|s: int| 0 <= s < 3 ==> suit_wf(#[trigger] self.supai[s])
        &&& honor_wf(self.jihai)
    }

    /// Number of tiles: the suited counts, and per honor bucket the kinds
    /// that it holds times its multiplicity.
    pub open spec fn num_tiles(self) -> int {
        suit_total(self.supai[0]) + suit_total(self.supai[1]) + suit_total(self.supai[2])
            + honor_total(self.jihai)
    }

    /// The hand with the count of one suited tile replaced.
    pub open spec fn with_suited(self, s: int, n: int, cnt: u8) -> HandView {
        HandView { supai: self.supai.update(s, self.supai[s].update(n, cnt)), jihai: self.jihai }
    }

    /// The hand with one honor kind moved from bucket `from` to bucket `to`.
    pub open spec fn with_honor_moved(self, from: int, to: int) -> HandView {
        HandView {
            supai: self.supai,
            jihai: self.jihai.update(from, (self.jihai[from] - 1) as u8).update(
                to,
                (self.jihai[to] + 1) as u8,
            ),
        }
    }

    /// What discarding from slot `k` gives, if the slot holds a tile.
    ///
    /// Slots `0..27` are the suited tiles in suit-major order; slots `27..31`
    /// are the honor buckets `1..=4`. The multiplicity is the number of
    /// physical tiles of the hand that sit in the slot.
    pub open spec fn discard_at(self, k: int) -> Option<(HandView, u8)> {
        if k < 27 {
            let cnt = self.supai[k / 9][k % 9];
            if cnt > 0 {
                Some((self.with_suited(k / 9, k % 9, (cnt - 1) as u8), cnt))
            } else {
                None
            }
        } else {
            let i = k - 26;
            let cnt = self.jihai[i];
            if cnt > 0 {
                Some((self.with_honor_moved(i, i - 1), (cnt * i) as u8))
            } else {
                None
            }
        }
    }

    /// What drawing into slot `k` gives, if the wall still holds such a tile.
    ///
    /// Slots `0..27` are the suited tiles in suit-major order; slots `27..31`
    /// are the honor buckets `0..=3`. The multiplicity is the number of
    /// physical tiles outside the hand that give this successor.
    pub open spec fn draw_at(self, k: int) -> Option<(HandView, u8)> {
        if k < 27 {
            let cnt = self.supai[k / 9][k % 9];
            if cnt < 4 {
                Some((self.with_suited(k / 9, k % 9, (cnt + 1) as u8), (4 - cnt) as u8))
            } else {
                None
            }
        } else {
            let i = k - 27;
            let cnt = self.jihai[i];
            if cnt > 0 {
                Some((self.with_honor_moved(i, i + 1), ((4 - i) * cnt) as u8))
            } else {
                None
            }
        }
    }

    /// The successors by discard from the first `k` slots, in slot order.
    pub open spec fn discards_upto(self, k: nat) -> Seq<(HandView, u8)>
        decreases k,
    {
        if k == 0 {
            Seq::empty()
        } else {
            match self.discard_at(k - 1) {
                Some(e) => self.discards_upto((k - 1) as nat).push(e),
                None => self.discards_upto((k - 1) as nat),
            }
        }
    }

    /// The successors by draw into the first `k` slots, in slot order.
    pub open spec fn draws_upto(self, k: nat) -> Seq<(HandView, u8)>
        decreases k,
    {
        if k == 0 {
            Seq::empty()
        } else {
            match self.draw_at(k - 1) {
                Some(e) => self.draws_upto((k - 1) as nat).push(e),
                None => self.draws_upto((k - 1) as nat),
            }
        }
    }

    /// One successor per tile kind held, with the number of copies held.
    pub open spec fn discards(self) -> Seq<(HandView, u8)> {
        self.discards_upto(31)
    }

    /// One successor per tile kind that can still be drawn, with the number
    /// of copies left in the wall.
    pub open spec fn draws(self) -> Seq<(HandView, u8)> {
        self.draws_upto(31)
    }

    /// Tiles of the hand that sit in the first `k` discard slots.
    pub open spec fn held_upto(self, k: nat) -> int
        decreases k,
    {
        if k == 0 {
            0
        } else if k <= 27 {
            self.held_upto((k - 1) as nat) + self.supai[(k - 1) / 9][(k - 1) % 9]
        } else {
            self.held_upto((k - 1) as nat) + (k - 27) * self.jihai[k - 27]
        }
    }

    /// Tiles outside the hand that belong to the first `k` draw slots.
    pub open spec fn unseen_upto(self, k: nat) -> int
        decreases k,
    {
        if k == 0 {
            0
        } else if k <= 27 {
            self.unseen_upto((k - 1) as nat) + 4 - self.supai[(k - 1) / 9][(k - 1) % 9]
        } else {
            self.unseen_upto((k - 1) as nat) + (4 - (k - 28)) * self.jihai[k - 28]
        }
    }

    /// The multiplicities of the discards from the first slots add up to the
    /// tiles of the hand in these slots.
    pub proof fn lemma_discards_upto_sum(self, k: nat)
        requires
            self.wf(),
            k <= 31,
        ensures
            sum_mult(self.discards_upto(k)) == self.held_upto(k),
        decreases k,
    {
        if k > 0 {
            self.lemma_discards_upto_sum((k - 1) as nat);
            let prev = self.discards_upto((k - 1) as nat);
            if k <= 27 {
                assert(suit_wf(self.supai[(k - 1) / 9]));
            } else {
                self.lemma_bucket_bounds();
                assert((k - 27) * self.jihai[k - 27] <= 28) by (nonlinear_arith)
                    requires
                        1 <= k - 27 <= 4,
                        0 <= self.jihai[k - 27] <= 7,
                ;
            }
            match self.discard_at(k - 1) {
                Some(e) => {
                    assert(prev.push(e).drop_last() == prev);
                    assert(self.discards_upto(k) == prev.push(e));
                },
                None => {
                    assert(self.discards_upto(k) == prev);
                },
            }
        }
    }

    /// The multiplicities of the draws into the first slots add up to the
    /// tiles of these slots outside the hand.
    pub proof fn lemma_draws_upto_sum(self, k: nat)
        requires
            self.wf(),
            k <= 31,
        ensures
            sum_mult(self.draws_upto(k)) == self.unseen_upto(k),
        decreases k,
    {
        if k > 0 {
            self.lemma_draws_upto_sum((k - 1) as nat);
            let prev = self.draws_upto((k - 1) as nat);
            if k <= 27 {
                assert(suit_wf(self.supai[(k - 1) / 9]));
            } else {
                self.lemma_bucket_bounds();
                assert(0 <= (4 - (k - 28)) * self.jihai[k - 28] <= 28) by (nonlinear_arith)
                    requires
                        1 <= 4 - (k - 28) <= 4,
                        0 <= self.jihai[k - 28] <= 7,
                ;
            }
            match self.draw_at(k - 1) {
                Some(e) => {
                    assert(prev.push(e).drop_last() == prev);
                    assert(self.draws_upto(k) == prev.push(e));
                },
                None => {
                    assert(self.draws_upto(k) == prev);
                },
            }
        }
    }

    /// Replacing the count of one suited tile changes the size of the hand
    /// by the difference of the counts.
    pub proof fn lemma_with_suited(self, s: int, n: int, cnt: u8)
        requires
            self.wf(),
            0 <= s < 3,
            0 <= n < 9,
            cnt <= 4,
        ensures
            self.with_suited(s, n, cnt).wf(),
            self.with_suited(s, n, cnt).num_tiles() == self.num_tiles() - self.supai[s][n] + cnt,
    {
        let next = self.with_suited(s, n, cnt);
        assert(suit_wf(self.supai[s]));
        assert forall|t: int| 0 <= t < 3 implies suit_wf(#[trigger] next.supai[t]) by {
            assert(suit_wf(self.supai[t]));
        }
        assert(n == 0 || n == 1 || n == 2 || n == 3 || n == 4 || n == 5 || n == 6 || n == 7 || n
            == 8);
        assert(suit_total(next.supai[s]) == suit_total(self.supai[s]) - self.supai[s][n] + cnt);
        assert(s == 0 || s == 1 || s == 2);
    }

    /// Moving one honor kind between neighbouring buckets changes the size
    /// of the hand by one.
    pub proof fn lemma_with_honor_moved(self, from: int, to: int)
        requires
            self.wf(),
            0 <= from < 5,
            0 <= to < 5,
            to == from + 1 || to == from - 1,
            self.jihai[from] > 0,
        ensures
            self.with_honor_moved(from, to).wf(),
            self.with_honor_moved(from, to).num_tiles() == self.num_tiles() + to - from,
    {
        let next = self.with_honor_moved(from, to);
        self.lemma_bucket_bounds();
        assert forall|t: int| 0 <= t < 3 implies suit_wf(#[trigger] next.supai[t]) by {
            assert(suit_wf(self.supai[t]));
        }
        assert(self.jihai[to] <= 6);
        assert(from == 0 || from == 1 || from == 2 || from == 3 || from == 4);
    }

    /// A discard leaves a well-formed hand with one tile less, and counts at
    /// least one tile.
    pub proof fn lemma_discard_at(self, k: int)
        requires
            self.wf(),
            0 <= k < 31,
            self.discard_at(k) is Some,
        ensures
            self.discard_at(k).unwrap().0.wf(),
            self.discard_at(k).unwrap().0.num_tiles() == self.num_tiles() - 1,
            1 <= self.discard_at(k).unwrap().1 <= 28,
            self.loses_at_most_one_kind(self.discard_at(k).unwrap(), -1),
    {
        self.lemma_bucket_bounds();
        if k < 27 {
            assert(suit_wf(self.supai[k / 9]));
            self.lemma_with_suited(k / 9, k % 9, (self.supai[k / 9][k % 9] - 1) as u8);
        } else {
            let i = k - 26;
            let cnt = self.jihai[i];
            self.lemma_with_honor_moved(i, i - 1);
            assert(cnt * i <= 28 && cnt * i >= i) by (nonlinear_arith)
                requires
                    1 <= cnt <= 7,
                    1 <= i <= 4,
            ;
        }
    }

    /// A draw gives a well-formed hand with one tile more, and counts at
    /// least one tile.
    pub proof fn lemma_draw_at(self, k: int)
        requires
            self.wf(),
            0 <= k < 31,
            self.draw_at(k) is Some,
        ensures
            self.draw_at(k).unwrap().0.wf(),
            self.draw_at(k).unwrap().0.num_tiles() == self.num_tiles() + 1,
            1 <= self.draw_at(k).unwrap().1 <= 28,
            self.loses_at_most_one_kind(self.draw_at(k).unwrap(), 1),
    {
        self.lemma_bucket_bounds();
        if k < 27 {
            assert(suit_wf(self.supai[k / 9]));
            self.lemma_with_suited(k / 9, k % 9, (self.supai[k / 9][k % 9] + 1) as u8);
        } else {
            let i = k - 27;
            let cnt = self.jihai[i];
            self.lemma_with_honor_moved(i, i + 1);
            assert((4 - i) * cnt <= 28 && (4 - i) * cnt >= 1) by (nonlinear_arith)
                requires
                    1 <= cnt <= 7,
                    1 <= 4 - i <= 4,
            ;
        }
    }

    /// A list of successors holds no more entries than slots were looked at.
    pub proof fn lemma_moves_len(self, k: nat)
        ensures
            self.discards_upto(k).len() <= k,
            self.draws_upto(k).len() <= k,
        decreases k,
    {
        if k > 0 {
            self.lemma_moves_len((k - 1) as nat);
        }
    }

    /// A successor that is well-formed, differs in size from this hand by
    /// `delta`, and counts at least one tile.
    pub open spec fn is_move(self, e: (HandView, u8), delta: int) -> bool {
        &&& e.0.wf()
        &&& e.0.num_tiles() == self.num_tiles() + delta
        &&& 1 <= e.1 <= 28
        &&& self.loses_at_most_one_kind(e, delta)
    }

    /// A move takes an honor kind out of no bucket, or out of one: a discard
    /// out of a bucket from 1 up, where the move counts at least as many
    /// tiles as the bucket's multiplicity, and a draw out of a bucket below 4.
    pub open spec fn loses_at_most_one_kind(self, e: (HandView, u8), delta: int) -> bool {
        forall|i: int|
            0 <= i < 5 && #[trigger] self.jihai[i] > e.0.jihai[i] ==> if delta < 0 {
                i >= 1 && e.1 >= i
            } else {
                i <= 3
            }
    }

    /// Every discard leaves a well-formed hand with one tile less, and counts
    /// at least one tile.
    pub proof fn lemma_discards_wf(self, k: nat)
        requires
            self.wf(),
            k <= 31,
        ensures
            forall|i: int|
                0 <= i < self.discards_upto(k).len() ==> self.is_move(
                    #[trigger] self.discards_upto(k)[i],
                    -1,
                ),
        decreases k,
    {
        if k > 0 {
            self.lemma_discards_wf((k - 1) as nat);
            let prev = self.discards_upto((k - 1) as nat);
            if self.discard_at(k - 1) is Some {
                self.lemma_discard_at(k - 1);
                let e = self.discard_at(k - 1).unwrap();
                assert(self.discards_upto(k) == prev.push(e));
                assert forall|i: int| 0 <= i < self.discards_upto(k).len() implies self.is_move(
                    #[trigger] self.discards_upto(k)[i],
                    -1,
                ) by {
                    if i < prev.len() {
                        assert(self.discards_upto(k)[i] == prev[i]);
                    }
                }
            } else {
                assert(self.discards_upto(k) == prev);
            }
        }
    }

    /// Every draw gives a well-formed hand with one tile more, and counts at
    /// least one tile.
    pub proof fn lemma_draws_wf(self, k: nat)
        requires
            self.wf(),
            k <= 31,
        ensures
            forall|i: int|
                0 <= i < self.draws_upto(k).len() ==> self.is_move(
                    #[trigger] self.draws_upto(k)[i],
                    1,
                ),
        decreases k,
    {
        if k > 0 {
            self.lemma_draws_wf((k - 1) as nat);
            let prev = self.draws_upto((k - 1) as nat);
            if self.draw_at(k - 1) is Some {
                self.lemma_draw_at(k - 1);
                let e = self.draw_at(k - 1).unwrap();
                assert(self.draws_upto(k) == prev.push(e));
                assert forall|i: int| 0 <= i < self.draws_upto(k).len() implies self.is_move(
                    #[trigger] self.draws_upto(k)[i],
                    1,
                ) by {
                    if i < prev.len() {
                        assert(self.draws_upto(k)[i] == prev[i]);
                    }
                }
            } else {
                assert(self.draws_upto(k) == prev);
            }
        }
    }

    /// No bucket of a full multiplicity vector holds more than seven kinds.
    pub proof fn lemma_bucket_bounds(self)
        requires
            honor_wf(self.jihai),
        ensures
            forall|i: int| 0 <= i < 5 ==> #[trigger] self.jihai[i] <= 7,
    {
    }

    proof fn lemma_held_suit(self, s: nat)
        requires
            s < 3,
        ensures
            self.held_upto(9 * s + 9) == self.held_upto(9 * s) + suit_total(self.supai[s as int]),
    {
        reveal_with_fuel(HandView::held_upto, 10);
    }

    proof fn lemma_unseen_suit(self, s: nat)
        requires
            s < 3,
        ensures
            self.unseen_upto(9 * s + 9) == self.unseen_upto(9 * s) + 36 - suit_total(
                self.supai[s as int],
            ),
    {
        reveal_with_fuel(HandView::unseen_upto, 10);
    }

    /// The multiplicities of the discards of a hand add up to its size.
    pub proof fn lemma_discards_total(self)
        requires
            self.wf(),
        ensures
            sum_mult(self.discards()) == self.num_tiles(),
    {
        self.lemma_discards_upto_sum(31);
        self.lemma_held_suit(0);
        self.lemma_held_suit(1);
        self.lemma_held_suit(2);
        reveal_with_fuel(HandView::held_upto, 5);
    }

    /// The multiplicities of the draws of a hand add up to the number of
    /// tiles outside it: 136 less its size.
    pub proof fn lemma_draws_total(self)
        requires
            self.wf(),
        ensures
            sum_mult(self.draws()) == 136 - self.num_tiles(),
    {
        self.lemma_draws_upto_sum(31);
        self.lemma_unseen_suit(0);
        self.lemma_unseen_suit(1);
        self.lemma_unseen_suit(2);
        assert(self.unseen_upto(27) == 108 - suit_total(self.supai[0]) - suit_total(self.supai[1])
            - suit_total(self.supai[2])) by {
            assert(self.unseen_upto(0) == 0);
        }
        assert(self.unseen_upto(28) == self.unseen_upto(27) + 4 * self.jihai[0]);
        assert(self.unseen_upto(29) == self.unseen_upto(28) + 3 * self.jihai[1]);
        assert(self.unseen_upto(30) == self.unseen_upto(29) + 2 * self.jihai[2]);
        assert(self.unseen_upto(31) == self.unseen_upto(30) + 1 * self.jihai[3]);
    }
}

impl View for Hand {
    type V = HandView;

    open spec fn view(&self) -> HandView {
        HandView { supai: Seq::new(3, |s: int| self.supai[s]@), jihai: self.jihai@ }
    }
}

/// The mathematical value of a list of successor hands.
pub open spec fn moves_view(moves: Seq<(Hand, u8)>) -> Seq<(HandView, u8)> {
    moves.map_values(|e: (Hand, u8)| (e.0@, e.1))
}

/// The multiplicities of the first moves of a list add up to no more than
/// those of the whole list.
pub proof fn lemma_sum_mult_prefix(moves: Seq<(HandView, u8)>, k: int)
    requires
        0 <= k <= moves.len(),
    ensures
        0 <= sum_mult(moves.take(k)) <= sum_mult(moves),
        k < moves.len() ==> sum_mult(moves.take(k + 1)) == sum_mult(moves.take(k)) + moves[k].1,
    decreases moves.len() - k,
{
    if k < moves.len() {
        assert(moves.take(k + 1).drop_last() == moves.take(k));
        lemma_sum_mult_prefix(moves, k + 1);
        lemma_sum_mult_nonneg(moves.take(k));
    } else {
        assert(moves.take(k) == moves);
        lemma_sum_mult_nonneg(moves);
    }
}

/// Multiplicities add up to nothing negative.
pub proof fn lemma_sum_mult_nonneg(moves: Seq<(HandView, u8)>)
    ensures
        0 <= sum_mult(moves),
    decreases moves.len(),
{
    if moves.len() > 0 {
        lemma_sum_mult_nonneg(moves.drop_last());
    }
}

/// The value of a list of successors with one more successor.
pub proof fn lemma_moves_view_push(moves: Seq<(Hand, u8)>, e: (Hand, u8))
    ensures
        moves_view(moves.push(e)) == moves_view(moves).push((e.0@, e.1)),
{
    assert(moves_view(moves.push(e)) =~= moves_view(moves).push((e.0@, e.1)));
}

/// Number of times a tile occurs in a list.
pub open spec fn count_tile(tiles: Seq<Tile>, t: Tile) -> nat
    decreases tiles.len(),
{
    if tiles.len() == 0 {
        0
    } else {
        count_tile(tiles.drop_last(), t) + if tiles.last() == t {
            1nat
        } else {
            0nat
        }
    }
}

/// A concrete tile: a suit below three with a rank below nine, or one of the
/// seven honor kinds.
pub open spec fn tile_wf(t: Tile) -> bool {
    match t {
        Tile::Supai(s, n) => s < 3 && n < 9,
        Tile::Jihai(k) => k < 7,
    }
}

/// Number of honor kinds among the first `k` that a count vector holds
/// exactly `m` times.
pub open spec fn kinds_with_count(cnt: Seq<usize>, m: int, k: nat) -> nat
    decreases k,
{
    if k == 0 {
        0
    } else {
        kinds_with_count(cnt, m, (k - 1) as nat) + if cnt[k - 1] == m {
            1nat
        } else {
            0nat
        }
    }
}

/// Number of copies of each of the seven honor kinds in a list of tiles.
pub open spec fn honor_counts(tiles: Seq<Tile>) -> Seq<usize> {
    Seq::new(7, |k: int| count_tile(tiles, Tile::Jihai(k as u8)) as usize)
}

/// The hand that a list of tiles makes: per suited tile the number of copies,
/// per multiplicity the number of honor kinds held that often.
pub open spec fn tiles_hand(tiles: Seq<Tile>) -> HandView {
    HandView {
        supai: Seq::new(
            3,
            |s: int| Seq::new(9, |n: int| count_tile(tiles, Tile::Supai(s as u8, n as u8)) as u8),
        ),
        jihai: Seq::new(5, |m: int| kinds_with_count(honor_counts(tiles), m, 7) as u8),
    }
}

/// A tile occurs in a list no more often than the list is long.
pub proof fn lemma_count_tile_bound(tiles: Seq<Tile>, t: Tile)
    ensures
        count_tile(tiles, t) <= tiles.len(),
    decreases tiles.len(),
{
    if tiles.len() > 0 {
        lemma_count_tile_bound(tiles.drop_last(), t);
    }
}

proof fn lemma_count_tile_step(tiles: Seq<Tile>, i: int, t: Tile)
    requires
        0 <= i < tiles.len(),
    ensures
        count_tile(tiles.take(i + 1), t) == count_tile(tiles.take(i), t) + if tiles[i] == t {
            1nat
        } else {
            0nat
        },
{
    assert(tiles.take(i + 1).drop_last() == tiles.take(i));
}

impl Hand {
    /// The empty hand: no suited tile, every honor kind held zero times.
    pub fn new() -> (h: Hand)
        ensures
            h@.wf(),
            h@.num_tiles() == 0,
            forall|s: int, n: int| 0 <= s < 3 && 0 <= n < 9 ==> h.supai[s][n] == 0,
            h.jihai@ == seq![7u8, 0u8, 0u8, 0u8, 0u8],
    {
        Hand { supai: [[0; 9]; 3], jihai: [7, 0, 0, 0, 0] }
    }

    /// Number of tiles in the hand.
    pub fn num_tiles(&self) -> (n: usize)
        ensures
            n == self@.num_tiles(),
    {
        let mut total: usize = 0;
        let ghost mut acc: Seq<int> = Seq::empty();
        for s in 0..3usize
            invariant
                acc.len() == s,
                forall|t: int| 0 <= t < s ==> acc[t] == suit_total(#[trigger] self@.supai[t]),
                total <= 2295 * s,
                total == (if s > 0 {
                    acc[0]
                } else {
                    0
                }) + (if s > 1 {
                    acc[1]
                } else {
                    0
                }) + (if s > 2 {
                    acc[2]
                } else {
                    0
                }),
        {
            let row = &self.supai[s];
            let sub: usize = row[0] as usize + row[1] as usize + row[2] as usize + row[3] as usize
                + row[4] as usize + row[5] as usize + row[6] as usize + row[7] as usize
                + row[8] as usize;
            proof {
                acc = acc.push(sub as int);
            }
            total += sub;
        }
        let j = &self.jihai;
        total + j[1] as usize + 2 * (j[2] as usize) + 3 * (j[3] as usize) + 4 * (j[4] as usize)
    }

    /// The hand that a list of tiles makes.
    pub fn from_tiles(tiles: &[Tile]) -> (h: Hand)
        requires
            tiles@.len() <= 255,
            forall|i: int| 0 <= i < tiles@.len() ==> tile_wf(#[trigger] tiles@[i]),
            forall|k: int| 0 <= k < 7 ==> #[trigger] honor_counts(tiles@)[k] <= 4,
        ensures
            h@ == tiles_hand(tiles@),
            honor_wf(h@.jihai),
    {
        Self::from_tiles_with_jihai_cnt(tiles).0
    }

    /// The hand that a list of tiles makes, with the number of copies held of
    /// each honor kind.
    pub fn from_tiles_with_jihai_cnt(tiles: &[Tile]) -> (r: (Hand, [usize; 7]))
        requires
            tiles@.len() <= 255,
            forall|i: int| 0 <= i < tiles@.len() ==> tile_wf(#[trigger] tiles@[i]),
            forall|k: int| 0 <= k < 7 ==> #[trigger] honor_counts(tiles@)[k] <= 4,
        ensures
            r.0@ == tiles_hand(tiles@),
            r.1@ == honor_counts(tiles@),
            honor_wf(r.0@.jihai),
    {
        let mut hand = Self::new();
        let mut jihai_cnt: [usize; 7] = [0; 7];
        for i in 0..tiles.len()
            invariant
                tiles@.len() <= 255,
                forall|i: int| 0 <= i < tiles@.len() ==> tile_wf(#[trigger] tiles@[i]),
                forall|s: int, n: int|
                    0 <= s < 3 && 0 <= n < 9 ==> #[trigger] hand.supai[s][n] == count_tile(
                        tiles@.take(i as int),
                        Tile::Supai(s as u8, n as u8),
                    ),
                forall|k: int|
                    0 <= k < 7 ==> #[trigger] jihai_cnt[k] == count_tile(
                        tiles@.take(i as int),
                        Tile::Jihai(k as u8),
                    ),
                hand.jihai@ == seq![7u8, 0u8, 0u8, 0u8, 0u8],
        {
            let ghost before = hand;
            let ghost cnt_before = jihai_cnt;
            proof {
                assert forall|t: Tile|
                    #[trigger] count_tile(tiles@.take(i + 1), t) == count_tile(
                        tiles@.take(i as int),
                        t,
                    ) + if tiles@[i as int] == t {
                        1nat
                    } else {
                        0nat
                    } && count_tile(tiles@.take(i as int), t) <= i by {
                    lemma_count_tile_step(tiles@, i as int, t);
                    lemma_count_tile_bound(tiles@.take(i as int), t);
                }
                assert(tile_wf(tiles@[i as int]));
                lemma_count_tile_bound(tiles@.take(i as int), tiles@[i as int]);
            }
            match tiles[i] {
                Tile::Supai(suit, num) => {
                    assert(before.supai[suit as int][num as int] <= i);
                    hand.supai[suit as usize][num as usize] += 1;
                    assert forall|s: int, n: int| 0 <= s < 3 && 0 <= n < 9 implies #[trigger] hand.supai[s][n]
                        == count_tile(tiles@.take(i + 1), Tile::Supai(s as u8, n as u8)) by {
                        assert(before.supai[s][n] == count_tile(
                            tiles@.take(i as int),
                            Tile::Supai(s as u8, n as u8),
                        ));
                    }
                },
                Tile::Jihai(num) => {
                    assert(cnt_before[num as int] <= i);
                    jihai_cnt[num as usize] += 1;
                    assert forall|k: int| 0 <= k < 7 implies #[trigger] jihai_cnt[k] == count_tile(
                        tiles@.take(i + 1),
                        Tile::Jihai(k as u8),
                    ) by {
                        assert(cnt_before[k] == count_tile(
                            tiles@.take(i as int),
                            Tile::Jihai(k as u8),
                        ));
                    }
                },
            }
        }
        assert(tiles@.take(tiles@.len() as int) == tiles@);
        assert(jihai_cnt@ =~= honor_counts(tiles@));
        hand.jihai[0] = 0;
        for k in 0..7usize
            invariant
                jihai_cnt@ == honor_counts(tiles@),
                forall|k: int| 0 <= k < 7 ==> #[trigger] honor_counts(tiles@)[k] <= 4,
                hand.jihai[0] + hand.jihai[1] + hand.jihai[2] + hand.jihai[3] + hand.jihai[4] == k,
                forall|m: int|
                    0 <= m < 5 ==> #[trigger] hand.jihai[m] == kinds_with_count(
                        jihai_cnt@,
                        m,
                        k as nat,
                    ),
                forall|s: int, n: int|
                    0 <= s < 3 && 0 <= n < 9 ==> #[trigger] hand.supai[s][n] == count_tile(
                        tiles@,
                        Tile::Supai(s as u8, n as u8),
                    ),
        {
            let cnt = jihai_cnt[k];
            assert(honor_counts(tiles@)[k as int] <= 4);
            hand.jihai[cnt] += 1;
        }
        proof {
            let want = tiles_hand(tiles@);
            assert(hand@.jihai =~= want.jihai);
            assert forall|s: int| 0 <= s < 3 implies #[trigger] hand@.supai[s] =~= want.supai[s] by {
                assert forall|n: int| 0 <= n < 9 implies hand@.supai[s][n] == want.supai[s][n] by {
                    assert(hand.supai[s][n] == count_tile(tiles@, Tile::Supai(s as u8, n as u8)));
                }
            }
            assert(hand@.supai =~= want.supai);
        }
        (hand, jihai_cnt)
    }

    /// The hands that discarding one tile can leave, one entry per tile kind
    /// held, each with the number of copies of that kind in this hand.
    ///
    /// Suited tiles come first, in suit and rank order; then the honor
    /// buckets 1 to 4, where a discard moves one kind down a bucket and
    /// counts every honor tile that sits in the bucket.
    pub fn for_each_discard_hand(&self) -> (moves: Vec<(Hand, u8)>)
        requires
            self@.wf(),
        ensures
            moves_view(moves@) == self@.discards(),
            sum_mult(moves_view(moves@)) == self@.num_tiles(),
            forall|i: int|
                0 <= i < moves@.len() ==> self@.is_move(#[trigger] moves_view(moves@)[i], -1),
            moves@.len() <= 31,
    {
        let mut moves: Vec<(Hand, u8)> = Vec::new();
        assert(moves_view(moves@) =~= self@.discards_upto(0));
        for k in 0..27usize
            invariant
                self@.wf(),
                moves_view(moves@) == self@.discards_upto(k as nat),
        {
            let suit = k / 9;
            let num = k % 9;
            let cnt = self.supai[suit][num];
            if cnt > 0 {
                let mut next = *self;
                next.supai[suit][num] = cnt - 1;
                proof {
                    assert(next@.supai =~= self@.with_suited(
                        suit as int,
                        num as int,
                        (cnt - 1) as u8,
                    ).supai);
                    lemma_moves_view_push(moves@, (next, cnt));
                }
                moves.push((next, cnt));
            }
        }
        for i in 1..5usize
            invariant
                self@.wf(),
                moves_view(moves@) == self@.discards_upto((26 + i) as nat),
        {
            let cnt = self.jihai[i];
            proof {
                self@.lemma_bucket_bounds();
            }
            if cnt > 0 {
                let mut next = *self;
                next.jihai[i] -= 1;
                next.jihai[i - 1] += 1;
                assert(cnt * i <= 28) by (nonlinear_arith)
                    requires
                        cnt <= 7,
                        i <= 4,
                ;
                let mult = cnt * (i as u8);
                proof {
                    assert(next@.supai =~= self@.supai);
                    assert(next@.jihai =~= self@.with_honor_moved(i as int, i - 1).jihai);
                    lemma_moves_view_push(moves@, (next, mult));
                }
                moves.push((next, mult));
            }
        }
        proof {
            self@.lemma_discards_total();
            self@.lemma_discards_wf(31);
            self@.lemma_moves_len(31);
        }
        moves
    }

    /// The hands that drawing one tile can give, one entry per tile kind that
    /// the wall still holds, each with the number of copies left outside this
    /// hand.
    ///
    /// Suited tiles come first, in suit and rank order; then the honor
    /// buckets 0 to 3, where a draw moves one kind up a bucket and counts the
    /// remaining copies of every kind that sits in the bucket.
    pub fn for_each_draw_hand(&self) -> (moves: Vec<(Hand, u8)>)
        requires
            self@.wf(),
        ensures
            moves_view(moves@) == self@.draws(),
            sum_mult(moves_view(moves@)) == 136 - self@.num_tiles(),
            forall|i: int|
                0 <= i < moves@.len() ==> self@.is_move(#[trigger] moves_view(moves@)[i], 1),
            moves@.len() <= 31,
    {
        let mut moves: Vec<(Hand, u8)> = Vec::new();
        assert(moves_view(moves@) =~= self@.draws_upto(0));
        for k in 0..27usize
            invariant
                self@.wf(),
                moves_view(moves@) == self@.draws_upto(k as nat),
        {
            let suit = k / 9;
            let num = k % 9;
            let cnt = self.supai[suit][num];
            if cnt < 4 {
                let mut next = *self;
                next.supai[suit][num] = cnt + 1;
                proof {
                    assert(next@.supai =~= self@.with_suited(
                        suit as int,
                        num as int,
                        (cnt + 1) as u8,
                    ).supai);
                    lemma_moves_view_push(moves@, (next, (4 - cnt) as u8));
                }
                moves.push((next, 4 - cnt));
            }
        }
        for i in 0..4usize
            invariant
                self@.wf(),
                moves_view(moves@) == self@.draws_upto((27 + i) as nat),
        {
            let cnt = self.jihai[i];
            proof {
                self@.lemma_bucket_bounds();
            }
            if cnt > 0 {
                let mut next = *self;
                next.jihai[i] -= 1;
                next.jihai[i + 1] += 1;
                assert((4 - i) * cnt <= 28) by (nonlinear_arith)
                    requires
                        cnt <= 7,
                        0 <= 4 - i <= 4,
                ;
                let mult = ((4 - i) as u8) * cnt;
                proof {
                    assert(next@.supai =~= self@.supai);
                    assert(next@.jihai =~= self@.with_honor_moved(i as int, i + 1).jihai);
                    lemma_moves_view_push(moves@, (next, mult));
                }
                moves.push((next, mult));
            }
        }
        proof {
            self@.lemma_draws_total();
            self@.lemma_draws_wf(31);
            self@.lemma_moves_len(31);
        }
        moves
    }
}

} // verus!
