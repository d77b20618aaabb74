use crate::hand::Hand;
use crate::metrics::seed;
use crate::tsumo::{compress, packable, packed, pow123, wall_pow};
use crate::types::{Dimension, Metrics, Tile};
use vstd::prelude::*;

verus! {

/// Number of hands whose values for one dimension and round go into one
/// shard file.
pub const SHARD_SIZE: usize = 2097152;

/// Number of hands whose counts are packed in one go.
pub const TSUMO_BLOCK: usize = 268435456;

/// The three kinds of dimensions, by the record that carries them through
/// the rounds.
#[derive(Clone, Copy, Debug, PartialEq, Eq, Structural)]
pub enum DimensionClass {
    /// Runs, triplets and pairs of suited tiles: three suits in two directions.
    Suited,
    /// Triplets and pairs of honors: five buckets.
    Honor,
    /// Thirteen orphans: a single value.
    Orphans,
}

/// The kind of record that carries a dimension through the rounds.
pub fn dimension_class(task: &Dimension) -> (class: DimensionClass)
    ensures
        class == match *task {
            Dimension::Shuntsu(Tile::Supai(_, _)) => DimensionClass::Suited,
            Dimension::Kotsu(Tile::Supai(_, _)) => DimensionClass::Suited,
            Dimension::Toitsu(Tile::Supai(_, _)) => DimensionClass::Suited,
            Dimension::Shuntsu(Tile::Jihai(_)) => DimensionClass::Honor,
            Dimension::Kotsu(Tile::Jihai(_)) => DimensionClass::Honor,
            Dimension::Toitsu(Tile::Jihai(_)) => DimensionClass::Honor,
            Dimension::Kokushi => DimensionClass::Orphans,
        },
{
    match task {
        Dimension::Shuntsu(Tile::Supai(_, _)) => DimensionClass::Suited,
        Dimension::Kotsu(Tile::Supai(_, _)) => DimensionClass::Suited,
        Dimension::Toitsu(Tile::Supai(_, _)) => DimensionClass::Suited,
        Dimension::Shuntsu(Tile::Jihai(_)) => DimensionClass::Honor,
        Dimension::Kotsu(Tile::Jihai(_)) => DimensionClass::Honor,
        Dimension::Toitsu(Tile::Jihai(_)) => DimensionClass::Honor,
        Dimension::Kokushi => DimensionClass::Orphans,
    }
}

/// The dimension of the kind of a suited task at a given suit and rank.
pub open spec fn suited_like(task: Dimension, s: int, n: int) -> Dimension {
    match task {
        Dimension::Shuntsu(_) => Dimension::Shuntsu(Tile::Supai(s as u8, n as u8)),
        Dimension::Kotsu(_) => Dimension::Kotsu(Tile::Supai(s as u8, n as u8)),
        _ => Dimension::Toitsu(Tile::Supai(s as u8, n as u8)),
    }
}

/// The rank that a suited task sits at.
pub open spec fn task_rank(task: Dimension) -> int {
    match task {
        Dimension::Shuntsu(Tile::Supai(_, n)) => n as int,
        Dimension::Kotsu(Tile::Supai(_, n)) => n as int,
        Dimension::Toitsu(Tile::Supai(_, n)) => n as int,
        _ => 0,
    }
}

/// The rank that the mirror image of a suit shows a suited task at: a run
/// that starts at rank `n` starts at `6 - n`, a triplet or a pair at rank `n`
/// sits at `8 - n`.
pub open spec fn mirror_rank(task: Dimension) -> int {
    match task {
        Dimension::Shuntsu(_) => 6 - task_rank(task),
        _ => 8 - task_rank(task),
    }
}

/// The dimensions that one round of a suited task computes together: for
/// each suit the dimension at the rank of the task, and the one at its
/// mirror rank.
pub fn supai_dims(task: &Dimension) -> (dims: [[u8; 2]; 3])
    requires
        task.wf(),
        *task is Shuntsu || *task is Kotsu || *task is Toitsu,
        !(*task matches Dimension::Kotsu(Tile::Jihai(_))),
        !(*task matches Dimension::Toitsu(Tile::Jihai(_))),
    ensures
        forall|s: int|
            0 <= s < 3 ==> {
                &&& (#[trigger] dims[s])[0] == suited_like(*task, s, task_rank(*task)).id()
                &&& dims[s][1] == suited_like(*task, s, mirror_rank(*task)).id()
                &&& dims[s][0] < 86 && dims[s][1] < 86
            },
{
    let mut dims = [[0u8; 2]; 3];
    for s in 0..3usize
        invariant
            task.wf(),
            *task is Shuntsu || *task is Kotsu || *task is Toitsu,
            !(*task matches Dimension::Kotsu(Tile::Jihai(_))),
            !(*task matches Dimension::Toitsu(Tile::Jihai(_))),
            forall|t: int|
                0 <= t < s ==> {
                    &&& (#[trigger] dims[t])[0] == suited_like(*task, t, task_rank(*task)).id()
                    &&& dims[t][1] == suited_like(*task, t, mirror_rank(*task)).id()
                    &&& dims[t][0] < 86 && dims[t][1] < 86
                },
    {
        let pair = match task {
            Dimension::Shuntsu(Tile::Supai(_, n)) => [
                Dimension::Shuntsu(Tile::Supai(s as u8, *n)).to_id(),
                Dimension::Shuntsu(Tile::Supai(s as u8, 6 - *n)).to_id(),
            ],
            Dimension::Kotsu(Tile::Supai(_, n)) => [
                Dimension::Kotsu(Tile::Supai(s as u8, *n)).to_id(),
                Dimension::Kotsu(Tile::Supai(s as u8, 8 - *n)).to_id(),
            ],
            Dimension::Toitsu(Tile::Supai(_, n)) => [
                Dimension::Toitsu(Tile::Supai(s as u8, *n)).to_id(),
                Dimension::Toitsu(Tile::Supai(s as u8, 8 - *n)).to_id(),
            ],
            _ => [0, 0],
        };
        dims[s] = pair;
    }
    dims
}

/// The dimensions that one round of an honor task computes together: the
/// five buckets of the kind of the task.
pub fn jihai_dims(task: &Dimension) -> (dims: [u8; 5])
    requires
        *task matches Dimension::Kotsu(Tile::Jihai(_)) || *task matches Dimension::Toitsu(
            Tile::Jihai(_),
        ),
    ensures
        forall|b: int|
            0 <= b < 5 ==> #[trigger] dims[b] == if *task is Kotsu {
                48 + b
            } else {
                80 + b
            },
{
    let mut dims = [0u8; 5];
    for b in 0..5usize
        invariant
            *task matches Dimension::Kotsu(Tile::Jihai(_)) || *task matches Dimension::Toitsu(
                Tile::Jihai(_),
            ),
            forall|k: int|
                0 <= k < b ==> #[trigger] dims[k] == if *task is Kotsu {
                    48 + k
                } else {
                    80 + k
                },
    {
        dims[b] = match task {
            Dimension::Kotsu(_) => Dimension::Kotsu(Tile::Jihai(b as u8)).to_id(),
            _ => Dimension::Toitsu(Tile::Jihai(b as u8)).to_id(),
        };
    }
    dims
}

/// The seeds of one suited task: of each seed record, the values of the six
/// dimensions of the task.
pub fn project_supai(agari_metrics: &[(u32, Metrics)], dims: &[[u8; 2]; 3]) -> (agari: Vec<
    (u32, [[u32; 2]; 3]),
>)
    requires
        forall|i: int, j: int| 0 <= i < 3 && 0 <= j < 2 ==> #[trigger] dims[i][j] < 86,
    ensures
        agari@.len() == agari_metrics@.len(),
        forall|k: int|
            0 <= k < agari@.len() ==> (#[trigger] agari@[k]).0 == agari_metrics@[k].0 && forall|
                i: int,
                j: int,
            |
                0 <= i < 3 && 0 <= j < 2 ==> #[trigger] agari@[k].1[i][j]
                    == agari_metrics@[k].1.values[dims[i][j] as int],
{
    let mut agari: Vec<(u32, [[u32; 2]; 3])> = Vec::new();
    for k in 0..agari_metrics.len()
        invariant
            forall|i: int, j: int| 0 <= i < 3 && 0 <= j < 2 ==> #[trigger] dims[i][j] < 86,
            agari@.len() == k,
            forall|t: int|
                0 <= t < k ==> (#[trigger] agari@[t]).0 == agari_metrics@[t].0 && forall|
                    i: int,
                    j: int,
                |
                    0 <= i < 3 && 0 <= j < 2 ==> #[trigger] agari@[t].1[i][j]
                        == agari_metrics@[t].1.values[dims[i][j] as int],
    {
        let hi = agari_metrics[k].0;
        let m = &agari_metrics[k].1;
        assert(dims[0][0] < 86 && dims[0][1] < 86 && dims[1][0] < 86 && dims[1][1] < 86
            && dims[2][0] < 86 && dims[2][1] < 86);
        let res = [
            [m.values[dims[0][0] as usize], m.values[dims[0][1] as usize]],
            [m.values[dims[1][0] as usize], m.values[dims[1][1] as usize]],
            [m.values[dims[2][0] as usize], m.values[dims[2][1] as usize]],
        ];
        agari.push((hi, res));
    }
    agari
}

/// The seeds of one honor task: of each seed record, the values of the five
/// dimensions of the task.
pub fn project_jihai(agari_metrics: &[(u32, Metrics)], dims: &[u8; 5]) -> (agari: Vec<
    (u32, [u32; 5]),
>)
    requires
        forall|i: int| 0 <= i < 5 ==> #[trigger] dims[i] < 86,
    ensures
        agari@.len() == agari_metrics@.len(),
        forall|k: int|
            0 <= k < agari@.len() ==> (#[trigger] agari@[k]).0 == agari_metrics@[k].0 && forall|
                i: int,
            |
                0 <= i < 5 ==> #[trigger] agari@[k].1[i]
                    == agari_metrics@[k].1.values[dims[i] as int],
{
    let mut agari: Vec<(u32, [u32; 5])> = Vec::new();
    for k in 0..agari_metrics.len()
        invariant
            forall|i: int| 0 <= i < 5 ==> #[trigger] dims[i] < 86,
            agari@.len() == k,
            forall|t: int|
                0 <= t < k ==> (#[trigger] agari@[t]).0 == agari_metrics@[t].0 && forall|i: int|
                    0 <= i < 5 ==> #[trigger] agari@[t].1[i]
                        == agari_metrics@[t].1.values[dims[i] as int],
    {
        let hi = agari_metrics[k].0;
        let m = &agari_metrics[k].1;
        assert(dims[0] < 86 && dims[1] < 86 && dims[2] < 86 && dims[3] < 86 && dims[4] < 86);
        let res = [
            m.values[dims[0] as usize],
            m.values[dims[1] as usize],
            m.values[dims[2] as usize],
            m.values[dims[3] as usize],
            m.values[dims[4] as usize],
        ];
        agari.push((hi, res));
    }
    agari
}

/// The seeds of thirteen orphans: of each seed record, the value of the last
/// dimension.
pub fn project_kokushi(agari_metrics: &[(u32, Metrics)]) -> (agari: Vec<(u32, u32)>)
    ensures
        agari@.len() == agari_metrics@.len(),
        forall|k: int|
            0 <= k < agari@.len() ==> #[trigger] agari@[k] == (
                agari_metrics@[k].0,
                agari_metrics@[k].1.values[85],
            ),
{
    let mut agari: Vec<(u32, u32)> = Vec::new();
    for k in 0..agari_metrics.len()
        invariant
            agari@.len() == k,
            forall|t: int|
                0 <= t < k ==> #[trigger] agari@[t] == (
                    agari_metrics@[t].0,
                    agari_metrics@[t].1.values[85],
                ),
    {
        agari.push((agari_metrics[k].0, agari_metrics[k].1.values[85]));
    }
    agari
}

/// The table of round zero for one task: the seed of every winning hand,
/// and `zero` for every other hand.
pub fn seed_table<P: Copy>(len: usize, zero: P, seeds: &[(u32, P)]) -> (table: Vec<P>)
    requires
        forall|k: int| 0 <= k < seeds@.len() ==> (#[trigger] seeds@[k]).0 < len,
    ensures
        table@.len() == len,
        forall|id: int|
            0 <= id < len ==> #[trigger] table@[id] == match crate::metrics::seeded(seeds@, id) {
                Some(record) => record,
                None => zero,
            },
{
    let mut table: Vec<P> = Vec::new();
    for i in 0..len
        invariant
            table@.len() == i,
            forall|k: int| 0 <= k < i ==> #[trigger] table@[k] == zero,
    {
        table.push(zero);
    }
    seed(&mut table, seeds);
    table
}

/// Whether the values of suit `i` in direction `j` of a suited task go to a
/// file of their own: the mirrored direction does not where it is the same
/// dimension as the first.
pub fn is_written(dims: &[[u8; 2]; 3], i: usize, j: usize) -> (b: bool)
    requires
        i < 3,
        j < 2,
    ensures
        b == !(j == 1 && dims[i as int][0] == dims[i as int][1]),
{
    !(j == 1 && dims[i][0] == dims[i][1])
}

/// The values of one suit and direction of a suited table, hand by hand.
pub fn column_supai(table: &[[[u32; 2]; 3]], i: usize, j: usize) -> (column: Vec<u32>)
    requires
        i < 3,
        j < 2,
    ensures
        column@.len() == table@.len(),
        forall|k: int| 0 <= k < column@.len() ==> #[trigger] column@[k] == table@[k][i as int][j as int],
{
    let mut column: Vec<u32> = Vec::with_capacity(table.len());
    for k in 0..table.len()
        invariant
            i < 3,
            j < 2,
            column@.len() == k,
            forall|t: int| 0 <= t < k ==> #[trigger] column@[t] == table@[t][i as int][j as int],
    {
        column.push(table[k][i][j]);
    }
    column
}

/// The values of one bucket of an honor table, hand by hand.
pub fn column_jihai(table: &[[u32; 5]], i: usize) -> (column: Vec<u32>)
    requires
        i < 5,
    ensures
        column@.len() == table@.len(),
        forall|k: int| 0 <= k < column@.len() ==> #[trigger] column@[k] == table@[k][i as int],
{
    let mut column: Vec<u32> = Vec::with_capacity(table.len());
    for k in 0..table.len()
        invariant
            i < 5,
            column@.len() == k,
            forall|t: int| 0 <= t < k ==> #[trigger] column@[t] == table@[t][i as int],
    {
        column.push(table[k][i]);
    }
    column
}

/// Number of shards that the values of a number of hands go into.
pub fn shard_count(len: usize) -> (n: usize)
    ensures
        n == (len + 2097152 - 1) / 2097152,
{
    len / SHARD_SIZE + if len % SHARD_SIZE == 0 {
        0
    } else {
        1
    }
}

/// The hands of one shard: from `start` up to `end`.
pub fn shard_range(len: usize, shard_id: usize) -> (r: (usize, usize))
    requires
        shard_id < (len + 2097152 - 1) / 2097152,
    ensures
        r.0 == shard_id * 2097152,
        r.1 == if r.0 + 2097152 <= len {
            r.0 + 2097152
        } else {
            len as int
        },
        r.0 < r.1 <= len,
{
    let start = shard_id * SHARD_SIZE;
    let size = if len - start < SHARD_SIZE {
        len - start
    } else {
        SHARD_SIZE
    };
    (start, start + size)
}

/// The shard to merge next, from the number of records that the merged file
/// holds: none where the file does not end with a whole shard.
pub fn resume_shard(store_len: usize) -> (r: Option<usize>)
    ensures
        match r {
            Some(shard_id) => store_len == shard_id * 37748736,
            None => store_len as int % 37748736 != 0,
        },
{
    let per_shard: usize = 18 * SHARD_SIZE;
    if store_len % per_shard != 0 {
        None
    } else {
        Some(store_len / per_shard)
    }
}

/// The round and the dimension whose shard comes at position `i` among the
/// shards of one merge step. `first_round` is 0 for the hands of 14 tiles and
/// 1 for the hands of 13 tiles.
pub fn shard_source(i: usize, first_round: usize) -> (r: (usize, usize))
    requires
        i < 18 * 86,
        first_round <= 1,
    ensures
        r.0 == (i / 86) * 2 + first_round,
        r.1 == i % 86,
        r.0 < 36,
        r.1 < 86,
{
    ((i / 86) * 2 + first_round, i % 86)
}

/// The records of one merge step: for every hand of a shard and every round
/// one record that holds the value of every dimension. The shard of round
/// index `r` and dimension `d` comes at position `86 r + d`; the record of
/// hand `h` and round index `r` comes out at position `18 h + r`.
pub fn interleave(shards: &Vec<Vec<u32>>, size: usize) -> (output: Vec<Metrics>)
    requires
        shards@.len() == 18 * 86,
        forall|k: int| 0 <= k < shards@.len() ==> (#[trigger] shards@[k])@.len() >= size,
        size * 18 <= usize::MAX,
    ensures
        output@.len() == size * 18,
        forall|i: int, d: int|
            0 <= i < size * 18 && 0 <= d < 86 ==> #[trigger] output@[i].values[d] == shards@[(i
                % 18) * 86 + d]@[i / 18],
{
    let mut output: Vec<Metrics> = Vec::new();
    let n = size * 18;
    for i in 0..n
        invariant
            n == size * 18,
            shards@.len() == 18 * 86,
            forall|k: int| 0 <= k < shards@.len() ==> (#[trigger] shards@[k])@.len() >= size,
            output@.len() == i,
            forall|t: int, d: int|
                0 <= t < i && 0 <= d < 86 ==> #[trigger] output@[t].values[d] == shards@[(t % 18)
                    * 86 + d]@[t / 18],
    {
        let hi = i / 18;
        let round = i % 18;
        let mut m = Metrics::new();
        for d in 0..86usize
            invariant
                hi == i / 18,
                round == i % 18,
                hi < size,
                shards@.len() == 18 * 86,
                forall|k: int| 0 <= k < shards@.len() ==> (#[trigger] shards@[k])@.len() >= size,
                forall|e: int|
                    0 <= e < d ==> #[trigger] m.values[e] == shards@[round * 86 + e]@[hi as int],
        {
            assert(shards@[round * 86 + d]@.len() >= size);
            m.values[d] = shards[round * 86 + d][hi];
        }
        output.push(m);
    }
    output
}

/// The full count of round index `r`: 123 to the power `r + first_draws`.
pub open spec fn round_div(r: int, first_draws: u32) -> u128 {
    wall_pow((r + first_draws) as nat) as u128
}

/// The packed counts of a block of hands: for every hand and every round
/// index the count of the round against its full count. The full count of
/// round index `r` is 123 to the power `r + first_draws`, where `first_draws`
/// is 1 for the hands of 13 tiles and 0 for the hands of 14 tiles. The value
/// of hand `h` and round index `r` comes out at position `18 h + r`.
pub fn compact_tsumo(rounds: &Vec<Vec<u128>>, first_draws: u32) -> (output: Vec<u32>)
    requires
        rounds@.len() == 18,
        first_draws <= 1,
        forall|r: int| 0 <= r < 18 ==> (#[trigger] rounds@[r])@.len() == rounds@[0]@.len(),
        rounds@[0]@.len() * 18 <= usize::MAX,
        forall|r: int, i: int|
            0 <= r < 18 && 0 <= i < rounds@[0]@.len() ==> packable(
                #[trigger] rounds@[r]@[i],
                round_div(r, first_draws),
            ),
    ensures
        output@.len() == rounds@[0]@.len() * 18,
        forall|i: int, r: int|
            0 <= i < rounds@[0]@.len() && 0 <= r < 18 ==> #[trigger] output@[i * 18 + r] == packed(
                rounds@[r]@[i],
                round_div(r, first_draws),
            ),
{
    let size = rounds[0].len();
    let mut divs: Vec<u128> = Vec::new();
    for r in 0..18u32
        invariant
            first_draws <= 1,
            divs@.len() == r,
            forall|k: int| 0 <= k < r ==> #[trigger] divs@[k] == round_div(k, first_draws),
    {
        proof {
            crate::tsumo::lemma_wall_pow_bounds((r + first_draws) as nat);
        }
        divs.push(pow123(r + first_draws));
    }
    let mut output: Vec<u32> = Vec::new();
    let n = size * 18;
    for t in 0..n
        invariant
            n == size * 18,
            size == rounds@[0]@.len(),
            rounds@.len() == 18,
            first_draws <= 1,
            divs@.len() == 18,
            forall|k: int| 0 <= k < 18 ==> #[trigger] divs@[k] == round_div(k, first_draws),
            forall|r: int| 0 <= r < 18 ==> (#[trigger] rounds@[r])@.len() == size,
            forall|r: int, i: int|
                0 <= r < 18 && 0 <= i < size ==> packable(
                    #[trigger] rounds@[r]@[i],
                    round_div(r, first_draws),
                ),
            output@.len() == t,
            forall|k: int|
                0 <= k < t ==> #[trigger] output@[k] == packed(
                    rounds@[k % 18]@[k / 18],
                    round_div(k % 18, first_draws),
                ),
    {
        let i = t / 18;
        let r = t % 18;
        assert(rounds@[r as int]@.len() == size);
        let v = rounds[r][i];
        assert(packable(rounds@[r as int]@[i as int], round_div(r as int, first_draws)));
        output.push(compress(v, divs[r]));
    }
    proof {
        assert forall|i: int, r: int| 0 <= i < size && 0 <= r < 18 implies #[trigger] output@[i * 18
            + r] == packed(rounds@[r]@[i], round_div(r, first_draws)) by {
            let k = i * 18 + r;
            assert(k % 18 == r && k / 18 == i);
        }
    }
    output
}

/// Number of tiles that one unit of a dimension stands for in a hand: three
/// for a run or a triplet, two for a pair, as many times as the bucket holds
/// kinds for an honor bucket, and fourteen for thirteen orphans.
pub open spec fn dimension_weight(d: int, jihai: Seq<u8>) -> int {
    if d < 48 {
        3
    } else if d < 53 {
        3 * jihai[d - 48]
    } else if d < 80 {
        2
    } else if d < 85 {
        2 * jihai[d - 80]
    } else {
        14
    }
}

/// The tiles that the first `n` dimensions of a record account for.
pub open spec fn mass_upto(values: Seq<u32>, jihai: Seq<u8>, n: nat) -> int
    decreases n,
{
    if n == 0 {
        0
    } else {
        mass_upto(values, jihai, (n - 1) as nat) + values[n - 1] * dimension_weight(n - 1, jihai)
    }
}

/// The tiles that a record accounts for in a hand, in units of `2^-30` tile:
/// over all dimensions, the value of the dimension times the number of tiles
/// that it stands for. For a record of the tables this comes to fourteen
/// tiles, up to rounding.
pub fn accounted_mass(record: &Metrics, hand: &Hand) -> (total: u64)
    requires
        hand@.wf(),
    ensures
        total == mass_upto(record.values@, hand@.jihai, 86),
{
    let mut total: u64 = 0;
    proof {
        hand@.lemma_bucket_bounds();
    }
    for d in 0..86usize
        invariant
            forall|i: int| 0 <= i < 5 ==> #[trigger] hand@.jihai[i] <= 7,
            total == mass_upto(record.values@, hand@.jihai, d as nat),
            total <= d * (21 * 0xffff_ffff),
    {
        let v = record.values[d] as u64;
        let w: u64 = if d < 48 {
            3
        } else if d < 53 {
            3 * (hand.jihai[d - 48] as u64)
        } else if d < 80 {
            2
        } else if d < 85 {
            2 * (hand.jihai[d - 80] as u64)
        } else {
            14
        };
        assert(w == dimension_weight(d as int, hand@.jihai));
        assert(v * w <= 21 * 0xffff_ffff) by (nonlinear_arith)
            requires
                0 <= v <= 0xffff_ffff,
                0 <= w <= 21,
        ;
        assert((d + 1) * (21 * 0xffff_ffff) == d * (21 * 0xffff_ffff) + 21 * 0xffff_ffff) by (nonlinear_arith);
        assert(d * (21 * 0xffff_ffff) <= 85 * (21 * 0xffff_ffff)) by (nonlinear_arith)
            requires
                0 <= d <= 85,
        ;
        total += v * w;
    }
    total
}

} // verus!
