use crate::agari::{
    is_agari, is_orphans, is_seven_pairs, is_standard_agari, lemma_agari_wf,
};
use crate::converter::HandConverter;
use crate::hand::honor_wf;
use crate::pipeline::{dimension_weight, mass_upto};
use crate::seeds::{
    entry_count, entry_sum, is_tally, lemma_occurrences_bound,
    lemma_shape_accounts_for_fourteen, lists_shapes, occurrences, seed_value, shape_counts,
    shape_entry, shape_hand, shape_mark, shape_mass, shape_seen, shapes_covered,
    shapes_entries, Shape,
};
use crate::types::Metrics;
use vstd::prelude::*;

verus! {

/// The tiles that the first `n` dimensions stand for in a hand, where
/// dimension `d` holds `f(d)` units.
pub open spec fn weighted(f: spec_fn(int) -> int, jihai: Seq<u8>, n: nat) -> int
    decreases n,
{
    if n == 0 {
        0
    } else {
        weighted(f, jihai, (n - 1) as nat) + f(n - 1) * dimension_weight(n - 1, jihai)
    }
}

/// Two rows of units that agree dimension by dimension stand for as many tiles.
pub proof fn lemma_weighted_same(
    f: spec_fn(int) -> int,
    g: spec_fn(int) -> int,
    jihai: Seq<u8>,
    n: nat,
)
    requires
        forall|d: int| 0 <= d < n ==> #[trigger] f(d) == g(d),
    ensures
        weighted(f, jihai, n) == weighted(g, jihai, n),
    decreases n,
{
    if n > 0 {
        lemma_weighted_same(f, g, jihai, (n - 1) as nat);
    }
}

/// The units of two rows, added dimension by dimension, stand for the tiles
/// of both.
pub proof fn lemma_weighted_add(
    f: spec_fn(int) -> int,
    g: spec_fn(int) -> int,
    h: spec_fn(int) -> int,
    jihai: Seq<u8>,
    n: nat,
)
    requires
        forall|d: int| 0 <= d < n ==> #[trigger] h(d) == f(d) + g(d),
    ensures
        weighted(h, jihai, n) == weighted(f, jihai, n) + weighted(g, jihai, n),
    decreases n,
{
    if n > 0 {
        lemma_weighted_add(f, g, h, jihai, (n - 1) as nat);
        let w = dimension_weight(n - 1, jihai);
        assert(h(n - 1) * w == f(n - 1) * w + g(n - 1) * w) by (nonlinear_arith)
            requires
                h(n - 1) == f(n - 1) + g(n - 1),
        ;
    }
}

/// A row that holds no more units than another in any dimension stands for
/// no more tiles.
pub proof fn lemma_weighted_le(
    f: spec_fn(int) -> int,
    g: spec_fn(int) -> int,
    jihai: Seq<u8>,
    n: nat,
)
    requires
        forall|d: int| 0 <= d < n ==> #[trigger] f(d) <= g(d),
    ensures
        weighted(f, jihai, n) <= weighted(g, jihai, n),
    decreases n,
{
    if n > 0 {
        lemma_weighted_le(f, g, jihai, (n - 1) as nat);
        let w = dimension_weight(n - 1, jihai);
        assert(f(n - 1) * w <= g(n - 1) * w) by (nonlinear_arith)
            requires
                f(n - 1) <= g(n - 1),
                w >= 0,
        ;
    }
}

/// A row of units, each taken `c` times, stands for `c` times the tiles.
pub proof fn lemma_weighted_scale(
    f: spec_fn(int) -> int,
    g: spec_fn(int) -> int,
    c: int,
    jihai: Seq<u8>,
    n: nat,
)
    requires
        forall|d: int| 0 <= d < n ==> #[trigger] g(d) == c * f(d),
    ensures
        weighted(g, jihai, n) == c * weighted(f, jihai, n),
    decreases n,
{
    if n > 0 {
        lemma_weighted_scale(f, g, c, jihai, (n - 1) as nat);
        let w = dimension_weight(n - 1, jihai);
        let rest = weighted(f, jihai, (n - 1) as nat);
        assert(c * rest + (c * f(n - 1)) * w == c * (rest + f(n - 1) * w)) by (nonlinear_arith);
    }
}

/// One unit in every dimension stands for 247 tiles in any hand: three times
/// 48, twice 27, fourteen, and three and two for each of the seven honors.
pub proof fn lemma_weighted_ones(jihai: Seq<u8>)
    requires
        honor_wf(jihai),
    ensures
        weighted(|d: int| 1int, jihai, 86) == 247,
{
    let f = |d: int| 1int;
    assert forall|n: nat| n <= 48 implies #[trigger] weighted(f, jihai, n) == 3 * n by {
        lemma_ones_flat(jihai, n, 0, 3, 0);
    }
    assert(weighted(f, jihai, 48) == 144);
    assert(weighted(f, jihai, 49) == weighted(f, jihai, 48) + 3 * jihai[0]);
    assert(weighted(f, jihai, 50) == weighted(f, jihai, 49) + 3 * jihai[1]);
    assert(weighted(f, jihai, 51) == weighted(f, jihai, 50) + 3 * jihai[2]);
    assert(weighted(f, jihai, 52) == weighted(f, jihai, 51) + 3 * jihai[3]);
    assert(weighted(f, jihai, 53) == weighted(f, jihai, 52) + 3 * jihai[4]);
    lemma_ones_flat(jihai, 80, 53, 2, weighted(f, jihai, 53));
    assert(weighted(f, jihai, 81) == weighted(f, jihai, 80) + 2 * jihai[0]);
    assert(weighted(f, jihai, 82) == weighted(f, jihai, 81) + 2 * jihai[1]);
    assert(weighted(f, jihai, 83) == weighted(f, jihai, 82) + 2 * jihai[2]);
    assert(weighted(f, jihai, 84) == weighted(f, jihai, 83) + 2 * jihai[3]);
    assert(weighted(f, jihai, 85) == weighted(f, jihai, 84) + 2 * jihai[4]);
    assert(weighted(f, jihai, 86) == weighted(f, jihai, 85) + 14);
}

/// One unit in every dimension of a stretch of dimensions of the same
/// weight stands for that weight per dimension.
proof fn lemma_ones_flat(jihai: Seq<u8>, n: nat, from: nat, w: int, base: int)
    requires
        from <= n,
        weighted(|d: int| 1int, jihai, from) == base,
        forall|d: int| from <= d < n ==> #[trigger] dimension_weight(d, jihai) == w,
    ensures
        weighted(|d: int| 1int, jihai, n) == base + w * (n - from),
    decreases n,
{
    if n > from {
        lemma_ones_flat(jihai, (n - 1) as nat, from, w, base);
        assert(dimension_weight(n - 1, jihai) == w);
        assert(w * (n - 1 - from) + w == w * (n - from)) by (nonlinear_arith);
    } else {
        assert(w * 0 == 0) by (nonlinear_arith);
    }
}

/// The tiles that the marks of a shape stand for, as a weighted row.
pub proof fn lemma_shape_mass_weighted(s: Shape, n: nat)
    ensures
        shape_mass(s, n) == weighted(|d: int| shape_mark(s, d), shape_hand(s).jihai, n),
    decreases n,
{
    if n > 0 {
        lemma_shape_mass_weighted(s, (n - 1) as nat);
    }
}

/// The tiles that a record stands for, as a weighted row.
pub proof fn lemma_mass_upto_weighted(values: Seq<u32>, jihai: Seq<u8>, n: nat)
    ensures
        mass_upto(values, jihai, n) == weighted(|d: int| values[d] as int, jihai, n),
    decreases n,
{
    if n > 0 {
        lemma_mass_upto_weighted(values, jihai, (n - 1) as nat);
    }
}

/// The hand of a shape that the enumeration looks at is a winning hand.
pub proof fn lemma_seen_is_agari(s: Shape)
    requires
        shape_seen(s),
    ensures
        is_agari(shape_hand(s)),
{
    match s {
        Shape::Standard(melds, pair) => {
            assert(is_standard_agari(shape_hand(s)));
        },
        Shape::Pairs(kinds) => {
            assert(is_seven_pairs(shape_hand(s)));
        },
        Shape::Orphans(honor) => {
            assert(is_orphans(shape_hand(s)));
        },
    }
}

/// A value occurs at most once in an ascending list.
pub proof fn lemma_occurs_once(list: Seq<usize>, x: int)
    requires
        forall|i: int, j: int| 0 <= i < j < list.len() ==> list[i] < list[j],
    ensures
        0 <= occurrences(list, x) <= 1,
        occurrences(list, x) == 1 ==> list.len() > 0 && x <= list.last(),
    decreases list.len(),
{
    if list.len() > 0 {
        let rest = list.drop_last();
        assert forall|i: int, j: int| 0 <= i < j < rest.len() implies rest[i] < rest[j] by {
            assert(rest[i] == list[i] && rest[j] == list[j]);
        }
        lemma_occurs_once(rest, x);
        if rest.len() > 0 {
            assert(rest.last() == list[list.len() - 2]);
            assert(list[list.len() - 2] < list[list.len() - 1]);
        }
    }
}

/// A shape marks no dimension more than four times.
pub proof fn lemma_mark_bounds(s: Shape, d: int)
    requires
        shape_seen(s),
        0 <= d < 86,
    ensures
        0 <= shape_mark(s, d) <= 4,
{
    match s {
        Shape::Standard(melds, pair) => {
            lemma_occurrences_bound(melds, d);
            lemma_occurrences_bound(melds, 48);
        },
        Shape::Pairs(kinds) => {
            lemma_occurs_once(kinds, d - 53);
        },
        Shape::Orphans(honor) => {},
    }
}

/// The entries of the first shapes of a list are the first entries of the list.
proof fn lemma_entries_take(conv: HandConverter, shapes: Seq<Shape>, n: int)
    requires
        0 <= n <= shapes.len(),
    ensures
        shapes_entries(conv, shapes.take(n)) == shapes_entries(conv, shapes).take(n),
        n < shapes.len() ==> shapes_entries(conv, shapes).take(n + 1).drop_last()
            == shapes_entries(conv, shapes).take(n) && shapes_entries(conv, shapes).take(
            n + 1,
        ).last() == shape_entry(conv, shapes[n]),
        n == shapes.len() ==> shapes_entries(conv, shapes).take(n) == shapes_entries(conv, shapes),
{
    let e = shapes_entries(conv, shapes);
    assert(shapes_entries(conv, shapes.take(n)) =~= e.take(n));
    if n < shapes.len() {
        assert(e.take(n + 1).drop_last() =~= e.take(n));
    } else {
        assert(e.take(n) =~= e);
    }
}

/// The shapes of a hand account together for fourteen tiles each, and mark
/// no dimension more than four times each.
proof fn lemma_sums_of_shapes(conv: HandConverter, shapes: Seq<Shape>, id: int, n: nat)
    requires
        conv.wf(),
        shapes_covered(conv),
        forall|k: int| 0 <= k < shapes.len() ==> shape_seen(#[trigger] shapes[k]),
        0 <= id < conv.hand14_table().len(),
        n <= shapes.len(),
    ensures
        weighted(
            |d: int| entry_sum(shapes_entries(conv, shapes).take(n as int), id, d),
            conv.hand14(id).jihai,
            86,
        ) == 14 * entry_count(shapes_entries(conv, shapes).take(n as int), id),
        forall|d: int|
            0 <= d < 86 ==> 0 <= #[trigger] entry_sum(
                shapes_entries(conv, shapes).take(n as int),
                id,
                d,
            ) <= 4 * entry_count(shapes_entries(conv, shapes).take(n as int), id),
    decreases n,
{
    let all = shapes_entries(conv, shapes);
    let jihai = conv.hand14(id).jihai;
    let cur = all.take(n as int);
    let f = |d: int| entry_sum(cur, id, d);
    if n == 0 {
        assert(cur =~= Seq::empty());
        lemma_weighted_scale(|d: int| 0int, f, 0, jihai, 86);
        assert(0 * weighted(|d: int| 0int, jihai, 86) == 0) by (nonlinear_arith);
    } else {
        lemma_sums_of_shapes(conv, shapes, id, (n - 1) as nat);
        lemma_entries_take(conv, shapes, n - 1);
        let pre = all.take(n - 1);
        let g = |d: int| entry_sum(pre, id, d);
        let s = shapes[n - 1];
        let e = shape_entry(conv, s);
        assert(shape_seen(s));
        lemma_seen_is_agari(s);
        assert(conv.covers14(shape_hand(s)));
        lemma_agari_wf(shape_hand(s));
        conv.lemma_decode_of_encode14(shape_hand(s));
        conv.lemma_table_sizes();
        assert forall|d: int| 0 <= d < 86 implies 0 <= #[trigger] shape_mark(s, d) <= 4 by {
            lemma_mark_bounds(s, d);
        }
        if e.0 == id {
            let m = |d: int| shape_mark(s, d);
            assert(conv.id14(shape_hand(s)) == id);
            assert(shape_hand(s).jihai == jihai);
            lemma_shape_accounts_for_fourteen(s);
            lemma_shape_mass_weighted(s, 86);
            assert forall|d: int| 0 <= d < 86 implies #[trigger] f(d) == g(d) + m(d) by {
                assert(e.1[d] == shape_mark(s, d));
            }
            lemma_weighted_add(g, m, f, jihai, 86);
        } else {
            assert forall|d: int| 0 <= d < 86 implies #[trigger] f(d) == g(d) by {}
            lemma_weighted_same(f, g, jihai, 86);
        }
        assert forall|d: int| 0 <= d < 86 implies 0 <= #[trigger] entry_sum(cur, id, d) <= 4
            * entry_count(cur, id) by {
            assert(0 <= entry_sum(pre, id, d) <= 4 * entry_count(pre, id));
            assert(0 <= shape_mark(s, d) <= 4);
            assert(e.1[d] == shape_mark(s, d));
        }
    }
}

/// The seed of a dimension times the number of shapes is the marks of the
/// dimension in units of `2^-30`, rounded down by less than one per shape.
proof fn lemma_seed_value_bounds(count: int, sum: int)
    requires
        count > 0,
        0 <= sum <= 4 * count,
    ensures
        0 <= seed_value(count, sum),
        seed_value(count, sum) * count <= sum * 0x4000_0000,
        sum * 0x4000_0000 <= (seed_value(count, sum) + 1) * count,
{
    let q = sum * 0x4000_0000 / count;
    assert(0 <= q && q * count <= sum * 0x4000_0000 && sum * 0x4000_0000 < (q + 1) * count
        && q <= 0x1_0000_0000) by (nonlinear_arith)
        requires
            q == sum * 0x4000_0000 / count,
            count > 0,
            0 <= sum <= 4 * count,
    ;
    let v = seed_value(count, sum);
    if q > u32::MAX {
        assert(q == 0x1_0000_0000);
        assert(v == 0xffff_ffff);
        assert(v * count <= q * count) by (nonlinear_arith)
            requires
                v <= q,
                count > 0,
        ;
    }
}

/// Fourteen tiles, all accounted for, up to rounding: the seeds of a winning
/// hand, each weighted by the number of tiles that its dimension stands for
/// in the hand, add up to fourteen tiles in units of `2^-30`, less at most
/// one unit per tile that a dimension stands for.
pub proof fn lemma_seed_accounts_for_fourteen(
    conv: HandConverter,
    shapes: Seq<Shape>,
    seeds: Seq<(u32, Metrics)>,
    a: int,
)
    requires
        conv.wf(),
        shapes_covered(conv),
        lists_shapes(conv, shapes),
        is_tally(shapes_entries(conv, shapes), seeds),
        0 <= a < seeds.len(),
    ensures
        seeds[a].0 < conv.hand14_table().len(),
        14 * 0x4000_0000 - 247 <= mass_upto(
            seeds[a].1.values@,
            conv.hand14(seeds[a].0 as int).jihai,
            86,
        ) <= 14 * 0x4000_0000,
{
    let all = shapes_entries(conv, shapes);
    let id = seeds[a].0 as int;
    let count = entry_count(all, id);
    assert(count > 0);
    assert forall|k: int| 0 <= k < shapes.len() implies shape_seen(#[trigger] shapes[k]) by {
        assert(shapes.contains(shapes[k]));
        assert(shape_counts(conv, shapes[k]));
    }
    lemma_id_of_entry(conv, shapes, id);
    lemma_sums_of_shapes(conv, shapes, id, shapes.len());
    lemma_entries_take(conv, shapes, shapes.len() as int);
    let jihai = conv.hand14(id).jihai;
    conv.lemma_encode_of_decode14(id);
    let values = seeds[a].1.values@;
    let v = |d: int| values[d] as int;
    let s = |d: int| entry_sum(all, id, d);
    let vc = |d: int| count * (values[d] as int);
    let v1 = |d: int| values[d] as int + 1;
    let v1c = |d: int| count * (values[d] as int + 1);
    let su = |d: int| 0x4000_0000 * entry_sum(all, id, d);
    let one = |d: int| 1int;
    assert forall|d: int| 0 <= d < 86 implies #[trigger] vc(d) <= su(d) && su(d) <= v1c(d) by {
        assert(values[d] == seed_value(count, entry_sum(all, id, d)));
        assert(0 <= entry_sum(all, id, d) <= 4 * count);
        lemma_seed_value_bounds(count, entry_sum(all, id, d));
        let x = values[d] as int;
        let y = entry_sum(all, id, d);
        assert(count * x == x * count && count * (x + 1) == (x + 1) * count && 0x4000_0000 * y
            == y * 0x4000_0000) by (nonlinear_arith);
    }
    assert forall|d: int| 0 <= d < 86 implies #[trigger] su(d) <= v1c(d) by {
        assert(vc(d) <= su(d) && su(d) <= v1c(d));
    }
    lemma_mass_upto_weighted(values, jihai, 86);
    lemma_weighted_scale(v, vc, count, jihai, 86);
    lemma_weighted_scale(v1, v1c, count, jihai, 86);
    lemma_weighted_scale(s, su, 0x4000_0000, jihai, 86);
    lemma_weighted_le(vc, su, jihai, 86);
    lemma_weighted_le(su, v1c, jihai, 86);
    lemma_weighted_add(v, one, v1, jihai, 86);
    lemma_weighted_ones(jihai);
    let mass = weighted(v, jihai, 86);
    assert(weighted(s, jihai, 86) == 14 * count);
    assert(count * mass <= 0x4000_0000 * (14 * count));
    assert(0x4000_0000 * (14 * count) <= count * (mass + 247));
    assert(mass <= 14 * 0x4000_0000 && 14 * 0x4000_0000 - 247 <= mass) by (nonlinear_arith)
        requires
            count > 0,
            count * mass <= 0x4000_0000 * (14 * count),
            0x4000_0000 * (14 * count) <= count * (mass + 247),
    ;
}

/// A hand that has an entry among the entries of shapes is a numbered hand.
proof fn lemma_id_of_entry(conv: HandConverter, shapes: Seq<Shape>, id: int)
    requires
        conv.wf(),
        shapes_covered(conv),
        forall|k: int| 0 <= k < shapes.len() ==> shape_seen(#[trigger] shapes[k]),
        entry_count(shapes_entries(conv, shapes), id) > 0,
    ensures
        0 <= id < conv.hand14_table().len(),
    decreases shapes.len(),
{
    let all = shapes_entries(conv, shapes);
    if shapes.len() > 0 {
        let rest = shapes.drop_last();
        let s = shapes.last();
        assert(s == shapes[shapes.len() - 1]);
        assert(all.drop_last() =~= shapes_entries(conv, rest));
        assert(all.last() == shape_entry(conv, s));
        if all.last().0 == id {
            assert(shape_seen(s));
            lemma_seen_is_agari(s);
            assert(conv.covers14(shape_hand(s)));
            lemma_agari_wf(shape_hand(s));
            conv.lemma_decode_of_encode14(shape_hand(s));
            conv.lemma_table_sizes();
        } else {
            assert forall|k: int| 0 <= k < rest.len() implies shape_seen(#[trigger] rest[k]) by {
                assert(rest[k] == shapes[k]);
            }
            lemma_id_of_entry(conv, rest, id);
        }
    }
}

} // verus!
