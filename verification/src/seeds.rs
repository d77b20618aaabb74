use crate::agari::{
    add_pair, bump, bump_honor, lemma_bump_honor, lemma_melds_hand, lemma_pairs_hand,
    lemma_standard_shape, melds_hand, melds_to_hand, orphans, orphans_hand, pairs_hand,
    pairs_to_hand, within_four,
};
use crate::combinatorics::{
    choices, choices_left, is_choice, is_multichoice, multichoices, multichoices_left,
    next_choice, next_multichoice,
};
use crate::converter::HandConverter;
use crate::hand::{Hand, HandView};
use crate::pipeline::dimension_weight;
use crate::types::Metrics;
use std::collections::HashMap;
use vstd::prelude::*;

verus! {

/// One way to read a winning hand: four melds and a pair, seven pairs, or
/// thirteen orphans with a terminal or an honor doubled.
pub enum Shape {
    Standard(Seq<usize>, int),
    Pairs(Seq<usize>),
    Orphans(bool),
}

/// The hand of a shape.
pub open spec fn shape_hand(s: Shape) -> HandView {
    match s {
        Shape::Standard(melds, pair) => add_pair(melds_hand(melds), pair),
        Shape::Pairs(kinds) => pairs_hand(kinds),
        Shape::Orphans(honor) => orphans_hand(honor),
    }
}

/// Number of times a value occurs in a list.
pub open spec fn occurrences(list: Seq<usize>, x: int) -> int
    decreases list.len(),
{
    if list.len() == 0 {
        0
    } else {
        occurrences(list.drop_last(), x) + if list.last() == x {
            1int
        } else {
            0int
        }
    }
}

/// What a shape marks in dimension `d`.
///
/// A run or a suited triplet marks its dimension once per copy. Honor
/// triplets mark bucket three of the honor triplets once, however many there
/// are. A suited pair marks its dimension; honor pairs mark bucket two of the
/// honor pairs once. Thirteen orphans mark the last dimension.
pub open spec fn shape_mark(s: Shape, d: int) -> int {
    match s {
        Shape::Standard(melds, pair) => {
            if d < 48 {
                occurrences(melds, d)
            } else if d == 51 {
                if occurrences(melds, 48) > 0 {
                    1
                } else {
                    0
                }
            } else if 53 <= d < 80 {
                if pair == d - 53 {
                    1
                } else {
                    0
                }
            } else if d == 82 {
                if pair == 27 {
                    1
                } else {
                    0
                }
            } else {
                0
            }
        },
        Shape::Pairs(kinds) => {
            if 53 <= d < 80 {
                occurrences(kinds, d - 53)
            } else if d == 82 {
                if kinds.len() > 0 && kinds.last() >= 27 {
                    1
                } else {
                    0
                }
            } else {
                0
            }
        },
        Shape::Orphans(_) => {
            if d == 85 {
                1
            } else {
                0
            }
        },
    }
}

/// Whether the canonical form of a hand keeps its three suits in place and
/// mirrors none.
pub open spec fn keeps_frame(conv: HandConverter, h: HandView) -> bool {
    forall|i: int|
        0 <= i < 3 ==> #[trigger] conv.suit_rank(h, i) == i && conv.suit_entry(h, i).1 == i
}

/// Whether the honors among seven tile kinds are the first honors: each is
/// the first honor, or follows the honor before it.
pub open spec fn honors_first(kinds: Seq<usize>) -> bool {
    forall|i: int|
        0 <= i < kinds.len() && #[trigger] kinds[i] >= 27 ==> kinds[i] == 27 || (i > 0 && kinds[i
            - 1] + 1 == kinds[i])
}

/// Whether a shape is one that the enumeration looks at: four melds and a
/// pair that make a hand, seven pairs whose honors are the first honors, or
/// thirteen orphans.
pub open spec fn shape_seen(s: Shape) -> bool {
    match s {
        Shape::Standard(melds, pair) => is_multichoice(melds, 49, 4) && 0 <= pair < 28
            && shape_hand(s).wf(),
        Shape::Pairs(kinds) => is_choice(kinds, 34, 7) && honors_first(kinds),
        Shape::Orphans(_) => true,
    }
}

/// Whether a shape counts towards the seeds: it is looked at, and the
/// canonical form of its hand keeps the frame of the hand. Thirteen orphans
/// always count.
pub open spec fn shape_counts(conv: HandConverter, s: Shape) -> bool {
    &&& shape_seen(s)
    &&& s is Orphans || keeps_frame(conv, shape_hand(s))
}

/// Whether the tables number the hand of every shape that is looked at.
pub open spec fn shapes_covered(conv: HandConverter) -> bool {
    forall|s: Shape| shape_seen(s) ==> #[trigger] conv.covers14(shape_hand(s))
}

/// The entry of a shape: the number of its hand and its marks.
pub open spec fn shape_entry(conv: HandConverter, s: Shape) -> (u32, Seq<int>) {
    (conv.id14(shape_hand(s)) as u32, Seq::new(86, |d: int| shape_mark(s, d)))
}

/// The mathematical value of a list of entries.
pub open spec fn entries_view(entries: Seq<(u32, [u8; 86])>) -> Seq<(u32, Seq<int>)> {
    Seq::new(
        entries.len(),
        |k: int| (entries[k].0, Seq::new(86, |d: int| entries[k].1[d] as int)),
    )
}

/// The entries of a list of shapes.
pub open spec fn shapes_entries(conv: HandConverter, shapes: Seq<Shape>) -> Seq<(u32, Seq<int>)> {
    Seq::new(shapes.len(), |k: int| shape_entry(conv, shapes[k]))
}

/// A list that holds every shape that counts, each once.
pub open spec fn lists_shapes(conv: HandConverter, shapes: Seq<Shape>) -> bool {
    &&& shapes.no_duplicates()
    &&& forall|s: Shape| shapes.contains(s) <==> shape_counts(conv, s)
}

/// The shapes that count among those of four melds with the pairs below `upto`.
pub open spec fn standard_shapes(conv: HandConverter, melds: Seq<usize>, upto: nat) -> Seq<Shape>
    decreases upto,
{
    if upto == 0 {
        Seq::empty()
    } else {
        let rest = standard_shapes(conv, melds, (upto - 1) as nat);
        let s = Shape::Standard(melds, upto - 1);
        if shape_counts(conv, s) {
            rest.push(s)
        } else {
            rest
        }
    }
}

/// The shapes that count among those of the first `n` lists of melds.
pub open spec fn standard_all(conv: HandConverter, all: Seq<Seq<usize>>, n: nat) -> Seq<Shape>
    decreases n,
{
    if n == 0 {
        Seq::empty()
    } else {
        standard_all(conv, all, (n - 1) as nat) + standard_shapes(conv, all[n - 1], 28)
    }
}

/// The shapes that count among those of the first `n` lists of seven pairs.
pub open spec fn pairs_all(conv: HandConverter, all: Seq<Seq<usize>>, n: nat) -> Seq<Shape>
    decreases n,
{
    if n == 0 {
        Seq::empty()
    } else {
        let rest = pairs_all(conv, all, (n - 1) as nat);
        let s = Shape::Pairs(all[n - 1]);
        if shape_counts(conv, s) {
            rest.push(s)
        } else {
            rest
        }
    }
}

/// Whether a shape is one of given melds with a pair below `upto`.
pub open spec fn is_standard_of(s: Shape, melds: Seq<usize>, upto: int) -> bool {
    match s {
        Shape::Standard(m, p) => m == melds && 0 <= p < upto,
        _ => false,
    }
}

/// Whether a shape is one of melds from a list, with any pair.
pub open spec fn is_standard_among(s: Shape, all: Seq<Seq<usize>>) -> bool {
    match s {
        Shape::Standard(m, p) => all.contains(m) && 0 <= p < 28,
        _ => false,
    }
}

/// Whether a shape is one of seven pairs from a list.
pub open spec fn is_pairs_among(s: Shape, all: Seq<Seq<usize>>) -> bool {
    match s {
        Shape::Pairs(kinds) => all.contains(kinds),
        _ => false,
    }
}

/// What the shapes of four melds with the pairs below `upto` are.
pub proof fn lemma_standard_shapes(conv: HandConverter, melds: Seq<usize>, upto: nat)
    ensures
        standard_shapes(conv, melds, upto).no_duplicates(),
        forall|s: Shape|
            #[trigger] standard_shapes(conv, melds, upto).contains(s) <==> shape_counts(conv, s)
                && is_standard_of(s, melds, upto as int),
    decreases upto,
{
    let cur = standard_shapes(conv, melds, upto);
    if upto > 0 {
        let rest = standard_shapes(conv, melds, (upto - 1) as nat);
        lemma_standard_shapes(conv, melds, (upto - 1) as nat);
        let last = Shape::Standard(melds, upto - 1);
        if shape_counts(conv, last) {
            lemma_push_new(rest, last);
            assert forall|s: Shape| #[trigger] cur.contains(s) <==> shape_counts(conv, s)
                && is_standard_of(s, melds, upto as int) by {
                assert(cur.contains(s) <==> rest.contains(s) || s == last);
            }
        } else {
            assert forall|s: Shape| #[trigger] cur.contains(s) <==> shape_counts(conv, s)
                && is_standard_of(s, melds, upto as int) by {
                assert(cur.contains(s) <==> rest.contains(s));
            }
        }
    }
}

/// A list with one more value, not met before, holds what it held and the
/// new value, and repeats nothing if it did not before.
pub proof fn lemma_push_new<A>(list: Seq<A>, x: A)
    requires
        !list.contains(x),
    ensures
        forall|y: A| #[trigger] list.push(x).contains(y) <==> list.contains(y) || y == x,
        list.no_duplicates() ==> list.push(x).no_duplicates(),
{
    let cur = list.push(x);
    assert forall|y: A| #[trigger] cur.contains(y) <==> list.contains(y) || y == x by {
        if cur.contains(y) {
            let i = choose|i: int| 0 <= i < cur.len() && cur[i] == y;
            if i < list.len() {
                assert(list[i] == y);
            }
        }
        if list.contains(y) {
            let i = choose|i: int| 0 <= i < list.len() && list[i] == y;
            assert(cur[i] == y);
        }
        if y == x {
            assert(cur[cur.len() - 1] == y);
        }
    }
    if list.no_duplicates() {
        assert forall|i: int, j: int| 0 <= i < j < cur.len() implies cur[i] != cur[j] by {
            if j == cur.len() - 1 {
                assert(list[i] == cur[i]);
                assert(list.contains(cur[i]));
            } else {
                assert(list[i] == cur[i] && list[j] == cur[j]);
            }
        }
    }
}

/// Two lists that share no value, joined, hold the values of both, and
/// repeat nothing if neither did.
pub proof fn lemma_join_apart<A>(a: Seq<A>, b: Seq<A>)
    requires
        forall|x: A| a.contains(x) ==> !b.contains(x),
    ensures
        forall|y: A| #[trigger] (a + b).contains(y) <==> a.contains(y) || b.contains(y),
        a.no_duplicates() && b.no_duplicates() ==> (a + b).no_duplicates(),
{
    let cur = a + b;
    assert forall|y: A| #[trigger] cur.contains(y) <==> a.contains(y) || b.contains(y) by {
        if cur.contains(y) {
            let i = choose|i: int| 0 <= i < cur.len() && cur[i] == y;
            if i < a.len() {
                assert(a[i] == y);
            } else {
                assert(b[i - a.len()] == y);
            }
        }
        if a.contains(y) {
            let i = choose|i: int| 0 <= i < a.len() && a[i] == y;
            assert(cur[i] == y);
        }
        if b.contains(y) {
            let i = choose|i: int| 0 <= i < b.len() && b[i] == y;
            assert(cur[a.len() + i] == y);
        }
    }
    if a.no_duplicates() && b.no_duplicates() {
        assert forall|i: int, j: int| 0 <= i < j < cur.len() implies cur[i] != cur[j] by {
            if j < a.len() {
                assert(cur[i] == a[i] && cur[j] == a[j]);
            } else if i >= a.len() {
                assert(cur[i] == b[i - a.len()] && cur[j] == b[j - a.len()]);
            } else {
                assert(cur[i] == a[i] && cur[j] == b[j - a.len()]);
                assert(a.contains(a[i]));
                assert(b.contains(b[j - a.len()]));
            }
        }
    }
}

/// What the shapes of the first `n` lists of melds are, where no list of
/// melds comes twice.
pub proof fn lemma_standard_all(conv: HandConverter, all: Seq<Seq<usize>>, n: nat)
    requires
        n <= all.len(),
        all.no_duplicates(),
    ensures
        standard_all(conv, all, n).no_duplicates(),
        forall|s: Shape|
            #[trigger] standard_all(conv, all, n).contains(s) <==> shape_counts(conv, s)
                && is_standard_among(s, all.take(n as int)),
    decreases n,
{
    let cur = standard_all(conv, all, n);
    if n > 0 {
        let rest = standard_all(conv, all, (n - 1) as nat);
        let melds = all[n - 1];
        let add = standard_shapes(conv, melds, 28);
        lemma_standard_all(conv, all, (n - 1) as nat);
        lemma_standard_shapes(conv, melds, 28);
        let short = all.take(n - 1);
        let long = all.take(n as int);
        assert(long == short.push(melds));
        assert(!short.contains(melds)) by {
            if short.contains(melds) {
                let i = choose|i: int| 0 <= i < short.len() && short[i] == melds;
                assert(all[i] == all[n - 1]);
            }
        }
        lemma_push_new(short, melds);
        assert forall|x: Shape| rest.contains(x) implies !add.contains(x) by {
            if add.contains(x) {
                assert(is_standard_among(x, short) && is_standard_of(x, melds, 28));
            }
        }
        lemma_join_apart(rest, add);
        assert forall|s: Shape| #[trigger] cur.contains(s) <==> shape_counts(conv, s)
            && is_standard_among(s, long) by {
            assert(cur.contains(s) <==> rest.contains(s) || add.contains(s));
            match s {
                Shape::Standard(m, p) => {
                    assert(long.contains(m) <==> short.contains(m) || m == melds);
                },
                _ => {},
            }
        }
    } else {
        assert forall|s: Shape| #[trigger] cur.contains(s) <==> shape_counts(conv, s)
            && is_standard_among(s, all.take(n as int)) by {
            match s {
                Shape::Standard(m, p) => {
                    assert(!all.take(0).contains(m));
                },
                _ => {},
            }
        }
    }
}

/// What the shapes of the first `n` lists of seven pairs are, where no list
/// comes twice.
pub proof fn lemma_pairs_all(conv: HandConverter, all: Seq<Seq<usize>>, n: nat)
    requires
        n <= all.len(),
        all.no_duplicates(),
    ensures
        pairs_all(conv, all, n).no_duplicates(),
        forall|s: Shape|
            #[trigger] pairs_all(conv, all, n).contains(s) <==> shape_counts(conv, s)
                && is_pairs_among(s, all.take(n as int)),
    decreases n,
{
    let cur = pairs_all(conv, all, n);
    if n > 0 {
        let rest = pairs_all(conv, all, (n - 1) as nat);
        let kinds = all[n - 1];
        let last = Shape::Pairs(kinds);
        lemma_pairs_all(conv, all, (n - 1) as nat);
        let short = all.take(n - 1);
        let long = all.take(n as int);
        assert(long == short.push(kinds));
        assert(!short.contains(kinds)) by {
            if short.contains(kinds) {
                let i = choose|i: int| 0 <= i < short.len() && short[i] == kinds;
                assert(all[i] == all[n - 1]);
            }
        }
        lemma_push_new(short, kinds);
        if shape_counts(conv, last) {
            lemma_push_new(rest, last);
            assert forall|s: Shape| #[trigger] cur.contains(s) <==> shape_counts(conv, s)
                && is_pairs_among(s, long) by {
                assert(cur.contains(s) <==> rest.contains(s) || s == last);
                match s {
                    Shape::Pairs(k) => {
                        assert(long.contains(k) <==> short.contains(k) || k == kinds);
                    },
                    _ => {},
                }
            }
        } else {
            assert forall|s: Shape| #[trigger] cur.contains(s) <==> shape_counts(conv, s)
                && is_pairs_among(s, long) by {
                assert(cur.contains(s) <==> rest.contains(s));
                match s {
                    Shape::Pairs(k) => {
                        assert(long.contains(k) <==> short.contains(k) || k == kinds);
                    },
                    _ => {},
                }
            }
        }
    } else {
        assert forall|s: Shape| #[trigger] cur.contains(s) <==> shape_counts(conv, s)
            && is_pairs_among(s, all.take(n as int)) by {
            match s {
                Shape::Pairs(k) => {
                    assert(!all.take(0).contains(k));
                },
                _ => {},
            }
        }
    }
}

/// All shapes that count: those of four melds and a pair, those of seven
/// pairs, and the two of thirteen orphans.
pub open spec fn all_shapes(
    conv: HandConverter,
    melds: Seq<Seq<usize>>,
    pairs: Seq<Seq<usize>>,
) -> Seq<Shape> {
    standard_all(conv, melds, melds.len()) + pairs_all(conv, pairs, pairs.len()) + seq![
        Shape::Orphans(false),
        Shape::Orphans(true),
    ]
}

/// The shapes of two complete enumerations are all shapes that count, each once.
pub proof fn lemma_all_shapes(conv: HandConverter, melds: Seq<Seq<usize>>, pairs: Seq<Seq<usize>>)
    requires
        melds.no_duplicates(),
        pairs.no_duplicates(),
        forall|t: Seq<usize>| #[trigger] melds.contains(t) <==> is_multichoice(t, 49, 4),
        forall|t: Seq<usize>| #[trigger] pairs.contains(t) <==> is_choice(t, 34, 7),
    ensures
        lists_shapes(conv, all_shapes(conv, melds, pairs)),
{
    let a = standard_all(conv, melds, melds.len());
    let b = pairs_all(conv, pairs, pairs.len());
    let c = seq![Shape::Orphans(false), Shape::Orphans(true)];
    lemma_standard_all(conv, melds, melds.len());
    lemma_pairs_all(conv, pairs, pairs.len());
    assert(melds.take(melds.len() as int) == melds);
    assert(pairs.take(pairs.len() as int) == pairs);
    assert forall|x: Shape| a.contains(x) implies !b.contains(x) by {}
    lemma_join_apart(a, b);
    assert forall|x: Shape| #[trigger] c.contains(x) <==> x is Orphans by {
        if x is Orphans {
            if x == Shape::Orphans(false) {
                assert(c[0] == x);
            } else {
                assert(x == Shape::Orphans(true));
                assert(c[1] == x);
            }
        }
    }
    assert(c.no_duplicates());
    assert forall|x: Shape| (a + b).contains(x) implies !c.contains(x) by {}
    lemma_join_apart(a + b, c);
    let all = all_shapes(conv, melds, pairs);
    assert forall|s: Shape| all.contains(s) <==> shape_counts(conv, s) by {
        assert(all.contains(s) <==> a.contains(s) || b.contains(s) || c.contains(s));
    }
}

/// A value occurs in a list no more often than the list is long.
pub proof fn lemma_occurrences_bound(list: Seq<usize>, x: int)
    ensures
        0 <= occurrences(list, x) <= list.len(),
    decreases list.len(),
{
    if list.len() > 0 {
        lemma_occurrences_bound(list.drop_last(), x);
    }
}

/// The entries of a list of shapes with one more shape.
pub proof fn lemma_entries_push(conv: HandConverter, shapes: Seq<Shape>, s: Shape)
    ensures
        shapes_entries(conv, shapes.push(s)) == shapes_entries(conv, shapes).push(
            shape_entry(conv, s),
        ),
{
    assert(shapes_entries(conv, shapes.push(s)) =~= shapes_entries(conv, shapes).push(
        shape_entry(conv, s),
    ));
}

/// The entries of two lists of shapes, joined.
pub proof fn lemma_entries_join(conv: HandConverter, a: Seq<Shape>, b: Seq<Shape>)
    ensures
        shapes_entries(conv, a + b) == shapes_entries(conv, a) + shapes_entries(conv, b),
{
    assert(shapes_entries(conv, a + b) =~= shapes_entries(conv, a) + shapes_entries(conv, b));
}

/// The marks of four melds, before the pair.
fn meld_marks(melds: &Vec<usize>) -> (memo: [u8; 86])
    requires
        is_multichoice(melds@, 49, 4),
    ensures
        forall|d: int|
            0 <= d < 86 ==> #[trigger] memo[d] == if d < 48 {
                occurrences(melds@, d)
            } else if d == 51 && occurrences(melds@, 48) > 0 {
                1
            } else {
                0
            },
{
    let mut memo = [0u8; 86];
    assert(melds@.take(0) =~= Seq::empty());
    for k in 0..4usize
        invariant
            is_multichoice(melds@, 49, 4),
            forall|d: int|
                0 <= d < 86 ==> #[trigger] memo[d] == if d < 48 {
                    occurrences(melds@.take(k as int), d)
                } else if d == 51 && occurrences(melds@.take(k as int), 48) > 0 {
                    1
                } else {
                    0
                },
    {
        let i = melds[k];
        proof {
            assert(melds@.take(k + 1).drop_last() == melds@.take(k as int));
            assert(melds@.take(k + 1).last() == i);
            assert(melds@[k as int] < 49);
            lemma_occurrences_bound(melds@.take(k as int), i as int);
            lemma_occurrences_bound(melds@.take(k as int), 48);
        }
        if i < 21 + 27 {
            memo[i] += 1;
        } else {
            memo[51] = 1;
        }
    }
    assert(melds@.take(4) == melds@);
    memo
}

/// Whether a translation keeps every suit in place and mirrors none.
fn is_identity(trans: &[i8; 3]) -> (b: bool)
    ensures
        b <==> trans[0] == 0 && trans[1] == 1 && trans[2] == 2,
{
    trans[0] == 0 && trans[1] == 1 && trans[2] == 2
}

/// A translation keeps every suit in place and mirrors none where the
/// canonical form keeps the frame of the hand.
pub proof fn lemma_identity_frame(conv: HandConverter, h: HandView, trans: [i8; 3])
    requires
        forall|i: int|
            0 <= i < 3 ==> trans[conv.suit_rank(h, i)] == #[trigger] conv.suit_entry(h, i).1,
    ensures
        keeps_frame(conv, h) <==> trans[0] == 0 && trans[1] == 1 && trans[2] == 2,
{
    conv.lemma_frame(h);
    assert(conv.suit_entry(h, 0).1 == 0 || conv.suit_entry(h, 0).1 == -1);
    assert(conv.suit_entry(h, 1).1 == 1 || conv.suit_entry(h, 1).1 == -2);
    assert(conv.suit_entry(h, 2).1 == 2 || conv.suit_entry(h, 2).1 == -3);
    if trans[0] == 0 && trans[1] == 1 && trans[2] == 2 {
        assert forall|i: int| 0 <= i < 3 implies #[trigger] conv.suit_rank(h, i) == i
            && conv.suit_entry(h, i).1 == i by {
            let r = conv.suit_rank(h, i);
            assert(trans[r] == conv.suit_entry(h, i).1);
        }
    }
    if keeps_frame(conv, h) {
        assert(conv.suit_rank(h, 0) == 0 && conv.suit_entry(h, 0).1 == 0);
        assert(conv.suit_rank(h, 1) == 1 && conv.suit_entry(h, 1).1 == 1);
        assert(conv.suit_rank(h, 2) == 2 && conv.suit_entry(h, 2).1 == 2);
    }
}

/// Whether the tables number the hands that four melds make with the pairs
/// below `upto`.
pub open spec fn standard_seen_covered(conv: HandConverter, melds: Seq<usize>, upto: int) -> bool {
    forall|p: int|
        0 <= p < upto && #[trigger] shape_seen(Shape::Standard(melds, p)) ==> conv.covers14(
            shape_hand(Shape::Standard(melds, p)),
        )
}

/// Appends the entry of one shape of four melds and a pair, where it counts.
fn push_standard_entry(
    conv: &HandConverter,
    entries: &mut Vec<(u32, [u8; 86])>,
    full: &Hand,
    memo: &[u8; 86],
    slot: usize,
    Ghost(shape): Ghost<Shape>,
) -> (ok: bool)
    requires
        conv.wf(),
        shape_seen(shape),
        shape is Standard,
        full@ == shape_hand(shape),
        slot == if shape->Standard_1 < 27 {
            53 + shape->Standard_1
        } else {
            82
        },
        forall|d: int|
            0 <= d < 86 ==> #[trigger] memo[d] == if d == slot {
                0
            } else {
                shape_mark(shape, d)
            },
        shape_mark(shape, slot as int) == 1,
    ensures
        ok == conv.covers14(full@),
        ok ==> entries_view(final(entries)@) == if shape_counts(*conv, shape) {
            entries_view(old(entries)@).push(shape_entry(*conv, shape))
        } else {
            entries_view(old(entries)@)
        },
{
    match conv.try_encode_hand14(full) {
        Some((hi, trans)) => {
            proof {
                lemma_identity_frame(*conv, full@, trans);
                conv.lemma_decode_of_encode14(full@);
            }
            if is_identity(&trans) {
                let mut marks = *memo;
                marks[slot] = 1;
                let ghost before = entries@;
                entries.push((hi, marks));
                proof {
                    let e = shape_entry(*conv, shape);
                    assert(Seq::new(86, |d: int| marks[d] as int) =~= e.1);
                    assert(entries_view(entries@) =~= entries_view(before).push(e));
                }
            }
            true
        },
        None => false,
    }
}

/// Appends the entries of the shapes that four melds make with each pair.
fn push_standard(conv: &HandConverter, entries: &mut Vec<(u32, [u8; 86])>, melds: &Vec<usize>) -> (ok:
    bool)
    requires
        conv.wf(),
        is_multichoice(melds@, 49, 4),
    ensures
        ok == standard_seen_covered(*conv, melds@, 28),
        ok ==> entries_view(final(entries)@) == entries_view(old(entries)@) + shapes_entries(
            *conv,
            standard_shapes(*conv, melds@, 28),
        ),
{
    let hand = melds_to_hand(melds);
    let ghost mh = hand@;
    let ghost start = entries_view(entries@);
    proof {
        lemma_melds_hand(melds@);
        assert forall|p: int| 0 <= p < 28 implies (forall|s: int, n: int|
            0 <= s < 3 && 0 <= n < 9 ==> #[trigger] mh.supai[s][n] <= 4) || !(#[trigger] add_pair(
            mh,
            p,
        )).wf() by {
            lemma_standard_shape(melds@, p);
        }
    }
    if !within_four(&hand) {
        proof {
            lemma_no_standard_shapes(*conv, melds@, 28);
            assert(start + Seq::<(u32, Seq<int>)>::empty() =~= start);
        }
        return true;
    }
    let memo = meld_marks(melds);
    proof {
        assert(start + shapes_entries(*conv, standard_shapes(*conv, melds@, 0)) =~= start);
    }
    for k in 0..27usize
        invariant
            conv.wf(),
            is_multichoice(melds@, 49, 4),
            hand@ == melds_hand(melds@),
            mh == hand@,
            forall|s: int, n: int| 0 <= s < 3 && 0 <= n < 9 ==> #[trigger] mh.supai[s][n] <= 4,
            forall|d: int|
                0 <= d < 86 ==> #[trigger] memo[d] == if d < 48 {
                    occurrences(melds@, d)
                } else if d == 51 && occurrences(melds@, 48) > 0 {
                    1
                } else {
                    0
                },
            standard_seen_covered(*conv, melds@, k as int),
            entries_view(entries@) == start + shapes_entries(
                *conv,
                standard_shapes(*conv, melds@, k as nat),
            ),
    {
        let suit = k / 9;
        let num = k % 9;
        let cnt = hand.supai[suit][num];
        let ghost shape = Shape::Standard(melds@, k as int);
        proof {
            lemma_standard_shape(melds@, k as int);
            assert(mh.supai[suit as int][num as int] <= 4);
        }
        if cnt + 2 <= 4 {
            let mut full = hand;
            full.supai[suit][num] = cnt + 2;
            proof {
                assert(full@.supai =~= bump(mh, suit as int, num as int, 2).supai);
                assert(full@ == add_pair(mh, k as int));
                assert(full@.wf()) by {
                    assert forall|s: int, n: int| 0 <= s < 3 && 0 <= n < 9 implies #[trigger] mh.supai[s][n]
                        + if k < 27 && s == k / 9 && n == k % 9 {
                        2int
                    } else {
                        0int
                    } <= 4 by {}
                }
            }
            let ghost before = entries_view(entries@);
            if !push_standard_entry(conv, entries, &full, &memo, 53 + k, Ghost(shape)) {
                assert(shape_seen(shape) && !conv.covers14(shape_hand(shape)));
                return false;
            }
            proof {
                let prev = standard_shapes(*conv, melds@, k as nat);
                if shape_counts(*conv, shape) {
                    lemma_entries_push(*conv, prev, shape);
                    assert(entries_view(entries@) =~= start + shapes_entries(
                        *conv,
                        prev.push(shape),
                    ));
                }
            }
        } else {
            proof {
                assert(!add_pair(mh, k as int).wf()) by {
                    if add_pair(mh, k as int).wf() {
                        assert(mh.supai[suit as int][num as int] + if k < 27 && suit == k / 9 && num
                            == k % 9 {
                            2int
                        } else {
                            0int
                        } <= 4);
                    }
                }
            }
        }
    }
    let mut full = hand;
    let ghost shape = Shape::Standard(melds@, 27);
    proof {
        lemma_bump_honor(mh, 2);
        lemma_standard_shape(melds@, 27);
    }
    full.jihai[0] -= 1;
    full.jihai[2] += 1;
    proof {
        assert(full@.jihai =~= bump_honor(mh, 2).jihai);
        assert(full@.supai =~= mh.supai);
        assert(full@ == add_pair(mh, 27));
        assert(full@.wf()) by {
            assert forall|s: int, n: int| 0 <= s < 3 && 0 <= n < 9 implies #[trigger] mh.supai[s][n]
                + 0int <= 4 by {}
        }
    }
    if !push_standard_entry(conv, entries, &full, &memo, 82, Ghost(shape)) {
        assert(shape_seen(shape) && !conv.covers14(shape_hand(shape)));
        return false;
    }
    proof {
        let prev = standard_shapes(*conv, melds@, 27);
        if shape_counts(*conv, shape) {
            lemma_entries_push(*conv, prev, shape);
            assert(entries_view(entries@) =~= start + shapes_entries(*conv, prev.push(shape)));
        }
    }
    true
}

/// Melds that put more than four copies of a tile in a hand make no shape.
proof fn lemma_no_standard_shapes(conv: HandConverter, melds: Seq<usize>, upto: nat)
    requires
        forall|p: int| 0 <= p < 28 ==> !(#[trigger] add_pair(melds_hand(melds), p)).wf(),
        upto <= 28,
    ensures
        standard_shapes(conv, melds, upto) == Seq::<Shape>::empty(),
        standard_seen_covered(conv, melds, upto as int),
        shapes_entries(conv, standard_shapes(conv, melds, upto)) == Seq::<(u32, Seq<int>)>::empty(),
    decreases upto,
{
    if upto > 0 {
        lemma_no_standard_shapes(conv, melds, (upto - 1) as nat);
        assert(!add_pair(melds_hand(melds), upto - 1).wf());
    }
    assert forall|p: int|
        0 <= p < upto && #[trigger] shape_seen(Shape::Standard(melds, p)) implies conv.covers14(
        shape_hand(Shape::Standard(melds, p)),
    ) by {
        assert(!add_pair(melds_hand(melds), p).wf());
    }
    assert(shapes_entries(conv, Seq::<Shape>::empty()) =~= Seq::<(u32, Seq<int>)>::empty());
}

/// Whether the honors among seven tile kinds are the first honors.
fn check_honors_first(kinds: &Vec<usize>) -> (b: bool)
    requires
        kinds@.len() == 7,
    ensures
        b == honors_first(kinds@),
{
    for i in 0..7usize
        invariant
            kinds@.len() == 7,
            forall|k: int|
                0 <= k < i && #[trigger] kinds@[k] >= 27 ==> kinds@[k] == 27 || (k > 0 && kinds@[k
                    - 1] + 1 == kinds@[k]),
    {
        let v = kinds[i];
        if v >= 27 && v != 27 {
            if i == 0 {
                assert(!(kinds@[0] == 27 || (0 > 0 && kinds@[-1] + 1 == kinds@[0])));
                return false;
            }
            let u = kinds[i - 1];
            if u >= v || u + 1 != v {
                assert(kinds@[i as int] >= 27 && !(kinds@[i as int] == 27 || (i > 0 && kinds@[i
                    - 1] + 1 == kinds@[i as int])));
                return false;
            }
        }
    }
    true
}

/// The marks of seven pairs.
fn pair_marks(kinds: &Vec<usize>) -> (memo: [u8; 86])
    requires
        is_choice(kinds@, 34, 7),
    ensures
        forall|d: int| 0 <= d < 86 ==> #[trigger] memo[d] == shape_mark(Shape::Pairs(kinds@), d),
{
    let mut memo = [0u8; 86];
    assert(kinds@.take(0) =~= Seq::empty());
    for k in 0..7usize
        invariant
            is_choice(kinds@, 34, 7),
            forall|d: int|
                0 <= d < 86 ==> #[trigger] memo[d] == if 53 <= d < 80 {
                    occurrences(kinds@.take(k as int), d - 53)
                } else if d == 82 && k > 0 && kinds@[k - 1] >= 27 {
                    1
                } else {
                    0
                },
    {
        let v = kinds[k];
        proof {
            assert(kinds@.take(k + 1).drop_last() == kinds@.take(k as int));
            assert(kinds@.take(k + 1).last() == v);
            assert(kinds@[k as int] < 34);
            if k > 0 {
                assert(kinds@[k - 1] < kinds@[k as int]);
            }
            lemma_occurrences_bound(kinds@.take(k as int), v as int);
        }
        if v < 27 {
            memo[53 + v] += 1;
        } else {
            memo[82] = 1;
        }
    }
    assert(kinds@.take(7) == kinds@);
    memo
}

/// Appends the entry of the shape of seven pairs, where it counts.
fn push_pairs(conv: &HandConverter, entries: &mut Vec<(u32, [u8; 86])>, kinds: &Vec<usize>) -> (ok:
    bool)
    requires
        conv.wf(),
        is_choice(kinds@, 34, 7),
    ensures
        ok == (shape_seen(Shape::Pairs(kinds@)) ==> conv.covers14(pairs_hand(kinds@))),
        ok ==> entries_view(final(entries)@) == if shape_counts(*conv, Shape::Pairs(kinds@)) {
            entries_view(old(entries)@).push(shape_entry(*conv, Shape::Pairs(kinds@)))
        } else {
            entries_view(old(entries)@)
        },
{
    if !check_honors_first(kinds) {
        return true;
    }
    let hand = pairs_to_hand(kinds);
    match conv.try_encode_hand14(&hand) {
        Some((hi, trans)) => {
            proof {
                lemma_identity_frame(*conv, hand@, trans);
                conv.lemma_decode_of_encode14(hand@);
            }
            if is_identity(&trans) {
                let marks = pair_marks(kinds);
                let ghost before = entries@;
                entries.push((hi, marks));
                proof {
                    let e = shape_entry(*conv, Shape::Pairs(kinds@));
                    assert(Seq::new(86, |d: int| marks[d] as int) =~= e.1);
                    assert(entries_view(entries@) =~= entries_view(before).push(e));
                }
            }
            true
        },
        None => false,
    }
}

/// Appends the entry of one of the two shapes of thirteen orphans.
fn push_orphans(conv: &HandConverter, entries: &mut Vec<(u32, [u8; 86])>, honor: bool) -> (ok: bool)
    requires
        conv.wf(),
    ensures
        ok == conv.covers14(orphans_hand(honor)),
        ok ==> entries_view(final(entries)@) == entries_view(old(entries)@).push(
            shape_entry(*conv, Shape::Orphans(honor)),
        ),
{
    let hand = orphans(honor);
    match conv.try_encode_hand14_fast(&hand) {
        Some(hi) => {
            proof {
                conv.lemma_decode_of_encode14(hand@);
            }
            let mut marks = [0u8; 86];
            marks[85] = 1;
            let ghost before = entries@;
            entries.push((hi, marks));
            proof {
                let e = shape_entry(*conv, Shape::Orphans(honor));
                assert(Seq::new(86, |d: int| marks[d] as int) =~= e.1);
                assert(entries_view(entries@) =~= entries_view(before).push(e));
            }
            true
        },
        None => false,
    }
}

/// The entries of all shapes that count, one per shape: the number of the
/// hand of the shape, and what the shape marks in each dimension. `None`
/// comes back where the tables do not number the hand of a shape.
pub fn agari_entries(conv: &HandConverter) -> (r: Option<Vec<(u32, [u8; 86])>>)
    requires
        conv.wf(),
    ensures
        r is Some <==> shapes_covered(*conv),
        r is Some ==> exists|shapes: Seq<Shape>|
            lists_shapes(*conv, shapes) && entries_view(r.unwrap()@) == #[trigger] shapes_entries(
                *conv,
                shapes,
            ),
{
    let mut entries: Vec<(u32, [u8; 86])> = Vec::new();

    // four melds and a pair
    let mut it = multichoices(49, 4);
    let ghost all = multichoices_left(it);
    let ghost mut done: nat = 0;
    proof {
        assert(entries_view(entries@) =~= shapes_entries(*conv, standard_all(*conv, all, 0)));
    }
    loop
        invariant
            conv.wf(),
            0 <= done <= all.len(),
            multichoices_left(it) == all.skip(done as int),
            all.no_duplicates(),
            forall|t: Seq<usize>| #[trigger] all.contains(t) <==> is_multichoice(t, 49, 4),
            forall|j: int| 0 <= j < done ==> standard_seen_covered(*conv, #[trigger] all[j], 28),
            entries_view(entries@) == shapes_entries(*conv, standard_all(*conv, all, done)),
        ensures
            done == all.len(),
        decreases all.len() - done,
    {
        match next_multichoice(&mut it) {
            Some(melds) => {
                proof {
                    assert(all.skip(done as int)[0] == all[done as int]);
                    assert(all.contains(all[done as int]));
                    assert(all.skip(done as int).skip(1) == all.skip(done as int + 1));
                }
                if !push_standard(conv, &mut entries, &melds) {
                    proof {
                        let p = choose|p: int|
                            0 <= p < 28 && #[trigger] shape_seen(Shape::Standard(melds@, p))
                                && !conv.covers14(shape_hand(Shape::Standard(melds@, p)));
                        assert(shape_seen(Shape::Standard(melds@, p)));
                    }
                    return None;
                }
                proof {
                    lemma_entries_join(
                        *conv,
                        standard_all(*conv, all, done),
                        standard_shapes(*conv, melds@, 28),
                    );
                    done = done + 1;
                }
            },
            None => {
                break ;
            },
        }
    }

    // seven pairs
    let mut pit = choices(34, 7);
    let ghost pall = choices_left(pit);
    let ghost mut pdone: nat = 0;
    let ghost first = standard_all(*conv, all, all.len());
    proof {
        assert(first + pairs_all(*conv, pall, 0) =~= first);
    }
    loop
        invariant
            conv.wf(),
            done == all.len(),
            first == standard_all(*conv, all, all.len()),
            0 <= pdone <= pall.len(),
            choices_left(pit) == pall.skip(pdone as int),
            all.no_duplicates(),
            pall.no_duplicates(),
            forall|t: Seq<usize>| #[trigger] all.contains(t) <==> is_multichoice(t, 49, 4),
            forall|t: Seq<usize>| #[trigger] pall.contains(t) <==> is_choice(t, 34, 7),
            forall|j: int| 0 <= j < done ==> standard_seen_covered(*conv, #[trigger] all[j], 28),
            forall|j: int|
                0 <= j < pdone && shape_seen(Shape::Pairs(#[trigger] pall[j])) ==> conv.covers14(
                    pairs_hand(pall[j]),
                ),
            entries_view(entries@) == shapes_entries(
                *conv,
                first + pairs_all(*conv, pall, pdone),
            ),
        ensures
            pdone == pall.len(),
        decreases pall.len() - pdone,
    {
        match next_choice(&mut pit) {
            Some(kinds) => {
                proof {
                    assert(pall.skip(pdone as int)[0] == pall[pdone as int]);
                    assert(pall.contains(pall[pdone as int]));
                    assert(pall.skip(pdone as int).skip(1) == pall.skip(pdone as int + 1));
                }
                if !push_pairs(conv, &mut entries, &kinds) {
                    assert(shape_seen(Shape::Pairs(kinds@)) && !conv.covers14(
                        shape_hand(Shape::Pairs(kinds@)),
                    ));
                    return None;
                }
                proof {
                    let prev = pairs_all(*conv, pall, pdone);
                    let shape = Shape::Pairs(kinds@);
                    if shape_counts(*conv, shape) {
                        lemma_entries_push(*conv, first + prev, shape);
                        assert((first + prev).push(shape) =~= first + prev.push(shape));
                    }
                    pdone = pdone + 1;
                }
            },
            None => {
                break ;
            },
        }
    }

    // thirteen orphans
    let ghost second = pairs_all(*conv, pall, pall.len());
    if !push_orphans(conv, &mut entries, false) {
        assert(shape_seen(Shape::Orphans(false)) && !conv.covers14(
            shape_hand(Shape::Orphans(false)),
        ));
        return None;
    }
    if !push_orphans(conv, &mut entries, true) {
        assert(shape_seen(Shape::Orphans(true)) && !conv.covers14(
            shape_hand(Shape::Orphans(true)),
        ));
        return None;
    }
    proof {
        let shapes = all_shapes(*conv, all, pall);
        lemma_all_shapes(*conv, all, pall);
        lemma_entries_push(*conv, first + second, Shape::Orphans(false));
        lemma_entries_push(
            *conv,
            (first + second).push(Shape::Orphans(false)),
            Shape::Orphans(true),
        );
        assert((first + second).push(Shape::Orphans(false)).push(Shape::Orphans(true)) =~= shapes);
        assert(entries_view(entries@) == shapes_entries(*conv, shapes));
        assert forall|s: Shape| shape_seen(s) implies #[trigger] conv.covers14(shape_hand(s)) by {
            match s {
                Shape::Standard(melds, p) => {
                    assert(all.contains(melds));
                    let j = choose|j: int| 0 <= j < all.len() && all[j] == melds;
                    assert(standard_seen_covered(*conv, all[j], 28));
                    assert(shape_seen(Shape::Standard(all[j], p)));
                },
                Shape::Pairs(kinds) => {
                    assert(pall.contains(kinds));
                    let j = choose|j: int| 0 <= j < pall.len() && pall[j] == kinds;
                    assert(shape_seen(Shape::Pairs(pall[j])));
                },
                Shape::Orphans(honor) => {},
            }
        }
    }
    Some(entries)
}

/// Number of entries of a list that belong to a hand.
pub open spec fn entry_count(entries: Seq<(u32, Seq<int>)>, id: int) -> int
    decreases entries.len(),
{
    if entries.len() == 0 {
        0
    } else {
        entry_count(entries.drop_last(), id) + if entries.last().0 == id {
            1int
        } else {
            0int
        }
    }
}

/// The marks in one dimension of the entries of a list that belong to a hand.
pub open spec fn entry_sum(entries: Seq<(u32, Seq<int>)>, id: int, d: int) -> int
    decreases entries.len(),
{
    if entries.len() == 0 {
        0
    } else {
        entry_sum(entries.drop_last(), id, d) + if entries.last().0 == id {
            entries.last().1[d]
        } else {
            0
        }
    }
}

/// The seed of a dimension for a hand with `count` shapes that mark the
/// dimension `sum` times in all: the share `sum / count` in fixed point with
/// 30 fractional bits, rounded down, and cut off at the largest value.
pub open spec fn seed_value(count: int, sum: int) -> int {
    let q = sum * 0x4000_0000 / count;
    if q > u32::MAX {
        u32::MAX as int
    } else {
        q
    }
}

/// Whether a list of seeds tallies a list of entries: it holds one record
/// for each hand that has an entry, with the seed of every dimension.
pub open spec fn is_tally(entries: Seq<(u32, Seq<int>)>, seeds: Seq<(u32, Metrics)>) -> bool {
    &&& forall|a: int, b: int| 0 <= a < b < seeds.len() ==> seeds[a].0 != seeds[b].0
    &&& forall|a: int|
        0 <= a < seeds.len() ==> {
            &&& entry_count(entries, (#[trigger] seeds[a]).0 as int) > 0
            &&& forall|d: int|
                0 <= d < 86 ==> #[trigger] seeds[a].1.values[d] == seed_value(
                    entry_count(entries, seeds[a].0 as int),
                    entry_sum(entries, seeds[a].0 as int, d),
                )
        }
    &&& forall|id: u32|
        (#[trigger] entry_count(entries, id as int)) > 0 ==> exists|a: int|
            0 <= a < seeds.len() && seeds[a].0 == id
}

/// Entries are counted and summed within what their number allows.
pub proof fn lemma_entry_bounds(entries: Seq<(u32, [u8; 86])>, id: int, d: int)
    requires
        0 <= d < 86,
    ensures
        0 <= entry_count(entries_view(entries), id) <= entries.len(),
        0 <= entry_sum(entries_view(entries), id, d) <= 255 * entries.len(),
    decreases entries.len(),
{
    let ev = entries_view(entries);
    if entries.len() > 0 {
        assert(ev.drop_last() =~= entries_view(entries.drop_last()));
        lemma_entry_bounds(entries.drop_last(), id, d);
        assert(ev.last().1[d] == entries.last().1[d]);
    }
}

/// The seeds of a list of entries: for each hand that has an entry, in the
/// order of first appearance, the share of its entries that mark each
/// dimension, counted by marks.
pub fn tally_entries(entries: &Vec<(u32, [u8; 86])>) -> (seeds: Vec<(u32, Metrics)>)
    ensures
        is_tally(entries_view(entries@), seeds@),
{
    broadcast use vstd::std_specs::hash::group_hash_axioms;

    let ghost ev = entries_view(entries@);
    let mut index: HashMap<u32, usize> = HashMap::new();
    let mut ids: Vec<u32> = Vec::new();
    let mut counts: Vec<u64> = Vec::new();
    let mut sums: Vec<[u128; 86]> = Vec::new();
    assert(ev.take(0) =~= Seq::empty());
    let mut k: usize = 0;
    while k < entries.len()
        invariant
            k <= entries@.len(),
            ev == entries_view(entries@),
            ids@.len() == counts@.len() == sums@.len(),
            forall|j: int|
                0 <= j < ids@.len() ==> index@.contains_key(#[trigger] ids@[j]) && index@[ids@[j]]
                    == j,
            forall|id: u32|
                #[trigger] index@.contains_key(id) ==> 0 <= index@[id] < ids@.len()
                    && ids@[index@[id] as int] == id,
            forall|j: int|
                0 <= j < ids@.len() ==> 1 <= #[trigger] counts@[j] == entry_count(
                    ev.take(k as int),
                    ids@[j] as int,
                ),
            forall|j: int, d: int|
                0 <= j < ids@.len() && 0 <= d < 86 ==> #[trigger] sums@[j][d] == entry_sum(
                    ev.take(k as int),
                    ids@[j] as int,
                    d,
                ),
            forall|x: int|
                (#[trigger] entry_count(ev.take(k as int), x)) > 0 ==> 0 <= x <= u32::MAX
                    && index@.contains_key(x as u32),
        decreases entries@.len() - k,
    {
        let id = entries[k].0;
        let marks = entries[k].1;
        let ghost pre = ev.take(k as int);
        let ghost cur = ev.take(k + 1);
        let ghost old_index = index@;
        let ghost old_ids = ids@;
        let ghost old_counts = counts@;
        let ghost old_sums = sums@;
        proof {
            assert(forall|x: int|
                (#[trigger] entry_count(pre, x)) > 0 ==> 0 <= x <= u32::MAX
                    && old_index.contains_key(x as u32));
            assert(cur.drop_last() == pre);
            assert(cur.last() == ev[k as int]);
            assert(ev[k as int].0 == id);
            assert forall|d: int| 0 <= d < 86 implies ev[k as int].1[d] == #[trigger] marks[d] by {}
            assert(cur =~= entries_view(entries@.take(k + 1)));
            assert(pre =~= entries_view(entries@.take(k as int)));
            assert forall|x: int, d: int| 0 <= d < 86 implies #[trigger] entry_sum(cur, x, d)
                <= 255 * (k + 1) by {
                lemma_entry_bounds(entries@.take(k + 1), x, d);
            }
            assert forall|x: int| #[trigger] entry_count(pre, x) <= k by {
                lemma_entry_bounds(entries@.take(k as int), x, 0);
            }
        }
        let found = match index.get(&id) {
            Some(j) => Some(*j),
            None => None,
        };
        match found {
            Some(j) => {
                assert(ids@[j as int] == id);
                assert(old_counts[j as int] == entry_count(pre, id as int));
                counts.set(j, counts[j] + 1);
                let mut row = sums[j];
                proof {
                    assert forall|e: int| 0 <= e < 86 implies #[trigger] old_sums[j as int][e]
                        + marks[e] <= 255 * (k + 1) by {
                        assert(old_sums[j as int][e] == entry_sum(pre, id as int, e));
                        assert(entry_sum(cur, id as int, e) == old_sums[j as int][e] + marks[e]);
                    }
                }
                for d in 0..86usize
                    invariant
                        0 <= j < old_sums.len(),
                        forall|e: int|
                            0 <= e < d ==> #[trigger] row[e] == old_sums[j as int][e] + marks[e],
                        forall|e: int| d <= e < 86 ==> #[trigger] row[e] == old_sums[j as int][e],
                        forall|e: int|
                            0 <= e < 86 ==> #[trigger] old_sums[j as int][e] + marks[e] <= 255 * (k
                                + 1),
                {
                    row[d] = row[d] + marks[d] as u128;
                }
                sums.set(j, row);
                proof {
                    assert forall|i: int| 0 <= i < ids@.len() implies 1 <= #[trigger] counts@[i]
                        == entry_count(cur, ids@[i] as int) by {
                        assert(old_counts[i] == entry_count(pre, ids@[i] as int));
                        if i != j {
                            assert(index@[ids@[i]] == i);
                            assert(ids@[i] != id);
                        }
                    }
                    assert forall|i: int, d: int|
                        0 <= i < ids@.len() && 0 <= d < 86 implies #[trigger] sums@[i][d]
                        == entry_sum(cur, ids@[i] as int, d) by {
                        assert(old_sums[i][d] == entry_sum(pre, ids@[i] as int, d));
                        if i != j {
                            assert(index@[ids@[i]] == i);
                            assert(ids@[i] != id);
                        }
                    }
                    assert(index@ == old_index);
                    assert(old_index.contains_key(id));
                    assert forall|x: int| (#[trigger] entry_count(cur, x)) > 0 implies 0 <= x
                        <= u32::MAX && index@.contains_key(x as u32) by {
                        if x != id {
                            assert(entry_count(cur, x) == entry_count(pre, x));
                            assert(entry_count(pre, x) > 0);
                            assert(old_index.contains_key(x as u32));
                        } else {
                            assert(x as u32 == id);
                        }
                    }
                }
            },
            None => {
                let n = ids.len();
                index.insert(id, n);
                ids.push(id);
                counts.push(1);
                let mut row = [0u128; 86];
                for d in 0..86usize
                    invariant
                        forall|e: int| 0 <= e < d ==> #[trigger] row[e] == marks[e],
                {
                    row[d] = marks[d] as u128;
                }
                sums.push(row);
                proof {
                    assert(!old_index.contains_key(id));
                    lemma_count_nonneg(pre, id as int);
                    assert(entry_count(pre, id as int) == 0);
                    assert forall|i: int| 0 <= i < ids@.len() implies index@.contains_key(
                        #[trigger] ids@[i],
                    ) && index@[ids@[i]] == i by {
                        if i < n {
                            assert(ids@[i] == old_ids[i]);
                            assert(old_index.contains_key(old_ids[i]));
                        }
                    }
                    assert forall|x: u32| #[trigger] index@.contains_key(x) implies 0 <= index@[x]
                        < ids@.len() && ids@[index@[x] as int] == x by {
                        if x != id {
                            assert(old_index.contains_key(x));
                            assert(ids@[old_index[x] as int] == old_ids[old_index[x] as int]);
                        }
                    }
                    assert forall|i: int| 0 <= i < ids@.len() implies 1 <= #[trigger] counts@[i]
                        == entry_count(cur, ids@[i] as int) by {
                        if i < n {
                            assert(ids@[i] == old_ids[i]);
                            assert(old_index.contains_key(old_ids[i]));
                            assert(old_counts[i] == entry_count(pre, ids@[i] as int));
                        }
                    }
                    assert forall|i: int, d: int|
                        0 <= i < ids@.len() && 0 <= d < 86 implies #[trigger] sums@[i][d]
                        == entry_sum(cur, ids@[i] as int, d) by {
                        if i < n {
                            assert(ids@[i] == old_ids[i]);
                            assert(old_index.contains_key(old_ids[i]));
                            assert(old_sums[i][d] == entry_sum(pre, ids@[i] as int, d));
                        } else {
                            lemma_no_entry_no_sum(pre, id as int, d);
                        }
                    }
                    assert forall|x: int| (#[trigger] entry_count(cur, x)) > 0 implies 0 <= x
                        <= u32::MAX && index@.contains_key(x as u32) by {
                        if x != id {
                            assert(entry_count(pre, x) > 0);
                        }
                    }
                }
            },
        }
        k += 1;
    }
    assert(ev.take(entries@.len() as int) == ev);
    let mut seeds: Vec<(u32, Metrics)> = Vec::new();
    for j in 0..ids.len()
        invariant
            ev == entries_view(entries@),
            ids@.len() == counts@.len() == sums@.len(),
            seeds@.len() == j,
            entries@.len() <= usize::MAX,
            forall|i: int|
                0 <= i < ids@.len() ==> index@.contains_key(#[trigger] ids@[i]) && index@[ids@[i]]
                    == i,
            forall|id: u32|
                #[trigger] index@.contains_key(id) ==> 0 <= index@[id] < ids@.len()
                    && ids@[index@[id] as int] == id,
            forall|x: int|
                (#[trigger] entry_count(ev, x)) > 0 ==> 0 <= x <= u32::MAX && index@.contains_key(
                    x as u32,
                ),
            forall|a: int| 0 <= a < j ==> (#[trigger] seeds@[a]).0 == ids@[a],
            forall|j: int|
                0 <= j < ids@.len() ==> 1 <= #[trigger] counts@[j] == entry_count(
                    ev,
                    ids@[j] as int,
                ),
            forall|j: int, d: int|
                0 <= j < ids@.len() && 0 <= d < 86 ==> #[trigger] sums@[j][d] == entry_sum(
                    ev,
                    ids@[j] as int,
                    d,
                ),
            forall|a: int, d: int|
                0 <= a < j && 0 <= d < 86 ==> #[trigger] seeds@[a].1.values[d] == seed_value(
                    entry_count(ev, ids@[a] as int),
                    entry_sum(ev, ids@[a] as int, d),
                ),
    {
        let cnt = counts[j] as u128;
        let row = sums[j];
        let mut values = [0u32; 86];
        for d in 0..86usize
            invariant
                ev == entries_view(entries@),
                entries@.len() <= usize::MAX,
                0 <= j < ids@.len(),
                1 <= cnt == entry_count(ev, ids@[j as int] as int),
                forall|e: int|
                    0 <= e < 86 ==> #[trigger] row[e] == entry_sum(ev, ids@[j as int] as int, e),
                forall|e: int|
                    0 <= e < d ==> #[trigger] values[e] == seed_value(
                        cnt as int,
                        entry_sum(ev, ids@[j as int] as int, e),
                    ),
        {
            let v = row[d];
            proof {
                lemma_entry_bounds(entries@, ids@[j as int] as int, d as int);
                assert(usize::MAX <= 0xffff_ffff_ffff_ffff);
                assert(v <= 255 * 0xffff_ffff_ffff_ffff);
                assert(v << 30 == v * 0x4000_0000) by (bit_vector)
                    requires
                        v <= 255 * 0xffff_ffff_ffff_ffffu128,
                ;
            }
            let q = (v << 30) / cnt;
            values[d] = if q > 0xffff_ffff {
                0xffff_ffff
            } else {
                q as u32
            };
        }
        seeds.push((ids[j], Metrics { values }));
    }
    proof {
        assert forall|a: int, b: int| 0 <= a < b < seeds@.len() implies seeds@[a].0
            != seeds@[b].0 by {
            assert(index@[ids@[a]] == a && index@[ids@[b]] == b);
        }
        assert forall|id: u32| (#[trigger] entry_count(ev, id as int)) > 0 implies exists|a: int|
            0 <= a < seeds@.len() && seeds@[a].0 == id by {
            assert(index@.contains_key(id));
            let a = index@[id] as int;
            assert(ids@[a] == id);
            assert(seeds@[a].0 == id);
        }
        assert forall|a: int| 0 <= a < seeds@.len() implies {
            &&& entry_count(ev, (#[trigger] seeds@[a]).0 as int) > 0
            &&& forall|d: int|
                0 <= d < 86 ==> #[trigger] seeds@[a].1.values[d] == seed_value(
                    entry_count(ev, seeds@[a].0 as int),
                    entry_sum(ev, seeds@[a].0 as int, d),
                )
        } by {
            assert(seeds@[a].0 == ids@[a]);
            assert(1 <= counts@[a] == entry_count(ev, ids@[a] as int));
        }
    }
    seeds
}

/// A hand without an entry has no marks.
pub proof fn lemma_no_entry_no_sum(entries: Seq<(u32, Seq<int>)>, id: int, d: int)
    requires
        entry_count(entries, id) == 0,
    ensures
        entry_sum(entries, id, d) == 0,
    decreases entries.len(),
{
    if entries.len() > 0 {
        lemma_count_nonneg(entries.drop_last(), id);
        lemma_no_entry_no_sum(entries.drop_last(), id, d);
    }
}

/// No hand has a negative number of entries.
pub proof fn lemma_count_nonneg(entries: Seq<(u32, Seq<int>)>, id: int)
    ensures
        entry_count(entries, id) >= 0,
    decreases entries.len(),
{
    if entries.len() > 0 {
        lemma_count_nonneg(entries.drop_last(), id);
    }
}

/// The seeds of the metrics tables: for every winning hand, the share of its
/// shapes that hold each dimension.
///
/// Every winning shape is looked at: four melds and a pair, seven pairs, and
/// thirteen orphans. A shape counts for the hand that it makes where the
/// canonical form of the hand keeps its frame, so that the dimensions of the
/// shape are those of the canonical form. `None` comes back where the tables
/// do not number the hand of a shape.
pub fn construct_agari_metrics(conv: &HandConverter) -> (r: Option<Vec<(u32, Metrics)>>)
    requires
        conv.wf(),
    ensures
        r is Some <==> shapes_covered(*conv),
        r is Some ==> exists|shapes: Seq<Shape>|
            lists_shapes(*conv, shapes) && is_tally(
                #[trigger] shapes_entries(*conv, shapes),
                r.unwrap()@,
            ),
{
    match agari_entries(conv) {
        Some(entries) => Some(tally_entries(&entries)),
        None => None,
    }
}

/// The tiles that the first `n` dimensions of the marks of a shape stand
/// for in the hand of the shape.
pub open spec fn shape_mass(s: Shape, n: nat) -> int
    decreases n,
{
    if n == 0 {
        0
    } else {
        shape_mass(s, (n - 1) as nat) + shape_mark(s, n - 1) * dimension_weight(
            n - 1,
            shape_hand(s).jihai,
        )
    }
}

/// Number of entries of a list below a bound.
pub open spec fn below(list: Seq<usize>, n: int) -> int
    decreases list.len(),
{
    if list.len() == 0 {
        0
    } else {
        below(list.drop_last(), n) + if list.last() < n {
            1int
        } else {
            0int
        }
    }
}

/// The occurrences of the values below a bound, added up.
pub open spec fn occurrences_below(list: Seq<usize>, n: nat) -> int
    decreases n,
{
    if n == 0 {
        0
    } else {
        occurrences_below(list, (n - 1) as nat) + occurrences(list, n - 1)
    }
}

/// One more value below the bound is as many more entries as the value occurs.
proof fn lemma_below_step(list: Seq<usize>, n: int)
    requires
        0 <= n,
    ensures
        below(list, n + 1) == below(list, n) + occurrences(list, n),
        0 <= below(list, n) <= list.len(),
    decreases list.len(),
{
    if list.len() > 0 {
        lemma_below_step(list.drop_last(), n);
    }
}

/// The occurrences of the values below a bound add up to the number of
/// entries below the bound.
proof fn lemma_occurrences_below(list: Seq<usize>, n: nat)
    ensures
        occurrences_below(list, n) == below(list, n as int),
    decreases n,
{
    if n > 0 {
        lemma_occurrences_below(list, (n - 1) as nat);
        lemma_below_step(list, n - 1);
    } else {
        lemma_below_zero(list);
    }
}

/// No entry is below zero.
proof fn lemma_below_zero(list: Seq<usize>)
    ensures
        below(list, 0) == 0,
    decreases list.len(),
{
    if list.len() > 0 {
        lemma_below_zero(list.drop_last());
    }
}

/// All entries of a list are below a bound that exceeds them all.
proof fn lemma_below_all(list: Seq<usize>, n: int)
    requires
        forall|i: int| 0 <= i < list.len() ==> #[trigger] list[i] < n,
    ensures
        below(list, n) == list.len(),
    decreases list.len(),
{
    if list.len() > 0 {
        let rest = list.drop_last();
        assert forall|i: int| 0 <= i < rest.len() implies #[trigger] rest[i] < n by {
            assert(rest[i] == list[i]);
        }
        lemma_below_all(rest, n);
        assert(list.last() == list[list.len() - 1]);
    }
}

/// The honor triplets among melds are the honor kinds that their hand holds
/// three times.
proof fn lemma_melds_honors(melds: Seq<usize>)
    requires
        melds.len() <= 4,
        forall|i: int| 0 <= i < melds.len() ==> #[trigger] melds[i] < 49,
    ensures
        melds_hand(melds).jihai[3] == occurrences(melds, 48),
        melds_hand(melds).jihai[2] == 0,
    decreases melds.len(),
{
    lemma_melds_hand(melds);
    if melds.len() > 0 {
        let rest = melds.drop_last();
        lemma_melds_honors(rest);
        lemma_melds_hand(rest);
        let prev = melds_hand(rest);
        let m = melds.last() as int;
        assert(melds[melds.len() - 1] < 49);
        if m < 21 {
            crate::agari::lemma_bump(prev, m / 7, m % 7, 1);
            let a = bump(prev, m / 7, m % 7, 1);
            crate::agari::lemma_bump(a, m / 7, m % 7 + 1, 1);
            let b = bump(a, m / 7, m % 7 + 1, 1);
            crate::agari::lemma_bump(b, m / 7, m % 7 + 2, 1);
        } else if m < 48 {
            crate::agari::lemma_bump(prev, (m - 21) / 9, (m - 21) % 9, 3);
        } else {
            lemma_bump_honor(prev, 3);
        }
    }
}

/// The honors among pairs of different kinds are the honor kinds that their
/// hand holds twice.
proof fn lemma_pairs_honors(kinds: Seq<usize>)
    requires
        is_choice(kinds, 34, kinds.len() as int),
    ensures
        pairs_hand(kinds).jihai[2] == kinds.len() - below(kinds, 27),
    decreases kinds.len(),
{
    lemma_pairs_hand(kinds);
    if kinds.len() > 0 {
        let rest = kinds.drop_last();
        assert(is_choice(rest, 34, rest.len() as int)) by {
            assert forall|i: int| 0 <= i < rest.len() implies #[trigger] rest[i] < 34 by {
                assert(kinds[i] < 34);
            }
        }
        lemma_pairs_honors(rest);
        lemma_pairs_hand(rest);
        let prev = pairs_hand(rest);
        let v = kinds.last() as int;
        assert(kinds[kinds.len() - 1] < 34);
        if v < 27 {
            if prev.supai[v / 9][v % 9] == 2 {
                assert(9 * (v / 9) + v % 9 <= rest.last());
                assert(rest.last() == kinds[kinds.len() - 2]);
                assert(kinds[kinds.len() - 2] < kinds[kinds.len() - 1]);
            }
            crate::agari::lemma_bump(prev, v / 9, v % 9, 2);
        } else {
            lemma_bump_honor(prev, 2);
        }
    }
}

/// The dimensions below 48 of the marks of a shape of four melds and a pair
/// stand for three tiles per run or suited triplet.
proof fn lemma_mass_melds(s: Shape, n: nat)
    requires
        s is Standard,
        n <= 48,
    ensures
        shape_mass(s, n) == 3 * occurrences_below(s->Standard_0, n),
    decreases n,
{
    if n > 0 {
        lemma_mass_melds(s, (n - 1) as nat);
    }
}

/// The dimensions below 53 of the marks of other shapes stand for no tile.
proof fn lemma_mass_none(s: Shape, n: nat)
    requires
        !(s is Standard),
        n <= 53,
    ensures
        shape_mass(s, n) == 0,
    decreases n,
{
    if n > 0 {
        lemma_mass_none(s, (n - 1) as nat);
    }
}

/// The dimensions of the suited pairs up to `n` of the marks of a shape of
/// four melds and a pair stand for the two tiles of the pair, if it is among
/// them.
proof fn lemma_mass_pair(s: Shape, n: nat)
    requires
        s is Standard,
        53 <= n <= 80,
        0 <= s->Standard_1 < 28,
    ensures
        shape_mass(s, n) == shape_mass(s, 53) + if s->Standard_1 < n - 53 {
            2int
        } else {
            0int
        },
    decreases n,
{
    if n > 53 {
        lemma_mass_pair(s, (n - 1) as nat);
    }
}

/// The dimensions of the suited pairs up to `n` of the marks of seven pairs
/// stand for two tiles per suited pair among them.
proof fn lemma_mass_pairs(s: Shape, n: nat)
    requires
        s is Pairs,
        53 <= n <= 80,
    ensures
        shape_mass(s, n) == 2 * occurrences_below(s->Pairs_0, (n - 53) as nat),
    decreases n,
{
    if n > 53 {
        lemma_mass_pairs(s, (n - 1) as nat);
    } else {
        lemma_mass_none(s, 53);
    }
}

/// What the marks of a shape say of the honor buckets and of the last dimension.
proof fn lemma_mass_tail(s: Shape)
    ensures
        shape_mass(s, 53) == shape_mass(s, 48) + shape_mark(s, 51) * dimension_weight(
            51,
            shape_hand(s).jihai,
        ),
        shape_mass(s, 86) == shape_mass(s, 80) + shape_mark(s, 82) * dimension_weight(
            82,
            shape_hand(s).jihai,
        ) + shape_mark(s, 85) * 14,
{
    assert(shape_mass(s, 49) == shape_mass(s, 48));
    assert(shape_mass(s, 50) == shape_mass(s, 49));
    assert(shape_mass(s, 51) == shape_mass(s, 50));
    assert(shape_mass(s, 52) == shape_mass(s, 51) + shape_mark(s, 51) * dimension_weight(
        51,
        shape_hand(s).jihai,
    ));
    assert(shape_mass(s, 53) == shape_mass(s, 52));
    assert(shape_mass(s, 81) == shape_mass(s, 80));
    assert(shape_mass(s, 82) == shape_mass(s, 81));
    assert(shape_mass(s, 83) == shape_mass(s, 82) + shape_mark(s, 82) * dimension_weight(
        82,
        shape_hand(s).jihai,
    ));
    assert(shape_mass(s, 84) == shape_mass(s, 83));
    assert(shape_mass(s, 85) == shape_mass(s, 84));
}

/// Fourteen tiles, all accounted for: the marks of a winning shape, each
/// weighted by the number of tiles that its dimension stands for in the hand
/// of the shape, add up to fourteen.
pub proof fn lemma_shape_accounts_for_fourteen(s: Shape)
    requires
        shape_seen(s),
    ensures
        shape_mass(s, 86) == 14,
{
    lemma_mass_tail(s);
    match s {
        Shape::Standard(melds, pair) => {
            let mh = melds_hand(melds);
            lemma_melds_hand(melds);
            lemma_melds_honors(melds);
            lemma_mass_melds(s, 48);
            lemma_occurrences_below(melds, 48);
            lemma_below_step(melds, 48);
            lemma_below_all(melds, 49);
            lemma_mass_pair(s, 80);
            lemma_occurrences_bound(melds, 48);
            let t = occurrences(melds, 48);
            if pair < 27 {
                crate::agari::lemma_bump(mh, pair / 9, pair % 9, 2);
            } else {
                lemma_bump_honor(mh, 2);
            }
            assert(shape_hand(s).jihai[3] == t);
            assert(shape_mass(s, 48) == 3 * (4 - t));
            assert(shape_mark(s, 51) * (3 * t) == 3 * t) by (nonlinear_arith)
                requires
                    shape_mark(s, 51) == if t > 0 {
                        1int
                    } else {
                        0int
                    },
                    t >= 0,
            ;
        },
        Shape::Pairs(kinds) => {
            lemma_pairs_hand(kinds);
            lemma_pairs_honors(kinds);
            lemma_mass_pairs(s, 80);
            lemma_occurrences_below(kinds, 27);
            lemma_below_step(kinds, 0);
            let m = 7 - below(kinds, 27);
            assert(shape_hand(s).jihai[2] == m);
            assert(kinds[6] < 34);
            assert(m > 0 <==> kinds.last() >= 27) by {
                lemma_last_is_honor(kinds);
            }
            assert(shape_mark(s, 82) * (2 * m) == 2 * m) by (nonlinear_arith)
                requires
                    shape_mark(s, 82) == if m > 0 {
                        1int
                    } else {
                        0int
                    },
                    m >= 0,
            ;
        },
        Shape::Orphans(honor) => {
            lemma_mass_none(s, 53);
            lemma_mass_orphans(s, 80);
        },
    }
}

/// The dimensions of the pairs of the marks of thirteen orphans stand for no tile.
proof fn lemma_mass_orphans(s: Shape, n: nat)
    requires
        s is Orphans,
        53 <= n <= 80,
    ensures
        shape_mass(s, n) == 0,
    decreases n,
{
    if n > 53 {
        lemma_mass_orphans(s, (n - 1) as nat);
    } else {
        lemma_mass_none(s, 53);
    }
}

/// Among tile kinds in ascending order there is an honor where the last is one.
proof fn lemma_last_is_honor(kinds: Seq<usize>)
    requires
        kinds.len() > 0,
        forall|i: int, j: int| 0 <= i < j < kinds.len() ==> kinds[i] < kinds[j],
    ensures
        below(kinds, 27) < kinds.len() <==> kinds.last() >= 27,
{
    lemma_below_step(kinds.drop_last(), 27);
    if kinds.last() < 27 {
        assert forall|i: int| 0 <= i < kinds.len() implies #[trigger] kinds[i] < 27 by {
            if i < kinds.len() - 1 {
                assert(kinds[i] < kinds[kinds.len() - 1]);
            }
        }
        lemma_below_all(kinds, 27);
    }
}

} // verus!
