use crate::combinatorics::{
    grid_points, grid_points_left, is_grid_point, is_multichoice, multichoices,
    multichoices_left, next_grid_point, next_multichoice, sort32, sort64,
};
use crate::converter::{
    honor_table_complete, honor_table_wf, honor_tiles, is_honor_code, is_suit_code, key_honor,
    key_of, key_part, key_wf, lemma_pack_of_parts, lemma_parts_of_pack, lists32, max3, min3,
    pack_key, sorted_key, suited_table_complete, suited_table_wf, suited_tiles,
};
use crate::hand::{honor_kinds, honor_total, suit_total, suit_wf};
use crate::octal::{
    honor_code, honor_digits, lemma_honor_code_of_digits, lemma_honor_digits_of_code,
    lemma_octal_value_honor, lemma_octal_value_suit, lemma_reversed_twice,
    lemma_suit_code_of_digits, lemma_suit_digits_of_code, suit_code, suit_digits, to_octal,
    to_octal_rev,
};
use crate::converter::{
    hand_table_complete, honor_code_tiles, lists64, suit_code_tiles, HandConverter,
};
use crate::hand::{NUM_HAND13, NUM_HAND14};
use crate::search::{ascending32, ascending64};
use vstd::prelude::*;

verus! {

/// No entry is larger than the entries after it.
pub open spec fn nondescending32(s: Seq<u32>) -> bool {
    forall|i: int, j: int| 0 <= i <= j < s.len() ==> s[i] <= s[j]
}

/// No entry is larger than the entries after it.
pub open spec fn nondescending64(s: Seq<u64>) -> bool {
    forall|i: int, j: int| 0 <= i <= j < s.len() ==> s[i] <= s[j]
}

/// Drops the repeated values of an ordered list.
pub fn dedup32(v: &mut Vec<u32>)
    requires
        nondescending32(old(v)@),
    ensures
        ascending32(final(v)@),
        forall|x: u32| final(v)@.contains(x) <==> old(v)@.contains(x),
{
    let n = v.len();
    let mut w: usize = 0;
    let ghost mut src: Seq<int> = Seq::empty();
    let ghost mut dst: Seq<int> = Seq::empty();
    for r in 0..n
        invariant
            n == old(v)@.len(),
            v@.len() == n,
            0 <= w <= r,
            nondescending32(old(v)@),
            forall|i: int| r <= i < n ==> v@[i] == old(v)@[i],
            forall|i: int, j: int| 0 <= i < j < w ==> v@[i] < v@[j],
            r > 0 ==> w > 0 && v@[w - 1] == old(v)@[r - 1],
            src.len() == w,
            dst.len() == r,
            forall|i: int| 0 <= i < w ==> 0 <= #[trigger] src[i] < r && old(v)@[src[i]] == v@[i],
            forall|k: int| 0 <= k < r ==> 0 <= #[trigger] dst[k] < w && v@[dst[k]] == old(v)@[k],
    {
        let x = v[r];
        if w == 0 || v[w - 1] != x {
            proof {
                if r > 0 {
                    assert(old(v)@[r - 1] <= old(v)@[r as int]);
                }
                src = src.push(r as int);
                dst = dst.push(w as int);
            }
            v.set(w, x);
            w += 1;
        } else {
            proof {
                dst = dst.push(w - 1);
            }
        }
    }
    v.truncate(w);
    proof {
        assert forall|x: u32| final(v)@.contains(x) <==> old(v)@.contains(x) by {
            if old(v)@.contains(x) {
                let k = choose|k: int| 0 <= k < n && old(v)@[k] == x;
                assert(final(v)@[dst[k]] == x);
            }
            if final(v)@.contains(x) {
                let i = choose|i: int| 0 <= i < w && final(v)@[i] == x;
                assert(old(v)@[src[i]] == x);
            }
        }
    }
}

/// Drops the repeated values of an ordered list.
pub fn dedup64(v: &mut Vec<u64>)
    requires
        nondescending64(old(v)@),
    ensures
        ascending64(final(v)@),
        forall|x: u64| final(v)@.contains(x) <==> old(v)@.contains(x),
{
    let n = v.len();
    let mut w: usize = 0;
    let ghost mut src: Seq<int> = Seq::empty();
    let ghost mut dst: Seq<int> = Seq::empty();
    for r in 0..n
        invariant
            n == old(v)@.len(),
            v@.len() == n,
            0 <= w <= r,
            nondescending64(old(v)@),
            forall|i: int| r <= i < n ==> v@[i] == old(v)@[i],
            forall|i: int, j: int| 0 <= i < j < w ==> v@[i] < v@[j],
            r > 0 ==> w > 0 && v@[w - 1] == old(v)@[r - 1],
            src.len() == w,
            dst.len() == r,
            forall|i: int| 0 <= i < w ==> 0 <= #[trigger] src[i] < r && old(v)@[src[i]] == v@[i],
            forall|k: int| 0 <= k < r ==> 0 <= #[trigger] dst[k] < w && v@[dst[k]] == old(v)@[k],
    {
        let x = v[r];
        if w == 0 || v[w - 1] != x {
            proof {
                if r > 0 {
                    assert(old(v)@[r - 1] <= old(v)@[r as int]);
                }
                src = src.push(r as int);
                dst = dst.push(w as int);
            }
            v.set(w, x);
            w += 1;
        } else {
            proof {
                dst = dst.push(w - 1);
            }
        }
    }
    v.truncate(w);
    proof {
        assert forall|x: u64| final(v)@.contains(x) <==> old(v)@.contains(x) by {
            if old(v)@.contains(x) {
                let k = choose|k: int| 0 <= k < n && old(v)@[k] == x;
                assert(final(v)@[dst[k]] == x);
            }
            if final(v)@.contains(x) {
                let i = choose|i: int| 0 <= i < w && final(v)@[i] == x;
                assert(old(v)@[src[i]] == x);
            }
        }
    }
}

/// Puts a list in ascending order and drops its repeated values.
pub fn normalize32(v: &mut Vec<u32>)
    ensures
        ascending32(final(v)@),
        forall|x: u32| final(v)@.contains(x) <==> old(v)@.contains(x),
{
    sort32(v);
    let ghost sorted = v@;
    proof {
        old(v)@.to_multiset_ensures();
        sorted.to_multiset_ensures();
        assert forall|x: u32| sorted.contains(x) <==> old(v)@.contains(x) by {
            assert(sorted.to_multiset().count(x) == old(v)@.to_multiset().count(x));
        }
    }
    dedup32(v);
}

/// Puts a list in ascending order and drops its repeated values.
pub fn normalize64(v: &mut Vec<u64>)
    ensures
        ascending64(final(v)@),
        forall|x: u64| final(v)@.contains(x) <==> old(v)@.contains(x),
{
    sort64(v);
    let ghost sorted = v@;
    proof {
        old(v)@.to_multiset_ensures();
        sorted.to_multiset_ensures();
        assert forall|x: u64| sorted.contains(x) <==> old(v)@.contains(x) by {
            assert(sorted.to_multiset().count(x) == old(v)@.to_multiset().count(x));
        }
    }
    dedup64(v);
}

/// The nine counts of a grid point over extents of five, as a suit pattern.
pub open spec fn point_digits(t: Seq<usize>) -> Seq<u8> {
    Seq::new(9, |i: int| t[i] as u8)
}

/// A suit pattern as a grid point.
pub open spec fn digits_point(d: Seq<u8>) -> Seq<usize> {
    Seq::new(9, |i: int| d[i] as usize)
}

/// The suit pattern of a grid point, if it holds no more than fourteen tiles.
fn point_pattern(t: &Vec<usize>) -> (r: Option<[u8; 9]>)
    requires
        t@.len() == 9,
        forall|i: int| 0 <= i < 9 ==> #[trigger] t@[i] < 5,
    ensures
        suit_wf(point_digits(t@)),
        match r {
            Some(d) => d@ == point_digits(t@) && suit_total(d@) <= 14,
            None => suit_total(point_digits(t@)) > 14,
        },
{
    let mut d = [0u8; 9];
    let mut cnt: usize = 0;
    for i in 0..9usize
        invariant
            t@.len() == 9,
            forall|i: int| 0 <= i < 9 ==> #[trigger] t@[i] < 5,
            forall|k: int| 0 <= k < i ==> #[trigger] d@[k] == t@[k] as u8,
            forall|k: int| i <= k < 9 ==> #[trigger] d@[k] == 0,
            cnt == suit_total(d@),
            cnt <= 4 * i,
    {
        let ghost before = d@;
        d[i] = t[i] as u8;
        cnt += t[i];
        proof {
            assert(d@ == before.update(i as int, t@[i as int] as u8));
            assert(before[i as int] == 0);
            assert(i == 0 || i == 1 || i == 2 || i == 3 || i == 4 || i == 5 || i == 6 || i == 7
                || i == 8);
        }
    }
    assert(d@ =~= point_digits(t@));
    if cnt <= 14 {
        Some(d)
    } else {
        None
    }
}

/// The ascending table of all suit codes.
pub fn build_suited_lookup() -> (su: Vec<u32>)
    ensures
        ascending32(su@),
        forall|i: int| 0 <= i < su@.len() ==> is_suit_code(#[trigger] su@[i] as int),
        suited_table_complete(su@),
{
    let mut su: Vec<u32> = Vec::new();
    let dims: Vec<usize> = vec![5usize; 9];
    let mut it = grid_points(&dims);
    let ghost all = grid_points_left(it);
    let ghost mut done: int = 0;
    loop
        invariant
            dims@ == Seq::new(9, |i: int| 5usize),
            0 <= done <= all.len(),
            grid_points_left(it) == all.skip(done),
            forall|t: Seq<usize>| #[trigger] all.contains(t) <==> is_grid_point(t, dims@),
            forall|i: int| 0 <= i < su@.len() ==> is_suit_code(#[trigger] su@[i] as int),
            forall|j: int|
                0 <= j < done && is_suit_code(suit_code(point_digits(#[trigger] all[j])))
                    ==> su@.contains(suit_code(point_digits(all[j])) as u32),
        ensures
            done == all.len(),
        decreases all.len() - done,
    {
        match next_grid_point(&mut it) {
            Some(t) => {
                proof {
                    assert(all.skip(done)[0] == all[done]);
                    assert(all.contains(all[done]));
                    assert(all.skip(done).skip(1) == all.skip(done + 1));
                    assert forall|i: int| 0 <= i < 9 implies #[trigger] t@[i] < 5 by {
                        assert(t@[i] < dims@[i]);
                    }
                }
                let ghost before = su@;
                let ghost d = point_digits(t@);
                proof {
                    lemma_suit_digits_of_code(d);
                    lemma_reversed_twice(d);
                    lemma_octal_value_suit(d);
                    lemma_octal_value_suit(d.reverse());
                }
                match point_pattern(&t) {
                    Some(digits) => {
                        let x = to_octal(digits.as_slice());
                        let y = to_octal_rev(digits.as_slice());
                        if x <= y {
                            su.push(x);
                            proof {
                                assert(su@[su@.len() - 1] == x);
                                assert forall|i: int| 0 <= i < su@.len() implies is_suit_code(
                                    #[trigger] su@[i] as int,
                                ) by {
                                    if i < before.len() {
                                        assert(su@[i] == before[i]);
                                    }
                                }
                            }
                        }
                    },
                    None => {},
                }
                proof {
                    assert forall|j: int|
                        0 <= j < done + 1 && is_suit_code(
                            suit_code(point_digits(#[trigger] all[j])),
                        ) implies su@.contains(suit_code(point_digits(all[j])) as u32) by {
                        if j < done {
                            let c = suit_code(point_digits(all[j])) as u32;
                            assert(before.contains(c));
                            let k = choose|k: int| 0 <= k < before.len() && before[k] == c;
                            assert(su@[k] == c);
                        } else {
                            assert(su@[su@.len() - 1] == suit_code(d));
                        }
                    }
                    done = done + 1;
                }
            },
            None => {
                break ;
            },
        }
    }
    let ghost pushed = su@;
    normalize32(&mut su);
    proof {
        assert forall|i: int| 0 <= i < su@.len() implies is_suit_code(#[trigger] su@[i] as int) by {
            assert(su@.contains(su@[i]));
            assert(pushed.contains(su@[i]));
        }
        assert forall|x: int| is_suit_code(x) implies lists32(su@, x) by {
            let d = suit_digits(x);
            lemma_suit_code_of_digits(x);
            let t = digits_point(d);
            assert(is_grid_point(t, dims@)) by {
                assert forall|i: int| 0 <= i < t.len() implies #[trigger] t[i] < dims@[i] by {
                    assert(d[i] <= 4);
                }
            }
            assert(all.contains(t));
            let j = choose|j: int| 0 <= j < all.len() && all[j] == t;
            assert(point_digits(all[j]) =~= d);
            assert(pushed.contains(x as u32));
            assert(su@.contains(x as u32));
            let k = choose|k: int| 0 <= k < su@.len() && su@[k] == x as u32;
            assert(su@[k] == x);
        }
    }
    su
}

/// The multiplicity vector that four cut points split the seven honor
/// kinds into.
pub open spec fn cuts_buckets(p: Seq<usize>) -> Seq<u8> {
    seq![
        p[0] as u8,
        (p[1] - p[0]) as u8,
        (p[2] - p[1]) as u8,
        (p[3] - p[2]) as u8,
        (7 - p[3]) as u8,
    ]
}

/// The cut points that a multiplicity vector corresponds to.
pub open spec fn buckets_cuts(j: Seq<u8>) -> Seq<usize> {
    seq![
        j[0] as usize,
        (j[0] + j[1]) as usize,
        (j[0] + j[1] + j[2]) as usize,
        (j[0] + j[1] + j[2] + j[3]) as usize,
    ]
}

/// The ascending table of all honor codes.
pub fn build_honor_lookup() -> (ji: Vec<u32>)
    ensures
        ascending32(ji@),
        forall|i: int| 0 <= i < ji@.len() ==> is_honor_code(#[trigger] ji@[i] as int),
        honor_table_complete(ji@),
{
    let mut ji: Vec<u32> = Vec::new();
    let mut it = multichoices(8, 4);
    let ghost all = multichoices_left(it);
    let ghost mut done: int = 0;
    loop
        invariant
            0 <= done <= all.len(),
            multichoices_left(it) == all.skip(done),
            forall|t: Seq<usize>| #[trigger] all.contains(t) <==> is_multichoice(t, 8, 4),
            forall|i: int| 0 <= i < ji@.len() ==> is_honor_code(#[trigger] ji@[i] as int),
            forall|j: int|
                0 <= j < done && is_honor_code(honor_code(cuts_buckets(#[trigger] all[j])))
                    ==> ji@.contains(honor_code(cuts_buckets(all[j])) as u32),
        ensures
            done == all.len(),
        decreases all.len() - done,
    {
        match next_multichoice(&mut it) {
            Some(p) => {
                proof {
                    assert(all.skip(done)[0] == all[done]);
                    assert(all.contains(all[done]));
                    assert(all.skip(done).skip(1) == all.skip(done + 1));
                    assert(p@[0] < 8 && p@[1] < 8 && p@[2] < 8 && p@[3] < 8);
                    assert(p@[0] <= p@[1] && p@[1] <= p@[2] && p@[2] <= p@[3]);
                }
                let ghost before = ji@;
                let jihai: [u8; 5] = [
                    p[0] as u8,
                    (p[1] - p[0]) as u8,
                    (p[2] - p[1]) as u8,
                    (p[3] - p[2]) as u8,
                    (7 - p[3]) as u8,
                ];
                let cnt: usize = (p[1] - p[0]) + 2 * (p[2] - p[1]) + 3 * (p[3] - p[2]) + 4 * (7
                    - p[3]);
                proof {
                    assert(jihai@ =~= cuts_buckets(p@));
                    assert(cnt == honor_total(jihai@));
                    assert(honor_kinds(jihai@) == 7);
                    lemma_honor_digits_of_code(jihai@);
                    lemma_octal_value_honor(jihai@);
                }
                if cnt <= 14 {
                    let code = to_octal(jihai.as_slice());
                    ji.push(code);
                    proof {
                        assert(ji@[ji@.len() - 1] == code);
                        assert forall|i: int| 0 <= i < ji@.len() implies is_honor_code(
                            #[trigger] ji@[i] as int,
                        ) by {
                            if i < before.len() {
                                assert(ji@[i] == before[i]);
                            }
                        }
                    }
                }
                proof {
                    assert forall|j: int|
                        0 <= j < done + 1 && is_honor_code(
                            honor_code(cuts_buckets(#[trigger] all[j])),
                        ) implies ji@.contains(honor_code(cuts_buckets(all[j])) as u32) by {
                        if j < done {
                            let c = honor_code(cuts_buckets(all[j])) as u32;
                            assert(before.contains(c));
                            let k = choose|k: int| 0 <= k < before.len() && before[k] == c;
                            assert(ji@[k] == c);
                        } else {
                            assert(ji@[ji@.len() - 1] == honor_code(jihai@));
                        }
                    }
                    done = done + 1;
                }
            },
            None => {
                break ;
            },
        }
    }
    let ghost pushed = ji@;
    normalize32(&mut ji);
    proof {
        assert forall|i: int| 0 <= i < ji@.len() implies is_honor_code(#[trigger] ji@[i] as int) by {
            assert(ji@.contains(ji@[i]));
            assert(pushed.contains(ji@[i]));
        }
        assert forall|x: int| is_honor_code(x) implies lists32(ji@, x) by {
            let j = honor_digits(x);
            lemma_honor_code_of_digits(x);
            let p = buckets_cuts(j);
            assert(is_multichoice(p, 8, 4));
            assert(all.contains(p));
            let k = choose|k: int| 0 <= k < all.len() && all[k] == p;
            assert(cuts_buckets(all[k]) =~= j);
            assert(pushed.contains(x as u32));
            assert(ji@.contains(x as u32));
            let m = choose|m: int| 0 <= m < ji@.len() && ji@[m] == x as u32;
            assert(ji@[m] == x);
        }
    }
    ji
}

/// The positions of the suited table whose patterns hold a given number of
/// tiles, all of them and no other.
pub open spec fn suited_bucket_ok(su: Seq<u32>, bucket: Seq<u32>, tiles: int) -> bool {
    &&& forall|i: int|
        0 <= i < bucket.len() ==> #[trigger] bucket[i] < su.len() && suited_tiles(
            su,
            bucket[i] as int,
        ) == tiles
    &&& forall|x: int|
        0 <= x < su.len() && #[trigger] suited_tiles(su, x) == tiles ==> bucket.contains(x as u32)
}

/// The positions of the honor table whose patterns hold a given number of
/// tiles, all of them and no other.
pub open spec fn honor_bucket_ok(ji: Seq<u32>, bucket: Seq<u32>, tiles: int) -> bool {
    &&& forall|i: int|
        0 <= i < bucket.len() ==> #[trigger] bucket[i] < ji.len() && honor_tiles(
            ji,
            bucket[i] as int,
        ) == tiles
    &&& forall|x: int|
        0 <= x < ji.len() && #[trigger] honor_tiles(ji, x) == tiles ==> bucket.contains(x as u32)
}

/// Fifteen buckets of positions of the suited table, by number of tiles.
pub open spec fn suited_buckets_ok(su: Seq<u32>, memo: Seq<Vec<u32>>) -> bool {
    &&& memo.len() == 15
    &&& forall|c: int| 0 <= c < 15 ==> suited_bucket_ok(su, #[trigger] memo[c]@, c)
}

/// Fifteen buckets of positions of the honor table, by number of tiles.
pub open spec fn honor_buckets_ok(ji: Seq<u32>, memo: Seq<Vec<u32>>) -> bool {
    &&& memo.len() == 15
    &&& forall|c: int| 0 <= c < 15 ==> honor_bucket_ok(ji, #[trigger] memo[c]@, c)
}

/// The positions of the suited table by the number of tiles of their patterns.
pub fn suited_buckets(su: &Vec<u32>) -> (memo: Vec<Vec<u32>>)
    requires
        su@.len() <= 262144,
    ensures
        suited_buckets_ok(su@, memo@),
{
    let mut memo: Vec<Vec<u32>> = Vec::new();
    for c in 0..15usize
        invariant
            su@.len() <= 262144,
            memo@.len() == c,
            forall|k: int| 0 <= k < c ==> suited_bucket_ok(su@, #[trigger] memo@[k]@, k),
    {
        let mut bucket: Vec<u32> = Vec::new();
        for x in 0..su.len()
            invariant
                su@.len() <= 262144,
                forall|i: int|
                    0 <= i < bucket@.len() ==> #[trigger] bucket@[i] < su@.len() && suited_tiles(
                        su@,
                        bucket@[i] as int,
                    ) == c,
                forall|y: int|
                    0 <= y < x && #[trigger] suited_tiles(su@, y) == c ==> bucket@.contains(
                        y as u32,
                    ),
        {
            let ghost before = bucket@;
            if suit_code_tiles(su[x]) == c {
                bucket.push(x as u32);
                assert(bucket@[bucket@.len() - 1] == x as u32);
            }
            proof {
                assert forall|y: int|
                    0 <= y < x + 1 && #[trigger] suited_tiles(su@, y) == c implies bucket@.contains(
                    y as u32,
                ) by {
                    if y < x {
                        let k = choose|k: int| 0 <= k < before.len() && before[k] == y as u32;
                        assert(bucket@[k] == y as u32);
                    }
                }
            }
        }
        memo.push(bucket);
    }
    memo
}

/// The positions of the honor table by the number of tiles of their patterns.
pub fn honor_buckets(ji: &Vec<u32>) -> (memo: Vec<Vec<u32>>)
    requires
        ji@.len() <= 512,
    ensures
        honor_buckets_ok(ji@, memo@),
{
    let mut memo: Vec<Vec<u32>> = Vec::new();
    for c in 0..15usize
        invariant
            ji@.len() <= 512,
            memo@.len() == c,
            forall|k: int| 0 <= k < c ==> honor_bucket_ok(ji@, #[trigger] memo@[k]@, k),
    {
        let mut bucket: Vec<u32> = Vec::new();
        for x in 0..ji.len()
            invariant
                ji@.len() <= 512,
                forall|i: int|
                    0 <= i < bucket@.len() ==> #[trigger] bucket@[i] < ji@.len() && honor_tiles(
                        ji@,
                        bucket@[i] as int,
                    ) == c,
                forall|y: int|
                    0 <= y < x && #[trigger] honor_tiles(ji@, y) == c ==> bucket@.contains(
                        y as u32,
                    ),
        {
            let ghost before = bucket@;
            if honor_code_tiles(ji[x]) == c {
                bucket.push(x as u32);
                assert(bucket@[bucket@.len() - 1] == x as u32);
            }
            proof {
                assert forall|y: int|
                    0 <= y < x + 1 && #[trigger] honor_tiles(ji@, y) == c implies bucket@.contains(
                    y as u32,
                ) by {
                    if y < x {
                        let k = choose|k: int| 0 <= k < before.len() && before[k] == y as u32;
                        assert(bucket@[k] == y as u32);
                    }
                }
            }
        }
        memo.push(bucket);
    }
    memo
}

/// Whether a list of keys holds the key of three positions of the suited
/// table, in any order, and a position of the honor table.
pub open spec fn has_key(hands: Seq<u64>, a: int, b: int, c: int, j: int) -> bool {
    hands.contains(sorted_key(a, b, c, j) as u64)
}

/// Every entry is a hand key of the stated hand size.
pub open spec fn keys_wf(su: Seq<u32>, ji: Seq<u32>, hands: Seq<u64>, tiles: int) -> bool {
    forall|i: int| 0 <= i < hands.len() ==> key_wf(su, ji, #[trigger] hands[i] as int, tiles)
}

/// A list that begins with an earlier list.
pub open spec fn extends(before: Seq<u64>, after: Seq<u64>) -> bool {
    &&& before.len() <= after.len()
    &&& forall|i: int| 0 <= i < before.len() ==> #[trigger] after[i] == before[i]
}

/// A list that begins with an earlier list holds the keys that the earlier
/// list held.
pub proof fn lemma_extends_has_key(before: Seq<u64>, after: Seq<u64>, a: int, b: int, c: int, j: int)
    requires
        extends(before, after),
        has_key(before, a, b, c, j),
    ensures
        has_key(after, a, b, c, j),
{
    let k = sorted_key(a, b, c, j) as u64;
    let i = choose|i: int| 0 <= i < before.len() && before[i] == k;
    assert(after[i] == k);
}

/// The key of three positions of the suited table, in any order, and a
/// position of the honor table is a hand key of the size that the four
/// patterns add up to.
pub proof fn lemma_sorted_key_wf(su: Seq<u32>, ji: Seq<u32>, a: int, b: int, c: int, j: int)
    requires
        su.len() <= 262144,
        ji.len() <= 512,
        0 <= a < su.len(),
        0 <= b < su.len(),
        0 <= c < su.len(),
        0 <= j < ji.len(),
    ensures
        key_wf(
            su,
            ji,
            sorted_key(a, b, c, j),
            suited_tiles(su, a) + suited_tiles(su, b) + suited_tiles(su, c) + honor_tiles(ji, j),
        ),
        0 <= sorted_key(a, b, c, j) < 0x8000_0000_0000_0000,
{
    let lo = min3(a, b, c);
    let hi = max3(a, b, c);
    let mid = a + b + c - lo - hi;
    lemma_parts_of_pack(lo, mid, hi, j);
    assert(suited_tiles(su, lo) + suited_tiles(su, mid) + suited_tiles(su, hi) == suited_tiles(
        su,
        a,
    ) + suited_tiles(su, b) + suited_tiles(su, c));
    assert(pack_key(lo, mid, hi, j) < 0x8000_0000_0000_0000) by {
        assert((j * 262144 + hi) < 512 * 262144);
        assert((j * 262144 + hi) * 262144 + mid < 512 * 262144 * 262144);
    }
}

/// Appends the keys that three positions of the suited table make with each
/// of a list of positions of the honor table.
fn push_keys(
    hands: &mut Vec<u64>,
    a: u32,
    b: u32,
    c: u32,
    js: &Vec<u32>,
    Ghost(su): Ghost<Seq<u32>>,
    Ghost(ji): Ghost<Seq<u32>>,
    Ghost(tiles): Ghost<int>,
)
    requires
        su.len() <= 262144,
        ji.len() <= 512,
        a < su.len(),
        b < su.len(),
        c < su.len(),
        forall|w: int|
            0 <= w < js@.len() ==> #[trigger] js@[w] < ji.len() && suited_tiles(su, a as int)
                + suited_tiles(su, b as int) + suited_tiles(su, c as int) + honor_tiles(
                ji,
                js@[w] as int,
            ) == tiles,
        keys_wf(su, ji, old(hands)@, tiles),
    ensures
        keys_wf(su, ji, final(hands)@, tiles),
        extends(old(hands)@, final(hands)@),
        forall|w: int|
            0 <= w < js@.len() ==> has_key(
                final(hands)@,
                a as int,
                b as int,
                c as int,
                #[trigger] js@[w] as int,
            ),
{
    for k in 0..js.len()
        invariant
            su.len() <= 262144,
            ji.len() <= 512,
            a < su.len(),
            b < su.len(),
            c < su.len(),
            forall|w: int|
                0 <= w < js@.len() ==> #[trigger] js@[w] < ji.len() && suited_tiles(su, a as int)
                    + suited_tiles(su, b as int) + suited_tiles(su, c as int) + honor_tiles(
                    ji,
                    js@[w] as int,
                ) == tiles,
            keys_wf(su, ji, hands@, tiles),
            extends(old(hands)@, hands@),
            forall|w: int|
                0 <= w < k ==> has_key(
                    hands@,
                    a as int,
                    b as int,
                    c as int,
                    #[trigger] js@[w] as int,
                ),
    {
        let j = js[k];
        let ghost before = hands@;
        proof {
            lemma_sorted_key_wf(su, ji, a as int, b as int, c as int, j as int);
        }
        let key = key_of(a as u64, b as u64, c as u64, j as u64);
        hands.push(key);
        proof {
            assert(hands@[hands@.len() - 1] == key);
            assert(extends(before, hands@));
            assert forall|w: int| 0 <= w < k + 1 implies has_key(
                hands@,
                a as int,
                b as int,
                c as int,
                #[trigger] js@[w] as int,
            ) by {
                if w < k {
                    lemma_extends_has_key(
                        before,
                        hands@,
                        a as int,
                        b as int,
                        c as int,
                        js@[w] as int,
                    );
                }
            }
            assert forall|i: int| 0 <= i < hands@.len() implies key_wf(
                su,
                ji,
                #[trigger] hands@[i] as int,
                tiles,
            ) by {
                if i < before.len() {
                    assert(hands@[i] == before[i]);
                }
            }
        }
    }
}

/// Positions of the suited table whose patterns hold a given number of tiles.
pub open spec fn suited_in(su: Seq<u32>, bucket: Seq<u32>, tiles: int) -> bool {
    forall|i: int|
        0 <= i < bucket.len() ==> #[trigger] bucket[i] < su.len() && suited_tiles(
            su,
            bucket[i] as int,
        ) == tiles
}

/// Positions of the honor table whose patterns hold a given number of tiles.
pub open spec fn honor_in(ji: Seq<u32>, bucket: Seq<u32>, tiles: int) -> bool {
    forall|i: int|
        0 <= i < bucket.len() ==> #[trigger] bucket[i] < ji.len() && honor_tiles(
            ji,
            bucket[i] as int,
        ) == tiles
}

/// Appends the keys of one position from each of three buckets of the suited
/// table with each position of a bucket of the honor table.
fn push_products(
    hands: &mut Vec<u64>,
    xs: &Vec<u32>,
    ys: &Vec<u32>,
    zs: &Vec<u32>,
    js: &Vec<u32>,
    Ghost(su): Ghost<Seq<u32>>,
    Ghost(ji): Ghost<Seq<u32>>,
    Ghost(q): Ghost<(int, int, int, int)>,
)
    requires
        su.len() <= 262144,
        ji.len() <= 512,
        suited_in(su, xs@, q.0),
        suited_in(su, ys@, q.1),
        suited_in(su, zs@, q.2),
        honor_in(ji, js@, q.3),
        keys_wf(su, ji, old(hands)@, q.0 + q.1 + q.2 + q.3),
    ensures
        keys_wf(su, ji, final(hands)@, q.0 + q.1 + q.2 + q.3),
        extends(old(hands)@, final(hands)@),
        forall|x: int, y: int, z: int, w: int|
            0 <= x < xs@.len() && 0 <= y < ys@.len() && 0 <= z < zs@.len() && 0 <= w < js@.len()
                ==> #[trigger] has_key(
                final(hands)@,
                xs@[x] as int,
                ys@[y] as int,
                zs@[z] as int,
                js@[w] as int,
            ),
{
    let mut dims: Vec<usize> = Vec::new();
    dims.push(xs.len());
    dims.push(ys.len());
    dims.push(zs.len());
    let mut it = grid_points(&dims);
    let ghost all = grid_points_left(it);
    let ghost mut done: int = 0;
    loop
        invariant
            su.len() <= 262144,
            ji.len() <= 512,
            suited_in(su, xs@, q.0),
            suited_in(su, ys@, q.1),
            suited_in(su, zs@, q.2),
            honor_in(ji, js@, q.3),
            keys_wf(su, ji, hands@, q.0 + q.1 + q.2 + q.3),
            extends(old(hands)@, hands@),
            dims@ == seq![xs@.len() as usize, ys@.len() as usize, zs@.len() as usize],
            0 <= done <= all.len(),
            grid_points_left(it) == all.skip(done),
            forall|t: Seq<usize>| #[trigger] all.contains(t) <==> is_grid_point(t, dims@),
            forall|k: int, w: int|
                0 <= k < done && 0 <= w < js@.len() ==> #[trigger] has_key(
                    hands@,
                    xs@[all[k][0] as int] as int,
                    ys@[all[k][1] as int] as int,
                    zs@[all[k][2] as int] as int,
                    js@[w] as int,
                ),
        ensures
            done == all.len(),
        decreases all.len() - done,
    {
        match next_grid_point(&mut it) {
            Some(t) => {
                proof {
                    assert(all.skip(done)[0] == all[done]);
                    assert(all.contains(all[done]));
                    assert(all.skip(done).skip(1) == all.skip(done + 1));
                    assert(t@[0] < dims@[0] && t@[1] < dims@[1] && t@[2] < dims@[2]);
                }
                let ghost before = hands@;
                push_keys(hands, xs[t[0]], ys[t[1]], zs[t[2]], js, Ghost(su), Ghost(ji), Ghost(
                    q.0 + q.1 + q.2 + q.3,
                ));
                proof {
                    assert forall|k: int, w: int|
                        0 <= k < done + 1 && 0 <= w < js@.len() implies #[trigger] has_key(
                        hands@,
                        xs@[all[k][0] as int] as int,
                        ys@[all[k][1] as int] as int,
                        zs@[all[k][2] as int] as int,
                        js@[w] as int,
                    ) by {
                        if k < done {
                            assert(has_key(
                                before,
                                xs@[all[k][0] as int] as int,
                                ys@[all[k][1] as int] as int,
                                zs@[all[k][2] as int] as int,
                                js@[w] as int,
                            ));
                            lemma_extends_has_key(
                                before,
                                hands@,
                                xs@[all[k][0] as int] as int,
                                ys@[all[k][1] as int] as int,
                                zs@[all[k][2] as int] as int,
                                js@[w] as int,
                            );
                        } else {
                            assert(has_key(
                                hands@,
                                xs@[t@[0] as int] as int,
                                ys@[t@[1] as int] as int,
                                zs@[t@[2] as int] as int,
                                js@[w] as int,
                            ));
                        }
                    }
                    done = done + 1;
                }
            },
            None => {
                break ;
            },
        }
    }
    proof {
        assert forall|x: int, y: int, z: int, w: int|
            0 <= x < xs@.len() && 0 <= y < ys@.len() && 0 <= z < zs@.len() && 0 <= w
                < js@.len() implies #[trigger] has_key(
            hands@,
            xs@[x] as int,
            ys@[y] as int,
            zs@[z] as int,
            js@[w] as int,
        ) by {
            let t = seq![x as usize, y as usize, z as usize];
            assert(is_grid_point(t, dims@));
            assert(all.contains(t));
            let k = choose|k: int| 0 <= k < all.len() && all[k] == t;
            assert(has_key(
                hands@,
                xs@[all[k][0] as int] as int,
                ys@[all[k][1] as int] as int,
                zs@[all[k][2] as int] as int,
                js@[w] as int,
            ));
        }
    }
}

/// Appends the keys of two positions of one bucket of the suited table, each
/// pair once, and one position of another with each position of a bucket of
/// the honor table.
fn push_pairs(
    hands: &mut Vec<u64>,
    xs: &Vec<u32>,
    zs: &Vec<u32>,
    js: &Vec<u32>,
    Ghost(su): Ghost<Seq<u32>>,
    Ghost(ji): Ghost<Seq<u32>>,
    Ghost(q): Ghost<(int, int, int)>,
)
    requires
        su.len() <= 262144,
        ji.len() <= 512,
        suited_in(su, xs@, q.0),
        suited_in(su, zs@, q.1),
        honor_in(ji, js@, q.2),
        keys_wf(su, ji, old(hands)@, 2 * q.0 + q.1 + q.2),
    ensures
        keys_wf(su, ji, final(hands)@, 2 * q.0 + q.1 + q.2),
        extends(old(hands)@, final(hands)@),
        forall|x: int, y: int, z: int, w: int|
            0 <= x <= y < xs@.len() && 0 <= z < zs@.len() && 0 <= w < js@.len()
                ==> #[trigger] has_key(
                final(hands)@,
                xs@[x] as int,
                xs@[y] as int,
                zs@[z] as int,
                js@[w] as int,
            ),
{
    let mut it = multichoices(xs.len(), 2);
    let ghost all = multichoices_left(it);
    let ghost mut done: int = 0;
    loop
        invariant
            su.len() <= 262144,
            ji.len() <= 512,
            suited_in(su, xs@, q.0),
            suited_in(su, zs@, q.1),
            honor_in(ji, js@, q.2),
            keys_wf(su, ji, hands@, 2 * q.0 + q.1 + q.2),
            extends(old(hands)@, hands@),
            0 <= done <= all.len(),
            multichoices_left(it) == all.skip(done),
            forall|t: Seq<usize>|
                #[trigger] all.contains(t) <==> is_multichoice(t, xs@.len() as int, 2),
            forall|k: int, z: int, w: int|
                0 <= k < done && 0 <= z < zs@.len() && 0 <= w < js@.len() ==> #[trigger] has_key(
                    hands@,
                    xs@[all[k][0] as int] as int,
                    xs@[all[k][1] as int] as int,
                    zs@[z] as int,
                    js@[w] as int,
                ),
        ensures
            done == all.len(),
        decreases all.len() - done,
    {
        match next_multichoice(&mut it) {
            Some(t) => {
                proof {
                    assert(all.skip(done)[0] == all[done]);
                    assert(all.contains(all[done]));
                    assert(all.skip(done).skip(1) == all.skip(done + 1));
                    assert(t@[0] < xs@.len() && t@[1] < xs@.len());
                }
                let ghost start = hands@;
                let a = xs[t[0]];
                let b = xs[t[1]];
                for zi in 0..zs.len()
                    invariant
                        su.len() <= 262144,
                        ji.len() <= 512,
                        a < su.len() && suited_tiles(su, a as int) == q.0,
                        b < su.len() && suited_tiles(su, b as int) == q.0,
                        suited_in(su, zs@, q.1),
                        honor_in(ji, js@, q.2),
                        keys_wf(su, ji, hands@, 2 * q.0 + q.1 + q.2),
                        extends(start, hands@),
                        forall|z: int, w: int|
                            0 <= z < zi && 0 <= w < js@.len() ==> #[trigger] has_key(
                                hands@,
                                a as int,
                                b as int,
                                zs@[z] as int,
                                js@[w] as int,
                            ),
                {
                    let ghost before = hands@;
                    push_keys(hands, a, b, zs[zi], js, Ghost(su), Ghost(ji), Ghost(
                        2 * q.0 + q.1 + q.2,
                    ));
                    proof {
                        assert forall|z: int, w: int|
                            0 <= z < zi + 1 && 0 <= w < js@.len() implies #[trigger] has_key(
                            hands@,
                            a as int,
                            b as int,
                            zs@[z] as int,
                            js@[w] as int,
                        ) by {
                            if z < zi {
                                assert(has_key(
                                    before,
                                    a as int,
                                    b as int,
                                    zs@[z] as int,
                                    js@[w] as int,
                                ));
                                lemma_extends_has_key(
                                    before,
                                    hands@,
                                    a as int,
                                    b as int,
                                    zs@[z] as int,
                                    js@[w] as int,
                                );
                            }
                        }
                    }
                }
                proof {
                    assert forall|k: int, z: int, w: int|
                        0 <= k < done + 1 && 0 <= z < zs@.len() && 0 <= w
                            < js@.len() implies #[trigger] has_key(
                        hands@,
                        xs@[all[k][0] as int] as int,
                        xs@[all[k][1] as int] as int,
                        zs@[z] as int,
                        js@[w] as int,
                    ) by {
                        if k < done {
                            assert(has_key(
                                start,
                                xs@[all[k][0] as int] as int,
                                xs@[all[k][1] as int] as int,
                                zs@[z] as int,
                                js@[w] as int,
                            ));
                            lemma_extends_has_key(
                                start,
                                hands@,
                                xs@[all[k][0] as int] as int,
                                xs@[all[k][1] as int] as int,
                                zs@[z] as int,
                                js@[w] as int,
                            );
                        } else {
                            assert(has_key(hands@, a as int, b as int, zs@[z] as int, js@[w] as int));
                        }
                    }
                    done = done + 1;
                }
            },
            None => {
                break ;
            },
        }
    }
    proof {
        assert forall|x: int, y: int, z: int, w: int|
            0 <= x <= y < xs@.len() && 0 <= z < zs@.len() && 0 <= w
                < js@.len() implies #[trigger] has_key(
            hands@,
            xs@[x] as int,
            xs@[y] as int,
            zs@[z] as int,
            js@[w] as int,
        ) by {
            let t = seq![x as usize, y as usize];
            assert(is_multichoice(t, xs@.len() as int, 2));
            assert(all.contains(t));
            let k = choose|k: int| 0 <= k < all.len() && all[k] == t;
            assert(has_key(
                hands@,
                xs@[all[k][0] as int] as int,
                xs@[all[k][1] as int] as int,
                zs@[z] as int,
                js@[w] as int,
            ));
        }
    }
}

/// Appends the keys of three positions of one bucket of the suited table,
/// each triple once, with each position of a bucket of the honor table.
fn push_triples(
    hands: &mut Vec<u64>,
    xs: &Vec<u32>,
    js: &Vec<u32>,
    Ghost(su): Ghost<Seq<u32>>,
    Ghost(ji): Ghost<Seq<u32>>,
    Ghost(q): Ghost<(int, int)>,
)
    requires
        su.len() <= 262144,
        ji.len() <= 512,
        suited_in(su, xs@, q.0),
        honor_in(ji, js@, q.1),
        keys_wf(su, ji, old(hands)@, 3 * q.0 + q.1),
    ensures
        keys_wf(su, ji, final(hands)@, 3 * q.0 + q.1),
        extends(old(hands)@, final(hands)@),
        forall|x: int, y: int, z: int, w: int|
            0 <= x <= y <= z < xs@.len() && 0 <= w < js@.len() ==> #[trigger] has_key(
                final(hands)@,
                xs@[x] as int,
                xs@[y] as int,
                xs@[z] as int,
                js@[w] as int,
            ),
{
    let mut it = multichoices(xs.len(), 3);
    let ghost all = multichoices_left(it);
    let ghost mut done: int = 0;
    loop
        invariant
            su.len() <= 262144,
            ji.len() <= 512,
            suited_in(su, xs@, q.0),
            honor_in(ji, js@, q.1),
            keys_wf(su, ji, hands@, 3 * q.0 + q.1),
            extends(old(hands)@, hands@),
            0 <= done <= all.len(),
            multichoices_left(it) == all.skip(done),
            forall|t: Seq<usize>|
                #[trigger] all.contains(t) <==> is_multichoice(t, xs@.len() as int, 3),
            forall|k: int, w: int|
                0 <= k < done && 0 <= w < js@.len() ==> #[trigger] has_key(
                    hands@,
                    xs@[all[k][0] as int] as int,
                    xs@[all[k][1] as int] as int,
                    xs@[all[k][2] as int] as int,
                    js@[w] as int,
                ),
        ensures
            done == all.len(),
        decreases all.len() - done,
    {
        match next_multichoice(&mut it) {
            Some(t) => {
                proof {
                    assert(all.skip(done)[0] == all[done]);
                    assert(all.contains(all[done]));
                    assert(all.skip(done).skip(1) == all.skip(done + 1));
                    assert(t@[0] < xs@.len() && t@[1] < xs@.len() && t@[2] < xs@.len());
                }
                let ghost before = hands@;
                push_keys(hands, xs[t[0]], xs[t[1]], xs[t[2]], js, Ghost(su), Ghost(ji), Ghost(
                    3 * q.0 + q.1,
                ));
                proof {
                    assert forall|k: int, w: int|
                        0 <= k < done + 1 && 0 <= w < js@.len() implies #[trigger] has_key(
                        hands@,
                        xs@[all[k][0] as int] as int,
                        xs@[all[k][1] as int] as int,
                        xs@[all[k][2] as int] as int,
                        js@[w] as int,
                    ) by {
                        if k < done {
                            assert(has_key(
                                before,
                                xs@[all[k][0] as int] as int,
                                xs@[all[k][1] as int] as int,
                                xs@[all[k][2] as int] as int,
                                js@[w] as int,
                            ));
                            lemma_extends_has_key(
                                before,
                                hands@,
                                xs@[all[k][0] as int] as int,
                                xs@[all[k][1] as int] as int,
                                xs@[all[k][2] as int] as int,
                                js@[w] as int,
                            );
                        } else {
                            assert(has_key(
                                hands@,
                                xs@[t@[0] as int] as int,
                                xs@[t@[1] as int] as int,
                                xs@[t@[2] as int] as int,
                                js@[w] as int,
                            ));
                        }
                    }
                    done = done + 1;
                }
            },
            None => {
                break ;
            },
        }
    }
    proof {
        assert forall|x: int, y: int, z: int, w: int|
            0 <= x <= y <= z < xs@.len() && 0 <= w < js@.len() implies #[trigger] has_key(
            hands@,
            xs@[x] as int,
            xs@[y] as int,
            xs@[z] as int,
            js@[w] as int,
        ) by {
            let t = seq![x as usize, y as usize, z as usize];
            assert(is_multichoice(t, xs@.len() as int, 3));
            assert(all.contains(t));
            let k = choose|k: int| 0 <= k < all.len() && all[k] == t;
            assert(has_key(
                hands@,
                xs@[all[k][0] as int] as int,
                xs@[all[k][1] as int] as int,
                xs@[all[k][2] as int] as int,
                js@[w] as int,
            ));
        }
    }
}

/// Whether a list of keys holds the key of every three positions of the
/// suited table and position of the honor table whose patterns hold the given
/// numbers of tiles, in this order.
pub open spec fn covers_counts(
    su: Seq<u32>,
    ji: Seq<u32>,
    hands: Seq<u64>,
    q: (int, int, int, int),
) -> bool {
    forall|a: int, b: int, c: int, j: int|
        0 <= a < su.len() && 0 <= b < su.len() && 0 <= c < su.len() && 0 <= j < ji.len()
            && suited_tiles(su, a) == q.0 && suited_tiles(su, b) == q.1 && suited_tiles(su, c)
            == q.2 && honor_tiles(ji, j) == q.3 ==> #[trigger] has_key(hands, a, b, c, j)
}

/// A list that begins with an earlier list covers what the earlier list covered.
pub proof fn lemma_extends_covers(
    su: Seq<u32>,
    ji: Seq<u32>,
    before: Seq<u64>,
    after: Seq<u64>,
    q: (int, int, int, int),
)
    requires
        extends(before, after),
        covers_counts(su, ji, before, q),
    ensures
        covers_counts(su, ji, after, q),
{
    assert forall|a: int, b: int, c: int, j: int|
        0 <= a < su.len() && 0 <= b < su.len() && 0 <= c < su.len() && 0 <= j < ji.len()
            && suited_tiles(su, a) == q.0 && suited_tiles(su, b) == q.1 && suited_tiles(su, c)
            == q.2 && honor_tiles(ji, j) == q.3 implies #[trigger] has_key(after, a, b, c, j) by {
        assert(has_key(before, a, b, c, j));
        lemma_extends_has_key(before, after, a, b, c, j);
    }
}

/// Appends the keys of all hands whose three suit patterns hold `q0`, `q1`
/// and `q2` tiles, in ascending order, and whose honors hold `r` tiles.
fn fill_counts(
    hands: &mut Vec<u64>,
    su_memo: &Vec<Vec<u32>>,
    ji_memo: &Vec<Vec<u32>>,
    q0: usize,
    q1: usize,
    q2: usize,
    r: usize,
    Ghost(su): Ghost<Seq<u32>>,
    Ghost(ji): Ghost<Seq<u32>>,
)
    requires
        su.len() <= 262144,
        ji.len() <= 512,
        suited_buckets_ok(su, su_memo@),
        honor_buckets_ok(ji, ji_memo@),
        q0 <= q1 <= q2 < 15,
        r < 15,
        keys_wf(su, ji, old(hands)@, q0 + q1 + q2 + r),
    ensures
        keys_wf(su, ji, final(hands)@, q0 + q1 + q2 + r),
        extends(old(hands)@, final(hands)@),
        covers_counts(su, ji, final(hands)@, (q0 as int, q1 as int, q2 as int, r as int)),
{
    let js = &ji_memo[r];
    proof {
        assert(honor_bucket_ok(ji, ji_memo@[r as int]@, r as int));
        assert(suited_bucket_ok(su, su_memo@[q0 as int]@, q0 as int));
        assert(suited_bucket_ok(su, su_memo@[q1 as int]@, q1 as int));
        assert(suited_bucket_ok(su, su_memo@[q2 as int]@, q2 as int));
    }
    if q0 == q2 {
        let xs = &su_memo[q0];
        push_triples(hands, xs, js, Ghost(su), Ghost(ji), Ghost((q0 as int, r as int)));
        proof {
            assert forall|a: int, b: int, c: int, j: int|
                0 <= a < su.len() && 0 <= b < su.len() && 0 <= c < su.len() && 0 <= j < ji.len()
                    && suited_tiles(su, a) == q0 && suited_tiles(su, b) == q1 && suited_tiles(
                    su,
                    c,
                ) == q2 && honor_tiles(ji, j) == r implies #[trigger] has_key(
                hands@,
                a,
                b,
                c,
                j,
            ) by {
                let x = choose|x: int| 0 <= x < xs@.len() && xs@[x] == a as u32;
                let y = choose|y: int| 0 <= y < xs@.len() && xs@[y] == b as u32;
                let z = choose|z: int| 0 <= z < xs@.len() && xs@[z] == c as u32;
                let w = choose|w: int| 0 <= w < js@.len() && js@[w] == j as u32;
                assert(xs@.contains(a as u32) && xs@.contains(b as u32) && xs@.contains(c as u32));
                assert(js@.contains(j as u32));
                lemma_has_key_any_order(hands@, a, b, c, j);
                if x <= y && y <= z {
                    assert(has_key(hands@, xs@[x] as int, xs@[y] as int, xs@[z] as int, js@[w] as int));
                } else if x <= z && z <= y {
                    assert(has_key(hands@, xs@[x] as int, xs@[z] as int, xs@[y] as int, js@[w] as int));
                } else if y <= x && x <= z {
                    assert(has_key(hands@, xs@[y] as int, xs@[x] as int, xs@[z] as int, js@[w] as int));
                } else if y <= z && z <= x {
                    assert(has_key(hands@, xs@[y] as int, xs@[z] as int, xs@[x] as int, js@[w] as int));
                } else if z <= x && x <= y {
                    assert(has_key(hands@, xs@[z] as int, xs@[x] as int, xs@[y] as int, js@[w] as int));
                } else {
                    assert(has_key(hands@, xs@[z] as int, xs@[y] as int, xs@[x] as int, js@[w] as int));
                }
            }
        }
    } else if q0 == q1 {
        let xs = &su_memo[q0];
        let zs = &su_memo[q2];
        push_pairs(hands, xs, zs, js, Ghost(su), Ghost(ji), Ghost(
            (q0 as int, q2 as int, r as int),
        ));
        proof {
            assert forall|a: int, b: int, c: int, j: int|
                0 <= a < su.len() && 0 <= b < su.len() && 0 <= c < su.len() && 0 <= j < ji.len()
                    && suited_tiles(su, a) == q0 && suited_tiles(su, b) == q1 && suited_tiles(
                    su,
                    c,
                ) == q2 && honor_tiles(ji, j) == r implies #[trigger] has_key(
                hands@,
                a,
                b,
                c,
                j,
            ) by {
                let x = choose|x: int| 0 <= x < xs@.len() && xs@[x] == a as u32;
                let y = choose|y: int| 0 <= y < xs@.len() && xs@[y] == b as u32;
                let z = choose|z: int| 0 <= z < zs@.len() && zs@[z] == c as u32;
                let w = choose|w: int| 0 <= w < js@.len() && js@[w] == j as u32;
                assert(xs@.contains(a as u32) && xs@.contains(b as u32) && zs@.contains(c as u32));
                assert(js@.contains(j as u32));
                lemma_has_key_any_order(hands@, a, b, c, j);
                if x <= y {
                    assert(has_key(hands@, xs@[x] as int, xs@[y] as int, zs@[z] as int, js@[w] as int));
                } else {
                    assert(has_key(hands@, xs@[y] as int, xs@[x] as int, zs@[z] as int, js@[w] as int));
                }
            }
        }
    } else if q1 == q2 {
        let xs = &su_memo[q1];
        let zs = &su_memo[q0];
        push_pairs(hands, xs, zs, js, Ghost(su), Ghost(ji), Ghost(
            (q1 as int, q0 as int, r as int),
        ));
        proof {
            assert forall|a: int, b: int, c: int, j: int|
                0 <= a < su.len() && 0 <= b < su.len() && 0 <= c < su.len() && 0 <= j < ji.len()
                    && suited_tiles(su, a) == q0 && suited_tiles(su, b) == q1 && suited_tiles(
                    su,
                    c,
                ) == q2 && honor_tiles(ji, j) == r implies #[trigger] has_key(
                hands@,
                a,
                b,
                c,
                j,
            ) by {
                let x = choose|x: int| 0 <= x < xs@.len() && xs@[x] == b as u32;
                let y = choose|y: int| 0 <= y < xs@.len() && xs@[y] == c as u32;
                let z = choose|z: int| 0 <= z < zs@.len() && zs@[z] == a as u32;
                let w = choose|w: int| 0 <= w < js@.len() && js@[w] == j as u32;
                assert(xs@.contains(b as u32) && xs@.contains(c as u32) && zs@.contains(a as u32));
                assert(js@.contains(j as u32));
                lemma_has_key_any_order(hands@, a, b, c, j);
                if x <= y {
                    assert(has_key(hands@, xs@[x] as int, xs@[y] as int, zs@[z] as int, js@[w] as int));
                } else {
                    assert(has_key(hands@, xs@[y] as int, xs@[x] as int, zs@[z] as int, js@[w] as int));
                }
            }
        }
    } else {
        let xs = &su_memo[q0];
        let ys = &su_memo[q1];
        let zs = &su_memo[q2];
        push_products(hands, xs, ys, zs, js, Ghost(su), Ghost(ji), Ghost(
            (q0 as int, q1 as int, q2 as int, r as int),
        ));
        proof {
            assert forall|a: int, b: int, c: int, j: int|
                0 <= a < su.len() && 0 <= b < su.len() && 0 <= c < su.len() && 0 <= j < ji.len()
                    && suited_tiles(su, a) == q0 && suited_tiles(su, b) == q1 && suited_tiles(
                    su,
                    c,
                ) == q2 && honor_tiles(ji, j) == r implies #[trigger] has_key(
                hands@,
                a,
                b,
                c,
                j,
            ) by {
                let x = choose|x: int| 0 <= x < xs@.len() && xs@[x] == a as u32;
                let y = choose|y: int| 0 <= y < ys@.len() && ys@[y] == b as u32;
                let z = choose|z: int| 0 <= z < zs@.len() && zs@[z] == c as u32;
                let w = choose|w: int| 0 <= w < js@.len() && js@[w] == j as u32;
                assert(xs@.contains(a as u32) && ys@.contains(b as u32) && zs@.contains(c as u32));
                assert(js@.contains(j as u32));
                assert(has_key(hands@, xs@[x] as int, ys@[y] as int, zs@[z] as int, js@[w] as int));
            }
        }
    }
}

/// The key of three positions of the suited table does not depend on their order.
pub proof fn lemma_has_key_any_order(hands: Seq<u64>, a: int, b: int, c: int, j: int)
    ensures
        has_key(hands, a, b, c, j) == has_key(hands, a, c, b, j),
        has_key(hands, a, b, c, j) == has_key(hands, b, a, c, j),
        has_key(hands, a, b, c, j) == has_key(hands, b, c, a, j),
        has_key(hands, a, b, c, j) == has_key(hands, c, a, b, j),
        has_key(hands, a, b, c, j) == has_key(hands, c, b, a, j),
{
}

/// The tile counts of the three suits of a hand, in ascending order, as the
/// cut points that an enumeration of cut points yields them.
pub open spec fn cuts_of(q0: int, q1: int, q2: int) -> Seq<usize> {
    seq![q0 as usize, (q0 + q1) as usize, (q0 + q1 + q2) as usize]
}

/// The ascending table of the keys of all hands of a given size.
pub fn build_hand_lookup(
    su: &Vec<u32>,
    ji: &Vec<u32>,
    su_memo: &Vec<Vec<u32>>,
    ji_memo: &Vec<Vec<u32>>,
    tiles: usize,
) -> (hands: Vec<u64>)
    requires
        suited_table_wf(su@),
        honor_table_wf(ji@),
        suited_buckets_ok(su@, su_memo@),
        honor_buckets_ok(ji@, ji_memo@),
        tiles <= 14,
    ensures
        ascending64(hands@),
        keys_wf(su@, ji@, hands@, tiles as int),
        hand_table_complete(su@, ji@, hands@, tiles as int),
{
    let mut hands: Vec<u64> = Vec::new();
    let mut it = multichoices(tiles + 1, 3);
    let ghost all = multichoices_left(it);
    let ghost mut done: int = 0;
    loop
        invariant
            suited_table_wf(su@),
            honor_table_wf(ji@),
            suited_buckets_ok(su@, su_memo@),
            honor_buckets_ok(ji@, ji_memo@),
            tiles <= 14,
            keys_wf(su@, ji@, hands@, tiles as int),
            0 <= done <= all.len(),
            multichoices_left(it) == all.skip(done),
            forall|t: Seq<usize>| #[trigger] all.contains(t) <==> is_multichoice(t, tiles + 1, 3),
            forall|k: int|
                0 <= k < done && (#[trigger] all[k])[0] <= all[k][1] - all[k][0] <= all[k][2]
                    - all[k][1] ==> covers_counts(
                    su@,
                    ji@,
                    hands@,
                    (
                        all[k][0] as int,
                        all[k][1] - all[k][0],
                        all[k][2] - all[k][1],
                        tiles - all[k][2],
                    ),
                ),
        ensures
            done == all.len(),
        decreases all.len() - done,
    {
        match next_multichoice(&mut it) {
            Some(p) => {
                proof {
                    assert(all.skip(done)[0] == all[done]);
                    assert(all.contains(all[done]));
                    assert(all.skip(done).skip(1) == all.skip(done + 1));
                    assert(p@[0] <= tiles && p@[1] <= tiles && p@[2] <= tiles);
                    assert(p@[0] <= p@[1] && p@[1] <= p@[2]);
                }
                let ghost before = hands@;
                let q0 = p[0];
                let q1 = p[1] - p[0];
                let q2 = p[2] - p[1];
                if q0 <= q1 && q1 <= q2 {
                    let r = tiles - p[2];
                    fill_counts(&mut hands, su_memo, ji_memo, q0, q1, q2, r, Ghost(su@), Ghost(ji@));
                }
                proof {
                    assert(extends(before, hands@));
                    assert forall|k: int|
                        0 <= k < done + 1 && (#[trigger] all[k])[0] <= all[k][1] - all[k][0]
                            <= all[k][2] - all[k][1] implies covers_counts(
                        su@,
                        ji@,
                        hands@,
                        (
                            all[k][0] as int,
                            all[k][1] - all[k][0],
                            all[k][2] - all[k][1],
                            tiles - all[k][2],
                        ),
                    ) by {
                        if k < done {
                            lemma_extends_covers(
                                su@,
                                ji@,
                                before,
                                hands@,
                                (
                                    all[k][0] as int,
                                    all[k][1] - all[k][0],
                                    all[k][2] - all[k][1],
                                    tiles - all[k][2],
                                ),
                            );
                        }
                    }
                    done = done + 1;
                }
            },
            None => {
                break ;
            },
        }
    }
    let ghost pushed = hands@;
    normalize64(&mut hands);
    proof {
        assert forall|i: int| 0 <= i < hands@.len() implies key_wf(
            su@,
            ji@,
            #[trigger] hands@[i] as int,
            tiles as int,
        ) by {
            assert(hands@.contains(hands@[i]));
            assert(pushed.contains(hands@[i]));
        }
        assert forall|key: int| key_wf(su@, ji@, key, tiles as int) implies lists64(
            hands@,
            key,
        ) by {
            lemma_key_pushed(su@, ji@, pushed, all, key, tiles as int);
            assert(hands@.contains(key as u64));
            let m = choose|m: int| 0 <= m < hands@.len() && hands@[m] == key as u64;
            assert(hands@[m] == key);
        }
    }
    hands
}

/// A list that covers every ascending split of the hand size into three
/// suits and the honors holds every hand key of that size.
proof fn lemma_key_pushed(
    su: Seq<u32>,
    ji: Seq<u32>,
    pushed: Seq<u64>,
    all: Seq<Seq<usize>>,
    key: int,
    tiles: int,
)
    requires
        suited_table_wf(su),
        honor_table_wf(ji),
        0 <= tiles <= 14,
        key_wf(su, ji, key, tiles),
        forall|t: Seq<usize>| #[trigger] all.contains(t) <==> is_multichoice(t, tiles + 1, 3),
        forall|k: int|
            0 <= k < all.len() && (#[trigger] all[k])[0] <= all[k][1] - all[k][0] <= all[k][2]
                - all[k][1] ==> covers_counts(
                su,
                ji,
                pushed,
                (
                    all[k][0] as int,
                    all[k][1] - all[k][0],
                    all[k][2] - all[k][1],
                    tiles - all[k][2],
                ),
            ),
    ensures
        pushed.contains(key as u64),
        0 <= key <= u64::MAX,
{
    let a = key_part(key, 0);
    let b = key_part(key, 1);
    let c = key_part(key, 2);
    let j = key_honor(key);
    lemma_key_sorted(su, ji, key, tiles);
    let ca = suited_tiles(su, a);
    let cb = suited_tiles(su, b);
    let cc = suited_tiles(su, c);
    let r = honor_tiles(ji, j);
    lemma_tiles_nonneg(su, ji, a, b, c, j);
    let q0 = min3(ca, cb, cc);
    let q2 = max3(ca, cb, cc);
    let q1 = ca + cb + cc - q0 - q2;
    let k = lemma_cuts_listed(all, q0, q1, q2, tiles);
    assert(covers_counts(su, ji, pushed, (q0, q1, q2, r)));
    lemma_counts_covered(su, ji, pushed, a, b, c, j, (q0, q1, q2, r));
}

/// A hand key is the key of its own fields.
proof fn lemma_key_sorted(su: Seq<u32>, ji: Seq<u32>, key: int, tiles: int)
    requires
        su.len() <= 262144,
        ji.len() <= 512,
        key_wf(su, ji, key, tiles),
    ensures
        sorted_key(key_part(key, 0), key_part(key, 1), key_part(key, 2), key_honor(key)) == key,
        0 <= key <= u64::MAX,
        0 <= key_part(key, 0) <= key_part(key, 1) <= key_part(key, 2) < su.len(),
        0 <= key_honor(key) < ji.len(),
        suited_tiles(su, key_part(key, 0)) + suited_tiles(su, key_part(key, 1)) + suited_tiles(
            su,
            key_part(key, 2),
        ) + honor_tiles(ji, key_honor(key)) == tiles,
{
    let a = key_part(key, 0);
    let b = key_part(key, 1);
    let c = key_part(key, 2);
    let j = key_honor(key);
    lemma_pack_of_parts(key);
    lemma_sorted_key_wf(su, ji, a, b, c, j);
}

/// The enumeration of cut points lists the cuts of any ascending split.
proof fn lemma_cuts_listed(all: Seq<Seq<usize>>, q0: int, q1: int, q2: int, tiles: int) -> (k: int)
    requires
        0 <= q0 <= q1 <= q2,
        q0 + q1 + q2 <= tiles <= 14,
        forall|t: Seq<usize>| #[trigger] all.contains(t) <==> is_multichoice(t, tiles + 1, 3),
    ensures
        0 <= k < all.len(),
        all[k][0] == q0,
        all[k][1] == q0 + q1,
        all[k][2] == q0 + q1 + q2,
{
    let p = cuts_of(q0, q1, q2);
    assert(is_multichoice(p, tiles + 1, 3));
    assert(all.contains(p));
    choose|k: int| 0 <= k < all.len() && all[k] == p
}

/// A list that covers the tile counts of three suits in ascending order holds
/// the key of any three positions with these counts.
proof fn lemma_counts_covered(
    su: Seq<u32>,
    ji: Seq<u32>,
    pushed: Seq<u64>,
    a: int,
    b: int,
    c: int,
    j: int,
    q: (int, int, int, int),
)
    requires
        0 <= a < su.len(),
        0 <= b < su.len(),
        0 <= c < su.len(),
        0 <= j < ji.len(),
        q.0 == min3(suited_tiles(su, a), suited_tiles(su, b), suited_tiles(su, c)),
        q.2 == max3(suited_tiles(su, a), suited_tiles(su, b), suited_tiles(su, c)),
        q.1 == suited_tiles(su, a) + suited_tiles(su, b) + suited_tiles(su, c) - q.0 - q.2,
        q.3 == honor_tiles(ji, j),
        covers_counts(su, ji, pushed, q),
    ensures
        has_key(pushed, a, b, c, j),
{
    let ca = suited_tiles(su, a);
    let cb = suited_tiles(su, b);
    let cc = suited_tiles(su, c);
    lemma_has_key_any_order(pushed, a, b, c, j);
    if ca <= cb && cb <= cc {
        assert(has_key(pushed, a, b, c, j));
    } else if ca <= cc && cc <= cb {
        assert(has_key(pushed, a, c, b, j));
    } else if cb <= ca && ca <= cc {
        assert(has_key(pushed, b, a, c, j));
    } else if cb <= cc && cc <= ca {
        assert(has_key(pushed, b, c, a, j));
    } else if cc <= ca && ca <= cb {
        assert(has_key(pushed, c, a, b, j));
    } else {
        assert(has_key(pushed, c, b, a, j));
    }
}

/// Patterns hold no negative number of tiles.
proof fn lemma_tiles_nonneg(su: Seq<u32>, ji: Seq<u32>, a: int, b: int, c: int, j: int)
    ensures
        suited_tiles(su, a) >= 0,
        suited_tiles(su, b) >= 0,
        suited_tiles(su, c) >= 0,
        honor_tiles(ji, j) >= 0,
{
}

/// Every entry is smaller than the entries after it.
pub open spec fn ascending(s: Seq<int>) -> bool {
    forall|i: int, j: int| 0 <= i < j < s.len() ==> s[i] < s[j]
}

/// In an ascending list that holds every value of another ascending list,
/// a value stands no earlier than in the other list.
pub proof fn lemma_position_lower(a: Seq<int>, b: Seq<int>, i: int) -> (j: int)
    requires
        ascending(a),
        ascending(b),
        forall|k: int| 0 <= k < a.len() ==> b.contains(#[trigger] a[k]),
        0 <= i < a.len(),
    ensures
        i <= j < b.len(),
        b[j] == a[i],
    decreases i,
{
    assert(b.contains(a[i]));
    let j = choose|j: int| 0 <= j < b.len() && b[j] == a[i];
    if i > 0 {
        let jp = lemma_position_lower(a, b, i - 1);
        assert(a[i - 1] < a[i]);
        if j <= jp {
            if j < jp {
                assert(b[j] < b[jp]);
            }
        }
    }
    j
}

/// Two ascending lists that hold the same values are the same list.
pub proof fn lemma_ascending_unique(a: Seq<int>, b: Seq<int>)
    requires
        ascending(a),
        ascending(b),
        forall|x: int| a.contains(x) <==> b.contains(x),
    ensures
        a == b,
{
    assert forall|k: int| 0 <= k < a.len() implies b.contains(#[trigger] a[k]) by {
        assert(a.contains(a[k]));
    }
    assert forall|k: int| 0 <= k < b.len() implies a.contains(#[trigger] b[k]) by {
        assert(b.contains(b[k]));
    }
    if a.len() > 0 {
        let j = lemma_position_lower(a, b, a.len() - 1);
    }
    if b.len() > 0 {
        let j = lemma_position_lower(b, a, b.len() - 1);
    }
    assert(a.len() == b.len());
    assert forall|i: int| 0 <= i < a.len() implies a[i] == b[i] by {
        let j = lemma_position_lower(a, b, i);
        let k = lemma_position_lower(b, a, i);
        if i < j {
            assert(b[i] < b[j]);
            assert(b[i] < a[i]);
            if i < k {
                assert(a[i] < a[k]);
            }
        }
    }
    assert(a =~= b);
}

/// A table as a list of numbers without a bound.
pub open spec fn ints32(s: Seq<u32>) -> Seq<int> {
    Seq::new(s.len(), |i: int| s[i] as int)
}

/// A table as a list of numbers without a bound.
pub open spec fn ints64(s: Seq<u64>) -> Seq<int> {
    Seq::new(s.len(), |i: int| s[i] as int)
}

/// Two ascending tables that list the same values are the same table.
pub proof fn lemma_table_unique32(a: Seq<u32>, b: Seq<u32>)
    requires
        ascending32(a),
        ascending32(b),
        forall|x: int| lists32(a, x) <==> lists32(b, x),
    ensures
        a == b,
{
    let ia = ints32(a);
    let ib = ints32(b);
    assert forall|x: int| ia.contains(x) <==> ib.contains(x) by {
        if ia.contains(x) {
            let i = choose|i: int| 0 <= i < ia.len() && ia[i] == x;
            assert(a[i] == x);
            assert(lists32(a, x));
            let j = choose|j: int| 0 <= j < b.len() && b[j] == x;
            assert(ib[j] == x);
        }
        if ib.contains(x) {
            let i = choose|i: int| 0 <= i < ib.len() && ib[i] == x;
            assert(b[i] == x);
            assert(lists32(b, x));
            let j = choose|j: int| 0 <= j < a.len() && a[j] == x;
            assert(ia[j] == x);
        }
    }
    lemma_ascending_unique(ia, ib);
    assert forall|i: int| 0 <= i < a.len() implies a[i] == b[i] by {
        assert(ia[i] == ib[i]);
    }
    assert(a =~= b);
}

/// Two ascending tables that list the same values are the same table.
pub proof fn lemma_table_unique64(a: Seq<u64>, b: Seq<u64>)
    requires
        ascending64(a),
        ascending64(b),
        forall|x: int| lists64(a, x) <==> lists64(b, x),
    ensures
        a == b,
{
    let ia = ints64(a);
    let ib = ints64(b);
    assert forall|x: int| ia.contains(x) <==> ib.contains(x) by {
        if ia.contains(x) {
            let i = choose|i: int| 0 <= i < ia.len() && ia[i] == x;
            assert(a[i] == x);
            assert(lists64(a, x));
            let j = choose|j: int| 0 <= j < b.len() && b[j] == x;
            assert(ib[j] == x);
        }
        if ib.contains(x) {
            let i = choose|i: int| 0 <= i < ib.len() && ib[i] == x;
            assert(b[i] == x);
            assert(lists64(b, x));
            let j = choose|j: int| 0 <= j < a.len() && a[j] == x;
            assert(ia[j] == x);
        }
    }
    lemma_ascending_unique(ia, ib);
    assert forall|i: int| 0 <= i < a.len() implies a[i] == b[i] by {
        assert(ia[i] == ib[i]);
    }
    assert(a =~= b);
}

/// The tables of a well-formed and complete converter are the ascending
/// tables of all suit codes, of all honor codes, and of all hand keys of 13
/// and of 14 tiles: there is one such converter.
pub proof fn lemma_converter_unique(
    conv: HandConverter,
    su: Seq<u32>,
    ji: Seq<u32>,
    hand13: Seq<u64>,
    hand14: Seq<u64>,
)
    requires
        conv.wf(),
        conv.is_complete(),
        ascending32(su),
        forall|i: int| 0 <= i < su.len() ==> is_suit_code(#[trigger] su[i] as int),
        suited_table_complete(su),
        ascending32(ji),
        forall|i: int| 0 <= i < ji.len() ==> is_honor_code(#[trigger] ji[i] as int),
        honor_table_complete(ji),
    ensures
        conv.suited_table() == su,
        conv.honor_table() == ji,
        ascending64(hand13) && keys_wf(su, ji, hand13, 13) && hand_table_complete(
            su,
            ji,
            hand13,
            13,
        ) ==> conv.hand13_table() == hand13,
        ascending64(hand14) && keys_wf(su, ji, hand14, 14) && hand_table_complete(
            su,
            ji,
            hand14,
            14,
        ) ==> conv.hand14_table() == hand14,
{
    reveal(HandConverter::wf);
    reveal(HandConverter::is_complete);
    let csu = conv.suited_table();
    let cji = conv.honor_table();
    assert forall|x: int| lists32(csu, x) <==> lists32(su, x) by {
        if lists32(csu, x) {
            let i = choose|i: int| 0 <= i < csu.len() && csu[i] == x;
            assert(is_suit_code(csu[i] as int));
        }
        if lists32(su, x) {
            let i = choose|i: int| 0 <= i < su.len() && su[i] == x;
            assert(is_suit_code(su[i] as int));
        }
    }
    lemma_table_unique32(csu, su);
    assert forall|x: int| lists32(cji, x) <==> lists32(ji, x) by {
        if lists32(cji, x) {
            let i = choose|i: int| 0 <= i < cji.len() && cji[i] == x;
            assert(is_honor_code(cji[i] as int));
        }
        if lists32(ji, x) {
            let i = choose|i: int| 0 <= i < ji.len() && ji[i] == x;
            assert(is_honor_code(ji[i] as int));
        }
    }
    lemma_table_unique32(cji, ji);
    if ascending64(hand13) && keys_wf(su, ji, hand13, 13) && hand_table_complete(
        su,
        ji,
        hand13,
        13,
    ) {
        let c13 = conv.hand13_table();
        assert forall|x: int| lists64(c13, x) <==> lists64(hand13, x) by {
            if lists64(c13, x) {
                let i = choose|i: int| 0 <= i < c13.len() && c13[i] == x;
                assert(key_wf(su, ji, c13[i] as int, 13));
            }
            if lists64(hand13, x) {
                let i = choose|i: int| 0 <= i < hand13.len() && hand13[i] == x;
                assert(key_wf(su, ji, hand13[i] as int, 13));
            }
        }
        lemma_table_unique64(c13, hand13);
    }
    if ascending64(hand14) && keys_wf(su, ji, hand14, 14) && hand_table_complete(
        su,
        ji,
        hand14,
        14,
    ) {
        let c14 = conv.hand14_table();
        assert forall|x: int| lists64(c14, x) <==> lists64(hand14, x) by {
            if lists64(c14, x) {
                let i = choose|i: int| 0 <= i < c14.len() && c14[i] == x;
                assert(key_wf(su, ji, c14[i] as int, 14));
            }
            if lists64(hand14, x) {
                let i = choose|i: int| 0 <= i < hand14.len() && hand14[i] == x;
                assert(key_wf(su, ji, hand14[i] as int, 14));
            }
        }
        lemma_table_unique64(c14, hand14);
    }
}

/// Number of suit patterns in the suited table.
pub const NUM_SUITED: usize = 203122;

/// Number of honor patterns in the honor table.
pub const NUM_HONOR: usize = 177;

/// Whether a converter is the one that numbers every hand of 13 and of 14
/// tiles, with tables of the sizes that the constants name.
pub open spec fn is_full_converter(conv: HandConverter) -> bool {
    &&& conv.wf()
    &&& conv.is_complete()
    &&& conv.suited_table().len() == NUM_SUITED
    &&& conv.honor_table().len() == NUM_HONOR
    &&& conv.hand13_table().len() == NUM_HAND13
    &&& conv.hand14_table().len() == NUM_HAND14
}

impl HandConverter {
    /// The converter that numbers every hand of 13 and of 14 tiles.
    ///
    /// The tables are built from scratch: the suit patterns, the honor
    /// patterns, and for both hand sizes every choice of three suit patterns
    /// and one honor pattern that adds up to the size. `None` comes back
    /// where a table does not have the size that the constants
    /// [`NUM_SUITED`], [`NUM_HONOR`], [`NUM_HAND13`] and [`NUM_HAND14`]
    /// expect of it; then no such converter exists.
    pub fn new() -> (r: Option<HandConverter>)
        ensures
            match r {
                Some(conv) => is_full_converter(conv),
                None => forall|conv: HandConverter| !is_full_converter(conv),
            },
    {
        let su = build_suited_lookup();
        let ji = build_honor_lookup();
        if su.len() != NUM_SUITED || ji.len() != NUM_HONOR {
            proof {
                assert forall|conv: HandConverter| !is_full_converter(conv) by {
                    if is_full_converter(conv) {
                        lemma_converter_unique(conv, su@, ji@, Seq::empty(), Seq::empty());
                    }
                }
            }
            return None;
        }
        let su_memo = suited_buckets(&su);
        let ji_memo = honor_buckets(&ji);
        let hand13 = build_hand_lookup(&su, &ji, &su_memo, &ji_memo, 13);
        let hand14 = build_hand_lookup(&su, &ji, &su_memo, &ji_memo, 14);
        if hand13.len() != NUM_HAND13 || hand14.len() != NUM_HAND14 {
            proof {
                assert forall|conv: HandConverter| !is_full_converter(conv) by {
                    if is_full_converter(conv) {
                        lemma_converter_unique(conv, su@, ji@, hand13@, hand14@);
                    }
                }
            }
            return None;
        }
        let conv = HandConverter::from_tables(su, ji, hand13, hand14);
        proof {
            reveal(HandConverter::is_complete);
        }
        Some(conv)
    }
}

} // verus!
