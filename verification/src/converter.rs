use crate::hand::{honor_total, honor_wf, suit_total, suit_wf, Hand, HandView};
use crate::octal::{
    from_octal, honor_code, honor_digits, lemma_honor_code_of_digits, lemma_honor_digits_of_code,
    lemma_octal_digits_honor, lemma_octal_digits_suit, lemma_octal_value_honor,
    lemma_octal_value_suit, lemma_reversed_twice, lemma_suit_code_of_digits,
    lemma_suit_digits_of_code, reversed, suit_code, suit_digits, to_octal, to_octal_rev,
};
use crate::search::{ascending32, ascending64, find32, find64};
use vstd::prelude::*;

verus! {

/// A packed suit pattern that the suited table lists: nine counts of at most
/// four, at most fourteen tiles, and not larger than its own mirror image.
pub open spec fn is_suit_code(x: int) -> bool {
    &&& 0 <= x < 134217728
    &&& suit_wf(suit_digits(x))
    &&& suit_total(suit_digits(x)) <= 14
    &&& x <= suit_code(reversed(suit_digits(x)))
}

/// A packed honor pattern that the honor table lists: five buckets that
/// account for the seven kinds and hold at most fourteen tiles.
pub open spec fn is_honor_code(x: int) -> bool {
    &&& 0 <= x < 32768
    &&& honor_wf(honor_digits(x))
    &&& honor_total(honor_digits(x)) <= 14
}

/// The smaller of the codes of a suit pattern and of its mirror image.
pub open spec fn canon_code(s: Seq<u8>) -> int {
    let p = suit_code(s);
    let q = suit_code(reversed(s));
    if p <= q {
        p
    } else {
        q
    }
}

/// Whether a suit pattern is larger than its mirror image, so that the
/// mirror image stands for it.
pub open spec fn is_flipped(s: Seq<u8>) -> bool {
    suit_code(s) > suit_code(reversed(s))
}

/// A suit pattern as its canonical stand-in shows it.
pub open spec fn oriented(s: Seq<u8>, flip: bool) -> Seq<u8> {
    if flip {
        reversed(s)
    } else {
        s
    }
}

/// The `c`-th suited field of a hand key, 18 bits wide, lowest first.
pub open spec fn key_part(key: int, c: int) -> int {
    if c == 0 {
        key % 262144
    } else if c == 1 {
        (key / 262144) % 262144
    } else {
        (key / 262144 / 262144) % 262144
    }
}

/// The honor field of a hand key: what lies above the three suited fields.
pub open spec fn key_honor(key: int) -> int {
    key / 262144 / 262144 / 262144
}

/// The hand key with the given suited fields, lowest first, and honor field.
pub open spec fn pack_key(a: int, b: int, c: int, j: int) -> int {
    ((j * 262144 + c) * 262144 + b) * 262144 + a
}

/// Position of a value in a table that lists it.
pub open spec fn index_of32(table: Seq<u32>, x: int) -> int {
    choose|i: int| 0 <= i < table.len() && table[i] == x
}

/// Position of a value in a table that lists it.
pub open spec fn index_of64(table: Seq<u64>, x: int) -> int {
    choose|i: int| 0 <= i < table.len() && table[i] == x
}

/// Whether a table lists a value.
pub open spec fn lists32(table: Seq<u32>, x: int) -> bool {
    exists|i: int| 0 <= i < table.len() && table[i] == x
}

/// Whether a table lists a value.
pub open spec fn lists64(table: Seq<u64>, x: int) -> bool {
    exists|i: int| 0 <= i < table.len() && table[i] == x
}

/// Whether a number is a suit code.
pub fn check_suit_code(x: u32) -> (ok: bool)
    ensures
        ok == is_suit_code(x as int),
{
    if x >= 134217728 {
        return false;
    }
    let d = from_octal::<9>(x);
    proof {
        lemma_octal_digits_suit(x as int);
        assert(d@ =~= suit_digits(x as int));
        lemma_suit_code_of_digits(x as int);
        lemma_octal_value_suit(d@.reverse());
    }
    let mut total: usize = 0;
    for i in 0..9usize
        invariant
            d@ == suit_digits(x as int),
            forall|k: int| 0 <= k < i ==> #[trigger] d@[k] <= 4,
            total <= 4 * i,
            total == (if i > 0 {
                d@[0] as int
            } else {
                0
            }) + (if i > 1 {
                d@[1] as int
            } else {
                0
            }) + (if i > 2 {
                d@[2] as int
            } else {
                0
            }) + (if i > 3 {
                d@[3] as int
            } else {
                0
            }) + (if i > 4 {
                d@[4] as int
            } else {
                0
            }) + (if i > 5 {
                d@[5] as int
            } else {
                0
            }) + (if i > 6 {
                d@[6] as int
            } else {
                0
            }) + (if i > 7 {
                d@[7] as int
            } else {
                0
            }) + (if i > 8 {
                d@[8] as int
            } else {
                0
            }),
    {
        if d[i] > 4 {
            assert(!(suit_digits(x as int)[i as int] <= 4));
            return false;
        }
        total += d[i] as usize;
    }
    if total > 14 {
        return false;
    }
    let y = to_octal_rev(d.as_slice());
    x <= y
}

/// Whether a number is an honor code.
pub fn check_honor_code(x: u32) -> (ok: bool)
    ensures
        ok == is_honor_code(x as int),
{
    if x >= 32768 {
        return false;
    }
    let d = from_octal::<5>(x);
    proof {
        lemma_octal_digits_honor(x as int);
        assert(d@ =~= honor_digits(x as int));
        assert forall|i: int| 0 <= i < 5 implies #[trigger] d@[i] < 8 by {
            assert(d@[i] == crate::octal::octal_digit(x as int, (4 - i) as nat));
        }
    }
    let kinds = d[0] as usize + d[1] as usize + d[2] as usize + d[3] as usize + d[4] as usize;
    let tiles = d[1] as usize + 2 * (d[2] as usize) + 3 * (d[3] as usize) + 4 * (d[4] as usize);
    kinds == 7 && tiles <= 14
}

/// Whether every entry of a table is smaller than the next.
pub fn check_ascending32(table: &Vec<u32>) -> (ok: bool)
    ensures
        ok == ascending32(table@),
{
    if table.len() == 0 {
        return true;
    }
    for i in 0..table.len() - 1
        invariant
            table@.len() > 0,
            forall|a: int, b: int| 0 <= a < b <= i ==> table@[a] < table@[b],
    {
        if table[i] >= table[i + 1] {
            return false;
        }
        proof {
            assert forall|a: int, b: int| 0 <= a < b <= i + 1 implies table@[a] < table@[b] by {
                if b == i + 1 && a < i {
                    assert(table@[a] < table@[i as int]);
                }
            }
        }
    }
    true
}

/// Whether every entry of a table is smaller than the next.
pub fn check_ascending64(table: &Vec<u64>) -> (ok: bool)
    ensures
        ok == ascending64(table@),
{
    if table.len() == 0 {
        return true;
    }
    for i in 0..table.len() - 1
        invariant
            table@.len() > 0,
            forall|a: int, b: int| 0 <= a < b <= i ==> table@[a] < table@[b],
    {
        if table[i] >= table[i + 1] {
            return false;
        }
        proof {
            assert forall|a: int, b: int| 0 <= a < b <= i + 1 implies table@[a] < table@[b] by {
                if b == i + 1 && a < i {
                    assert(table@[a] < table@[i as int]);
                }
            }
        }
    }
    true
}

/// Whether a table is an ascending table of suit codes.
pub fn check_suited_table(su: &Vec<u32>) -> (ok: bool)
    ensures
        ok == suited_table_wf(su@),
{
    if su.len() > 262144 || !check_ascending32(su) {
        return false;
    }
    for i in 0..su.len()
        invariant
            forall|k: int| 0 <= k < i ==> is_suit_code(#[trigger] su@[k] as int),
    {
        if !check_suit_code(su[i]) {
            return false;
        }
    }
    true
}

/// Whether a table is an ascending table of honor codes.
pub fn check_honor_table(ji: &Vec<u32>) -> (ok: bool)
    ensures
        ok == honor_table_wf(ji@),
{
    if ji.len() > 512 || !check_ascending32(ji) {
        return false;
    }
    for i in 0..ji.len()
        invariant
            forall|k: int| 0 <= k < i ==> is_honor_code(#[trigger] ji@[k] as int),
    {
        if !check_honor_code(ji[i]) {
            return false;
        }
    }
    true
}

/// Number of tiles of a packed suit pattern.
pub fn suit_code_tiles(code: u32) -> (n: usize)
    ensures
        n == suit_total(suit_digits(code as int)),
        n <= 63,
{
    let d = from_octal::<9>(code);
    proof {
        lemma_octal_digits_suit(code as int);
        assert(d@ =~= suit_digits(code as int));
        assert forall|i: int| 0 <= i < 9 implies #[trigger] d@[i] < 8 by {
            assert(d@[i] == crate::octal::octal_digit(code as int, (8 - i) as nat));
        }
    }
    d[0] as usize + d[1] as usize + d[2] as usize + d[3] as usize + d[4] as usize + d[5] as usize
        + d[6] as usize + d[7] as usize + d[8] as usize
}

/// Number of tiles of a packed honor pattern.
pub fn honor_code_tiles(code: u32) -> (n: usize)
    ensures
        n == honor_total(honor_digits(code as int)),
        n <= 70,
{
    let d = from_octal::<5>(code);
    proof {
        lemma_octal_digits_honor(code as int);
        assert(d@ =~= honor_digits(code as int));
        assert forall|i: int| 0 <= i < 5 implies #[trigger] d@[i] < 8 by {
            assert(d@[i] == crate::octal::octal_digit(code as int, (4 - i) as nat));
        }
    }
    d[1] as usize + 2 * (d[2] as usize) + 3 * (d[3] as usize) + 4 * (d[4] as usize)
}

/// Whether a number is a hand key of the stated hand size over two pattern
/// tables.
pub fn check_key(su: &Vec<u32>, ji: &Vec<u32>, key: u64, tiles: usize) -> (ok: bool)
    ensures
        ok == key_wf(su@, ji@, key as int, tiles as int),
{
    assert(key & 0x3ffff == key % 262144) by (bit_vector);
    assert((key >> 18) & 0x3ffff == (key / 262144) % 262144) by (bit_vector);
    assert((key >> 18 >> 18) & 0x3ffff == (key / 262144 / 262144) % 262144) by (bit_vector);
    assert(key >> 18 >> 18 >> 18 == key / 262144 / 262144 / 262144) by (bit_vector);
    let a = (key & 0x3ffff) as usize;
    let b = ((key >> 18) & 0x3ffff) as usize;
    let c = ((key >> 18 >> 18) & 0x3ffff) as usize;
    let j = (key >> 18 >> 18 >> 18) as usize;
    if !(a <= b && b <= c && c < su.len() && j < ji.len()) {
        return false;
    }
    suit_code_tiles(su[a]) + suit_code_tiles(su[b]) + suit_code_tiles(su[c]) + honor_code_tiles(
        ji[j],
    ) == tiles
}

/// Whether a table is an ascending table of hand keys of the stated hand size.
pub fn check_hand_table(su: &Vec<u32>, ji: &Vec<u32>, table: &Vec<u64>, tiles: usize) -> (ok: bool)
    ensures
        ok == hand_table_wf(su@, ji@, table@, tiles as int),
{
    if table.len() > 0xffff_ffff || !check_ascending64(table) {
        return false;
    }
    for i in 0..table.len()
        invariant
            forall|k: int|
                0 <= k < i ==> key_wf(su@, ji@, #[trigger] table@[k] as int, tiles as int),
    {
        if !check_key(su, ji, table[i], tiles) {
            return false;
        }
    }
    true
}

/// An ascending table lists a value at one position only.
pub proof fn lemma_index_unique32(table: Seq<u32>, x: int, i: int)
    requires
        ascending32(table),
        0 <= i < table.len(),
        table[i] == x,
    ensures
        index_of32(table, x) == i,
        lists32(table, x),
{
    let j = index_of32(table, x);
    assert(0 <= j < table.len() && table[j] == x);
    if j < i {
        assert(table[j] < table[i]);
    } else if i < j {
        assert(table[i] < table[j]);
    }
}

/// An ascending table lists a value at one position only.
pub proof fn lemma_index_unique64(table: Seq<u64>, x: int, i: int)
    requires
        ascending64(table),
        0 <= i < table.len(),
        table[i] == x,
    ensures
        index_of64(table, x) == i,
        lists64(table, x),
{
    let j = index_of64(table, x);
    assert(0 <= j < table.len() && table[j] == x);
    if j < i {
        assert(table[j] < table[i]);
    } else if i < j {
        assert(table[i] < table[j]);
    }
}

/// An ascending table of suit codes.
pub open spec fn suited_table_wf(su: Seq<u32>) -> bool {
    &&& ascending32(su)
    &&& su.len() <= 262144
    &&& forall|i: int| 0 <= i < su.len() ==> is_suit_code(#[trigger] su[i] as int)
}

/// An ascending table of honor codes.
pub open spec fn honor_table_wf(ji: Seq<u32>) -> bool {
    &&& ascending32(ji)
    &&& ji.len() <= 512
    &&& forall|i: int| 0 <= i < ji.len() ==> is_honor_code(#[trigger] ji[i] as int)
}

/// Number of tiles of the suit pattern at a position of the suited table.
pub open spec fn suited_tiles(su: Seq<u32>, i: int) -> int {
    suit_total(suit_digits(su[i] as int))
}

/// Number of tiles of the honor pattern at a position of the honor table.
pub open spec fn honor_tiles(ji: Seq<u32>, j: int) -> int {
    honor_total(honor_digits(ji[j] as int))
}

/// A hand key over the two pattern tables: three ascending positions of the
/// suited table, a position of the honor table, and the stated tile total.
pub open spec fn key_wf(su: Seq<u32>, ji: Seq<u32>, key: int, tiles: int) -> bool {
    let a = key_part(key, 0);
    let b = key_part(key, 1);
    let c = key_part(key, 2);
    let j = key_honor(key);
    &&& 0 <= key
    &&& a <= b <= c < su.len()
    &&& j < ji.len()
    &&& suited_tiles(su, a) + suited_tiles(su, b) + suited_tiles(su, c) + honor_tiles(ji, j)
        == tiles
}

/// An ascending table of hand keys for one hand size.
pub open spec fn hand_table_wf(su: Seq<u32>, ji: Seq<u32>, table: Seq<u64>, tiles: int) -> bool {
    &&& ascending64(table)
    &&& table.len() <= u32::MAX
    &&& forall|i: int| 0 <= i < table.len() ==> key_wf(su, ji, #[trigger] table[i] as int, tiles)
}

/// A suited table that lists every suit code.
pub open spec fn suited_table_complete(su: Seq<u32>) -> bool {
    forall|x: int| is_suit_code(x) ==> lists32(su, x)
}

/// An honor table that lists every honor code.
pub open spec fn honor_table_complete(ji: Seq<u32>) -> bool {
    forall|x: int| is_honor_code(x) ==> lists32(ji, x)
}

/// A table that lists every hand key of one hand size.
pub open spec fn hand_table_complete(su: Seq<u32>, ji: Seq<u32>, table: Seq<u64>, tiles: int) -> bool {
    forall|k: int| key_wf(su, ji, k, tiles) ==> lists64(table, k)
}

/// Order of the per-suit entries `(table position, sign)`: by position, and
/// among equal positions by sign.
pub open spec fn entry_lt(a: (int, int), b: (int, int)) -> bool {
    a.0 < b.0 || (a.0 == b.0 && a.1 < b.1)
}

/// Number of entries among three that come before a given one.
pub open spec fn rank3(e0: (int, int), e1: (int, int), e2: (int, int), e: (int, int)) -> int {
    (if entry_lt(e0, e) {
        1int
    } else {
        0int
    }) + (if entry_lt(e1, e) {
        1int
    } else {
        0int
    }) + (if entry_lt(e2, e) {
        1int
    } else {
        0int
    })
}

/// The mathematical value of an entry.
pub open spec fn entry_view(e: (u64, i8)) -> (int, int) {
    (e.0 as int, e.1 as int)
}

/// Three entries with different signs in ascending order.
fn sort_entries(e0: (u64, i8), e1: (u64, i8), e2: (u64, i8)) -> (out: [(u64, i8); 3])
    requires
        e0.1 != e1.1,
        e0.1 != e2.1,
        e1.1 != e2.1,
    ensures
        out[rank3(entry_view(e0), entry_view(e1), entry_view(e2), entry_view(e0))] == e0,
        out[rank3(entry_view(e0), entry_view(e1), entry_view(e2), entry_view(e1))] == e1,
        out[rank3(entry_view(e0), entry_view(e1), entry_view(e2), entry_view(e2))] == e2,
        out[0].0 == min3(e0.0 as int, e1.0 as int, e2.0 as int),
        out[2].0 == max3(e0.0 as int, e1.0 as int, e2.0 as int),
        out[0].0 + out[1].0 + out[2].0 == e0.0 + e1.0 + e2.0,
{
    let mut a = e0;
    let mut b = e1;
    let mut c = e2;
    if b.0 < a.0 || (b.0 == a.0 && b.1 < a.1) {
        let t = a;
        a = b;
        b = t;
    }
    if c.0 < b.0 || (c.0 == b.0 && c.1 < b.1) {
        let t = b;
        b = c;
        c = t;
    }
    if b.0 < a.0 || (b.0 == a.0 && b.1 < a.1) {
        let t = a;
        a = b;
        b = t;
    }
    [a, b, c]
}

/// The key with three positions of the suited table in ascending order.
pub open spec fn sorted_key(a: int, b: int, c: int, j: int) -> int {
    pack_key(min3(a, b, c), a + b + c - min3(a, b, c) - max3(a, b, c), max3(a, b, c), j)
}

/// The key of three positions of the suited table, in any order, and a
/// position of the honor table.
pub(crate) fn key_of(a: u64, b: u64, c: u64, j: u64) -> (key: u64)
    requires
        a < 262144,
        b < 262144,
        c < 262144,
        j < 512,
    ensures
        key == sorted_key(a as int, b as int, c as int, j as int),
{
    let mut a = a;
    let mut b = b;
    let mut c = c;
    if b < a {
        let t = a;
        a = b;
        b = t;
    }
    if c < b {
        let t = b;
        b = c;
        c = t;
    }
    if b < a {
        let t = a;
        a = b;
        b = t;
    }
    pack(a, b, c, j)
}

/// The entry of the translation for a suit: the suit itself, or `-1` less
/// the suit where the mirror image of its pattern stands for it.
pub open spec fn sign_of(suit: int, flip: bool) -> int {
    if flip {
        -1 - suit
    } else {
        suit
    }
}

/// The key and the translation of a hand from the table positions of its
/// three suits, in suit order, and of its honor vector.
fn assemble(i0: u64, f0: bool, i1: u64, f1: bool, i2: u64, f2: bool, j: u64) -> (r: (
    u64,
    [i8; 3],
))
    requires
        i0 < 262144,
        i1 < 262144,
        i2 < 262144,
        j < 512,
    ensures
        r.0 == pack_key(
            min3(i0 as int, i1 as int, i2 as int),
            i0 + i1 + i2 - min3(i0 as int, i1 as int, i2 as int) - max3(
                i0 as int,
                i1 as int,
                i2 as int,
            ),
            max3(i0 as int, i1 as int, i2 as int),
            j as int,
        ),
        ({
            let e0 = (i0 as int, sign_of(0, f0));
            let e1 = (i1 as int, sign_of(1, f1));
            let e2 = (i2 as int, sign_of(2, f2));
            &&& r.1[rank3(e0, e1, e2, e0)] == e0.1
            &&& r.1[rank3(e0, e1, e2, e1)] == e1.1
            &&& r.1[rank3(e0, e1, e2, e2)] == e2.1
        }),
{
    let s0: i8 = if f0 {
        -1
    } else {
        0
    };
    let s1: i8 = if f1 {
        -2
    } else {
        1
    };
    let s2: i8 = if f2 {
        -3
    } else {
        2
    };
    let sorted = sort_entries((i0, s0), (i1, s1), (i2, s2));
    let key = pack(sorted[0].0, sorted[1].0, sorted[2].0, j);
    (key, [sorted[0].1, sorted[1].1, sorted[2].1])
}

/// The smallest of three numbers.
pub open spec fn min3(a: int, b: int, c: int) -> int {
    if a <= b && a <= c {
        a
    } else if b <= c {
        b
    } else {
        c
    }
}

/// The largest of three numbers.
pub open spec fn max3(a: int, b: int, c: int) -> int {
    if a >= b && a >= c {
        a
    } else if b >= c {
        b
    } else {
        c
    }
}

/// Packs three positions of the suited table, lowest first, and a position
/// of the honor table into a hand key.
pub(crate) fn pack(a: u64, b: u64, c: u64, j: u64) -> (key: u64)
    requires
        a < 262144,
        b < 262144,
        c < 262144,
        j < 512,
    ensures
        key == pack_key(a as int, b as int, c as int, j as int),
        key < 0x8000_0000_0000_0000,
{
    assert((((((j << 18) | c) << 18) | b) << 18) | a == ((j * 262144 + c) * 262144 + b) * 262144
        + a) by (bit_vector)
        requires
            a < 262144,
            b < 262144,
            c < 262144,
            j < 512,
    ;
    let mut key = j;
    key <<= 18;
    key |= c;
    key <<= 18;
    key |= b;
    key <<= 18;
    key |= a;
    key
}

/// The fields of a key, packed again, give the key.
pub proof fn lemma_pack_of_parts(key: int)
    requires
        0 <= key,
    ensures
        pack_key(key_part(key, 0), key_part(key, 1), key_part(key, 2), key_honor(key)) == key,
{
    let k1 = key / 262144;
    let k2 = k1 / 262144;
    let k3 = k2 / 262144;
    assert(key == k1 * 262144 + key % 262144);
    assert(k1 == k2 * 262144 + k1 % 262144);
    assert(k2 == k3 * 262144 + k2 % 262144);
}

/// A packed key has the fields it was packed from.
pub proof fn lemma_parts_of_pack(a: int, b: int, c: int, j: int)
    requires
        0 <= a < 262144,
        0 <= b < 262144,
        0 <= c < 262144,
        0 <= j,
    ensures
        key_part(pack_key(a, b, c, j), 0) == a,
        key_part(pack_key(a, b, c, j), 1) == b,
        key_part(pack_key(a, b, c, j), 2) == c,
        key_honor(pack_key(a, b, c, j)) == j,
        0 <= pack_key(a, b, c, j),
{
    let k3 = j;
    let k2 = k3 * 262144 + c;
    let k1 = k2 * 262144 + b;
    let k0 = k1 * 262144 + a;
    assert(k0 / 262144 == k1 && k0 % 262144 == a);
    assert(k1 / 262144 == k2 && k1 % 262144 == b);
    assert(k2 / 262144 == k3 && k2 % 262144 == c);
}

/// Two hands that differ by a permutation of the suits and by reading some
/// suits from the highest rank down.
pub open spec fn symmetric(a: HandView, b: HandView) -> bool {
    &&& a.jihai == b.jihai
    &&& exists|p: Seq<int>, f: Seq<bool>|
        {
            &&& p.len() == 3 && f.len() == 3
            &&& 0 <= p[0] < 3 && 0 <= p[1] < 3 && 0 <= p[2] < 3
            &&& p[0] != p[1] && p[0] != p[2] && p[1] != p[2]
            &&& b.supai[0] == oriented(a.supai[p[0]], f[0])
            &&& b.supai[1] == oriented(a.supai[p[1]], f[1])
            &&& b.supai[2] == oriented(a.supai[p[2]], f[2])
        }
}

/// The tables that number the hands of 13 and of 14 tiles up to symmetry.
///
/// # Suited table
/// Every suit pattern of at most fourteen tiles that is not larger than its
/// mirror image, packed three bits per rank, in ascending order.
///
/// # Honor table
/// Every honor multiplicity vector of at most fourteen tiles, packed three
/// bits per bucket, in ascending order.
///
/// # Hand keys
/// * bits 0-17: smallest position in the suited table
/// * bits 18-35: middle position
/// * bits 36-53: largest position
/// * bits 54-62: position in the honor table
#[derive(PartialEq, Debug)]
pub struct HandConverter {
    su_lookup: Vec<u32>,
    ji_lookup: Vec<u32>,
    hand13_lookup: Vec<u64>,
    hand14_lookup: Vec<u64>,
}

impl HandConverter {
    /// The suited table.
    pub closed spec fn suited_table(&self) -> Seq<u32> {
        self.su_lookup@
    }

    /// The honor table.
    pub closed spec fn honor_table(&self) -> Seq<u32> {
        self.ji_lookup@
    }

    /// The keys of the hands of 13 tiles, by number.
    pub closed spec fn hand13_table(&self) -> Seq<u64> {
        self.hand13_lookup@
    }

    /// The keys of the hands of 14 tiles, by number.
    pub closed spec fn hand14_table(&self) -> Seq<u64> {
        self.hand14_lookup@
    }

    /// The tables are ascending and list only what belongs in them.
    #[verifier::opaque]
    pub open spec fn wf(&self) -> bool {
        &&& suited_table_wf(self.suited_table())
        &&& honor_table_wf(self.honor_table())
        &&& hand_table_wf(self.suited_table(), self.honor_table(), self.hand13_table(), 13)
        &&& hand_table_wf(self.suited_table(), self.honor_table(), self.hand14_table(), 14)
    }

    /// The tables list everything that belongs in them.
    #[verifier::opaque]
    pub open spec fn is_complete(&self) -> bool {
        &&& suited_table_complete(self.suited_table())
        &&& honor_table_complete(self.honor_table())
        &&& hand_table_complete(self.suited_table(), self.honor_table(), self.hand13_table(), 13)
        &&& hand_table_complete(self.suited_table(), self.honor_table(), self.hand14_table(), 14)
    }

    /// Position in the suited table of the canonical stand-in of a suit pattern.
    pub open spec fn suit_index(&self, s: Seq<u8>) -> int {
        index_of32(self.suited_table(), canon_code(s))
    }

    /// Position in the honor table of a multiplicity vector.
    pub open spec fn honor_index(&self, j: Seq<u8>) -> int {
        index_of32(self.honor_table(), honor_code(j))
    }

    /// What suit `i` of a hand contributes to the ordering of its suits: the
    /// table position of its pattern, and `i` itself, or `-1 - i` where the
    /// mirror image stands for the pattern.
    pub open spec fn suit_entry(&self, h: HandView, i: int) -> (int, int) {
        (
            self.suit_index(h.supai[i]),
            sign_of(i, is_flipped(h.supai[i])),
        )
    }

    /// The canonical position of suit `i` of a hand: the number of suits
    /// whose entry comes before its own.
    pub open spec fn suit_rank(&self, h: HandView, i: int) -> int {
        rank3(
            self.suit_entry(h, 0),
            self.suit_entry(h, 1),
            self.suit_entry(h, 2),
            self.suit_entry(h, i),
        )
    }

    /// The key of a hand: the table positions of its three suit patterns in
    /// ascending order, and above them that of its honor vector.
    pub open spec fn hand_key(&self, h: HandView) -> int {
        sorted_key(
            self.suit_index(h.supai[0]),
            self.suit_index(h.supai[1]),
            self.suit_index(h.supai[2]),
            self.honor_index(h.jihai),
        )
    }

    /// Whether the pattern tables list the three suit patterns and the honor
    /// vector of a hand.
    pub open spec fn covers_patterns(&self, h: HandView) -> bool {
        &&& lists32(self.suited_table(), canon_code(h.supai[0]))
        &&& lists32(self.suited_table(), canon_code(h.supai[1]))
        &&& lists32(self.suited_table(), canon_code(h.supai[2]))
        &&& lists32(self.honor_table(), honor_code(h.jihai))
    }

    /// Whether the tables number a hand as one of 13 tiles.
    pub open spec fn covers13(&self, h: HandView) -> bool {
        self.covers_patterns(h) && lists64(self.hand13_table(), self.hand_key(h))
    }

    /// Whether the tables number a hand as one of 14 tiles.
    pub open spec fn covers14(&self, h: HandView) -> bool {
        self.covers_patterns(h) && lists64(self.hand14_table(), self.hand_key(h))
    }

    /// The number of a hand of 13 tiles.
    pub open spec fn id13(&self, h: HandView) -> int {
        index_of64(self.hand13_table(), self.hand_key(h))
    }

    /// The number of a hand of 14 tiles.
    pub open spec fn id14(&self, h: HandView) -> int {
        index_of64(self.hand14_table(), self.hand_key(h))
    }

    /// The hand that a key stands for: the three suit patterns in ascending
    /// table order, each as the table lists it, and the honor vector.
    pub open spec fn key_hand(&self, key: int) -> HandView {
        HandView {
            supai: seq![
                suit_digits(self.suited_table()[key_part(key, 0)] as int),
                suit_digits(self.suited_table()[key_part(key, 1)] as int),
                suit_digits(self.suited_table()[key_part(key, 2)] as int),
            ],
            jihai: honor_digits(self.honor_table()[key_honor(key)] as int),
        }
    }

    /// The hand of 13 tiles with a given number.
    pub open spec fn hand13(&self, id: int) -> HandView {
        self.key_hand(self.hand13_table()[id] as int)
    }

    /// The hand of 14 tiles with a given number.
    pub open spec fn hand14(&self, id: int) -> HandView {
        self.key_hand(self.hand14_table()[id] as int)
    }

    /// The converter with empty tables. It numbers no hand.
    pub fn empty() -> (conv: HandConverter)
        ensures
            conv.wf(),
            conv.suited_table().len() == 0,
            conv.honor_table().len() == 0,
            conv.hand13_table().len() == 0,
            conv.hand14_table().len() == 0,
    {
        proof {
            reveal(HandConverter::wf);
        }
        HandConverter {
            su_lookup: Vec::new(),
            ji_lookup: Vec::new(),
            hand13_lookup: Vec::new(),
            hand14_lookup: Vec::new(),
        }
    }

    /// Position in the suited table of the canonical stand-in of one suit of
    /// a hand, and whether the stand-in is the mirror image.
    fn suit_position(&self, row: &[u8; 9]) -> (r: Option<(u64, bool)>)
        requires
            suited_table_wf(self.suited_table()),
            suit_wf(row@),
        ensures
            match r {
                Some((idx, flip)) => {
                    &&& lists32(self.suited_table(), canon_code(row@))
                    &&& idx == self.suit_index(row@)
                    &&& idx < self.suited_table().len()
                    &&& flip == is_flipped(row@)
                },
                None => !lists32(self.suited_table(), canon_code(row@)),
            },
    {
        proof {
            lemma_octal_value_suit(row@);
            lemma_octal_value_suit(row@.reverse());
            lemma_reversed_twice(row@);
        }
        let p = to_octal(row.as_slice());
        let q = to_octal_rev(row.as_slice());
        let flip = p > q;
        let code = if flip {
            q
        } else {
            p
        };
        match find32(&self.su_lookup, code) {
            Some(i) => {
                proof {
                    lemma_index_unique32(self.su_lookup@, code as int, i as int);
                }
                Some((i as u64, flip))
            },
            None => {
                assert(!self.su_lookup@.contains(code));
                assert forall|i: int| 0 <= i < self.su_lookup@.len() implies self.su_lookup@[i]
                    != code by {
                    assert(self.su_lookup@.contains(self.su_lookup@[i]));
                }
                None
            },
        }
    }

    /// Position in the honor table of the multiplicity vector of a hand.
    fn honor_position(&self, jihai: &[u8; 5]) -> (r: Option<u64>)
        requires
            honor_table_wf(self.honor_table()),
            honor_wf(jihai@),
        ensures
            match r {
                Some(idx) => {
                    &&& lists32(self.honor_table(), honor_code(jihai@))
                    &&& idx == self.honor_index(jihai@)
                    &&& idx < self.honor_table().len()
                },
                None => !lists32(self.honor_table(), honor_code(jihai@)),
            },
    {
        proof {
            lemma_octal_value_honor(jihai@);
        }
        let code = to_octal(jihai.as_slice());
        match find32(&self.ji_lookup, code) {
            Some(i) => {
                proof {
                    lemma_index_unique32(self.ji_lookup@, code as int, i as int);
                }
                Some(i as u64)
            },
            None => {
                assert forall|i: int| 0 <= i < self.ji_lookup@.len() implies self.ji_lookup@[i]
                    != code by {
                    assert(self.ji_lookup@.contains(self.ji_lookup@[i]));
                }
                None
            },
        }
    }

    /// The key of a hand and the translation that led to it, where the
    /// pattern tables list what the hand is made of.
    ///
    /// Entry `c` of the translation names the suit of the hand that stands at
    /// canonical position `c`: the suit itself where its pattern is kept as it
    /// is, and `-1` less the suit where its mirror image stands for it.
    pub fn try_encode_into_key(&self, hand: &Hand) -> (r: Option<(u64, [i8; 3])>)
        requires
            suited_table_wf(self.suited_table()),
            honor_table_wf(self.honor_table()),
            hand@.wf(),
        ensures
            r is Some <==> self.covers_patterns(hand@),
            r is Some ==> r.unwrap().0 == self.hand_key(hand@),
            r is Some ==> forall|i: int|
                0 <= i < 3 ==> r.unwrap().1[self.suit_rank(hand@, i)] == #[trigger] self.suit_entry(
                    hand@,
                    i,
                ).1,
    {
        assert(suit_wf(hand@.supai[0]) && suit_wf(hand@.supai[1]) && suit_wf(hand@.supai[2]));
        let (i0, f0) = match self.suit_position(&hand.supai[0]) {
            Some(e) => e,
            None => {
                return None;
            },
        };
        let (i1, f1) = match self.suit_position(&hand.supai[1]) {
            Some(e) => e,
            None => {
                return None;
            },
        };
        let (i2, f2) = match self.suit_position(&hand.supai[2]) {
            Some(e) => e,
            None => {
                return None;
            },
        };
        let j = match self.honor_position(&hand.jihai) {
            Some(j) => j,
            None => {
                return None;
            },
        };
        let r = assemble(i0, f0, i1, f1, i2, f2, j);
        proof {
            assert(self.suit_entry(hand@, 0) == (i0 as int, sign_of(0, f0)));
            assert(self.suit_entry(hand@, 1) == (i1 as int, sign_of(1, f1)));
            assert(self.suit_entry(hand@, 2) == (i2 as int, sign_of(2, f2)));
        }
        Some(r)
    }

    /// The key of a hand and the translation that led to it.
    ///
    /// Entry `c` of the translation names the suit of the hand that stands at
    /// canonical position `c`: the suit itself where its pattern is kept as it
    /// is, and `-1` less the suit where its mirror image stands for it.
    pub fn encode_into_key(&self, hand: &Hand) -> (r: (u64, [i8; 3]))
        requires
            suited_table_wf(self.suited_table()),
            honor_table_wf(self.honor_table()),
            hand@.wf(),
            self.covers_patterns(hand@),
        ensures
            r.0 == self.hand_key(hand@),
            forall|i: int|
                0 <= i < 3 ==> r.1[self.suit_rank(hand@, i)] == #[trigger] self.suit_entry(
                    hand@,
                    i,
                ).1,
    {
        match self.try_encode_into_key(hand) {
            Some(r) => r,
            None => (0, [0, 1, 2]),
        }
    }

    /// The key of a hand, where the pattern tables list what the hand is made of.
    pub fn try_encode_into_key_fast(&self, hand: &Hand) -> (r: Option<u64>)
        requires
            suited_table_wf(self.suited_table()),
            honor_table_wf(self.honor_table()),
            hand@.wf(),
        ensures
            r is Some <==> self.covers_patterns(hand@),
            r is Some ==> r.unwrap() == self.hand_key(hand@),
    {
        assert(suit_wf(hand@.supai[0]) && suit_wf(hand@.supai[1]) && suit_wf(hand@.supai[2]));
        let a = match self.suit_position(&hand.supai[0]) {
            Some(e) => e.0,
            None => {
                return None;
            },
        };
        let b = match self.suit_position(&hand.supai[1]) {
            Some(e) => e.0,
            None => {
                return None;
            },
        };
        let c = match self.suit_position(&hand.supai[2]) {
            Some(e) => e.0,
            None => {
                return None;
            },
        };
        let j = match self.honor_position(&hand.jihai) {
            Some(j) => j,
            None => {
                return None;
            },
        };
        Some(key_of(a, b, c, j))
    }

    /// The key of a hand.
    pub fn encode_into_key_fast(&self, hand: &Hand) -> (key: u64)
        requires
            suited_table_wf(self.suited_table()),
            honor_table_wf(self.honor_table()),
            hand@.wf(),
            self.covers_patterns(hand@),
        ensures
            key == self.hand_key(hand@),
    {
        match self.try_encode_into_key_fast(hand) {
            Some(key) => key,
            None => 0,
        }
    }

    /// The hand that a key stands for.
    pub fn decode_from_key(&self, key: u64) -> (hand: Hand)
        requires
            key_part(key as int, 0) < self.suited_table().len(),
            key_part(key as int, 1) < self.suited_table().len(),
            key_part(key as int, 2) < self.suited_table().len(),
            key_honor(key as int) < self.honor_table().len(),
        ensures
            hand@ == self.key_hand(key as int),
    {
        assert(key & 0x3ffff == key % 262144) by (bit_vector);
        assert((key >> 18) & 0x3ffff == (key / 262144) % 262144) by (bit_vector);
        assert((key >> 18 >> 18) & 0x3ffff == (key / 262144 / 262144) % 262144) by (bit_vector);
        assert(key >> 18 >> 18 >> 18 == key / 262144 / 262144 / 262144) by (bit_vector);
        let x0 = self.su_lookup[(key & 0x3ffff) as usize];
        let k1 = key >> 18;
        let x1 = self.su_lookup[(k1 & 0x3ffff) as usize];
        let k2 = k1 >> 18;
        let x2 = self.su_lookup[(k2 & 0x3ffff) as usize];
        let k3 = k2 >> 18;
        let y = self.ji_lookup[k3 as usize];
        let hand = Hand {
            supai: [from_octal::<9>(x0), from_octal::<9>(x1), from_octal::<9>(x2)],
            jihai: from_octal::<5>(y),
        };
        proof {
            lemma_octal_digits_suit(x0 as int);
            lemma_octal_digits_suit(x1 as int);
            lemma_octal_digits_suit(x2 as int);
            lemma_octal_digits_honor(y as int);
            let want = self.key_hand(key as int);
            assert(hand@.supai[0] =~= want.supai[0]);
            assert(hand@.supai[1] =~= want.supai[1]);
            assert(hand@.supai[2] =~= want.supai[2]);
            assert(hand@.supai =~= want.supai);
            assert(hand@.jihai =~= want.jihai);
        }
        hand
    }

    /// A well-formed key stands for a well-formed hand of the stated size,
    /// and that hand has the key it came from.
    pub proof fn lemma_key_hand(&self, key: int, tiles: int)
        requires
            suited_table_wf(self.suited_table()),
            honor_table_wf(self.honor_table()),
            key_wf(self.suited_table(), self.honor_table(), key, tiles),
        ensures
            self.key_hand(key).wf(),
            self.key_hand(key).num_tiles() == tiles,
            self.covers_patterns(self.key_hand(key)),
            self.hand_key(self.key_hand(key)) == key,
            forall|c: int| 0 <= c < 3 ==> !is_flipped(#[trigger] self.key_hand(key).supai[c]),
    {
        let su = self.suited_table();
        let ji = self.honor_table();
        let h = self.key_hand(key);
        let a = key_part(key, 0);
        let b = key_part(key, 1);
        let c = key_part(key, 2);
        let j = key_honor(key);
        lemma_pack_of_parts(key);
        assert(is_suit_code(su[a] as int) && is_suit_code(su[b] as int) && is_suit_code(
            su[c] as int,
        ));
        assert(is_honor_code(ji[j] as int));
        lemma_suit_code_of_digits(su[a] as int);
        lemma_suit_code_of_digits(su[b] as int);
        lemma_suit_code_of_digits(su[c] as int);
        lemma_honor_code_of_digits(ji[j] as int);
        assert(canon_code(h.supai[0]) == su[a]);
        assert(canon_code(h.supai[1]) == su[b]);
        assert(canon_code(h.supai[2]) == su[c]);
        lemma_index_unique32(su, su[a] as int, a);
        lemma_index_unique32(su, su[b] as int, b);
        lemma_index_unique32(su, su[c] as int, c);
        lemma_index_unique32(ji, ji[j] as int, j);
        assert(self.suit_index(h.supai[0]) == a);
        assert(self.suit_index(h.supai[1]) == b);
        assert(self.suit_index(h.supai[2]) == c);
        assert(self.honor_index(h.jihai) == j);
        assert forall|s: int| 0 <= s < 3 implies suit_wf(#[trigger] h.supai[s]) by {}
    }

    /// Translating a hand to its key and the key back to a hand gives, at
    /// each canonical position, the pattern of the suit that the translation
    /// names there, mirrored where the translation says so.
    pub proof fn lemma_key_hand_of_hand(&self, h: HandView)
        requires
            suited_table_wf(self.suited_table()),
            honor_table_wf(self.honor_table()),
            h.wf(),
            self.covers_patterns(h),
        ensures
            self.key_hand(self.hand_key(h)).jihai == h.jihai,
            forall|i: int|
                0 <= i < 3 ==> 0 <= #[trigger] self.suit_rank(h, i) < 3 && self.key_hand(
                    self.hand_key(h),
                ).supai[self.suit_rank(h, i)] == oriented(h.supai[i], is_flipped(h.supai[i])),
            self.suit_rank(h, 0) != self.suit_rank(h, 1),
            self.suit_rank(h, 0) != self.suit_rank(h, 2),
            self.suit_rank(h, 1) != self.suit_rank(h, 2),
            symmetric(h, self.key_hand(self.hand_key(h))),
    {
        let su = self.suited_table();
        let ji = self.honor_table();
        let a = self.suit_index(h.supai[0]);
        let b = self.suit_index(h.supai[1]);
        let c = self.suit_index(h.supai[2]);
        let j = self.honor_index(h.jihai);
        assert(suit_wf(h.supai[0]) && suit_wf(h.supai[1]) && suit_wf(h.supai[2]));
        assert(0 <= a < su.len() && su[a] == canon_code(h.supai[0]));
        assert(0 <= b < su.len() && su[b] == canon_code(h.supai[1]));
        assert(0 <= c < su.len() && su[c] == canon_code(h.supai[2]));
        assert(0 <= j < ji.len() && ji[j] == honor_code(h.jihai));
        let lo = min3(a, b, c);
        let hi = max3(a, b, c);
        let mid = a + b + c - lo - hi;
        let key = self.hand_key(h);
        lemma_parts_of_pack(lo, mid, hi, j);
        let back = self.key_hand(key);
        h.lemma_bucket_bounds();
        lemma_honor_digits_of_code(h.jihai);
        assert(back.jihai == h.jihai);
        assert forall|i: int| 0 <= i < 3 implies suit_digits(canon_code(#[trigger] h.supai[i]))
            == oriented(h.supai[i], is_flipped(h.supai[i])) by {
            assert(suit_wf(h.supai[i]));
            lemma_suit_digits_of_code(h.supai[i]);
            lemma_suit_digits_of_code(reversed(h.supai[i]));
        }
        let r0 = self.suit_rank(h, 0);
        let r1 = self.suit_rank(h, 1);
        let r2 = self.suit_rank(h, 2);
        assert(back.supai[r0] == oriented(h.supai[0], is_flipped(h.supai[0])));
        assert(back.supai[r1] == oriented(h.supai[1], is_flipped(h.supai[1])));
        assert(back.supai[r2] == oriented(h.supai[2], is_flipped(h.supai[2])));
        let p = Seq::new(
            3,
            |c: int|
                if r0 == c {
                    0int
                } else if r1 == c {
                    1int
                } else {
                    2int
                },
        );
        let f = Seq::new(3, |c: int| is_flipped(h.supai[p[c]]));
        assert(back.supai[0] == oriented(h.supai[p[0]], f[0]));
        assert(back.supai[1] == oriented(h.supai[p[1]], f[1]));
        assert(back.supai[2] == oriented(h.supai[p[2]], f[2]));
    }

    /// The number of a hand of 14 tiles and the translation that led to it,
    /// where the tables number the hand.
    ///
    /// Entry `c` of the translation names the suit of the hand that stands at
    /// canonical position `c`: the suit itself where its pattern is kept as it
    /// is, and `-1` less the suit where its mirror image stands for it.
    pub fn try_encode_hand14(&self, hand: &Hand) -> (r: Option<(u32, [i8; 3])>)
        requires
            self.wf(),
            hand@.wf(),
        ensures
            r is Some <==> self.covers14(hand@),
            r is Some ==> r.unwrap().0 == self.id14(hand@),
            r is Some ==> forall|i: int|
                0 <= i < 3 ==> r.unwrap().1[self.suit_rank(hand@, i)] == #[trigger] self.suit_entry(
                    hand@,
                    i,
                ).1,
    {
        proof {
            reveal(HandConverter::wf);
        }
        let (key, trans) = match self.try_encode_into_key(hand) {
            Some(r) => r,
            None => {
                return None;
            },
        };
        match find64(&self.hand14_lookup, key) {
            Some(id) => {
                proof {
                    lemma_index_unique64(self.hand14_lookup@, key as int, id as int);
                }
                Some((id as u32, trans))
            },
            None => {
                assert forall|i: int| 0 <= i < self.hand14_lookup@.len() implies self.hand14_lookup@[i]
                    != key by {
                    assert(self.hand14_lookup@.contains(self.hand14_lookup@[i]));
                }
                None
            },
        }
    }

    /// The number of a hand of 14 tiles, where the tables number the hand.
    pub fn try_encode_hand14_fast(&self, hand: &Hand) -> (r: Option<u32>)
        requires
            self.wf(),
            hand@.wf(),
        ensures
            r is Some <==> self.covers14(hand@),
            r is Some ==> r.unwrap() == self.id14(hand@),
    {
        proof {
            reveal(HandConverter::wf);
        }
        let key = match self.try_encode_into_key_fast(hand) {
            Some(key) => key,
            None => {
                return None;
            },
        };
        match find64(&self.hand14_lookup, key) {
            Some(id) => {
                proof {
                    lemma_index_unique64(self.hand14_lookup@, key as int, id as int);
                }
                Some(id as u32)
            },
            None => {
                assert forall|i: int| 0 <= i < self.hand14_lookup@.len() implies self.hand14_lookup@[i]
                    != key by {
                    assert(self.hand14_lookup@.contains(self.hand14_lookup@[i]));
                }
                None
            },
        }
    }

    /// The number of a hand of 14 tiles and the translation that led to it.
    ///
    /// # Translation
    /// Entry `c` names the suit of the hand that stands at canonical position
    /// `c`. A negative entry says that the ranks of that suit are mirrored:
    /// negate it and subtract one to find the suit.
    ///
    /// For example, with `[-2, 2, 0]`:
    /// * suit 0 of the numbered hand is suit 1 of the given one, ranks mirrored
    /// * suit 1 of the numbered hand is suit 2 of the given one
    /// * suit 2 of the numbered hand is suit 0 of the given one
    pub fn encode_hand14(&self, hand: &Hand) -> (r: (u32, [i8; 3]))
        requires
            self.wf(),
            hand@.wf(),
            self.covers14(hand@),
        ensures
            r.0 == self.id14(hand@),
            r.0 < self.hand14_table().len(),
            self.hand14_table()[r.0 as int] == self.hand_key(hand@),
            forall|i: int|
                0 <= i < 3 ==> r.1[self.suit_rank(hand@, i)] == #[trigger] self.suit_entry(
                    hand@,
                    i,
                ).1,
            forall|i: int|
                0 <= i < 3 ==> self.hand14(r.0 as int).supai[self.suit_rank(hand@, i)]
                    == oriented(#[trigger] hand@.supai[i], is_flipped(hand@.supai[i])),
            self.hand14(r.0 as int).jihai == hand@.jihai,
            symmetric(hand@, self.hand14(r.0 as int)),
    {
        proof {
            reveal(HandConverter::wf);
        }
        proof {
            self.lemma_key_hand_of_hand(hand@);
        }
        match self.try_encode_hand14(hand) {
            Some(r) => r,
            None => (0, [0, 1, 2]),
        }
    }

    /// The number of a hand of 14 tiles.
    pub fn encode_hand14_fast(&self, hand: &Hand) -> (id: u32)
        requires
            self.wf(),
            hand@.wf(),
            self.covers14(hand@),
        ensures
            id == self.id14(hand@),
            id < self.hand14_table().len(),
            self.hand14_table()[id as int] == self.hand_key(hand@),
            symmetric(hand@, self.hand14(id as int)),
    {
        proof {
            reveal(HandConverter::wf);
        }
        proof {
            self.lemma_key_hand_of_hand(hand@);
        }
        match self.try_encode_hand14_fast(hand) {
            Some(id) => id,
            None => 0,
        }
    }

    /// The hand of 14 tiles with a given number, in canonical form: its
    /// three suit patterns in ascending table order, none mirrored.
    pub fn decode_hand14(&self, encoded: u32) -> (hand: Hand)
        requires
            self.wf(),
            encoded < self.hand14_table().len(),
        ensures
            hand@ == self.hand14(encoded as int),
            hand@.wf(),
            hand@.num_tiles() == 14,
            self.covers14(hand@),
            self.id14(hand@) == encoded,
    {
        proof {
            reveal(HandConverter::wf);
        }
        let key = self.hand14_lookup[encoded as usize];
        proof {
            assert(key_wf(self.suited_table(), self.honor_table(), key as int, 14));
            self.lemma_key_hand(key as int, 14);
            lemma_index_unique64(self.hand14_lookup@, key as int, encoded as int);
        }
        self.decode_from_key(key)
    }

    /// Numbering the hand of 14 tiles that a number stands for gives the
    /// number back.
    pub proof fn lemma_encode_of_decode14(&self, id: int)
        requires
            self.wf(),
            0 <= id < self.hand14_table().len(),
        ensures
            self.hand14(id).wf(),
            self.hand14(id).num_tiles() == 14,
            self.covers14(self.hand14(id)),
            self.id14(self.hand14(id)) == id,
    {
        reveal(HandConverter::wf);
        let key = self.hand14_table()[id];
        assert(key_wf(self.suited_table(), self.honor_table(), key as int, 14));
        self.lemma_key_hand(key as int, 14);
        lemma_index_unique64(self.hand14_table(), key as int, id);
    }

    /// The hand that the number of a hand of 14 tiles stands for is the hand
    /// itself up to a permutation of the suits and the mirroring of some.
    pub proof fn lemma_decode_of_encode14(&self, h: HandView)
        requires
            self.wf(),
            h.wf(),
            self.covers14(h),
        ensures
            0 <= self.id14(h) < self.hand14_table().len(),
            symmetric(h, self.hand14(self.id14(h))),
            h.num_tiles() == 14,
    {
        reveal(HandConverter::wf);
        self.lemma_key_hand_of_hand(h);
        let id = self.id14(h);
        let key = self.hand_key(h);
        assert(key_wf(self.suited_table(), self.honor_table(), self.hand14_table()[id] as int, 14));
        self.lemma_key_hand(key, 14);
        self.lemma_symmetric_tiles(h, self.key_hand(key));
    }

    /// The number of a hand of 13 tiles and the translation that led to it,
    /// where the tables number the hand.
    ///
    /// Entry `c` of the translation names the suit of the hand that stands at
    /// canonical position `c`: the suit itself where its pattern is kept as it
    /// is, and `-1` less the suit where its mirror image stands for it.
    pub fn try_encode_hand13(&self, hand: &Hand) -> (r: Option<(u32, [i8; 3])>)
        requires
            self.wf(),
            hand@.wf(),
        ensures
            r is Some <==> self.covers13(hand@),
            r is Some ==> r.unwrap().0 == self.id13(hand@),
            r is Some ==> forall|i: int|
                0 <= i < 3 ==> r.unwrap().1[self.suit_rank(hand@, i)] == #[trigger] self.suit_entry(
                    hand@,
                    i,
                ).1,
    {
        proof {
            reveal(HandConverter::wf);
        }
        let (key, trans) = match self.try_encode_into_key(hand) {
            Some(r) => r,
            None => {
                return None;
            },
        };
        match find64(&self.hand13_lookup, key) {
            Some(id) => {
                proof {
                    lemma_index_unique64(self.hand13_lookup@, key as int, id as int);
                }
                Some((id as u32, trans))
            },
            None => {
                assert forall|i: int| 0 <= i < self.hand13_lookup@.len() implies self.hand13_lookup@[i]
                    != key by {
                    assert(self.hand13_lookup@.contains(self.hand13_lookup@[i]));
                }
                None
            },
        }
    }

    /// The number of a hand of 13 tiles, where the tables number the hand.
    pub fn try_encode_hand13_fast(&self, hand: &Hand) -> (r: Option<u32>)
        requires
            self.wf(),
            hand@.wf(),
        ensures
            r is Some <==> self.covers13(hand@),
            r is Some ==> r.unwrap() == self.id13(hand@),
    {
        proof {
            reveal(HandConverter::wf);
        }
        let key = match self.try_encode_into_key_fast(hand) {
            Some(key) => key,
            None => {
                return None;
            },
        };
        match find64(&self.hand13_lookup, key) {
            Some(id) => {
                proof {
                    lemma_index_unique64(self.hand13_lookup@, key as int, id as int);
                }
                Some(id as u32)
            },
            None => {
                assert forall|i: int| 0 <= i < self.hand13_lookup@.len() implies self.hand13_lookup@[i]
                    != key by {
                    assert(self.hand13_lookup@.contains(self.hand13_lookup@[i]));
                }
                None
            },
        }
    }

    /// The number of a hand of 13 tiles and the translation that led to it.
    ///
    /// # Translation
    /// Entry `c` names the suit of the hand that stands at canonical position
    /// `c`. A negative entry says that the ranks of that suit are mirrored:
    /// negate it and subtract one to find the suit.
    ///
    /// For example, with `[-2, 2, 0]`:
    /// * suit 0 of the numbered hand is suit 1 of the given one, ranks mirrored
    /// * suit 1 of the numbered hand is suit 2 of the given one
    /// * suit 2 of the numbered hand is suit 0 of the given one
    pub fn encode_hand13(&self, hand: &Hand) -> (r: (u32, [i8; 3]))
        requires
            self.wf(),
            hand@.wf(),
            self.covers13(hand@),
        ensures
            r.0 == self.id13(hand@),
            r.0 < self.hand13_table().len(),
            self.hand13_table()[r.0 as int] == self.hand_key(hand@),
            forall|i: int|
                0 <= i < 3 ==> r.1[self.suit_rank(hand@, i)] == #[trigger] self.suit_entry(
                    hand@,
                    i,
                ).1,
            forall|i: int|
                0 <= i < 3 ==> self.hand13(r.0 as int).supai[self.suit_rank(hand@, i)]
                    == oriented(#[trigger] hand@.supai[i], is_flipped(hand@.supai[i])),
            self.hand13(r.0 as int).jihai == hand@.jihai,
            symmetric(hand@, self.hand13(r.0 as int)),
    {
        proof {
            reveal(HandConverter::wf);
        }
        proof {
            self.lemma_key_hand_of_hand(hand@);
        }
        match self.try_encode_hand13(hand) {
            Some(r) => r,
            None => (0, [0, 1, 2]),
        }
    }

    /// The number of a hand of 13 tiles.
    pub fn encode_hand13_fast(&self, hand: &Hand) -> (id: u32)
        requires
            self.wf(),
            hand@.wf(),
            self.covers13(hand@),
        ensures
            id == self.id13(hand@),
            id < self.hand13_table().len(),
            self.hand13_table()[id as int] == self.hand_key(hand@),
            symmetric(hand@, self.hand13(id as int)),
    {
        proof {
            reveal(HandConverter::wf);
        }
        proof {
            self.lemma_key_hand_of_hand(hand@);
        }
        match self.try_encode_hand13_fast(hand) {
            Some(id) => id,
            None => 0,
        }
    }

    /// The hand of 13 tiles with a given number, in canonical form: its
    /// three suit patterns in ascending table order, none mirrored.
    pub fn decode_hand13(&self, encoded: u32) -> (hand: Hand)
        requires
            self.wf(),
            encoded < self.hand13_table().len(),
        ensures
            hand@ == self.hand13(encoded as int),
            hand@.wf(),
            hand@.num_tiles() == 13,
            self.covers13(hand@),
            self.id13(hand@) == encoded,
    {
        proof {
            reveal(HandConverter::wf);
        }
        let key = self.hand13_lookup[encoded as usize];
        proof {
            assert(key_wf(self.suited_table(), self.honor_table(), key as int, 13));
            self.lemma_key_hand(key as int, 13);
            lemma_index_unique64(self.hand13_lookup@, key as int, encoded as int);
        }
        self.decode_from_key(key)
    }

    /// Numbering the hand of 13 tiles that a number stands for gives the
    /// number back.
    pub proof fn lemma_encode_of_decode13(&self, id: int)
        requires
            self.wf(),
            0 <= id < self.hand13_table().len(),
        ensures
            self.hand13(id).wf(),
            self.hand13(id).num_tiles() == 13,
            self.covers13(self.hand13(id)),
            self.id13(self.hand13(id)) == id,
    {
        reveal(HandConverter::wf);
        let key = self.hand13_table()[id];
        assert(key_wf(self.suited_table(), self.honor_table(), key as int, 13));
        self.lemma_key_hand(key as int, 13);
        lemma_index_unique64(self.hand13_table(), key as int, id);
    }

    /// The hand that the number of a hand of 13 tiles stands for is the hand
    /// itself up to a permutation of the suits and the mirroring of some.
    pub proof fn lemma_decode_of_encode13(&self, h: HandView)
        requires
            self.wf(),
            h.wf(),
            self.covers13(h),
        ensures
            0 <= self.id13(h) < self.hand13_table().len(),
            symmetric(h, self.hand13(self.id13(h))),
            h.num_tiles() == 13,
    {
        reveal(HandConverter::wf);
        self.lemma_key_hand_of_hand(h);
        let id = self.id13(h);
        let key = self.hand_key(h);
        assert(key_wf(self.suited_table(), self.honor_table(), self.hand13_table()[id] as int, 13));
        self.lemma_key_hand(key, 13);
        self.lemma_symmetric_tiles(h, self.key_hand(key));
    }

    /// Hands that differ by a symmetry have as many tiles.
    pub proof fn lemma_symmetric_tiles(&self, a: HandView, b: HandView)
        requires
            a.wf(),
            symmetric(a, b),
        ensures
            a.num_tiles() == b.num_tiles(),
    {
        let (p, f) = choose|p: Seq<int>, f: Seq<bool>|
            {
                &&& p.len() == 3 && f.len() == 3
                &&& 0 <= p[0] < 3 && 0 <= p[1] < 3 && 0 <= p[2] < 3
                &&& p[0] != p[1] && p[0] != p[2] && p[1] != p[2]
                &&& b.supai[0] == oriented(a.supai[p[0]], f[0])
                &&& b.supai[1] == oriented(a.supai[p[1]], f[1])
                &&& b.supai[2] == oriented(a.supai[p[2]], f[2])
            };
        assert forall|s: int, fl: bool| 0 <= s < 3 implies suit_total(
            #[trigger] oriented(a.supai[s], fl),
        ) == suit_total(a.supai[s]) by {
            assert(suit_wf(a.supai[s]));
            lemma_reversed_twice(a.supai[s]);
        }
    }

    /// Complete tables number every hand of 13 and of 14 tiles.
    pub proof fn lemma_complete_covers(&self, h: HandView)
        requires
            self.wf(),
            self.is_complete(),
            h.wf(),
        ensures
            self.covers_patterns(h) <==> suit_total(h.supai[0]) <= 14 && suit_total(h.supai[1])
                <= 14 && suit_total(h.supai[2]) <= 14 && honor_total(h.jihai) <= 14,
            h.num_tiles() == 13 ==> self.covers13(h),
            h.num_tiles() == 14 ==> self.covers14(h),
    {
        reveal(HandConverter::wf);
        reveal(HandConverter::is_complete);
        let su = self.suited_table();
        let ji = self.honor_table();
        assert(suit_wf(h.supai[0]) && suit_wf(h.supai[1]) && suit_wf(h.supai[2]));
        h.lemma_bucket_bounds();
        lemma_honor_digits_of_code(h.jihai);
        assert forall|i: int| 0 <= i < 3 implies {
            &&& suit_digits(canon_code(#[trigger] h.supai[i])) == oriented(
                h.supai[i],
                is_flipped(h.supai[i]),
            )
            &&& suit_total(oriented(h.supai[i], is_flipped(h.supai[i]))) == suit_total(h.supai[i])
            &&& (is_suit_code(canon_code(h.supai[i])) <==> suit_total(h.supai[i]) <= 14)
        } by {
            assert(suit_wf(h.supai[i]));
            lemma_reversed_twice(h.supai[i]);
            lemma_suit_digits_of_code(h.supai[i]);
            lemma_suit_digits_of_code(reversed(h.supai[i]));
        }
        assert(is_honor_code(honor_code(h.jihai)) <==> honor_total(h.jihai) <= 14);
        assert forall|i: int| 0 <= i < 3 && lists32(su, canon_code(#[trigger] h.supai[i]))
            implies is_suit_code(canon_code(h.supai[i])) by {
            let k = index_of32(su, canon_code(h.supai[i]));
            assert(is_suit_code(su[k] as int));
        }
        if lists32(ji, honor_code(h.jihai)) {
            let k = index_of32(ji, honor_code(h.jihai));
            assert(is_honor_code(ji[k] as int));
        }
        if h.num_tiles() == 13 || h.num_tiles() == 14 {
            let a = self.suit_index(h.supai[0]);
            let b = self.suit_index(h.supai[1]);
            let c = self.suit_index(h.supai[2]);
            let j = self.honor_index(h.jihai);
            assert(0 <= a < su.len() && su[a] == canon_code(h.supai[0]));
            assert(0 <= b < su.len() && su[b] == canon_code(h.supai[1]));
            assert(0 <= c < su.len() && su[c] == canon_code(h.supai[2]));
            assert(0 <= j < ji.len() && ji[j] == honor_code(h.jihai));
            let lo = min3(a, b, c);
            let hi = max3(a, b, c);
            let mid = a + b + c - lo - hi;
            lemma_parts_of_pack(lo, mid, hi, j);
            assert(suited_tiles(su, lo) + suited_tiles(su, mid) + suited_tiles(su, hi)
                == suited_tiles(su, a) + suited_tiles(su, b) + suited_tiles(su, c));
            assert(key_wf(su, ji, self.hand_key(h), h.num_tiles()));
        }
    }

    /// Number of hands of 13 tiles that the tables number.
    pub fn num_hand13(&self) -> (n: usize)
        requires
            self.wf(),
        ensures
            n == self.hand13_table().len(),
            n <= u32::MAX,
    {
        proof {
            reveal(HandConverter::wf);
        }
        self.hand13_lookup.len()
    }

    /// Number of hands of 14 tiles that the tables number.
    pub fn num_hand14(&self) -> (n: usize)
        requires
            self.wf(),
        ensures
            n == self.hand14_table().len(),
            n <= u32::MAX,
    {
        proof {
            reveal(HandConverter::wf);
        }
        self.hand14_lookup.len()
    }

    /// The numbers of the hands fit in 32 bits.
    pub proof fn lemma_table_sizes(&self)
        requires
            self.wf(),
        ensures
            self.hand13_table().len() <= u32::MAX,
            self.hand14_table().len() <= u32::MAX,
    {
        reveal(HandConverter::wf);
    }

    /// The converter over four tables that are known to be well-formed.
    pub(crate) fn from_tables(
        su_lookup: Vec<u32>,
        ji_lookup: Vec<u32>,
        hand13_lookup: Vec<u64>,
        hand14_lookup: Vec<u64>,
    ) -> (conv: HandConverter)
        requires
            suited_table_wf(su_lookup@),
            honor_table_wf(ji_lookup@),
            hand_table_wf(su_lookup@, ji_lookup@, hand13_lookup@, 13),
            hand_table_wf(su_lookup@, ji_lookup@, hand14_lookup@, 14),
        ensures
            conv.wf(),
            conv.suited_table() == su_lookup@,
            conv.honor_table() == ji_lookup@,
            conv.hand13_table() == hand13_lookup@,
            conv.hand14_table() == hand14_lookup@,
    {
        proof {
            reveal(HandConverter::wf);
        }
        HandConverter { su_lookup, ji_lookup, hand13_lookup, hand14_lookup }
    }

    /// The converter over four given tables, where they are well-formed:
    /// ascending, and holding suit codes, honor codes, and hand keys of 13
    /// and of 14 tiles over the first two.
    pub fn from_parts(
        su_lookup: Vec<u32>,
        ji_lookup: Vec<u32>,
        hand13_lookup: Vec<u64>,
        hand14_lookup: Vec<u64>,
    ) -> (r: Option<HandConverter>)
        ensures
            r is Some <==> {
                &&& suited_table_wf(su_lookup@)
                &&& honor_table_wf(ji_lookup@)
                &&& hand_table_wf(su_lookup@, ji_lookup@, hand13_lookup@, 13)
                &&& hand_table_wf(su_lookup@, ji_lookup@, hand14_lookup@, 14)
            },
            r is Some ==> {
                &&& r.unwrap().wf()
                &&& r.unwrap().suited_table() == su_lookup@
                &&& r.unwrap().honor_table() == ji_lookup@
                &&& r.unwrap().hand13_table() == hand13_lookup@
                &&& r.unwrap().hand14_table() == hand14_lookup@
            },
    {
        if check_suited_table(&su_lookup) && check_honor_table(&ji_lookup) && check_hand_table(
            &su_lookup,
            &ji_lookup,
            &hand13_lookup,
            13,
        ) && check_hand_table(&su_lookup, &ji_lookup, &hand14_lookup, 14) {
            Some(HandConverter::from_tables(su_lookup, ji_lookup, hand13_lookup, hand14_lookup))
        } else {
            None
        }
    }

    /// The suited table.
    pub fn suited_lookup(&self) -> (table: &Vec<u32>)
        ensures
            table@ == self.suited_table(),
    {
        &self.su_lookup
    }

    /// The honor table.
    pub fn honor_lookup(&self) -> (table: &Vec<u32>)
        ensures
            table@ == self.honor_table(),
    {
        &self.ji_lookup
    }

    /// The keys of the hands of 13 tiles, by number.
    pub fn hand13_lookup(&self) -> (table: &Vec<u64>)
        ensures
            table@ == self.hand13_table(),
    {
        &self.hand13_lookup
    }

    /// The keys of the hands of 14 tiles, by number.
    pub fn hand14_lookup(&self) -> (table: &Vec<u64>)
        ensures
            table@ == self.hand14_table(),
    {
        &self.hand14_lookup
    }

    /// The canonical positions of the three suits of a hand are the numbers
    /// 0, 1 and 2 in some order.
    pub proof fn lemma_frame(&self, h: HandView)
        ensures
            0 <= self.suit_rank(h, 0) < 3,
            0 <= self.suit_rank(h, 1) < 3,
            0 <= self.suit_rank(h, 2) < 3,
            self.suit_rank(h, 0) != self.suit_rank(h, 1),
            self.suit_rank(h, 0) != self.suit_rank(h, 2),
            self.suit_rank(h, 1) != self.suit_rank(h, 2),
    {
    }
}

} // verus!
