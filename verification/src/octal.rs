use vstd::prelude::*;

verus! {

/// Value of a list of octal digits, most significant first.
pub open spec fn octal_value(digits: Seq<u8>) -> int
    decreases digits.len(),
{
    if digits.len() == 0 {
        0
    } else {
        octal_value(digits.drop_last()) * 8 + digits.last()
    }
}

/// A number with its `k` lowest octal digits dropped.
pub open spec fn octal_shift(v: int, k: nat) -> int
    decreases k,
{
    if k == 0 {
        v
    } else {
        octal_shift(v, (k - 1) as nat) / 8
    }
}

/// The octal digit of weight `8^k` of a number.
pub open spec fn octal_digit(v: int, k: nat) -> int {
    octal_shift(v, k) % 8
}

/// Nine octal digits packed into one number, the first digit on top.
#[verifier::opaque]
pub open spec fn suit_code(s: Seq<u8>) -> int {
    s[0] * 16777216 + s[1] * 2097152 + s[2] * 262144 + s[3] * 32768 + s[4] * 4096 + s[5] * 512
        + s[6] * 64 + s[7] * 8 + s[8]
}

/// Five octal digits packed into one number, the first digit on top.
#[verifier::opaque]
pub open spec fn honor_code(j: Seq<u8>) -> int {
    j[0] * 4096 + j[1] * 512 + j[2] * 64 + j[3] * 8 + j[4]
}

/// The nine octal digits of a packed suit pattern.
#[verifier::opaque]
pub open spec fn suit_digits(x: int) -> Seq<u8> {
    let x1 = x / 8;
    let x2 = x1 / 8;
    let x3 = x2 / 8;
    let x4 = x3 / 8;
    let x5 = x4 / 8;
    let x6 = x5 / 8;
    let x7 = x6 / 8;
    let x8 = x7 / 8;
    seq![
        (x8 % 8) as u8,
        (x7 % 8) as u8,
        (x6 % 8) as u8,
        (x5 % 8) as u8,
        (x4 % 8) as u8,
        (x3 % 8) as u8,
        (x2 % 8) as u8,
        (x1 % 8) as u8,
        (x % 8) as u8,
    ]
}

/// The five octal digits of a packed honor pattern.
#[verifier::opaque]
pub open spec fn honor_digits(x: int) -> Seq<u8> {
    let x1 = x / 8;
    let x2 = x1 / 8;
    let x3 = x2 / 8;
    let x4 = x3 / 8;
    seq![(x4 % 8) as u8, (x3 % 8) as u8, (x2 % 8) as u8, (x1 % 8) as u8, (x % 8) as u8]
}

/// A suit pattern read from the highest rank down.
pub open spec fn reversed(s: Seq<u8>) -> Seq<u8> {
    s.reverse()
}

/// Every entry is an octal digit.
pub open spec fn all_octal(digits: Seq<u8>) -> bool {
    forall|i: int| 0 <= i < digits.len() ==> #[trigger] digits[i] < 8
}

/// The value of up to ten octal digits stays below the power of eight of
/// their number.
pub proof fn lemma_octal_value_bound(digits: Seq<u8>)
    requires
        all_octal(digits),
        digits.len() <= 10,
    ensures
        0 <= octal_value(digits),
        digits.len() == 0 ==> octal_value(digits) < 1,
        digits.len() == 1 ==> octal_value(digits) < 8,
        digits.len() == 2 ==> octal_value(digits) < 64,
        digits.len() == 3 ==> octal_value(digits) < 512,
        digits.len() == 4 ==> octal_value(digits) < 4096,
        digits.len() == 5 ==> octal_value(digits) < 32768,
        digits.len() == 6 ==> octal_value(digits) < 262144,
        digits.len() == 7 ==> octal_value(digits) < 2097152,
        digits.len() == 8 ==> octal_value(digits) < 16777216,
        digits.len() == 9 ==> octal_value(digits) < 134217728,
        digits.len() == 10 ==> octal_value(digits) < 1073741824,
    decreases digits.len(),
{
    if digits.len() > 0 {
        lemma_octal_value_bound(digits.drop_last());
    }
}

/// The value of nine digits is their packed suit code.
pub proof fn lemma_octal_value_suit(s: Seq<u8>)
    requires
        s.len() == 9,
    ensures
        octal_value(s) == suit_code(s),
{
    reveal(suit_code);
    let s8 = s.drop_last();
    let s7 = s8.drop_last();
    let s6 = s7.drop_last();
    let s5 = s6.drop_last();
    let s4 = s5.drop_last();
    let s3 = s4.drop_last();
    let s2 = s3.drop_last();
    let s1 = s2.drop_last();
    let s0 = s1.drop_last();
    assert(octal_value(s0) == 0);
    assert(octal_value(s1) == s[0]);
    assert(octal_value(s2) == octal_value(s1) * 8 + s[1]);
    assert(octal_value(s3) == octal_value(s2) * 8 + s[2]);
    assert(octal_value(s4) == octal_value(s3) * 8 + s[3]);
    assert(octal_value(s5) == octal_value(s4) * 8 + s[4]);
    assert(octal_value(s6) == octal_value(s5) * 8 + s[5]);
    assert(octal_value(s7) == octal_value(s6) * 8 + s[6]);
    assert(octal_value(s8) == octal_value(s7) * 8 + s[7]);
    assert(octal_value(s) == octal_value(s8) * 8 + s[8]);
}

/// The value of five digits is their packed honor code.
pub proof fn lemma_octal_value_honor(j: Seq<u8>)
    requires
        j.len() == 5,
    ensures
        octal_value(j) == honor_code(j),
{
    reveal(honor_code);
    let j4 = j.drop_last();
    let j3 = j4.drop_last();
    let j2 = j3.drop_last();
    let j1 = j2.drop_last();
    let j0 = j1.drop_last();
    assert(octal_value(j0) == 0);
    assert(octal_value(j1) == j[0]);
    assert(octal_value(j2) == octal_value(j1) * 8 + j[1]);
    assert(octal_value(j3) == octal_value(j2) * 8 + j[2]);
    assert(octal_value(j4) == octal_value(j3) * 8 + j[3]);
    assert(octal_value(j) == octal_value(j4) * 8 + j[4]);
}

/// Packing nine octal digits and unpacking them gives the digits back.
pub proof fn lemma_suit_digits_of_code(s: Seq<u8>)
    requires
        s.len() == 9,
        all_octal(s),
    ensures
        suit_digits(suit_code(s)) == s,
        0 <= suit_code(s) < 134217728,
{
    reveal(suit_code);
    reveal(suit_digits);
    assert(s[0] < 8 && s[1] < 8 && s[2] < 8 && s[3] < 8 && s[4] < 8 && s[5] < 8 && s[6] < 8 && s[7]
        < 8 && s[8] < 8);
    let x = suit_code(s);
    let y8: int = s[0] as int;
    let y7 = y8 * 8 + s[1];
    let y6 = y7 * 8 + s[2];
    let y5 = y6 * 8 + s[3];
    let y4 = y5 * 8 + s[4];
    let y3 = y4 * 8 + s[5];
    let y2 = y3 * 8 + s[6];
    let y1 = y2 * 8 + s[7];
    assert(x == y1 * 8 + s[8]);
    assert(x / 8 == y1 && x % 8 == s[8]);
    assert(y1 / 8 == y2 && y1 % 8 == s[7]);
    assert(y2 / 8 == y3 && y2 % 8 == s[6]);
    assert(y3 / 8 == y4 && y3 % 8 == s[5]);
    assert(y4 / 8 == y5 && y4 % 8 == s[4]);
    assert(y5 / 8 == y6 && y5 % 8 == s[3]);
    assert(y6 / 8 == y7 && y6 % 8 == s[2]);
    assert(y7 / 8 == y8 && y7 % 8 == s[1]);
    assert(y8 % 8 == s[0]);
    assert(suit_digits(x) =~= s);
}

/// Unpacking a number below `8^9` and packing its digits gives it back.
pub proof fn lemma_suit_code_of_digits(x: int)
    requires
        0 <= x < 134217728,
    ensures
        suit_code(suit_digits(x)) == x,
        suit_digits(x).len() == 9,
        all_octal(suit_digits(x)),
{
    reveal(suit_code);
    reveal(suit_digits);
    let x1 = x / 8;
    let x2 = x1 / 8;
    let x3 = x2 / 8;
    let x4 = x3 / 8;
    let x5 = x4 / 8;
    let x6 = x5 / 8;
    let x7 = x6 / 8;
    let x8 = x7 / 8;
    assert(x == x1 * 8 + x % 8);
    assert(x1 == x2 * 8 + x1 % 8);
    assert(x2 == x3 * 8 + x2 % 8);
    assert(x3 == x4 * 8 + x3 % 8);
    assert(x4 == x5 * 8 + x4 % 8);
    assert(x5 == x6 * 8 + x5 % 8);
    assert(x6 == x7 * 8 + x6 % 8);
    assert(x7 == x8 * 8 + x7 % 8);
    assert(0 <= x8 < 8);
    assert(x8 % 8 == x8);
}

/// Packing five octal digits and unpacking them gives the digits back.
pub proof fn lemma_honor_digits_of_code(j: Seq<u8>)
    requires
        j.len() == 5,
        all_octal(j),
    ensures
        honor_digits(honor_code(j)) == j,
        0 <= honor_code(j) < 32768,
{
    reveal(honor_code);
    reveal(honor_digits);
    assert(j[0] < 8 && j[1] < 8 && j[2] < 8 && j[3] < 8 && j[4] < 8);
    let x = honor_code(j);
    let y4: int = j[0] as int;
    let y3 = y4 * 8 + j[1];
    let y2 = y3 * 8 + j[2];
    let y1 = y2 * 8 + j[3];
    assert(x == y1 * 8 + j[4]);
    assert(x / 8 == y1 && x % 8 == j[4]);
    assert(y1 / 8 == y2 && y1 % 8 == j[3]);
    assert(y2 / 8 == y3 && y2 % 8 == j[2]);
    assert(y3 / 8 == y4 && y3 % 8 == j[1]);
    assert(y4 % 8 == j[0]);
    assert(honor_digits(x) =~= j);
}

/// Unpacking a number below `8^5` and packing its digits gives it back.
pub proof fn lemma_honor_code_of_digits(x: int)
    requires
        0 <= x < 32768,
    ensures
        honor_code(honor_digits(x)) == x,
        honor_digits(x).len() == 5,
        all_octal(honor_digits(x)),
{
    reveal(honor_code);
    reveal(honor_digits);
    let x1 = x / 8;
    let x2 = x1 / 8;
    let x3 = x2 / 8;
    let x4 = x3 / 8;
    assert(x == x1 * 8 + x % 8);
    assert(x1 == x2 * 8 + x1 % 8);
    assert(x2 == x3 * 8 + x2 % 8);
    assert(x3 == x4 * 8 + x3 % 8);
    assert(0 <= x4 < 8);
    assert(x4 % 8 == x4);
}

/// Reading a suit pattern backwards twice gives it back.
pub proof fn lemma_reversed_twice(s: Seq<u8>)
    requires
        s.len() == 9,
    ensures
        reversed(reversed(s)) == s,
        reversed(s).len() == 9,
        forall|i: int| 0 <= i < 9 ==> #[trigger] reversed(s)[i] == s[8 - i],
{
    assert(reversed(reversed(s)) =~= s);
}

/// Packs octal digits, most significant first, into one number.
pub fn to_octal(digits: &[u8]) -> (code: u32)
    requires
        digits@.len() <= 10,
        all_octal(digits@),
    ensures
        code == octal_value(digits@),
{
    let mut res: u32 = 0;
    for i in 0..digits.len()
        invariant
            digits@.len() <= 10,
            all_octal(digits@),
            res == octal_value(digits@.take(i as int)),
    {
        let v: u32 = digits[i] as u32;
        proof {
            assert(digits@.take(i + 1).drop_last() == digits@.take(i as int));
            lemma_octal_value_bound(digits@.take(i as int));
            assert(res < 134217728);
            assert((res << 3) | v == res * 8 + v) by (bit_vector)
                requires
                    res < 134217728,
                    v < 8,
            ;
        }
        res <<= 3;
        res |= v;
    }
    assert(digits@.take(digits@.len() as int) == digits@);
    res
}

/// Packs octal digits, least significant first, into one number.
pub fn to_octal_rev(digits: &[u8]) -> (code: u32)
    requires
        digits@.len() <= 10,
        all_octal(digits@),
    ensures
        code == octal_value(digits@.reverse()),
{
    let n = digits.len();
    let mut res: u32 = 0;
    for i in 0..n
        invariant
            n == digits@.len(),
            digits@.len() <= 10,
            all_octal(digits@),
            res == octal_value(digits@.reverse().take(i as int)),
    {
        let v: u32 = digits[n - 1 - i] as u32;
        proof {
            let r = digits@.reverse();
            assert(r.take(i + 1).drop_last() == r.take(i as int));
            assert(r.take(i + 1).last() == digits@[n - 1 - i]);
            assert(all_octal(r.take(i as int)));
            lemma_octal_value_bound(r.take(i as int));
            assert(res < 134217728);
            assert((res << 3) | v == res * 8 + v) by (bit_vector)
                requires
                    res < 134217728,
                    v < 8,
            ;
        }
        res <<= 3;
        res |= v;
    }
    assert(digits@.reverse().take(n as int) == digits@.reverse());
    res
}

/// Unpacks the `N` lowest octal digits of a number, most significant first.
pub fn from_octal<const N: usize>(v: u32) -> (digits: [u8; N])
    ensures
        forall|i: int| 0 <= i < N ==> #[trigger] digits[i] == octal_digit(v as int, (N - 1 - i) as nat),
{
    let mut digits = [0u8; N];
    let mut rest = v;
    let mut k: usize = 0;
    while k < N
        invariant
            k <= N,
            forall|i: int|
                N - k <= i < N ==> #[trigger] digits[i] == octal_digit(v as int, (N - 1 - i) as nat),
            rest == octal_shift(v as int, k as nat),
        decreases N - k,
    {
        assert(rest & 7 == rest % 8) by (bit_vector);
        assert(rest >> 3 == rest / 8) by (bit_vector);
        digits[N - 1 - k] = (rest & 7) as u8;
        rest >>= 3;
        k += 1;
    }
    digits
}

/// The nine low octal digits of a number are the digits of its suit pattern.
pub proof fn lemma_octal_digits_suit(x: int)
    requires
        0 <= x,
    ensures
        suit_digits(x).len() == 9,
        forall|i: int| 0 <= i < 9 ==> #[trigger] suit_digits(x)[i] == octal_digit(x, (8 - i) as nat),
{
    reveal(suit_digits);
    reveal_with_fuel(octal_shift, 10);
}

/// The five low octal digits of a number are the digits of its honor pattern.
pub proof fn lemma_octal_digits_honor(x: int)
    requires
        0 <= x,
    ensures
        honor_digits(x).len() == 5,
        forall|i: int| 0 <= i < 5 ==> #[trigger] honor_digits(x)[i] == octal_digit(x, (4 - i) as nat),
{
    reveal(honor_digits);
    reveal_with_fuel(octal_shift, 6);
}

} // verus!
