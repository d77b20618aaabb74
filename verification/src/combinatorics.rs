use itertools::Itertools;
use vstd::prelude::*;

verus! {

/// A choice of `k` out of `n` elements with repetition: `k` positions below
/// `n` in non-descending order.
pub open spec fn is_multichoice(t: Seq<usize>, n: int, k: int) -> bool {
    &&& t.len() == k
    &&& forall|i: int| 0 <= i < k ==> #[trigger] t[i] < n
    &&& forall|i: int, j: int| 0 <= i <= j < k ==> t[i] <= t[j]
}

/// A choice of `k` out of `n` elements: `k` positions below `n` in ascending
/// order.
pub open spec fn is_choice(t: Seq<usize>, n: int, k: int) -> bool {
    &&& t.len() == k
    &&& forall|i: int| 0 <= i < k ==> #[trigger] t[i] < n
    &&& forall|i: int, j: int| 0 <= i < j < k ==> t[i] < t[j]
}

/// A point of a grid: one coordinate per dimension, each below the extent of
/// its dimension.
pub open spec fn is_grid_point(t: Seq<usize>, dims: Seq<usize>) -> bool {
    &&& t.len() == dims.len()
    &&& forall|i: int| 0 <= i < t.len() ==> #[trigger] t[i] < dims[i]
}

/// `itertools::structs::CombinationsWithReplacement`, the iterator that
/// `Itertools::combinations_with_replacement` returns.
#[verifier::external_type_specification]
#[verifier::external_body]
#[verifier::reject_recursive_types(I)]
pub struct ExCombinationsWithReplacement<I>(
    itertools::structs::CombinationsWithReplacement<I>,
) where I: Iterator, I::Item: Clone;

/// `itertools::structs::MultiProduct`, the iterator that
/// `Itertools::multi_cartesian_product` returns.
#[verifier::external_type_specification]
#[verifier::external_body]
#[verifier::reject_recursive_types(I)]
pub struct ExMultiProduct<I>(itertools::structs::MultiProduct<I>) where
    I: Iterator + Clone,
    I::Item: Clone,
;

/// An iterator over the choices of `k` out of the numbers below `n`.
///
/// It holds an `itertools::structs::Combinations` over a range, a type whose
/// full name is private to its crate.
#[verifier::external_body]
pub struct Choices {
    iter: itertools::structs::Combinations<core::ops::Range<usize>>,
}

/// The items that an iterator over choices with repetition has yet to yield.
pub uninterp spec fn multichoices_left(
    it: itertools::structs::CombinationsWithReplacement<core::ops::Range<usize>>,
) -> Seq<Seq<usize>>;

/// The items that an iterator over choices has yet to yield.
pub uninterp spec fn choices_left(it: Choices) -> Seq<Seq<usize>>;

/// The items that an iterator over grid points has yet to yield.
pub uninterp spec fn grid_points_left(
    it: itertools::structs::MultiProduct<core::ops::Range<usize>>,
) -> Seq<Seq<usize>>;

/// `Itertools::combinations_with_replacement` on the range `0..n`: the
/// iterator yields every choice of `k` numbers below `n` with repetition, as
/// a non-descending list, each exactly once.
#[verifier::external_body]
pub(crate) fn multichoices(n: usize, k: usize) -> (it:
    itertools::structs::CombinationsWithReplacement<core::ops::Range<usize>>)
    ensures
        forall|t: Seq<usize>|
            #[trigger] multichoices_left(it).contains(t) <==> is_multichoice(t, n as int, k as int),
        multichoices_left(it).no_duplicates(),
{
    (0..n).combinations_with_replacement(k)
}

/// `Iterator::next` of `CombinationsWithReplacement`: hands out the first of
/// the items that are left, or `None` when none is left.
#[verifier::external_body]
pub(crate) fn next_multichoice(
    it: &mut itertools::structs::CombinationsWithReplacement<core::ops::Range<usize>>,
) -> (r: Option<Vec<usize>>)
    ensures
        match r {
            Some(t) => {
                &&& multichoices_left(*old(it)).len() > 0
                &&& t@ == multichoices_left(*old(it))[0]
                &&& multichoices_left(*final(it)) == multichoices_left(*old(it)).skip(1)
            },
            None => multichoices_left(*old(it)).len() == 0 && multichoices_left(*final(it)).len()
                == 0,
        },
{
    it.next()
}

/// `Itertools::combinations` on the range `0..n`: the iterator yields every
/// choice of `k` different numbers below `n`, as an ascending list, each
/// exactly once.
#[verifier::external_body]
pub(crate) fn choices(n: usize, k: usize) -> (it: Choices)
    ensures
        forall|t: Seq<usize>|
            #[trigger] choices_left(it).contains(t) <==> is_choice(t, n as int, k as int),
        choices_left(it).no_duplicates(),
{
    Choices { iter: (0..n).combinations(k) }
}

/// `Iterator::next` of `Combinations`: hands out the first of the items that
/// are left, or `None` when none is left.
#[verifier::external_body]
pub(crate) fn next_choice(it: &mut Choices) -> (r: Option<Vec<usize>>)
    ensures
        match r {
            Some(t) => {
                &&& choices_left(*old(it)).len() > 0
                &&& t@ == choices_left(*old(it))[0]
                &&& choices_left(*final(it)) == choices_left(*old(it)).skip(1)
            },
            None => choices_left(*old(it)).len() == 0 && choices_left(*final(it)).len() == 0,
        },
{
    it.iter.next()
}

/// `Itertools::multi_cartesian_product` on the ranges `0..dims[i]`: the
/// iterator yields every list of coordinates, one below each extent, each
/// exactly once.
#[verifier::external_body]
pub(crate) fn grid_points(dims: &Vec<usize>) -> (it: itertools::structs::MultiProduct<
    core::ops::Range<usize>,
>)
    ensures
        forall|t: Seq<usize>| #[trigger] grid_points_left(it).contains(t) <==> is_grid_point(t, dims@),
        grid_points_left(it).no_duplicates(),
{
    dims.iter().map(|d| 0..*d).multi_cartesian_product()
}

/// `Iterator::next` of `MultiProduct`: hands out the first of the items that
/// are left, or `None` when none is left.
#[verifier::external_body]
pub(crate) fn next_grid_point(
    it: &mut itertools::structs::MultiProduct<core::ops::Range<usize>>,
) -> (r: Option<Vec<usize>>)
    ensures
        match r {
            Some(t) => {
                &&& grid_points_left(*old(it)).len() > 0
                &&& t@ == grid_points_left(*old(it))[0]
                &&& grid_points_left(*final(it)) == grid_points_left(*old(it)).skip(1)
            },
            None => grid_points_left(*old(it)).len() == 0 && grid_points_left(*final(it)).len()
                == 0,
        },
{
    it.next()
}

/// `slice::sort_unstable` on a vector: afterwards the same values stand in
/// non-descending order.
#[verifier::external_body]
pub(crate) fn sort32(v: &mut Vec<u32>)
    ensures
        final(v)@.to_multiset() == old(v)@.to_multiset(),
        forall|i: int, j: int| 0 <= i <= j < final(v)@.len() ==> final(v)@[i] <= final(v)@[j],
{
    v.sort_unstable();
}

/// `slice::sort_unstable` on a vector: afterwards the same values stand in
/// non-descending order.
#[verifier::external_body]
pub(crate) fn sort64(v: &mut Vec<u64>)
    ensures
        final(v)@.to_multiset() == old(v)@.to_multiset(),
        forall|i: int, j: int| 0 <= i <= j < final(v)@.len() ==> final(v)@[i] <= final(v)@[j],
{
    v.sort_unstable();
}

} // verus!
