use vstd::prelude::*;

verus! {

/// What one move contributes to an average: its rank among the moves (the
/// larger the better), its weight, and one weighted value per slot.
#[derive(Clone, Copy, Debug)]
pub struct Term<const L: usize> {
    pub rank: u128,
    pub weight: u64,
    pub values: [u64; L],
}

/// The mathematical value of a [`Term`].
pub struct TermView {
    pub rank: int,
    pub weight: int,
    pub values: Seq<int>,
}

impl<const L: usize> View for Term<L> {
    type V = TermView;

    open spec fn view(&self) -> TermView {
        TermView {
            rank: self.rank as int,
            weight: self.weight as int,
            values: Seq::new(L as nat, |j: int| self.values[j] as int),
        }
    }
}

/// The mathematical value of a list of terms.
pub open spec fn terms_view<const L: usize>(terms: Seq<Term<L>>) -> Seq<TermView> {
    Seq::new(terms.len(), |k: int| terms[k]@)
}

/// The best rank among the terms of a list, and zero for the empty list.
pub open spec fn best_rank(terms: Seq<TermView>) -> int
    decreases terms.len(),
{
    if terms.len() == 0 {
        0
    } else {
        let rest = best_rank(terms.drop_last());
        if terms.last().rank > rest {
            terms.last().rank
        } else {
            rest
        }
    }
}

/// The weight of the terms of a given rank.
pub open spec fn weight_at(terms: Seq<TermView>, rank: int) -> int
    decreases terms.len(),
{
    if terms.len() == 0 {
        0
    } else {
        weight_at(terms.drop_last(), rank) + if terms.last().rank == rank {
            terms.last().weight
        } else {
            0
        }
    }
}

/// The weighted values in one slot of the terms of a given rank.
pub open spec fn mass_at(terms: Seq<TermView>, rank: int, slot: int) -> int
    decreases terms.len(),
{
    if terms.len() == 0 {
        0
    } else {
        mass_at(terms.drop_last(), rank, slot) + if terms.last().rank == rank {
            terms.last().values[slot]
        } else {
            0
        }
    }
}

/// The weight of all terms.
pub open spec fn weight_all(terms: Seq<TermView>) -> int
    decreases terms.len(),
{
    if terms.len() == 0 {
        0
    } else {
        weight_all(terms.drop_last()) + terms.last().weight
    }
}

/// The weighted values in one slot of all terms.
pub open spec fn mass_all(terms: Seq<TermView>, slot: int) -> int
    decreases terms.len(),
{
    if terms.len() == 0 {
        0
    } else {
        mass_all(terms.drop_last(), slot) + terms.last().values[slot]
    }
}

/// The average in one slot over the terms of the best rank: their weighted
/// values over their weight, rounded down.
pub open spec fn best_average(terms: Seq<TermView>, slot: int) -> int {
    mass_at(terms, best_rank(terms), slot) / weight_at(terms, best_rank(terms))
}

/// The average in one slot over all terms against a fixed weight.
pub open spec fn full_average(terms: Seq<TermView>, weight: int, slot: int) -> int {
    mass_all(terms, slot) / weight
}

/// One term whose weighted values are at most the weight times `2^32 - 1`.
pub open spec fn term_wf(t: TermView, slots: int) -> bool {
    &&& 0 <= t.weight <= 0xff
    &&& 0 <= t.rank
    &&& t.values.len() == slots
    &&& forall|j: int| 0 <= j < slots ==> 0 <= #[trigger] t.values[j] <= t.weight * 0xffff_ffff
}

/// Terms whose sums fit in 64 bits and whose averages fit in 32: a short
/// list of well-formed terms.
pub open spec fn terms_wf(terms: Seq<TermView>, slots: int) -> bool {
    &&& terms.len() <= 0xffff
    &&& forall|k: int| 0 <= k < terms.len() ==> term_wf(#[trigger] terms[k], slots)
}

/// The first terms of a well-formed list are a well-formed list.
pub proof fn lemma_terms_wf_take(terms: Seq<TermView>, slots: int, k: int)
    requires
        terms_wf(terms, slots),
        0 <= k <= terms.len(),
    ensures
        terms_wf(terms.take(k), slots),
        k < terms.len() ==> terms.take(k + 1).drop_last() == terms.take(k) && terms.take(
            k + 1,
        ).last() == terms[k],
        k == terms.len() ==> terms.take(k) == terms,
{
    let pre = terms.take(k);
    assert forall|i: int| 0 <= i < pre.len() implies term_wf(#[trigger] pre[i], slots) by {
        assert(pre[i] == terms[i]);
    }
    if k < terms.len() {
        assert(terms.take(k + 1).drop_last() == terms.take(k));
    } else {
        assert(terms.take(k) == terms);
    }
}

/// Above the best rank of a list there is no term.
pub proof fn lemma_nothing_above_best(terms: Seq<TermView>, rank: int, slot: int)
    requires
        rank > best_rank(terms),
    ensures
        weight_at(terms, rank) == 0,
        mass_at(terms, rank, slot) == 0,
    decreases terms.len(),
{
    if terms.len() > 0 {
        lemma_nothing_above_best(terms.drop_last(), rank, slot);
    }
}

/// Sums over terms stay within what the weights allow.
pub proof fn lemma_mass_bounds(terms: Seq<TermView>, slots: int, rank: int, slot: int)
    requires
        terms_wf(terms, slots),
        0 <= slot < slots,
    ensures
        0 <= best_rank(terms),
        0 <= weight_at(terms, rank) <= 0xff * terms.len(),
        0 <= mass_at(terms, rank, slot) <= weight_at(terms, rank) * 0xffff_ffff,
        0 <= weight_all(terms) <= 0xff * terms.len(),
        0 <= mass_all(terms, slot) <= weight_all(terms) * 0xffff_ffff,
        mass_at(terms, rank, slot) <= 0xff * 0xffff * 0xffff_ffff,
        mass_all(terms, slot) <= 0xff * 0xffff * 0xffff_ffff,
    decreases terms.len(),
{
    if terms.len() > 0 {
        let rest = terms.drop_last();
        lemma_terms_wf_take(terms, slots, terms.len() - 1);
        assert(rest == terms.take(terms.len() - 1));
        lemma_mass_bounds(rest, slots, rank, slot);
        let e = terms.last();
        assert(e == terms[terms.len() - 1]);
        assert(term_wf(e, slots));
        assert(e.values[slot] <= e.weight * 0xffff_ffff);
    }
    let w = weight_at(terms, rank);
    let wa = weight_all(terms);
    assert(w * 0xffff_ffff <= 0xff * 0xffff * 0xffff_ffff) by (nonlinear_arith)
        requires
            0 <= w <= 0xff * 0xffff,
    ;
    assert(wa * 0xffff_ffff <= 0xff * 0xffff * 0xffff_ffff) by (nonlinear_arith)
        requires
            0 <= wa <= 0xff * 0xffff,
    ;
}

/// The average per slot over the terms of the best rank: their weighted
/// values over their weight, rounded down.
pub fn average_of_best<const L: usize>(terms: &Vec<Term<L>>) -> (out: [u32; L])
    requires
        L > 0,
        terms_wf(terms_view(terms@), L as int),
        weight_at(terms_view(terms@), best_rank(terms_view(terms@))) > 0,
    ensures
        forall|j: int| 0 <= j < L ==> #[trigger] out[j] == best_average(terms_view(terms@), j),
{
    let ghost tv = terms_view(terms@);
    let mut best: u128 = 0;
    let mut sum = [0u64; L];
    let mut total: u64 = 0;
    assert(tv.take(0) =~= Seq::empty());
    for k in 0..terms.len()
        invariant
            L > 0,
            tv == terms_view(terms@),
            terms_wf(tv, L as int),
            best == best_rank(tv.take(k as int)),
            total == weight_at(tv.take(k as int), best as int),
            forall|j: int|
                0 <= j < L ==> #[trigger] sum[j] == mass_at(tv.take(k as int), best as int, j),
    {
        let t = terms[k];
        let ghost pre = tv.take(k as int);
        let ghost cur = tv.take(k + 1);
        proof {
            lemma_terms_wf_take(tv, L as int, k as int);
            lemma_terms_wf_take(tv, L as int, k + 1);
            assert(cur.last() == t@);
            assert(term_wf(tv[k as int], L as int));
            assert forall|j: int| 0 <= j < L implies t@.values[j] == #[trigger] t.values[j] by {}
            assert forall|j: int| 0 <= j < L implies #[trigger] mass_at(cur, best_rank(cur), j)
                <= 0xff * 0xffff * 0xffff_ffff && 0 <= mass_at(pre, best as int, j) by {
                lemma_mass_bounds(cur, L as int, best_rank(cur), j);
                lemma_mass_bounds(pre, L as int, best as int, j);
            }
            lemma_mass_bounds(cur, L as int, best_rank(cur), 0);
        }
        if t.rank > best {
            best = t.rank;
            total = t.weight;
            for j in 0..L
                invariant
                    forall|i: int| 0 <= i < j ==> #[trigger] sum[i] == t.values[i],
            {
                sum[j] = t.values[j];
            }
            proof {
                assert forall|j: int| 0 <= j < L implies #[trigger] sum[j] == mass_at(
                    cur,
                    best as int,
                    j,
                ) by {
                    lemma_nothing_above_best(pre, t.rank as int, j);
                    assert(t@.values[j] == t.values[j]);
                }
                lemma_nothing_above_best(pre, t.rank as int, 0);
            }
        } else if t.rank == best {
            let ghost before = sum;
            total += t.weight;
            proof {
                assert forall|i: int| 0 <= i < L implies #[trigger] before[i] + t.values[i] <= 0xff
                    * 0xffff * 0xffff_ffff by {
                    assert(before[i] == mass_at(pre, best as int, i));
                    assert(t@.values[i] == t.values[i]);
                    assert(mass_at(cur, best_rank(cur), i) == before[i] + t.values[i]);
                }
            }
            for j in 0..L
                invariant
                    forall|i: int| 0 <= i < j ==> #[trigger] sum[i] == before[i] + t.values[i],
                    forall|i: int| j <= i < L ==> #[trigger] sum[i] == before[i],
                    forall|i: int|
                        0 <= i < L ==> #[trigger] before[i] + t.values[i] <= 0xff * 0xffff
                            * 0xffff_ffff,
            {
                sum[j] = sum[j] + t.values[j];
            }
            proof {
                assert forall|j: int| 0 <= j < L implies #[trigger] sum[j] == mass_at(
                    cur,
                    best as int,
                    j,
                ) by {
                    assert(before[j] == mass_at(pre, best as int, j));
                    assert(t@.values[j] == t.values[j]);
                }
            }
        } else {
            proof {
                assert forall|j: int| 0 <= j < L implies #[trigger] sum[j] == mass_at(
                    cur,
                    best as int,
                    j,
                ) by {
                    assert(sum[j] == mass_at(pre, best as int, j));
                }
            }
        }
    }
    proof {
        lemma_terms_wf_take(tv, L as int, tv.len() as int);
    }
    let mut out = [0u32; L];
    for j in 0..L
        invariant
            total > 0,
            total == weight_at(tv, best as int),
            best == best_rank(tv),
            terms_wf(tv, L as int),
            forall|i: int| 0 <= i < L ==> #[trigger] sum[i] == mass_at(tv, best as int, i),
            forall|i: int| 0 <= i < j ==> #[trigger] out[i] == best_average(tv, i),
    {
        proof {
            lemma_mass_bounds(tv, L as int, best as int, j as int);
            let s = sum[j as int] as int;
            let w = total as int;
            assert(s / w <= 0xffff_ffff) by (nonlinear_arith)
                requires
                    0 <= s <= w * 0xffff_ffff,
                    w > 0,
            ;
        }
        out[j] = (sum[j] / total) as u32;
    }
    out
}

/// The average per slot over all terms against a fixed weight: their
/// weighted values over the weight, rounded down.
pub fn average_of_all<const L: usize>(terms: &Vec<Term<L>>, weight: u64) -> (out: [u32; L])
    requires
        L > 0,
        terms_wf(terms_view(terms@), L as int),
        weight > 0,
        weight_all(terms_view(terms@)) <= weight,
    ensures
        forall|j: int|
            0 <= j < L ==> #[trigger] out[j] == full_average(terms_view(terms@), weight as int, j),
{
    let ghost tv = terms_view(terms@);
    let mut sum = [0u64; L];
    assert(tv.take(0) =~= Seq::empty());
    for k in 0..terms.len()
        invariant
            L > 0,
            tv == terms_view(terms@),
            terms_wf(tv, L as int),
            forall|j: int| 0 <= j < L ==> #[trigger] sum[j] == mass_all(tv.take(k as int), j),
    {
        let t = terms[k];
        let ghost before = sum;
        let ghost pre = tv.take(k as int);
        let ghost cur = tv.take(k + 1);
        proof {
            lemma_terms_wf_take(tv, L as int, k as int);
            lemma_terms_wf_take(tv, L as int, k + 1);
            assert(cur.last() == t@);
            assert forall|j: int| 0 <= j < L implies #[trigger] before[j] + t.values[j] <= 0xff
                * 0xffff * 0xffff_ffff by {
                lemma_mass_bounds(cur, L as int, 0, j);
                assert(t@.values[j] == t.values[j]);
                assert(before[j] == mass_all(pre, j));
            }
        }
        for j in 0..L
            invariant
                forall|i: int| 0 <= i < j ==> #[trigger] sum[i] == before[i] + t.values[i],
                forall|i: int| j <= i < L ==> #[trigger] sum[i] == before[i],
                forall|i: int|
                    0 <= i < L ==> #[trigger] before[i] + t.values[i] <= 0xff * 0xffff
                        * 0xffff_ffff,
        {
            sum[j] = sum[j] + t.values[j];
        }
        proof {
            assert forall|j: int| 0 <= j < L implies #[trigger] sum[j] == mass_all(cur, j) by {
                assert(before[j] == mass_all(pre, j));
                assert(t@.values[j] == t.values[j]);
            }
        }
    }
    proof {
        lemma_terms_wf_take(tv, L as int, tv.len() as int);
    }
    let mut out = [0u32; L];
    for j in 0..L
        invariant
            weight > 0,
            weight_all(tv) <= weight,
            terms_wf(tv, L as int),
            forall|i: int| 0 <= i < L ==> #[trigger] sum[i] == mass_all(tv, i),
            forall|i: int| 0 <= i < j ==> #[trigger] out[i] == full_average(tv, weight as int, i),
    {
        proof {
            lemma_mass_bounds(tv, L as int, 0, j as int);
            let s = sum[j as int] as int;
            let w = weight as int;
            let wa = weight_all(tv);
            assert(s / w <= 0xffff_ffff) by (nonlinear_arith)
                requires
                    0 <= s <= wa * 0xffff_ffff,
                    0 <= wa <= w,
                    w > 0,
            ;
        }
        out[j] = (sum[j] / weight) as u32;
    }
    out
}

/// Among terms of positive weight, those of the best rank weigh something.
pub proof fn lemma_best_has_weight(terms: Seq<TermView>)
    requires
        terms.len() > 0,
        forall|k: int| 0 <= k < terms.len() ==> (#[trigger] terms[k]).weight >= 1 && terms[k].rank >= 0,
    ensures
        weight_at(terms, best_rank(terms)) >= 1,
    decreases terms.len(),
{
    let rest = terms.drop_last();
    let e = terms.last();
    assert(e == terms[terms.len() - 1]);
    assert forall|k: int| 0 <= k < rest.len() implies (#[trigger] rest[k]).weight >= 1 && rest[k].rank
        >= 0 by {
        assert(rest[k] == terms[k]);
    }
    if rest.len() > 0 {
        lemma_best_has_weight(rest);
        lemma_weight_nonneg(rest, best_rank(terms));
        if e.rank > best_rank(rest) {
            lemma_nothing_above_best(rest, e.rank, 0);
        }
    } else {
        assert(best_rank(rest) == 0);
        assert(weight_at(rest, best_rank(terms)) == 0);
    }
}

/// Terms of positive weight weigh nothing negative.
pub proof fn lemma_weight_nonneg(terms: Seq<TermView>, rank: int)
    requires
        forall|k: int| 0 <= k < terms.len() ==> (#[trigger] terms[k]).weight >= 1,
    ensures
        weight_at(terms, rank) >= 0,
    decreases terms.len(),
{
    if terms.len() > 0 {
        let rest = terms.drop_last();
        assert(terms.last() == terms[terms.len() - 1]);
        assert forall|k: int| 0 <= k < rest.len() implies (#[trigger] rest[k]).weight >= 1 by {
            assert(rest[k] == terms[k]);
        }
        lemma_weight_nonneg(rest, rank);
    }
}

/// Whether term `k` is the only term of the best rank.
pub open spec fn is_only_best(terms: Seq<TermView>, k: int) -> bool {
    &&& 0 <= k < terms.len()
    &&& forall|i: int| 0 <= i < terms.len() && i != k ==> (#[trigger] terms[i]).rank < terms[k].rank
    &&& terms[k].rank >= 0
}

/// The terms of a rank that only one term has are that term.
proof fn lemma_only_term_of_rank(terms: Seq<TermView>, k: int, n: int, slot: int)
    requires
        0 <= k < terms.len(),
        0 <= n <= terms.len(),
        forall|i: int| 0 <= i < terms.len() && i != k ==> (#[trigger] terms[i]).rank != terms[k].rank,
    ensures
        weight_at(terms.take(n), terms[k].rank) == if k < n {
            terms[k].weight
        } else {
            0
        },
        mass_at(terms.take(n), terms[k].rank, slot) == if k < n {
            terms[k].values[slot]
        } else {
            0
        },
    decreases n,
{
    if n > 0 {
        lemma_only_term_of_rank(terms, k, n - 1, slot);
        assert(terms.take(n).drop_last() == terms.take(n - 1));
        assert(terms.take(n).last() == terms[n - 1]);
    } else {
        assert(terms.take(0) =~= Seq::empty());
    }
}

/// The best rank of a list is the rank of a term that outranks all others.
proof fn lemma_best_rank_of_only_best(terms: Seq<TermView>, k: int, n: int)
    requires
        is_only_best(terms, k),
        0 <= n <= terms.len(),
    ensures
        best_rank(terms.take(n)) <= terms[k].rank,
        k < n ==> best_rank(terms.take(n)) == terms[k].rank,
    decreases n,
{
    if n > 0 {
        lemma_best_rank_of_only_best(terms, k, n - 1);
        assert(terms.take(n).drop_last() == terms.take(n - 1));
        assert(terms.take(n).last() == terms[n - 1]);
    } else {
        assert(terms.take(0) =~= Seq::empty());
    }
}

/// Where one move outranks all others, the average is what that move
/// contributes per unit of its weight.
pub proof fn lemma_single_best(terms: Seq<TermView>, k: int, slot: int)
    requires
        is_only_best(terms, k),
    ensures
        best_average(terms, slot) == terms[k].values[slot] / terms[k].weight,
{
    lemma_best_rank_of_only_best(terms, k, terms.len() as int);
    lemma_only_term_of_rank(terms, k, terms.len() as int, slot);
    assert(terms.take(terms.len() as int) == terms);
}

} // verus!
