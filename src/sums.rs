use vstd::prelude::*;

verus! {

/// Sum of a sequence of integers.
pub open spec fn sum(s: Seq<int>) -> int
    decreases s.len(),
{
    if s.len() == 0 {
        0
    } else {
        sum(s.drop_last()) + s.last()
    }
}

/// Sum of the entries of `s` whose flag in `keep` is set.
pub open spec fn kept_sum(s: Seq<int>, keep: Seq<bool>) -> int
    decreases s.len(),
{
    if s.len() == 0 {
        0
    } else {
        kept_sum(s.drop_last(), keep.drop_last()) + if keep[s.len() - 1] {
            s.last()
        } else {
            0
        }
    }
}

/// Number of set flags.
pub open spec fn count_true(keep: Seq<bool>) -> int
    decreases keep.len(),
{
    if keep.len() == 0 {
        0
    } else {
        count_true(keep.drop_last()) + if keep.last() {
            1int
        } else {
            0
        }
    }
}

/// Sum of the first `i` entries.
pub open spec fn prefix(s: Seq<int>, i: int) -> int {
    sum(s.take(i))
}

/// Length of the overlap of the stretches `[a1, a2)` and `[b1, b2)`.
pub open spec fn overlap(a1: int, a2: int, b1: int, b2: int) -> int {
    let lo = if a1 > b1 {
        a1
    } else {
        b1
    };
    let hi = if a2 < b2 {
        a2
    } else {
        b2
    };
    if hi > lo {
        hi - lo
    } else {
        0
    }
}

pub open spec fn nonneg(s: Seq<int>) -> bool {
    forall|i: int| 0 <= i < s.len() ==> #[trigger] s[i] >= 0
}

/// The entries of a machine-integer sequence, as mathematical integers.
pub open spec fn ints(s: Seq<i32>) -> Seq<int> {
    s.map_values(|x: i32| x as int)
}

/// Sum of column `r` over the rows of a matrix.
pub open spec fn col_sum(m: Seq<Seq<int>>, r: int) -> int
    decreases m.len(),
{
    if m.len() == 0 {
        0
    } else {
        col_sum(m.drop_last(), r) + m.last()[r]
    }
}

pub proof fn lemma_sum_nonneg(s: Seq<int>)
    requires
        nonneg(s),
    ensures
        sum(s) >= 0,
    decreases s.len(),
{
    if s.len() > 0 {
        lemma_sum_nonneg(s.drop_last());
    }
}

pub proof fn lemma_kept_sum_bounds(s: Seq<int>, keep: Seq<bool>)
    requires
        nonneg(s),
        keep.len() == s.len(),
    ensures
        0 <= kept_sum(s, keep) <= sum(s),
    decreases s.len(),
{
    if s.len() > 0 {
        lemma_kept_sum_bounds(s.drop_last(), keep.drop_last());
    }
}

pub proof fn lemma_sum_prefix(s: Seq<int>, k: int)
    requires
        nonneg(s),
        0 <= k <= s.len(),
    ensures
        0 <= sum(s.take(k)) <= sum(s),
    decreases s.len(),
{
    if k == s.len() {
        assert(s.take(k) =~= s);
        lemma_sum_nonneg(s);
    } else {
        lemma_sum_prefix(s.drop_last(), k);
        assert(s.drop_last().take(k) =~= s.take(k));
    }
}

pub proof fn lemma_sum_take_step(s: Seq<int>, k: int)
    requires
        0 <= k < s.len(),
    ensures
        sum(s.take(k + 1)) == sum(s.take(k)) + s[k],
{
    assert(s.take(k + 1).drop_last() =~= s.take(k));
}

pub proof fn lemma_kept_sum_take_step(s: Seq<int>, keep: Seq<bool>, k: int)
    requires
        0 <= k < s.len(),
        k < keep.len(),
    ensures
        kept_sum(s.take(k + 1), keep.take(k + 1)) == kept_sum(s.take(k), keep.take(k)) + if keep[k] {
            s[k]
        } else {
            0
        },
{
    assert(s.take(k + 1).drop_last() =~= s.take(k));
    assert(keep.take(k + 1).drop_last() =~= keep.take(k));
}

pub proof fn lemma_count_take_step(keep: Seq<bool>, k: int)
    requires
        0 <= k < keep.len(),
    ensures
        count_true(keep.take(k + 1)) == count_true(keep.take(k)) + if keep[k] {
            1int
        } else {
            0
        },
{
    assert(keep.take(k + 1).drop_last() =~= keep.take(k));
}

pub proof fn lemma_sum_update(s: Seq<int>, i: int, v: int)
    requires
        0 <= i < s.len(),
    ensures
        sum(s.update(i, v)) == sum(s) - s[i] + v,
    decreases s.len(),
{
    if i < s.len() - 1 {
        lemma_sum_update(s.drop_last(), i, v);
        assert(s.update(i, v).drop_last() =~= s.drop_last().update(i, v));
    } else {
        assert(s.update(i, v).drop_last() =~= s.drop_last());
    }
}

pub proof fn lemma_sum_zero(s: Seq<int>)
    requires
        forall|i: int| 0 <= i < s.len() ==> #[trigger] s[i] == 0,
    ensures
        sum(s) == 0,
    decreases s.len(),
{
    if s.len() > 0 {
        lemma_sum_zero(s.drop_last());
    }
}

pub proof fn lemma_count_true_update(keep: Seq<bool>, i: int)
    requires
        0 <= i < keep.len(),
        !keep[i],
    ensures
        count_true(keep.update(i, true)) == count_true(keep) + 1,
    decreases keep.len(),
{
    if i < keep.len() - 1 {
        lemma_count_true_update(keep.drop_last(), i);
        assert(keep.update(i, true).drop_last() =~= keep.drop_last().update(i, true));
    } else {
        assert(keep.update(i, true).drop_last() =~= keep.drop_last());
    }
}

/// Fewer set flags than entries leaves one entry unset.
pub proof fn lemma_count_true_full(keep: Seq<bool>)
    requires
        count_true(keep) >= keep.len(),
    ensures
        forall|i: int| 0 <= i < keep.len() ==> #[trigger] keep[i],
    decreases keep.len(),
{
    if keep.len() > 0 {
        lemma_count_true_bound(keep.drop_last());
        lemma_count_true_full(keep.drop_last());
        assert forall|i: int| 0 <= i < keep.len() implies #[trigger] keep[i] by {
            if i < keep.len() - 1 {
                assert(keep.drop_last()[i]);
            }
        }
    }
}

pub proof fn lemma_count_true_bound(keep: Seq<bool>)
    ensures
        0 <= count_true(keep) <= keep.len(),
    decreases keep.len(),
{
    if keep.len() > 0 {
        lemma_count_true_bound(keep.drop_last());
    }
}

pub proof fn lemma_kept_sum_all(s: Seq<int>, keep: Seq<bool>)
    requires
        keep.len() == s.len(),
        forall|i: int| 0 <= i < keep.len() ==> #[trigger] keep[i],
    ensures
        kept_sum(s, keep) == sum(s),
    decreases s.len(),
{
    if s.len() > 0 {
        lemma_kept_sum_all(s.drop_last(), keep.drop_last());
    }
}

/// Raising flagged entries, and only those, does not lower the flagged sum.
pub proof fn lemma_kept_sum_le(a: Seq<int>, b: Seq<int>, keep: Seq<bool>)
    requires
        a.len() == b.len(),
        keep.len() == a.len(),
        forall|i: int| 0 <= i < a.len() && #[trigger] keep[i] ==> a[i] <= b[i],
    ensures
        kept_sum(a, keep) <= kept_sum(b, keep),
    decreases a.len(),
{
    if a.len() > 0 {
        lemma_kept_sum_le(a.drop_last(), b.drop_last(), keep.drop_last());
    }
}

/// Where the unflagged entries are zero, the flagged sum is the whole sum.
pub proof fn lemma_sum_is_kept(a: Seq<int>, keep: Seq<bool>)
    requires
        keep.len() == a.len(),
        forall|i: int| 0 <= i < a.len() && !#[trigger] keep[i] ==> a[i] == 0,
    ensures
        sum(a) == kept_sum(a, keep),
    decreases a.len(),
{
    if a.len() > 0 {
        lemma_sum_is_kept(a.drop_last(), keep.drop_last());
    }
}

pub proof fn lemma_sum_ge_entry(s: Seq<int>, i: int)
    requires
        nonneg(s),
        0 <= i < s.len(),
    ensures
        s[i] <= sum(s),
    decreases s.len(),
{
    lemma_sum_nonneg(s.drop_last());
    if i < s.len() - 1 {
        lemma_sum_ge_entry(s.drop_last(), i);
    }
}

pub proof fn lemma_ints_push(s: Seq<i32>, x: i32)
    ensures
        ints(s.push(x)) == ints(s).push(x as int),
        sum(ints(s.push(x))) == sum(ints(s)) + x,
{
    assert(ints(s.push(x)) =~= ints(s).push(x as int));
    assert(ints(s).push(x as int).drop_last() =~= ints(s));
}

pub proof fn lemma_ints_update(s: Seq<i32>, i: int, x: i32)
    requires
        0 <= i < s.len(),
    ensures
        ints(s.update(i, x)) == ints(s).update(i, x as int),
        sum(ints(s.update(i, x))) == sum(ints(s)) - s[i] + x,
{
    assert(ints(s.update(i, x)) =~= ints(s).update(i, x as int));
    lemma_sum_update(ints(s), i, x as int);
}

/// A sequence with no set flag counts none.
pub proof fn lemma_count_zero(keep: Seq<bool>)
    requires
        forall|i: int| 0 <= i < keep.len() ==> !#[trigger] keep[i],
    ensures
        count_true(keep) == 0,
    decreases keep.len(),
{
    if keep.len() > 0 {
        lemma_count_zero(keep.drop_last());
    }
}

/// Entry by entry no smaller, and somewhere larger: the sum is larger.
pub proof fn lemma_sum_strict(a: Seq<int>, b: Seq<int>, i: int)
    requires
        a.len() == b.len(),
        forall|k: int| 0 <= k < a.len() ==> #[trigger] a[k] >= b[k],
        0 <= i < a.len(),
        a[i] > b[i],
    ensures
        sum(a) > sum(b),
    decreases a.len(),
{
    if i < a.len() - 1 {
        lemma_sum_strict(a.drop_last(), b.drop_last(), i);
    } else {
        lemma_sum_le(a.drop_last(), b.drop_last());
    }
}

pub proof fn lemma_sum_le(a: Seq<int>, b: Seq<int>)
    requires
        a.len() == b.len(),
        forall|k: int| 0 <= k < a.len() ==> #[trigger] a[k] >= b[k],
    ensures
        sum(a) >= sum(b),
    decreases a.len(),
{
    if a.len() > 0 {
        lemma_sum_le(a.drop_last(), b.drop_last());
    }
}

pub proof fn lemma_prefix_mono(s: Seq<int>, a: int, b: int)
    requires
        nonneg(s),
        0 <= a <= b <= s.len(),
    ensures
        0 <= prefix(s, a) <= prefix(s, b),
{
    assert(nonneg(s.take(b)));
    lemma_sum_prefix(s.take(b), a);
    assert(s.take(b).take(a) =~= s.take(a));
}

} // verus!
