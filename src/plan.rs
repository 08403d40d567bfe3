use vstd::prelude::*;

use crate::canister::{all_wf, capacities, empty_weights, fuel_total, fuels, total_fuel, Can};
use crate::sums::{
    count_true, ints, kept_sum, lemma_count_take_step, lemma_count_true_bound,
    lemma_count_true_full, lemma_count_true_update, lemma_count_zero, lemma_ints_push, lemma_ints_update,
    lemma_kept_sum_all, lemma_kept_sum_bounds, lemma_kept_sum_le, lemma_kept_sum_take_step,
    lemma_sum_is_kept, lemma_sum_prefix, nonneg, sum, col_sum, lemma_sum_strict, lemma_prefix_mono, overlap, prefix, lemma_sum_ge_entry,
    lemma_sum_nonneg, lemma_sum_take_step, lemma_sum_zero,
};

verus! {

/// Combined capacity of the canisters flagged in `keep`.
pub open spec fn kept_capacity(cans: Seq<Can>, keep: Seq<bool>) -> int {
    kept_sum(capacities(cans), keep)
}

/// Combined empty weight of the canisters flagged in `keep`.
pub open spec fn kept_weight(cans: Seq<Can>, keep: Seq<bool>) -> int {
    kept_sum(empty_weights(cans), keep)
}

pub open spec fn capacity_total(cans: Seq<Can>) -> int {
    sum(capacities(cans))
}

pub open spec fn empty_weight_total(cans: Seq<Can>) -> int {
    sum(empty_weights(cans))
}

/// The inputs the planner accepts: well-formed canisters whose totals fit in an `i32`.
pub open spec fn plannable(cans: Seq<Can>) -> bool {
    &&& all_wf(cans)
    &&& fuel_total(cans) <= i32::MAX
    &&& capacity_total(cans) <= i32::MAX
    &&& empty_weight_total(cans) <= i32::MAX
}

/// Whether `solve_plan` accepts `cans`: every canister well formed, and the total fuel,
/// capacity and empty weight each within `i32`.
pub fn can_plan(cans: &[Can]) -> (r: bool)
    ensures
        r == plannable(cans@),
{
    let ghost cs = cans@;
    let n = cans.len();
    let mut fuel: i64 = 0;
    let mut cap: i64 = 0;
    let mut weight: i64 = 0;
    let mut i: usize = 0;
    while i < n
        invariant
            n == cs.len(),
            cs == cans@,
            i <= n,
            forall|j: int| 0 <= j < i ==> (#[trigger] cs[j]).wf(),
            fuel == sum(fuels(cs).take(i as int)),
            cap == sum(capacities(cs).take(i as int)),
            weight == sum(empty_weights(cs).take(i as int)),
            0 <= fuel <= i32::MAX,
            0 <= cap <= i32::MAX,
            0 <= weight <= i32::MAX,
        decreases n - i,
    {
        let c = &cans[i];
        if !(c.spec.capacity > 0 && c.spec.empty_weight > 0 && c.fuel >= 0) {
            return false;
        }
        proof {
            lemma_sum_take_step(fuels(cs), i as int);
            lemma_sum_take_step(capacities(cs), i as int);
            lemma_sum_take_step(empty_weights(cs), i as int);
        }
        fuel = fuel + c.fuel as i64;
        cap = cap + c.spec.capacity as i64;
        weight = weight + c.spec.empty_weight as i64;
        i = i + 1;
        if fuel > 2147483647 || cap > 2147483647 || weight > 2147483647 {
            proof {
                if all_wf(cs) {
                    lemma_plannable_nonneg(cs);
                    lemma_sum_prefix(fuels(cs), i as int);
                    lemma_sum_prefix(capacities(cs), i as int);
                    lemma_sum_prefix(empty_weights(cs), i as int);
                }
            }
            return false;
        }
    }
    proof {
        assert(fuels(cs).take(n as int) =~= fuels(cs));
        assert(capacities(cs).take(n as int) =~= capacities(cs));
        assert(empty_weights(cs).take(n as int) =~= empty_weights(cs));
    }
    true
}

/// The flagged canisters can hold all the fuel together.
pub open spec fn is_cover(cans: Seq<Can>, keep: Seq<bool>) -> bool {
    &&& keep.len() == cans.len()
    &&& kept_capacity(cans, keep) >= fuel_total(cans)
}

/// Subset `a` is no worse than subset `b`: lighter when empty, or as light with no more canisters.
pub open spec fn no_worse(cans: Seq<Can>, a: Seq<bool>, b: Seq<bool>) -> bool {
    ||| kept_weight(cans, a) < kept_weight(cans, b)
    ||| kept_weight(cans, a) == kept_weight(cans, b) && count_true(a) <= count_true(b)
}

/// `keep` is a cover that no other cover beats.
pub open spec fn optimal_cover(cans: Seq<Can>, keep: Seq<bool>) -> bool {
    &&& is_cover(cans, keep)
    &&& forall|s: Seq<bool>| #[trigger] is_cover(cans, s) ==> no_worse(cans, keep, s)
}

/// Subset `a` is lighter than `b`, or as light with fewer canisters.
pub open spec fn strictly_better(cans: Seq<Can>, a: Seq<bool>, b: Seq<bool>) -> bool {
    ||| kept_weight(cans, a) < kept_weight(cans, b)
    ||| kept_weight(cans, a) == kept_weight(cans, b) && count_true(a) < count_true(b)
}

/// `a` keeps canister `j` where `b` drops it, and the two agree before `j`.
pub open spec fn keeps_earlier_at(a: Seq<bool>, b: Seq<bool>, j: int) -> bool {
    0 <= j < a.len() && j < b.len() && a[j] && !b[j] && a.take(j) == b.take(j)
}

/// Between equally good subsets, `a` comes first: it keeps the first canister where they differ.
pub open spec fn keeps_earlier(a: Seq<bool>, b: Seq<bool>) -> bool {
    exists|j: int| keeps_earlier_at(a, b, j)
}

/// `a` is `b`, beats it, or ties with it and keeps the first canister where they differ.
pub open spec fn preferred(cans: Seq<Can>, a: Seq<bool>, b: Seq<bool>) -> bool {
    ||| a == b
    ||| strictly_better(cans, a, b)
    ||| kept_weight(cans, a) == kept_weight(cans, b) && count_true(a) == count_true(b)
        && keeps_earlier(a, b)
}

/// The cover the planner keeps: preferred over every other cover. There is at most one.
pub open spec fn best_cover(cans: Seq<Can>, keep: Seq<bool>) -> bool {
    &&& is_cover(cans, keep)
    &&& forall|s: Seq<bool>| #[trigger] is_cover(cans, s) ==> preferred(cans, keep, s)
}

proof fn lemma_keeps_earlier_asym(a: Seq<bool>, b: Seq<bool>)
    requires
        a.len() == b.len(),
        keeps_earlier(a, b),
    ensures
        !keeps_earlier(b, a),
{
    if keeps_earlier(b, a) {
        let i = choose|i: int| keeps_earlier_at(a, b, i);
        let j = choose|j: int| keeps_earlier_at(b, a, j);
        if i < j {
            assert(a.take(j)[i] == b.take(j)[i]);
        } else if j < i {
            assert(a.take(i)[j] == b.take(i)[j]);
        }
    }
}

/// At most one cover is the best one.
pub proof fn lemma_best_cover_unique(cans: Seq<Can>, a: Seq<bool>, b: Seq<bool>)
    requires
        best_cover(cans, a),
        best_cover(cans, b),
    ensures
        a == b,
{
    assert(preferred(cans, a, b));
    assert(preferred(cans, b, a));
    if a != b {
        lemma_keeps_earlier_asym(a, b);
    }
}

pub proof fn lemma_plannable_nonneg(cans: Seq<Can>)
    requires
        all_wf(cans),
    ensures
        nonneg(capacities(cans)),
        nonneg(empty_weights(cans)),
        nonneg(fuels(cans)),
{
    assert forall|i: int| 0 <= i < cans.len() implies #[trigger] capacities(cans)[i] >= 0 by {
        assert(cans[i].wf());
    }
    assert forall|i: int| 0 <= i < cans.len() implies #[trigger] empty_weights(cans)[i] >= 0 by {
        assert(cans[i].wf());
    }
    assert forall|i: int| 0 <= i < cans.len() implies #[trigger] fuels(cans)[i] >= 0 by {
        assert(cans[i].wf());
    }
}

/// The best subset found so far, with its empty weight and size.
struct Selection {
    keep: Vec<bool>,
    weight: i32,
    count: usize,
}

spec fn selection_ok(cans: Seq<Can>, b: Option<Selection>) -> bool {
    b matches Some(x) ==> {
        &&& is_cover(cans, x.keep@)
        &&& x.weight == kept_weight(cans, x.keep@)
        &&& x.count == count_true(x.keep@)
    }
}

/// Tries both choices for canister `k` and every later one, keeping the first subset that beats `best`.
fn search(
    cans: &[Can],
    total: i32,
    flags: &mut Vec<bool>,
    k: usize,
    cap: i32,
    weight: i32,
    count: usize,
    best: Option<Selection>,
) -> (r: Option<Selection>)
    requires
        plannable(cans@),
        total == fuel_total(cans@),
        old(flags)@.len() == cans@.len(),
        k <= cans@.len(),
        cap == kept_sum(capacities(cans@).take(k as int), old(flags)@.take(k as int)),
        weight == kept_sum(empty_weights(cans@).take(k as int), old(flags)@.take(k as int)),
        count == count_true(old(flags)@.take(k as int)),
        selection_ok(cans@, best),
        best matches Some(b) ==> b.keep@.len() == cans@.len() && exists|j: int|
            j < k && #[trigger] keeps_earlier_at(b.keep@, old(flags)@, j),
    ensures
        final(flags)@.len() == cans@.len(),
        final(flags)@.take(k as int) == old(flags)@.take(k as int),
        selection_ok(cans@, r),
        best matches Some(b) ==> r matches Some(x) && (x.keep@ == b.keep@ || strictly_better(
            cans@,
            x.keep@,
            b.keep@,
        )),
        r matches Some(x) ==> (best matches Some(b) && x.keep@ == b.keep@) || x.keep@.take(k as int)
            == old(flags)@.take(k as int),
        forall|s: Seq<bool>|
            #[trigger] is_cover(cans@, s) && s.take(k as int) == old(flags)@.take(k as int) ==> (
            r matches Some(x) && preferred(cans@, x.keep@, s)),
    decreases cans@.len() - k,
{
    let n = cans.len();
    let ghost cs = cans@;
    let ghost f0 = flags@;
    if k == n {
        proof {
            assert(f0.take(k as int) =~= f0);
            assert(capacities(cs).take(k as int) =~= capacities(cs));
            assert(empty_weights(cs).take(k as int) =~= empty_weights(cs));
            assert forall|s: Seq<bool>| #[trigger]
                is_cover(cs, s) && s.take(k as int) == f0.take(k as int) implies s == f0 by {
                assert(s.take(k as int) =~= s);
            }
        }
        proof {
            if best is Some {
                let b = best->Some_0.keep@;
                let j = choose|j: int| j < k && #[trigger] keeps_earlier_at(b, f0, j);
                assert(keeps_earlier_at(b, f0, j));
            }
        }
        if cap >= total {
            let better = match &best {
                Some(b) => weight < b.weight || (weight == b.weight && count < b.count),
                None => true,
            };
            if better {
                let keep = flags.clone();
                assert(keep@ =~= f0);
                return Some(Selection { keep, weight, count });
            }
        }
        return best;
    }
    proof {
        lemma_plannable_nonneg(cs);
        lemma_kept_sum_take_step(capacities(cs), f0.update(k as int, true), k as int);
        lemma_kept_sum_take_step(empty_weights(cs), f0.update(k as int, true), k as int);
        lemma_count_take_step(f0.update(k as int, true), k as int);
        assert(f0.update(k as int, true).take(k as int) =~= f0.take(k as int));
        lemma_kept_sum_bounds(
            capacities(cs).take(k + 1),
            f0.update(k as int, true).take(k + 1),
        );
        lemma_kept_sum_bounds(
            empty_weights(cs).take(k + 1),
            f0.update(k as int, true).take(k + 1),
        );
        lemma_sum_prefix(capacities(cs), k + 1);
        lemma_sum_prefix(empty_weights(cs), k + 1);
        lemma_count_true_bound(f0.take(k as int));
    }
    flags.set(k, true);
    let ghost f1 = flags@;
    proof {
        if best is Some {
            let b = best->Some_0.keep@;
            let j = choose|j: int| j < k && #[trigger] keeps_earlier_at(b, f0, j);
            assert(f1.take(j) =~= f0.take(j));
            assert(keeps_earlier_at(b, f1, j));
        }
    }
    let r1 = search(
        cans,
        total,
        flags,
        k + 1,
        cap + cans[k].spec.capacity,
        weight + cans[k].spec.empty_weight,
        count + 1,
        best,
    );
    let ghost f1_after = flags@;
    proof {
        assert(f1_after.take(k as int) =~= f0.take(k as int)) by {
            assert(f1_after.take(k + 1).take(k as int) =~= f1_after.take(k as int));
            assert(f1.take(k + 1).take(k as int) =~= f1.take(k as int));
        }
        lemma_kept_sum_take_step(capacities(cs), f1_after.update(k as int, false), k as int);
        lemma_kept_sum_take_step(empty_weights(cs), f1_after.update(k as int, false), k as int);
        lemma_count_take_step(f1_after.update(k as int, false), k as int);
        assert(f1_after.update(k as int, false).take(k as int) =~= f0.take(k as int));
    }
    flags.set(k, false);
    let ghost f2 = flags@;
    proof {
        if r1 is Some {
            let x = r1->Some_0.keep@;
            if best is Some && x == best->Some_0.keep@ {
                let j = choose|j: int| j < k && #[trigger] keeps_earlier_at(x, f0, j);
                assert(f1_after.take(k as int)[j] == f0.take(k as int)[j]);
                assert(f2[j] == f0[j]);
                assert(f2.take(j) =~= f0.take(j)) by {
                    assert forall|i: int| 0 <= i < j implies f2.take(j)[i] == f0.take(j)[i] by {
                        assert(f1_after.take(k as int)[i] == f0.take(k as int)[i]);
                    }
                }
                assert(keeps_earlier_at(x, f2, j));
            } else {
                assert(x.take(k + 1)[k as int] == f1.take(k + 1)[k as int]);
                assert(x.take(k as int) =~= x.take(k + 1).take(k as int));
                assert(f2.take(k as int) =~= f1.take(k + 1).take(k as int));
                assert(keeps_earlier_at(x, f2, k as int));
            }
        }
    }
    let r2 = search(cans, total, flags, k + 1, cap, weight, count, r1);
    proof {
        let ff = flags@;
        if r2 is Some {
            let x = r2->Some_0.keep@;
            if !(best is Some && x == best->Some_0.keep@) {
                if r1 is Some && x == r1->Some_0.keep@ {
                    assert(x.take(k as int) =~= x.take(k + 1).take(k as int));
                    assert(f1.take(k + 1).take(k as int) =~= f0.take(k as int));
                } else {
                    assert(x.take(k as int) =~= x.take(k + 1).take(k as int));
                    assert(f2.take(k + 1).take(k as int) =~= f0.take(k as int));
                }
            }
        }
        assert(ff.take(k as int) =~= f0.take(k as int)) by {
            assert(ff.take(k + 1).take(k as int) =~= ff.take(k as int));
            assert(f2.take(k + 1).take(k as int) =~= f0.take(k as int));
        }
        assert forall|s: Seq<bool>| #[trigger]
            is_cover(cs, s) && s.take(k as int) == f0.take(k as int) implies (r2 matches Some(x)
            && preferred(cs, x.keep@, s)) by {
            if s[k as int] {
                assert(s.take(k + 1) =~= f1.take(k + 1));
            } else {
                assert(s.take(k + 1) =~= f2.take(k + 1));
            }
        }
    }
    r2
}

/// The lightest subset of canisters that can hold all the fuel, fewest canisters on a tie;
/// `None` when even all of them together cannot.
fn choose_cans(cans: &[Can], total: i32) -> (r: Option<Vec<bool>>)
    requires
        plannable(cans@),
        total == fuel_total(cans@),
    ensures
        r is Some <==> capacity_total(cans@) >= fuel_total(cans@),
        r matches Some(keep) ==> best_cover(cans@, keep@),
{
    let n = cans.len();
    let mut flags: Vec<bool> = Vec::new();
    let mut i: usize = 0;
    while i < n
        invariant
            i <= n,
            n == cans@.len(),
            flags@.len() == i,
            forall|j: int| 0 <= j < i ==> !#[trigger] flags@[j],
        decreases n - i,
    {
        flags.push(false);
        i = i + 1;
    }
    proof {
        assert(capacities(cans@).take(0) =~= Seq::<int>::empty());
        assert(empty_weights(cans@).take(0) =~= Seq::<int>::empty());
        assert(flags@.take(0) =~= Seq::<bool>::empty());
    }
    let ghost f0 = flags@;
    let r = search(cans, total, &mut flags, 0, 0, 0, 0, None);
    proof {
        assert forall|s: Seq<bool>| #[trigger] is_cover(cans@, s) implies (r matches Some(x)
            && preferred(cans@, x.keep@, s)) by {
            assert(s.take(0) =~= f0.take(0));
        }
        let all = Seq::new(n as nat, |j: int| true);
        lemma_kept_sum_all(capacities(cans@), all);
        if capacity_total(cans@) >= fuel_total(cans@) {
            assert(is_cover(cans@, all));
            assert(all.take(0) =~= Seq::<bool>::empty());
        }
        if r is Some {
            lemma_plannable_nonneg(cans@);
            let x = r->Some_0.keep@;
            lemma_kept_sum_bounds(capacities(cans@), x);
        }
    }
    match r {
        Some(sel) => Some(sel.keep),
        None => None,
    }
}

/// Why no plan came out.
#[derive(Clone, Copy, Debug, PartialEq, Eq, Structural)]
pub enum PlanError {
    /// The list of canisters was empty.
    NoCans,
    /// All canisters together cannot hold the fuel.
    CannotCarry,
    /// The kept canisters could not take all the fuel (an internal inconsistency).
    CouldNotFit,
    /// The donors could not cover what the kept canisters need (an internal inconsistency).
    NotEnoughDonorFuel,
}

/// What a kept canister holds before any fuel is poured in: its own fuel, but never more
/// than its capacity (any excess is poured out to other canisters).
pub open spec fn start_fuel(c: Can) -> int {
    if c.fuel < c.spec.capacity {
        c.fuel as int
    } else {
        c.spec.capacity as int
    }
}

/// Room left in a kept canister above what it starts with.
pub open spec fn spare(c: Can) -> int {
    c.spec.capacity - start_fuel(c)
}

/// The order in which kept canisters are topped up: more spare room first, then lower index.
pub open spec fn fills_before(cans: Seq<Can>, i: int, j: int) -> bool {
    ||| spare(cans[i]) > spare(cans[j])
    ||| spare(cans[i]) == spare(cans[j]) && i < j
}

/// `f` is the fuel each canister ends with when each kept one starts from `start_fuel` and the
/// rest is poured into them in `fills_before` order, each filled to capacity before the next.
pub open spec fn filled(cans: Seq<Can>, keep: Seq<bool>, f: Seq<int>) -> bool {
    &&& keep.len() == cans.len()
    &&& f.len() == cans.len()
    &&& sum(f) == fuel_total(cans)
    &&& forall|i: int|
        0 <= i < cans.len() ==> if keep[i] {
            start_fuel(cans[i]) <= #[trigger] f[i] <= cans[i].spec.capacity
        } else {
            f[i] == 0
        }
    &&& forall|i: int, j: int|
        0 <= i < cans.len() && 0 <= j < cans.len() && keep[i] && keep[j] && #[trigger] fills_before(
            cans,
            i,
            j,
        ) && f[j] > start_fuel(cans[j]) ==> #[trigger] f[i] == cans[i].spec.capacity
}

proof fn lemma_filled_no_larger(cans: Seq<Can>, keep: Seq<bool>, f: Seq<int>, g: Seq<int>, i: int)
    requires
        filled(cans, keep, f),
        filled(cans, keep, g),
        0 <= i < cans.len(),
    ensures
        f[i] <= g[i],
{
    if f[i] > g[i] {
        if forall|j: int| 0 <= j < cans.len() ==> #[trigger] f[j] >= g[j] {
            lemma_sum_strict(f, g, i);
        }
        let j = choose|j: int| 0 <= j < cans.len() && !(#[trigger] f[j] >= g[j]);
        assert(keep[i] && keep[j]);
        if fills_before(cans, i, j) {
            assert(g[i] == cans[i].spec.capacity);
        } else {
            assert(fills_before(cans, j, i));
            assert(f[j] == cans[j].spec.capacity);
        }
    }
}

/// Given the kept canisters, at most one fuel assignment is `filled`.
pub proof fn lemma_filled_unique(cans: Seq<Can>, keep: Seq<bool>, f: Seq<int>, g: Seq<int>)
    requires
        filled(cans, keep, f),
        filled(cans, keep, g),
    ensures
        f == g,
{
    assert forall|i: int| 0 <= i < f.len() implies f[i] == g[i] by {
        lemma_filled_no_larger(cans, keep, f, g, i);
        lemma_filled_no_larger(cans, keep, g, f, i);
    }
    assert(f =~= g);
}

/// The kept canister not yet topped up that comes first in `fills_before` order.
fn next_to_fill(cans: &[Can], keep: &Vec<bool>, done: &Vec<bool>) -> (r: Option<usize>)
    requires
        all_wf(cans@),
        keep@.len() == cans@.len(),
        done@.len() == cans@.len(),
    ensures
        r matches Some(j) ==> {
            &&& j < cans@.len()
            &&& keep@[j as int]
            &&& !done@[j as int]
            &&& forall|i: int|
                0 <= i < cans@.len() && keep@[i] && !done@[i] ==> !#[trigger] fills_before(
                    cans@,
                    i,
                    j as int,
                )
        },
        r is None ==> forall|i: int| 0 <= i < cans@.len() && #[trigger] keep@[i] ==> done@[i],
{
    let n = cans.len();
    let mut best: Option<usize> = None;
    let mut best_spare: i32 = 0;
    let mut i: usize = 0;
    while i < n
        invariant
            n == cans@.len(),
            i <= n,
            all_wf(cans@),
            keep@.len() == n,
            done@.len() == n,
            best matches Some(b) ==> {
                &&& b < i
                &&& keep@[b as int]
                &&& !done@[b as int]
                &&& best_spare == spare(cans@[b as int])
                &&& forall|k: int|
                    0 <= k < i && keep@[k] && !done@[k] ==> spare(#[trigger] cans@[k]) <= best_spare
                &&& forall|k: int|
                    0 <= k < i && keep@[k] && !done@[k] ==> !#[trigger] fills_before(
                        cans@,
                        k,
                        b as int,
                    )
            },
            best is None ==> forall|k: int| 0 <= k < i && #[trigger] keep@[k] ==> done@[k],
        decreases n - i,
    {
        if keep[i] && !done[i] {
            assert(cans@[i as int].wf());
            let c = &cans[i];
            let s: i32 = if c.spec.capacity > c.fuel {
                c.spec.capacity - c.fuel
            } else {
                0
            };
            let replace = match best {
                Some(_) => s > best_spare,
                None => true,
            };
            if replace {
                best = Some(i);
                best_spare = s;
            }
        }
        i = i + 1;
    }
    best
}

/// Keeps each kept canister's own fuel and pours the rest into the kept canisters,
/// the ones with the most spare room first, each filled before the next.
fn fill(cans: &[Can], keep: &Vec<bool>, total: i32) -> (r: Result<Vec<i32>, PlanError>)
    requires
        plannable(cans@),
        total == fuel_total(cans@),
        is_cover(cans@, keep@),
    ensures
        r matches Ok(f) && filled(cans@, keep@, ints(f@)),
{
    let n = cans.len();
    let ghost cs = cans@;
    proof {
        lemma_plannable_nonneg(cs);
    }
    let mut final_fuel: Vec<i32> = Vec::new();
    let mut done: Vec<bool> = Vec::new();
    let mut remaining: i32 = total;
    let mut i: usize = 0;
    while i < n
        invariant
            n == cs.len(),
            cs == cans@,
            i <= n,
            plannable(cs),
            nonneg(fuels(cs)),
            total == fuel_total(cs),
            keep@.len() == n,
            final_fuel@.len() == i,
            done@.len() == i,
            forall|j: int| 0 <= j < i ==> !#[trigger] done@[j],
            forall|j: int|
                0 <= j < i ==> #[trigger] final_fuel@[j] == if keep@[j] {
                    start_fuel(cs[j])
                } else {
                    0
                },
            0 <= sum(ints(final_fuel@)) <= kept_sum(fuels(cs).take(i as int), keep@.take(i as int)),
            remaining == total - sum(ints(final_fuel@)),
        decreases n - i,
    {
        proof {
            lemma_kept_sum_take_step(fuels(cs), keep@, i as int);
            lemma_kept_sum_bounds(fuels(cs).take(i + 1), keep@.take(i + 1));
            lemma_sum_prefix(fuels(cs), i + 1);
        }
        assert(cs[i as int].wf());
        let c = &cans[i];
        let v: i32 = if !keep[i] {
            0
        } else if c.fuel < c.spec.capacity {
            c.fuel
        } else {
            c.spec.capacity
        };
        proof {
            lemma_ints_push(final_fuel@, v);
        }
        final_fuel.push(v);
        done.push(false);
        remaining = remaining - v;
        i = i + 1;
    }
    proof {
        assert(fuels(cs).take(n as int) =~= fuels(cs));
        assert(keep@.take(n as int) =~= keep@);
        lemma_kept_sum_bounds(fuels(cs), keep@);
        assert(count_true(done@) == 0) by {
            lemma_count_true_bound(done@);
            if count_true(done@) > 0 {
                lemma_count_zero(done@);
            }
        }
    }
    let mut step: usize = 0;
    while step < n && remaining > 0
        invariant
            n == cs.len(),
            cs == cans@,
            plannable(cs),
            total == fuel_total(cs),
            keep@.len() == n,
            final_fuel@.len() == n,
            done@.len() == n,
            step <= n,
            count_true(done@) == step,
            step == n ==> forall|j: int| 0 <= j < n ==> #[trigger] done@[j],
            remaining >= 0,
            sum(ints(final_fuel@)) + remaining == total,
            forall|j: int| 0 <= j < n && #[trigger] done@[j] ==> keep@[j],
            forall|j: int|
                0 <= j < n ==> if keep@[j] {
                    start_fuel(cs[j]) <= #[trigger] final_fuel@[j] <= cs[j].spec.capacity
                } else {
                    final_fuel@[j] == 0
                },
            forall|j: int| 0 <= j < n && !#[trigger] done@[j] && keep@[j] ==> final_fuel@[j] == start_fuel(cs[j]),
            remaining > 0 ==> forall|j: int|
                0 <= j < n && #[trigger] done@[j] ==> final_fuel@[j] == cs[j].spec.capacity,
            forall|a: int, b: int|
                0 <= a < n && 0 <= b < n && keep@[a] && keep@[b] && #[trigger] fills_before(cs, a, b)
                    && done@[b] ==> #[trigger] done@[a],
            forall|a: int, b: int|
                0 <= a < n && 0 <= b < n && keep@[a] && keep@[b] && #[trigger] fills_before(cs, a, b)
                    && final_fuel@[b] > start_fuel(cs[b]) ==> #[trigger] final_fuel@[a]
                    == cs[a].spec.capacity,
        ensures
            remaining > 0 ==> forall|j: int| 0 <= j < n && #[trigger] keep@[j] ==> done@[j],
        decreases n - step,
    {
        match next_to_fill(cans, keep, &done) {
            None => {
                break;
            },
            Some(j) => {
                assert(cs[j as int].wf());
                let c = &cans[j];
                let room: i32 = if c.spec.capacity > c.fuel {
                    c.spec.capacity - c.fuel
                } else {
                    0
                };
                let give: i32 = if room < remaining {
                    room
                } else {
                    remaining
                };
                let st: i32 = if c.fuel < c.spec.capacity {
                    c.fuel
                } else {
                    c.spec.capacity
                };
                let v: i32 = st + give;
                let ghost old_final = final_fuel@;
                let ghost old_done = done@;
                let ghost old_remaining = remaining;
                proof {
                    lemma_ints_update(final_fuel@, j as int, v);
                    lemma_count_true_update(done@, j as int);
                }
                final_fuel.set(j, v);
                done.set(j, true);
                remaining = remaining - give;
                step = step + 1;
                proof {
                    if step == n {
                        lemma_count_true_full(done@);
                    }
                    assert forall|a: int, b: int|
                        0 <= a < n && 0 <= b < n && keep@[a] && keep@[b] && #[trigger] fills_before(
                            cs,
                            a,
                            b,
                        ) && done@[b] implies #[trigger] done@[a] by {
                        if b != j && a != j {
                            assert(old_done[b]);
                        }
                    }
                    assert forall|a: int, b: int|
                        0 <= a < n && 0 <= b < n && keep@[a] && keep@[b] && #[trigger] fills_before(
                            cs,
                            a,
                            b,
                        ) && final_fuel@[b] > start_fuel(cs[b]) implies #[trigger] final_fuel@[a]
                        == cs[a].spec.capacity by {
                        if b == j {
                            assert(old_done[a]);
                        } else if a == j {
                            assert(old_done[b]);
                            assert(old_done[a]);
                        } else {
                            assert(old_final[b] > start_fuel(cs[b]));
                        }
                    }
                }
            },
        }
    }
    if remaining > 0 {
        proof {
            let f = ints(final_fuel@);
            assert forall|j: int| 0 <= j < n && #[trigger] keep@[j] implies capacities(cs)[j] <= f[j] by {
                assert(done@[j]);
            }
            lemma_kept_sum_le(capacities(cs), f, keep@);
            lemma_sum_is_kept(f, keep@);
        }
        return Err(PlanError::CouldNotFit);
    }
    Ok(final_fuel)
}

/// What canister `i` gives away: all its fuel when dropped, what it holds above its target when kept.
pub open spec fn surplus(cans: Seq<Can>, keep: Seq<bool>, f: Seq<int>, i: int) -> int {
    if !keep[i] {
        cans[i].fuel as int
    } else if cans[i].fuel > f[i] {
        cans[i].fuel - f[i]
    } else {
        0
    }
}

/// What canister `i` must receive to reach its target.
pub open spec fn deficit(cans: Seq<Can>, f: Seq<int>, i: int) -> int {
    if f[i] > cans[i].fuel {
        f[i] - cans[i].fuel
    } else {
        0
    }
}

/// A matrix of `i32` rows, as mathematical integers.
pub open spec fn matrix(t: Seq<Vec<i32>>) -> Seq<Seq<int>> {
    t.map_values(|row: Vec<i32>| ints(row@))
}

/// `m[d][r]` moves fuel from donor `d` to recipient `r`: each donor gives exactly its surplus,
/// each recipient gets exactly its deficit, and fuel only goes from a surplus to a deficit.
pub open spec fn matched(cans: Seq<Can>, keep: Seq<bool>, f: Seq<int>, m: Seq<Seq<int>>) -> bool {
    &&& m.len() == cans.len()
    &&& forall|d: int| 0 <= d < m.len() ==> (#[trigger] m[d]).len() == cans.len()
    &&& forall|d: int, r: int| 0 <= d < m.len() && 0 <= r < cans.len() ==> #[trigger] m[d][r] >= 0
    &&& forall|d: int| 0 <= d < m.len() ==> sum(#[trigger] m[d]) == surplus(cans, keep, f, d)
    &&& forall|r: int| 0 <= r < cans.len() ==> #[trigger] col_sum(m, r) == deficit(cans, f, r)
    &&& forall|d: int, r: int|
        0 <= d < m.len() && 0 <= r < cans.len() && #[trigger] m[d][r] > 0 ==> surplus(cans, keep, f, d)
            > 0 && deficit(cans, f, r) > 0
}

/// The surplus of every canister, in index order.
pub open spec fn surpluses(cans: Seq<Can>, keep: Seq<bool>, f: Seq<int>) -> Seq<int> {
    Seq::new(cans.len(), |i: int| surplus(cans, keep, f, i))
}

/// The deficit of every canister, in index order.
pub open spec fn deficits(cans: Seq<Can>, f: Seq<int>) -> Seq<int> {
    Seq::new(cans.len(), |i: int| deficit(cans, f, i))
}

/// With the surpluses laid end to end in donor order and the deficits in recipient order,
/// donor `d` gives recipient `r` the length that their two stretches share.
pub open spec fn in_order_transfer(sup: Seq<int>, dem: Seq<int>, d: int, r: int) -> int {
    overlap(prefix(sup, d), prefix(sup, d + 1), prefix(dem, r), prefix(dem, r + 1))
}

/// Every entry of `m` is the in-order transfer.
pub open spec fn matched_in_order(cans: Seq<Can>, keep: Seq<bool>, f: Seq<int>, m: Seq<Seq<int>>) -> bool {
    forall|d: int, r: int|
        0 <= d < cans.len() && 0 <= r < cans.len() ==> #[trigger] m[d][r] == in_order_transfer(
            surpluses(cans, keep, f),
            deficits(cans, f),
            d,
            r,
        )
}

/// The part of recipient `b`'s stretch that lies below `pos`.
spec fn covered(dem: Seq<int>, pos: int, b: int) -> int {
    overlap(0, pos, prefix(dem, b), prefix(dem, b + 1))
}

pub proof fn lemma_col_sum_push(m: Seq<Seq<int>>, row: Seq<int>, r: int)
    ensures
        col_sum(m.push(row), r) == col_sum(m, r) + row[r],
{
    assert(m.push(row).drop_last() =~= m);
}

/// Moves the surplus of each donor, in index order, to the recipients with a deficit, in index
/// order: each transfer is as much as the donor has left and the recipient still needs.
#[verifier::rlimit(100)]
fn match_transfers(cans: &[Can], keep: &Vec<bool>, final_fuel: &Vec<i32>) -> (r: Result<
    Vec<Vec<i32>>,
    PlanError,
>)
    requires
        all_wf(cans@),
        keep@.len() == cans@.len(),
        final_fuel@.len() == cans@.len(),
        forall|i: int| 0 <= i < cans@.len() ==> #[trigger] final_fuel@[i] >= 0,
        forall|i: int| 0 <= i < cans@.len() && !keep@[i] ==> #[trigger] final_fuel@[i] == 0,
        sum(ints(final_fuel@)) == fuel_total(cans@),
    ensures
        r matches Ok(t) && matched(cans@, keep@, ints(final_fuel@), matrix(t@)) && matched_in_order(
            cans@,
            keep@,
            ints(final_fuel@),
            matrix(t@),
        ),
{
    let n = cans.len();
    let ghost cs = cans@;
    let ghost f = ints(final_fuel@);
    let mut need: Vec<i32> = Vec::new();
    let mut supply: Vec<i32> = Vec::new();
    let mut i: usize = 0;
    while i < n
        invariant
            n == cs.len(),
            cs == cans@,
            all_wf(cs),
            f == ints(final_fuel@),
            i <= n,
            keep@.len() == n,
            final_fuel@.len() == n,
            forall|j: int| 0 <= j < n ==> #[trigger] final_fuel@[j] >= 0,
            forall|j: int| 0 <= j < n && !keep@[j] ==> #[trigger] final_fuel@[j] == 0,
            need@.len() == i,
            supply@.len() == i,
            forall|j: int| 0 <= j < i ==> #[trigger] need@[j] == deficit(cs, f, j),
            forall|j: int| 0 <= j < i ==> #[trigger] supply@[j] == surplus(cs, keep@, f, j),
            sum(ints(need@)) - sum(ints(supply@)) == sum(f.take(i as int)) - sum(fuels(cs).take(i as int)),
        decreases n - i,
    {
        assert(cs[i as int].wf());
        let c = &cans[i];
        let target = final_fuel[i];
        let d: i32 = if target > c.fuel {
            target - c.fuel
        } else {
            0
        };
        let s: i32 = if !keep[i] {
            c.fuel
        } else if c.fuel > target {
            c.fuel - target
        } else {
            0
        };
        proof {
            assert(f[i as int] == target);
            assert(fuels(cs)[i as int] == c.fuel);
            lemma_ints_push(need@, d);
            lemma_ints_push(supply@, s);
            lemma_sum_take_step(f, i as int);
            lemma_sum_take_step(fuels(cs), i as int);
        }
        need.push(d);
        supply.push(s);
        i = i + 1;
    }
    let ghost need0 = ints(need@);
    let ghost sup = ints(supply@);
    proof {
        assert(f.take(n as int) =~= f);
        assert(fuels(cs).take(n as int) =~= fuels(cs));
        assert(nonneg(sup)) by {
            assert forall|j: int| 0 <= j < n implies #[trigger] sup[j] >= 0 by {
                assert(cs[j].wf());
            }
        }
        assert(sup.take(0) =~= Seq::<int>::empty());
        assert(nonneg(need0)) by {
            assert forall|j: int| 0 <= j < n implies #[trigger] need0[j] >= 0 by {
                assert(need0[j] == deficit(cs, f, j));
            }
        }
    }
    let mut transfers: Vec<Vec<i32>> = Vec::new();
    let mut d: usize = 0;
    while d < n
        invariant
            n == cs.len(),
            cs == cans@,
            all_wf(cs),
            f == ints(final_fuel@),
            keep@.len() == n,
            d <= n,
            need@.len() == n,
            supply@.len() == n,
            sup == ints(supply@),
            nonneg(sup),
            need0.len() == n,
            forall|j: int| 0 <= j < n ==> #[trigger] need0[j] == deficit(cs, f, j),
            forall|j: int| 0 <= j < n ==> #[trigger] need@[j] <= need0[j],
            forall|j: int| 0 <= j < n ==> #[trigger] sup[j] == surplus(cs, keep@, f, j),
            transfers@.len() == d,
            forall|a: int| 0 <= a < d ==> (#[trigger] matrix(transfers@)[a]).len() == n,
            forall|a: int, b: int|
                0 <= a < d && 0 <= b < n ==> #[trigger] matrix(transfers@)[a][b] >= 0,
            forall|a: int| 0 <= a < d ==> sum(#[trigger] matrix(transfers@)[a]) == sup[a],
            forall|b: int|
                0 <= b < n ==> 0 <= #[trigger] need@[b] && need0[b] - need@[b] == col_sum(
                    matrix(transfers@),
                    b,
                ),
            forall|a: int, b: int|
                0 <= a < d && 0 <= b < n && #[trigger] matrix(transfers@)[a][b] > 0 ==> sup[a] > 0
                    && need0[b] > 0,
            sum(ints(need@)) == sum(sup) - sum(sup.take(d as int)),
            nonneg(need0),
            forall|a: int, b: int|
                0 <= a < d && 0 <= b < n ==> #[trigger] matrix(transfers@)[a][b] == in_order_transfer(
                    sup,
                    need0,
                    a,
                    b,
                ),
            forall|b: int| 0 <= b < n ==> #[trigger] need@[b] == need0[b] - covered(need0, prefix(sup, d as int), b),
        decreases n - d,
    {
        let ghost need_d = need@;
        let ghost sd = prefix(sup, d as int);
        assert(sup[d as int] >= 0);
        proof {
            lemma_prefix_mono(sup, 0, d as int);
            assert(sup.take(0) =~= Seq::<int>::empty());
            assert(need0.take(0) =~= Seq::<int>::empty());
        }
        let mut row: Vec<i32> = Vec::new();
        let mut avail: i32 = supply[d];
        let mut r: usize = 0;
        while r < n
            invariant
                n == cs.len(),
                d < n,
                need@.len() == n,
                supply@.len() == n,
                sup == ints(supply@),
                row@.len() == r,
                r <= n,
                avail >= 0,
                avail <= sup[d as int],
                need_d.len() == n,
                need0.len() == n,
                forall|j: int| 0 <= j < n ==> #[trigger] need_d[j] <= need0[j],
                forall|b: int| 0 <= b < r && #[trigger] row@[b] > 0 ==> sup[d as int] > 0,
                sum(ints(row@)) + avail == sup[d as int],
                forall|b: int| 0 <= b < r ==> #[trigger] row@[b] >= 0,
                forall|b: int| r <= b < n ==> #[trigger] need@[b] == need_d[b],
                forall|b: int| 0 <= b < r ==> #[trigger] need@[b] == need_d[b] - row@[b],
                forall|b: int| 0 <= b < n ==> #[trigger] need@[b] >= 0,
                forall|b: int| 0 <= b < r && #[trigger] row@[b] > 0 ==> need_d[b] > 0,
                sum(ints(need@)) == sum(ints(need_d)) - (sup[d as int] - avail),
                avail > 0 ==> forall|b: int| 0 <= b < r ==> #[trigger] need@[b] == 0,
                nonneg(need0),
                nonneg(sup),
                sd == prefix(sup, d as int),
                sd >= 0,
                forall|b: int|
                    0 <= b < n ==> #[trigger] need@[b] == need0[b] - covered(
                        need0,
                        sd + sup[d as int] - avail,
                        b,
                    ),
                forall|b: int| 0 <= b < r ==> #[trigger] row@[b] == in_order_transfer(sup, need0, d as int, b),
                avail > 0 ==> prefix(need0, r as int) <= sd + sup[d as int] - avail,
                sd + sup[d as int] - avail == sd || sd + sup[d as int] - avail <= prefix(need0, r as int),
            decreases n - r,
        {
            let want = need[r];
            let give: i32 = if avail > 0 && want > 0 {
                if avail < want {
                    avail
                } else {
                    want
                }
            } else {
                0
            };
            let left: i32 = want - give;
            proof {
                let pos = sd + sup[d as int] - avail;
                lemma_sum_take_step(need0, r as int);
                lemma_sum_take_step(sup, d as int);
                lemma_prefix_mono(need0, 0, r as int);
                assert(row@.push(give)[r as int] == in_order_transfer(sup, need0, d as int, r as int));
                assert forall|b: int| 0 <= b < n && b != r implies covered(need0, pos + give, b)
                    == covered(need0, pos, b) by {
                    lemma_sum_take_step(need0, b);
                    if give > 0 {
                        if b < r {
                            lemma_prefix_mono(need0, b + 1, r as int);
                        } else {
                            lemma_prefix_mono(need0, r + 1, b);
                        }
                    }
                }
                if r + 1 < n {
                    lemma_prefix_mono(need0, r + 1, r + 1);
                }
            }
            proof {
                lemma_ints_push(row@, give);
                lemma_ints_update(need@, r as int, left);
            }
            need.set(r, left);
            avail = avail - give;
            row.push(give);
            r = r + 1;
        }
        proof {
            if avail > 0 {
                lemma_sum_zero(ints(need@));
                lemma_sum_take_step(sup, d as int);
                lemma_sum_prefix(sup, d + 1);
            }
            assert(avail == 0);
            lemma_sum_take_step(sup, d as int);
            assert(row@.len() == n);
            let m = matrix(transfers@);
            assert(matrix(transfers@.push(row)) =~= m.push(ints(row@)));
            assert forall|b: int| 0 <= b < n implies col_sum(m.push(ints(row@)), b) == col_sum(m, b)
                + row@[b] by {
                lemma_col_sum_push(m, ints(row@), b);
            }
        }
        transfers.push(row);
        d = d + 1;
    }
    proof {
        assert(sup.take(n as int) =~= sup);
        assert(sup =~= surpluses(cs, keep@, f));
        assert(need0 =~= deficits(cs, f));
    }
    let mut k: usize = 0;
    #[verifier::loop_isolation(false)]
    while k < n
        invariant
            n == cs.len(),
            need@.len() == n,
            k <= n,
            forall|b: int| 0 <= b < k ==> #[trigger] need@[b] == 0,
            forall|b: int| 0 <= b < n ==> #[trigger] need@[b] >= 0,
            sum(ints(need@)) == 0,
        decreases n - k,
    {
        if need[k] > 0 {
            proof {
                assert(nonneg(ints(need@))) by {
                    assert forall|b: int| 0 <= b < n implies #[trigger] ints(need@)[b] >= 0 by {}
                }
                lemma_sum_ge_entry(ints(need@), k as int);
            }
            return Err(PlanError::NotEnoughDonorFuel);
        }
        k = k + 1;
    }
    proof {
        let m = matrix(transfers@);
        assert(m.len() == n);
        assert(forall|a: int| 0 <= a < n ==> (#[trigger] m[a]).len() == n);
        assert(forall|a: int, b: int| 0 <= a < n && 0 <= b < n ==> #[trigger] m[a][b] >= 0);
        assert(forall|a: int| 0 <= a < n ==> sum(#[trigger] m[a]) == surplus(cs, keep@, f, a));
        assert forall|b: int| 0 <= b < n implies #[trigger] col_sum(m, b) == deficit(cs, f, b) by {
            assert(need@[b] == 0);
            assert(need0[b] - need@[b] == col_sum(m, b));
            assert(need0[b] == deficit(cs, f, b));
        }
    }
    Ok(transfers)
}

/// The outcome of planning, indexed like the canister list it was made from:
/// which canisters are kept, the fuel each one ends with, and `transfers[d][r]`,
/// the fuel poured from canister `d` into canister `r`.
#[derive(Clone, Debug, PartialEq, Eq)]
pub struct Plan {
    pub keep: Vec<bool>,
    pub final_fuel: Vec<i32>,
    pub transfers: Vec<Vec<i32>>,
}

/// Fuel that leaves canister `i` under transfer matrix `m`.
pub open spec fn outflow(m: Seq<Seq<int>>, i: int) -> int {
    sum(m[i])
}

/// Fuel that enters canister `i` under transfer matrix `m`.
pub open spec fn inflow(m: Seq<Seq<int>>, i: int) -> int {
    col_sum(m, i)
}

/// What holds of every plan: its shape, which canisters may hold fuel and how much,
/// the conservation of fuel overall and per canister, and no donor giving more than it had.
pub open spec fn valid_plan(cans: Seq<Can>, p: Plan) -> bool {
    let n = cans.len();
    let m = matrix(p.transfers@);
    let f = ints(p.final_fuel@);
    &&& p.keep@.len() == n
    &&& f.len() == n
    &&& m.len() == n
    &&& forall|d: int| 0 <= d < n ==> (#[trigger] m[d]).len() == n
    &&& forall|d: int, r: int| 0 <= d < n && 0 <= r < n ==> #[trigger] m[d][r] >= 0
    &&& forall|i: int| 0 <= i < n ==> #[trigger] m[i][i] == 0
    &&& forall|i: int|
        0 <= i < n ==> if p.keep@[i] {
            0 <= #[trigger] f[i] <= cans[i].spec.capacity
        } else {
            f[i] == 0
        }
    &&& sum(f) == fuel_total(cans)
    &&& forall|i: int| 0 <= i < n ==> #[trigger] outflow(m, i) <= cans[i].fuel
    &&& forall|i: int|
        0 <= i < n ==> #[trigger] f[i] == cans[i].fuel + inflow(m, i) - outflow(m, i)
}

/// Capacity is respected: in a valid plan a dropped canister ends empty and a kept one ends
/// between empty and full.
pub proof fn lemma_capacity_respected(cans: Seq<Can>, p: Plan)
    requires
        valid_plan(cans, p),
    ensures
        forall|i: int|
            0 <= i < cans.len() ==> if p.keep@[i] {
                0 <= #[trigger] p.final_fuel@[i] <= cans[i].spec.capacity
            } else {
                p.final_fuel@[i] == 0
            },
{
    assert forall|i: int| 0 <= i < cans.len() implies if p.keep@[i] {
        0 <= #[trigger] p.final_fuel@[i] <= cans[i].spec.capacity
    } else {
        p.final_fuel@[i] == 0
    } by {
        assert(ints(p.final_fuel@)[i] == p.final_fuel@[i]);
    }
}

/// The plan for canisters that hold no fuel: keep none, move nothing.
pub open spec fn empty_plan(n: int, p: Plan) -> bool {
    &&& p.keep@.len() == n
    &&& p.final_fuel@.len() == n
    &&& p.transfers@.len() == n
    &&& forall|i: int| 0 <= i < n ==> !#[trigger] p.keep@[i]
    &&& forall|i: int| 0 <= i < n ==> #[trigger] p.final_fuel@[i] == 0
    &&& forall|d: int| 0 <= d < n ==> (#[trigger] p.transfers@[d])@.len() == n
    &&& forall|d: int, r: int| 0 <= d < n && 0 <= r < n ==> #[trigger] p.transfers@[d]@[r] == 0
}

/// `n` zeros.
fn zeros(n: usize) -> (r: Vec<i32>)
    ensures
        r@.len() == n,
        forall|i: int| 0 <= i < n ==> #[trigger] r@[i] == 0,
{
    let mut v: Vec<i32> = Vec::new();
    let mut i: usize = 0;
    while i < n
        invariant
            i <= n,
            v@.len() == i,
            forall|j: int| 0 <= j < i ==> #[trigger] v@[j] == 0,
        decreases n - i,
    {
        v.push(0);
        i = i + 1;
    }
    v
}

/// The plan for `n` canisters that hold no fuel.
fn trivial_plan(n: usize) -> (p: Plan)
    ensures
        empty_plan(n as int, p),
{
    let mut keep: Vec<bool> = Vec::new();
    let mut transfers: Vec<Vec<i32>> = Vec::new();
    let mut i: usize = 0;
    while i < n
        invariant
            i <= n,
            keep@.len() == i,
            transfers@.len() == i,
            forall|j: int| 0 <= j < i ==> !#[trigger] keep@[j],
            forall|d: int| 0 <= d < i ==> (#[trigger] transfers@[d])@.len() == n,
            forall|d: int, r: int| 0 <= d < i && 0 <= r < n ==> #[trigger] transfers@[d]@[r] == 0,
        decreases n - i,
    {
        keep.push(false);
        transfers.push(zeros(n));
        i = i + 1;
    }
    Plan { keep, final_fuel: zeros(n), transfers }
}

proof fn lemma_empty_plan_valid(cans: Seq<Can>, p: Plan)
    requires
        all_wf(cans),
        fuel_total(cans) == 0,
        empty_plan(cans.len() as int, p),
    ensures
        valid_plan(cans, p),
{
    let n = cans.len();
    let m = matrix(p.transfers@);
    let f = ints(p.final_fuel@);
    lemma_plannable_nonneg(cans);
    lemma_sum_zero(f);
    assert forall|i: int| 0 <= i < n implies #[trigger] outflow(m, i) == 0 by {
        lemma_sum_zero(m[i]);
    }
    assert forall|i: int| 0 <= i < n implies #[trigger] inflow(m, i) == 0 by {
        lemma_col_sum_zero(m, i);
    }
    assert forall|i: int| 0 <= i < n implies #[trigger] cans[i].fuel == 0 by {
        lemma_sum_ge_entry(fuels(cans), i);
    }
}

proof fn lemma_col_sum_zero(m: Seq<Seq<int>>, r: int)
    requires
        forall|d: int| 0 <= d < m.len() ==> #[trigger] m[d][r] == 0,
    ensures
        col_sum(m, r) == 0,
    decreases m.len(),
{
    if m.len() > 0 {
        lemma_col_sum_zero(m.drop_last(), r);
    }
}

/// A fill and a matching of the fill together make a valid plan.
proof fn lemma_plan_valid(cans: Seq<Can>, p: Plan)
    requires
        all_wf(cans),
        filled(cans, p.keep@, ints(p.final_fuel@)),
        matched(cans, p.keep@, ints(p.final_fuel@), matrix(p.transfers@)),
    ensures
        valid_plan(cans, p),
{
    let n = cans.len();
    let m = matrix(p.transfers@);
    let f = ints(p.final_fuel@);
    let keep = p.keep@;
    assert forall|i: int| 0 <= i < n implies #[trigger] m[i][i] == 0 by {
        assert(cans[i].wf());
        if m[i][i] > 0 {
            assert(surplus(cans, keep, f, i) > 0 && deficit(cans, f, i) > 0);
        }
    }
    assert forall|i: int| 0 <= i < n implies #[trigger] outflow(m, i) <= cans[i].fuel by {
        assert(cans[i].wf());
        assert(0 <= f[i]);
    }
    assert forall|i: int| 0 <= i < n implies #[trigger] f[i] == cans[i].fuel + inflow(m, i)
        - outflow(m, i) by {
        assert(cans[i].wf());
        assert(sum(m[i]) == surplus(cans, keep, f, i));
        assert(col_sum(m, i) == deficit(cans, f, i));
    }
    assert forall|i: int| 0 <= i < n implies if keep[i] {
        0 <= #[trigger] f[i] <= cans[i].spec.capacity
    } else {
        f[i] == 0
    } by {
        assert(cans[i].wf());
    }
}

/// The plan for `cans`: with no fuel, the empty plan; otherwise the best cover, filled in
/// `fills_before` order, with the transfers matched in index order.
pub open spec fn planned(cans: Seq<Can>, p: Plan) -> bool {
    &&& valid_plan(cans, p)
    &&& if fuel_total(cans) == 0 {
        empty_plan(cans.len() as int, p)
    } else {
        &&& best_cover(cans, p.keep@)
        &&& filled(cans, p.keep@, ints(p.final_fuel@))
        &&& matched(cans, p.keep@, ints(p.final_fuel@), matrix(p.transfers@))
        &&& matched_in_order(cans, p.keep@, ints(p.final_fuel@), matrix(p.transfers@))
    }
}

/// Planning is deterministic: one canister list admits only one plan, so two calls of
/// `solve_plan` on the same list give the same plan (and, by its contract, the same error).
pub proof fn lemma_plan_deterministic(cans: Seq<Can>, p: Plan, q: Plan)
    requires
        planned(cans, p),
        planned(cans, q),
    ensures
        p.keep@ == q.keep@,
        p.final_fuel@ == q.final_fuel@,
        p.transfers@.len() == q.transfers@.len(),
        forall|d: int| 0 <= d < p.transfers@.len() ==> (#[trigger] p.transfers@[d])@ == q.transfers@[d]@,
{
    let n = cans.len();
    if fuel_total(cans) == 0 {
        assert(p.keep@ =~= q.keep@);
        assert(p.final_fuel@ =~= q.final_fuel@);
        assert forall|d: int| 0 <= d < n implies (#[trigger] p.transfers@[d])@ == q.transfers@[d]@ by {
            assert(p.transfers@[d]@ =~= q.transfers@[d]@);
        }
    } else {
        lemma_best_cover_unique(cans, p.keep@, q.keep@);
        lemma_filled_unique(cans, p.keep@, ints(p.final_fuel@), ints(q.final_fuel@));
        assert forall|i: int| 0 <= i < n implies p.final_fuel@[i] == q.final_fuel@[i] by {
            assert(ints(p.final_fuel@)[i] == ints(q.final_fuel@)[i]);
        }
        assert(p.final_fuel@ =~= q.final_fuel@);
        let mp = matrix(p.transfers@);
        let mq = matrix(q.transfers@);
        assert forall|d: int| 0 <= d < n implies (#[trigger] p.transfers@[d])@ == q.transfers@[d]@ by {
            assert forall|r: int| 0 <= r < n implies p.transfers@[d]@[r] == q.transfers@[d]@[r] by {
                assert(mp[d][r] == mq[d][r]);
                assert(mp[d][r] == p.transfers@[d]@[r]);
                assert(mq[d][r] == q.transfers@[d]@[r]);
            }
            assert(mp[d].len() == n && mq[d].len() == n);
            assert(p.transfers@[d]@ =~= q.transfers@[d]@);
        }
    }
}

/// Plans how to consolidate the fuel of `cans` into the lightest set of canisters that can hold it.
///
/// With no fuel at all, nothing is kept and nothing moves. Otherwise the kept canisters are a
/// cover of least empty weight (fewest canisters among those), the fuel is poured into them as
/// `filled` says, and the transfers are matched to it with donors and recipients in index order.
pub fn solve_plan(cans: &[Can]) -> (r: Result<Plan, PlanError>)
    requires
        plannable(cans@),
    ensures
        r == Err::<Plan, PlanError>(PlanError::NoCans) <==> cans@.len() == 0,
        r == Err::<Plan, PlanError>(PlanError::CannotCarry) <==> cans@.len() > 0 && capacity_total(
            cans@,
        ) < fuel_total(cans@),
        r is Ok <==> cans@.len() > 0 && capacity_total(cans@) >= fuel_total(cans@),
        r matches Ok(p) ==> valid_plan(cans@, p),
        r matches Ok(p) ==> fuel_total(cans@) > 0 ==> optimal_cover(cans@, p.keep@),
        r matches Ok(p) ==> planned(cans@, p),
{
    if cans.len() == 0 {
        return Err(PlanError::NoCans);
    }
    let total = total_fuel(cans);
    proof {
        lemma_plannable_nonneg(cans@);
        lemma_sum_nonneg(capacities(cans@));
    }
    if total == 0 {
        let p = trivial_plan(cans.len());
        proof {
            lemma_empty_plan_valid(cans@, p);
            assert(planned(cans@, p));
        }
        return Ok(p);
    }
    let keep = match choose_cans(cans, total) {
        Some(k) => k,
        None => {
            return Err(PlanError::CannotCarry);
        },
    };
    proof {
        assert forall|s: Seq<bool>| #[trigger] is_cover(cans@, s) implies no_worse(cans@, keep@, s) by {
            assert(preferred(cans@, keep@, s));
        }
    }
    let final_fuel = match fill(cans, &keep, total) {
        Ok(f) => f,
        Err(e) => {
            return Err(e);
        },
    };
    proof {
        let f = ints(final_fuel@);
        assert forall|i: int| 0 <= i < cans@.len() implies #[trigger] final_fuel@[i] >= 0 by {
            assert(cans@[i].wf());
            assert(f[i] == final_fuel@[i]);
        }
        assert forall|i: int| 0 <= i < cans@.len() && !keep@[i] implies #[trigger] final_fuel@[i]
            == 0 by {
            assert(f[i] == final_fuel@[i]);
        }
    }
    let transfers = match match_transfers(cans, &keep, &final_fuel) {
        Ok(t) => t,
        Err(e) => {
            return Err(e);
        },
    };
    let p = Plan { keep, final_fuel, transfers };
    proof {
        lemma_plan_valid(cans@, p);
    }
    Ok(p)
}

} // verus!
