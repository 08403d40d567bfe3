use vstd::prelude::*;

use crate::canister::{all_wf, Can};
use crate::plan::{valid_plan, Plan};
use crate::sums::{count_true, lemma_count_true_bound, lemma_count_true_update, lemma_count_zero};

verus! {

/// `a` is listed before `b`: larger value first, lower index on a tie.
pub open spec fn listed_before(vals: Seq<i32>, a: int, b: int) -> bool {
    vals[a] > vals[b] || (vals[a] == vals[b] && a < b)
}

/// `r` lists exactly the indices flagged in `wanted`, each once, in `listed_before` order.
pub open spec fn listed_in_order(vals: Seq<i32>, wanted: Seq<bool>, r: Seq<usize>) -> bool {
    &&& forall|k: int| 0 <= k < r.len() ==> (#[trigger] r[k]) < vals.len() && wanted[r[k] as int]
    &&& forall|k1: int, k2: int|
        0 <= k1 < k2 < r.len() ==> listed_before(vals, #[trigger] r[k1] as int, #[trigger] r[k2] as int)
    &&& forall|i: int|
        0 <= i < vals.len() && #[trigger] wanted[i] ==> exists|k: int| 0 <= k < r.len() && r[k] == i
}

/// The flagged index not yet listed that comes first.
fn first_unlisted(vals: &Vec<i32>, wanted: &Vec<bool>, used: &Vec<bool>) -> (r: Option<usize>)
    requires
        wanted@.len() == vals@.len(),
        used@.len() == vals@.len(),
    ensures
        r matches Some(j) ==> {
            &&& j < vals@.len()
            &&& wanted@[j as int]
            &&& !used@[j as int]
            &&& forall|i: int|
                0 <= i < vals@.len() && wanted@[i] && !used@[i] && i != j ==> listed_before(
                    vals@,
                    j as int,
                    i,
                )
        },
        r is None ==> forall|i: int| 0 <= i < vals@.len() && #[trigger] wanted@[i] ==> used@[i],
{
    let n = vals.len();
    let mut best: Option<usize> = None;
    let mut i: usize = 0;
    while i < n
        invariant
            n == vals@.len(),
            i <= n,
            wanted@.len() == n,
            used@.len() == n,
            best matches Some(b) ==> {
                &&& b < i
                &&& wanted@[b as int]
                &&& !used@[b as int]
                &&& forall|k: int|
                    0 <= k < i && wanted@[k] && !used@[k] && k != b ==> listed_before(
                        vals@,
                        b as int,
                        k,
                    )
            },
            best is None ==> forall|k: int| 0 <= k < i && #[trigger] wanted@[k] ==> used@[k],
        decreases n - i,
    {
        if wanted[i] && !used[i] {
            let replace = match best {
                Some(b) => vals[i] > vals[b],
                None => true,
            };
            if replace {
                best = Some(i);
            }
        }
        i = i + 1;
    }
    best
}

/// The indices flagged in `wanted`, by value from largest to smallest, lower index first on a tie.
fn order_desc(vals: &Vec<i32>, wanted: &Vec<bool>) -> (r: Vec<usize>)
    requires
        wanted@.len() == vals@.len(),
    ensures
        listed_in_order(vals@, wanted@, r@),
{
    let n = vals.len();
    let mut used: Vec<bool> = Vec::new();
    let mut i: usize = 0;
    while i < n
        invariant
            i <= n,
            used@.len() == i,
            forall|j: int| 0 <= j < i ==> !#[trigger] used@[j],
        decreases n - i,
    {
        used.push(false);
        i = i + 1;
    }
    proof {
        lemma_count_zero(used@);
    }
    let mut r: Vec<usize> = Vec::new();
    while r.len() < n
        invariant
            n == vals@.len(),
            wanted@.len() == n,
            used@.len() == n,
            count_true(used@) == r@.len(),
            r@.len() <= n,
            r@.len() == n ==> forall|j: int| 0 <= j < n ==> #[trigger] used@[j],
            forall|k: int| 0 <= k < r@.len() ==> (#[trigger] r@[k]) < n && wanted@[r@[k] as int],
            forall|j: int| 0 <= j < n ==> (#[trigger] used@[j] <==> exists|k: int|
                0 <= k < r@.len() && r@[k] == j),
            forall|k1: int, k2: int|
                0 <= k1 < k2 < r@.len() ==> listed_before(
                    vals@,
                    #[trigger] r@[k1] as int,
                    #[trigger] r@[k2] as int,
                ),
            forall|k: int, j: int|
                #![trigger r@[k], used@[j]]
                0 <= k < r@.len() && 0 <= j < n && wanted@[j] && !used@[j] ==> listed_before(
                    vals@,
                    r@[k] as int,
                    j,
                ),
        ensures
            forall|j: int| 0 <= j < n && #[trigger] wanted@[j] ==> used@[j],
        decreases n - r@.len(),
    {
        match first_unlisted(vals, wanted, &used) {
            None => {
                break;
            },
            Some(p) => {
                let ghost old_r = r@;
                let ghost old_used = used@;
                proof {
                    lemma_count_true_update(used@, p as int);
                    lemma_count_true_bound(used@.update(p as int, true));
                    assert(!(exists|k: int| 0 <= k < old_r.len() && old_r[k] == p));
                }
                used.set(p, true);
                r.push(p);
                proof {
                    assert forall|j: int| 0 <= j < n implies (#[trigger] used@[j] <==> exists|k: int|
                        0 <= k < r@.len() && r@[k] == j) by {
                        if j == p {
                            assert(r@[old_r.len() as int] == p);
                        } else if used@[j] {
                            let k = choose|k: int| 0 <= k < old_r.len() && old_r[k] == j;
                            assert(r@[k] == j);
                        } else {
                            if exists|k: int| 0 <= k < r@.len() && r@[k] == j {
                                let k = choose|k: int| 0 <= k < r@.len() && r@[k] == j;
                                assert(k < old_r.len());
                                assert(old_used[j]);
                            }
                        }
                    }
                    assert forall|k1: int, k2: int| 0 <= k1 < k2 < r@.len() implies listed_before(
                        vals@,
                        #[trigger] r@[k1] as int,
                        #[trigger] r@[k2] as int,
                    ) by {
                        if k2 == old_r.len() {
                            assert(r@[k1] == old_r[k1]);
                        } else {
                            assert(r@[k1] == old_r[k1] && r@[k2] == old_r[k2]);
                        }
                    }
                    assert forall|k: int, j: int|
                        #![trigger r@[k], used@[j]]
                        0 <= k < r@.len() && 0 <= j < n && wanted@[j] && !used@[j] implies listed_before(
                        vals@,
                        r@[k] as int,
                        j,
                    ) by {
                        if k < old_r.len() {
                            assert(r@[k] == old_r[k]);
                        }
                    }
                }
                proof {
                    if r@.len() == n {
                        lemma_all_used(used@, r@, n as int);
                    }
                }
            },
        }
    }
    proof {
        assert forall|i: int| 0 <= i < n && #[trigger] wanted@[i] implies exists|k: int|
            0 <= k < r@.len() && r@[k] == i by {
            assert(used@[i]);
        }
    }
    r
}

/// When as many indices are listed as there are entries, every entry is listed.
proof fn lemma_all_used(used: Seq<bool>, r: Seq<usize>, n: int)
    requires
        used.len() == n,
        count_true(used) == r.len(),
        r.len() == n,
    ensures
        forall|j: int| 0 <= j < n ==> #[trigger] used[j],
{
    crate::sums::lemma_count_true_full(used);
}

/// What each canister gains under the plan: its final fuel less its own, for kept canisters.
pub open spec fn added(cans: Seq<Can>, p: Plan, i: int) -> int {
    p.final_fuel@[i] - cans[i].fuel
}

/// The canisters that receive fuel, most added first, lower index on a tie.
pub fn recipients_in_order(cans: &[Can], plan: &Plan) -> (r: Vec<usize>)
    requires
        all_wf(cans@),
        valid_plan(cans@, *plan),
    ensures
        forall|k: int| 0 <= k < r@.len() ==> (#[trigger] r@[k]) < cans@.len(),
        forall|k: int| 0 <= k < r@.len() ==> plan.keep@[#[trigger] r@[k] as int] && added(cans@, *plan, r@[k] as int) > 0,
        forall|i: int|
            0 <= i < cans@.len() && plan.keep@[i] && added(cans@, *plan, i) > 0 ==> exists|k: int|
                0 <= k < r@.len() && #[trigger] r@[k] == i,
        forall|k1: int, k2: int|
            0 <= k1 < k2 < r@.len() ==> {
                let a = #[trigger] r@[k1] as int;
                let b = #[trigger] r@[k2] as int;
                added(cans@, *plan, a) > added(cans@, *plan, b) || (added(cans@, *plan, a) == added(
                    cans@,
                    *plan,
                    b,
                ) && a < b)
            },
{
    let n = cans.len();
    let mut delta: Vec<i32> = Vec::new();
    let mut wanted: Vec<bool> = Vec::new();
    let mut i: usize = 0;
    while i < n
        invariant
            n == cans@.len(),
            i <= n,
            all_wf(cans@),
            valid_plan(cans@, *plan),
            delta@.len() == i,
            wanted@.len() == i,
            forall|j: int| 0 <= j < i ==> #[trigger] delta@[j] == added(cans@, *plan, j),
            forall|j: int|
                0 <= j < i ==> (#[trigger] wanted@[j] <==> plan.keep@[j] && added(cans@, *plan, j) > 0),
        decreases n - i,
    {
        proof {
            assert(cans@[i as int].wf());
            assert(crate::sums::ints(plan.final_fuel@)[i as int] == plan.final_fuel@[i as int]);
        }
        let d = plan.final_fuel[i] - cans[i].fuel;
        delta.push(d);
        wanted.push(plan.keep[i] && d > 0);
        i = i + 1;
    }
    let r = order_desc(&delta, &wanted);
    proof {
        assert forall|i: int|
            0 <= i < cans@.len() && plan.keep@[i] && added(cans@, *plan, i) > 0 implies exists|k: int|
            0 <= k < r@.len() && #[trigger] r@[k] == i by {
            assert(wanted@[i]);
        }
    }
    r
}

/// The canisters that pour into `recipient`, most poured first, lower index on a tie.
pub fn donors_in_order(cans: &[Can], plan: &Plan, recipient: usize) -> (r: Vec<usize>)
    requires
        valid_plan(cans@, *plan),
        recipient < cans@.len(),
    ensures
        forall|k: int| 0 <= k < r@.len() ==> (#[trigger] r@[k]) < cans@.len(),
        forall|k: int|
            0 <= k < r@.len() ==> plan.transfers@[#[trigger] r@[k] as int]@[recipient as int] > 0
                && r@[k] != recipient,
        forall|d: int|
            0 <= d < cans@.len() && plan.transfers@[d]@[recipient as int] > 0 && d != recipient
                ==> exists|k: int| 0 <= k < r@.len() && #[trigger] r@[k] == d,
        forall|k1: int, k2: int|
            0 <= k1 < k2 < r@.len() ==> {
                let a = #[trigger] r@[k1] as int;
                let b = #[trigger] r@[k2] as int;
                plan.transfers@[a]@[recipient as int] > plan.transfers@[b]@[recipient as int] || (
                plan.transfers@[a]@[recipient as int] == plan.transfers@[b]@[recipient as int] && a
                    < b)
            },
{
    let n = cans.len();
    let mut amount: Vec<i32> = Vec::new();
    let mut wanted: Vec<bool> = Vec::new();
    let mut d: usize = 0;
    while d < n
        invariant
            n == cans@.len(),
            d <= n,
            recipient < n,
            valid_plan(cans@, *plan),
            amount@.len() == d,
            wanted@.len() == d,
            forall|j: int| 0 <= j < d ==> #[trigger] amount@[j] == plan.transfers@[j]@[recipient as int],
            forall|j: int|
                0 <= j < d ==> (#[trigger] wanted@[j] <==> plan.transfers@[j]@[recipient as int] > 0
                    && j != recipient),
        decreases n - d,
    {
        proof {
            assert(crate::plan::matrix(plan.transfers@)[d as int].len() == n);
        }
        let a = plan.transfers[d][recipient];
        amount.push(a);
        wanted.push(a > 0 && d != recipient);
        d = d + 1;
    }
    let r = order_desc(&amount, &wanted);
    proof {
        assert forall|j: int|
            0 <= j < cans@.len() && plan.transfers@[j]@[recipient as int] > 0 && j != recipient implies exists|k: int|
            0 <= k < r@.len() && #[trigger] r@[k] == j by {
            assert(wanted@[j]);
        }
    }
    r
}

} // verus!
