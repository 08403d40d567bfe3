use vstd::prelude::*;

use crate::sums::{lemma_sum_prefix, lemma_sum_take_step, nonneg, sum};

verus! {

/// One physical size of canister: its label, how much fuel it holds and what it weighs empty.
#[derive(Clone, Copy, Debug)]
pub struct CanSpec {
    pub name: &'static str,
    pub capacity: i32,
    pub empty_weight: i32,
}

/// The sizes in the catalog.
#[derive(Clone, Copy, Debug, PartialEq, Eq, Structural)]
pub enum CanSize {
    Msr110,
    Msr227,
    Msr450,
}

impl CanSpec {
    pub open spec fn wf(&self) -> bool {
        self.capacity > 0 && self.empty_weight > 0
    }
}

impl CanSize {
    pub open spec fn capacity_of(self) -> i32 {
        match self {
            CanSize::Msr110 => 110,
            CanSize::Msr227 => 227,
            CanSize::Msr450 => 450,
        }
    }

    pub open spec fn name_of(self) -> &'static str {
        match self {
            CanSize::Msr110 => "MSR 110g",
            CanSize::Msr227 => "MSR 227g",
            CanSize::Msr450 => "MSR 450g",
        }
    }

    pub open spec fn empty_weight_of(self) -> i32 {
        match self {
            CanSize::Msr110 => 101,
            CanSize::Msr227 => 147,
            CanSize::Msr450 => 216,
        }
    }

    /// The catalog entry of this size.
    pub fn spec(self) -> (r: CanSpec)
        ensures
            r.name == self.name_of(),
            r.capacity == self.capacity_of(),
            r.empty_weight == self.empty_weight_of(),
            r.wf(),
    {
        match self {
            CanSize::Msr110 => CanSpec { name: "MSR 110g", capacity: 110, empty_weight: 101 },
            CanSize::Msr227 => CanSpec { name: "MSR 227g", capacity: 227, empty_weight: 147 },
            CanSize::Msr450 => CanSpec { name: "MSR 450g", capacity: 450, empty_weight: 216 },
        }
    }
}

/// One physical canister: its size, its measured gross weight and the fuel that follows from it.
#[derive(Clone, Debug)]
pub struct Can {
    pub id: String,
    pub spec: CanSpec,
    pub gross: i32,
    pub fuel: i32,
}

impl Can {
    /// What the planner relies on: a well-formed size and no negative fuel.
    pub open spec fn wf(&self) -> bool {
        self.spec.wf() && self.fuel >= 0
    }
}

/// Measured gross weights, one list per size.
#[derive(Clone, Debug)]
pub struct GrossInput {
    pub msr_110: Vec<i32>,
    pub msr_227: Vec<i32>,
    pub msr_450: Vec<i32>,
}

/// A gross weight below the empty weight of its size.
#[derive(Clone, Copy, Debug, PartialEq, Eq, Structural)]
pub enum InputError {
    TooLight { size: CanSize, gross: i32, empty_weight: i32 },
}

pub open spec fn fuels(cans: Seq<Can>) -> Seq<int> {
    cans.map_values(|c: Can| c.fuel as int)
}

pub open spec fn capacities(cans: Seq<Can>) -> Seq<int> {
    cans.map_values(|c: Can| c.spec.capacity as int)
}

pub open spec fn empty_weights(cans: Seq<Can>) -> Seq<int> {
    cans.map_values(|c: Can| c.spec.empty_weight as int)
}

pub open spec fn fuel_total(cans: Seq<Can>) -> int {
    sum(fuels(cans))
}

pub open spec fn all_wf(cans: Seq<Can>) -> bool {
    forall|i: int| 0 <= i < cans.len() ==> (#[trigger] cans[i]).wf()
}

/// `c` is the fresh canister of size `size` measured at `gross`.
pub open spec fn made_from(c: Can, size: CanSize, gross: i32) -> bool {
    &&& c.id@.len() == 0
    &&& c.spec.name == size.name_of()
    &&& c.spec.capacity == size.capacity_of()
    &&& c.spec.empty_weight == size.empty_weight_of()
    &&& c.gross == gross
    &&& c.fuel == gross - size.empty_weight_of()
}

/// Every weight of the list is at least the empty weight of the size.
pub open spec fn plausible(size: CanSize, gross: Seq<i32>) -> bool {
    forall|j: int| 0 <= j < gross.len() ==> #[trigger] gross[j] >= size.empty_weight_of()
}

/// `e` names the first weight of `gross` that is lighter than an empty can of `size`.
pub open spec fn first_too_light(e: InputError, size: CanSize, gross: Seq<i32>) -> bool {
    match e {
        InputError::TooLight { size: s, gross: g, empty_weight: w } => {
            &&& s == size
            &&& w == size.empty_weight_of()
            &&& exists|j: int|
                0 <= j < gross.len() && gross[j] == g && g < w && plausible(size, gross.take(j))
        },
    }
}

/// `cans` holds `prefix`, then one fresh canister per weight of `gross`.
pub open spec fn appended(cans: Seq<Can>, prefix: Seq<Can>, size: CanSize, gross: Seq<i32>) -> bool {
    &&& cans.len() == prefix.len() + gross.len()
    &&& cans.take(prefix.len() as int) == prefix
    &&& forall|j: int|
        0 <= j < gross.len() ==> made_from(#[trigger] cans[prefix.len() + j], size, gross[j])
}

fn push_cans(out: &mut Vec<Can>, size: CanSize, gross_list: &Vec<i32>) -> (r: Result<(), InputError>)
    ensures
        r is Ok <==> plausible(size, gross_list@),
        r is Ok ==> appended(final(out)@, old(out)@, size, gross_list@),
        r matches Err(e) ==> first_too_light(e, size, gross_list@),
        r matches Err(InputError::TooLight { gross: g, .. }) ==> exists|j: int|
            0 <= j < gross_list@.len() && #[trigger] gross_list@[j] == g && g < size.empty_weight_of()
                && plausible(size, gross_list@.take(j)) && appended(
                final(out)@,
                old(out)@,
                size,
                gross_list@.take(j),
            ),
{
    let spec = size.spec();
    let ghost start = out@;
    let mut j: usize = 0;
    assert(out@.take(start.len() as int) =~= start);
    while j < gross_list.len()
        invariant
            start == old(out)@,
            spec.name == size.name_of(),
            spec.capacity == size.capacity_of(),
            spec.empty_weight == size.empty_weight_of(),
            j <= gross_list.len(),
            plausible(size, gross_list@.take(j as int)),
            appended(out@, start, size, gross_list@.take(j as int)),
        decreases gross_list.len() - j,
    {
        let gross = gross_list[j];
        if gross < spec.empty_weight {
            let e = InputError::TooLight { size, gross, empty_weight: spec.empty_weight };
            assert(first_too_light(e, size, gross_list@));
            assert(gross_list@[j as int] == gross);
            assert(plausible(size, gross_list@.take(j as int)));
            assert(appended(out@, start, size, gross_list@.take(j as int)));
            return Err(e);
        }
        let ghost before = out@;
        out.push(Can { id: String::new(), spec, gross, fuel: gross - spec.empty_weight });
        proof {
            assert(out@.take(start.len() as int) =~= before.take(start.len() as int));
            let g = gross_list@.take(j + 1);
            assert forall|k: int| 0 <= k < g.len() implies #[trigger] g[k] >= size.empty_weight_of() by {
                if k < j {
                    assert(gross_list@.take(j as int)[k] == g[k]);
                }
            }
            assert forall|k: int| 0 <= k < g.len() implies made_from(
                #[trigger] out@[start.len() + k],
                size,
                g[k],
            ) by {
                if k < j {
                    assert(gross_list@.take(j as int)[k] == g[k]);
                    assert(out@[start.len() + k] == before[start.len() + k]);
                }
            }
        }
        j = j + 1;
    }
    assert(gross_list@.take(j as int) =~= gross_list@);
    Ok(())
}

/// Builds one canister per measured weight: the 110 g sizes first, then 227 g, then 450 g.
/// Fails on the first weight that is lighter than an empty can of its size, returning nothing else.
pub fn build_cans_from_gross(input: &GrossInput) -> (r: Result<Vec<Can>, InputError>)
    ensures
        r is Ok <==> plausible(CanSize::Msr110, input.msr_110@) && plausible(
            CanSize::Msr227,
            input.msr_227@,
        ) && plausible(CanSize::Msr450, input.msr_450@),
        r matches Ok(cans) ==> {
            let a = input.msr_110@.len();
            let b = input.msr_227@.len();
            &&& appended(cans@.take(a as int), Seq::<Can>::empty(), CanSize::Msr110, input.msr_110@)
            &&& appended(
                cans@.take((a + b) as int),
                cans@.take(a as int),
                CanSize::Msr227,
                input.msr_227@,
            )
            &&& appended(cans@, cans@.take((a + b) as int), CanSize::Msr450, input.msr_450@)
        },
        r matches Err(e) ==> {
            ||| first_too_light(e, CanSize::Msr110, input.msr_110@)
            ||| plausible(CanSize::Msr110, input.msr_110@) && first_too_light(
                e,
                CanSize::Msr227,
                input.msr_227@,
            )
            ||| plausible(CanSize::Msr110, input.msr_110@) && plausible(
                CanSize::Msr227,
                input.msr_227@,
            ) && first_too_light(e, CanSize::Msr450, input.msr_450@)
        },
{
    let mut cans: Vec<Can> = Vec::new();
    match push_cans(&mut cans, CanSize::Msr110, &input.msr_110) {
        Ok(()) => {},
        Err(e) => {
            return Err(e);
        },
    }
    let ghost first = cans@;
    match push_cans(&mut cans, CanSize::Msr227, &input.msr_227) {
        Ok(()) => {},
        Err(e) => {
            return Err(e);
        },
    }
    let ghost second = cans@;
    match push_cans(&mut cans, CanSize::Msr450, &input.msr_450) {
        Ok(()) => {},
        Err(e) => {
            return Err(e);
        },
    }
    proof {
        let a = input.msr_110@.len();
        let b = input.msr_227@.len();
        assert(second.take(a as int) == first);
        assert(cans@.take((a + b) as int) == second);
        assert(cans@.take(a as int) =~= second.take(a as int));
        assert(first.take(0) =~= Seq::<Can>::empty());
        assert(cans@.take(a as int).take(0) =~= Seq::<Can>::empty());
        assert forall|j: int| 0 <= j < a implies made_from(
            #[trigger] cans@.take(a as int)[0 + j],
            CanSize::Msr110,
            input.msr_110@[j],
        ) by {
            assert(cans@.take(a as int)[0 + j] == first[0 + j]);
        }
    }
    Ok(cans)
}

/// The label of the canister at 1-based `position` that started at `gross` grams.
pub uninterp spec fn can_label(position: int, gross: int) -> Seq<char>;

/// Relies on `std::format!`: the text depends on the position and the weight alone.
#[verifier::external_body]
fn format_can_label(position: usize, gross: i32) -> (r: String)
    ensures
        r@ == can_label(position as int, gross as int),
{
    format!("Can #{} ({}g start)", position, gross)
}

/// Gives each canister the label of its position (from 1) and starting weight.
/// Only the labels change.
pub fn assign_ids(cans: &mut Vec<Can>)
    ensures
        final(cans)@.len() == old(cans)@.len(),
        forall|i: int|
            0 <= i < final(cans)@.len() ==> {
                &&& (#[trigger] final(cans)@[i]).id@ == can_label(i + 1, old(cans)@[i].gross as int)
                &&& final(cans)@[i].spec == old(cans)@[i].spec
                &&& final(cans)@[i].gross == old(cans)@[i].gross
                &&& final(cans)@[i].fuel == old(cans)@[i].fuel
            },
{
    let ghost start = cans@;
    let mut i: usize = 0;
    while i < cans.len()
        invariant
            cans@.len() == start.len(),
            i <= cans@.len(),
            forall|k: int|
                0 <= k < cans@.len() ==> {
                    &&& (k < i ==> (#[trigger] cans@[k]).id@ == can_label(k + 1, start[k].gross as int))
                    &&& (k >= i ==> cans@[k].id == start[k].id)
                    &&& cans@[k].spec == start[k].spec
                    &&& cans@[k].gross == start[k].gross
                    &&& cans@[k].fuel == start[k].fuel
                },
        decreases cans@.len() - i,
    {
        let label = format_can_label(i + 1, cans[i].gross);
        let c = Can { id: label, spec: cans[i].spec, gross: cans[i].gross, fuel: cans[i].fuel };
        cans.set(i, c);
        i = i + 1;
    }
}

/// Total fuel held by all canisters.
pub fn total_fuel(cans: &[Can]) -> (r: i32)
    requires
        all_wf(cans@),
        fuel_total(cans@) <= i32::MAX,
    ensures
        r == fuel_total(cans@),
{
    let ghost f = fuels(cans@);
    assert(nonneg(f)) by {
        assert forall|i: int| 0 <= i < f.len() implies #[trigger] f[i] >= 0 by {
            assert(cans@[i].wf());
        }
    }
    let mut acc: i32 = 0;
    let mut i: usize = 0;
    while i < cans.len()
        invariant
            i <= cans@.len(),
            f == fuels(cans@),
            nonneg(f),
            sum(f) <= i32::MAX,
            acc == sum(f.take(i as int)),
        decreases cans@.len() - i,
    {
        proof {
            lemma_sum_take_step(f, i as int);
            lemma_sum_prefix(f, i + 1);
        }
        acc = acc + cans[i].fuel;
        i = i + 1;
    }
    assert(f.take(i as int) =~= f);
    acc
}

} // verus!
