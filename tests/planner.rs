use fuel_can_packer::canister::{
    assign_ids, build_cans_from_gross, total_fuel, Can, CanSize, GrossInput, InputError,
};
use fuel_can_packer::plan::{solve_plan, Plan, PlanError};

fn input(a: Vec<i32>, b: Vec<i32>, c: Vec<i32>) -> GrossInput {
    GrossInput { msr_110: a, msr_227: b, msr_450: c }
}

fn cans_of(a: Vec<i32>, b: Vec<i32>, c: Vec<i32>) -> Vec<Can> {
    let mut cans = build_cans_from_gross(&input(a, b, c)).unwrap();
    assign_ids(&mut cans);
    cans
}

fn can(capacity: i32, empty_weight: i32, fuel: i32) -> Can {
    let spec = fuel_can_packer::canister::CanSpec { name: "test", capacity, empty_weight };
    Can { id: String::new(), spec, gross: empty_weight + fuel, fuel }
}

/// Checks the invariants that every plan must satisfy.
fn check_invariants(cans: &[Can], plan: &Plan) {
    let n = cans.len();
    assert_eq!(plan.keep.len(), n);
    assert_eq!(plan.final_fuel.len(), n);
    assert_eq!(plan.transfers.len(), n);
    let total: i32 = cans.iter().map(|c| c.fuel).sum();
    assert_eq!(plan.final_fuel.iter().sum::<i32>(), total);
    for i in 0..n {
        assert_eq!(plan.transfers[i].len(), n);
        assert_eq!(plan.transfers[i][i], 0);
        if plan.keep[i] {
            assert!(plan.final_fuel[i] >= 0);
            assert!(plan.final_fuel[i] <= cans[i].spec.capacity);
        } else {
            assert_eq!(plan.final_fuel[i], 0);
        }
        let out: i32 = plan.transfers[i].iter().sum();
        let inflow: i32 = (0..n).map(|d| plan.transfers[d][i]).sum();
        assert!(out <= cans[i].fuel);
        assert_eq!(plan.final_fuel[i], cans[i].fuel + inflow - out);
        for r in 0..n {
            assert!(plan.transfers[i][r] >= 0);
        }
    }
}

#[test]
fn small_can_takes_the_fuel() {
    let cans = cans_of(vec![141], vec![152], vec![]);
    assert_eq!(cans[0].fuel, 40);
    assert_eq!(cans[1].fuel, 5);
    assert_eq!(cans[0].spec.name, "MSR 110g");
    assert_eq!(cans[1].spec.name, "MSR 227g");
    let plan = solve_plan(&cans).unwrap();
    assert_eq!(plan.keep, vec![true, false]);
    assert_eq!(plan.final_fuel, vec![45, 0]);
    assert_eq!(plan.transfers, vec![vec![0, 0], vec![5, 0]]);
    check_invariants(&cans, &plan);
}

#[test]
fn no_fuel_keeps_nothing() {
    let cans = cans_of(vec![101, 101], vec![147], vec![216]);
    assert_eq!(total_fuel(&cans), 0);
    let plan = solve_plan(&cans).unwrap();
    assert_eq!(plan.keep, vec![false; 4]);
    assert_eq!(plan.final_fuel, vec![0; 4]);
    assert_eq!(plan.transfers, vec![vec![0; 4]; 4]);
    check_invariants(&cans, &plan);
}

#[test]
fn single_full_can_is_kept() {
    let cans = cans_of(vec![211], vec![], vec![]);
    assert_eq!(cans[0].fuel, 110);
    let plan = solve_plan(&cans).unwrap();
    assert_eq!(plan.keep, vec![true]);
    assert_eq!(plan.final_fuel, vec![110]);
    assert_eq!(plan.transfers, vec![vec![0]]);
}

#[test]
fn too_much_fuel_is_infeasible() {
    let cans = cans_of(vec![300], vec![], vec![]);
    assert_eq!(solve_plan(&cans), Err(PlanError::CannotCarry));
    let cans = vec![can(10, 5, 8), can(20, 7, 25)];
    assert_eq!(solve_plan(&cans), Err(PlanError::CannotCarry));
}

#[test]
fn pair_beats_single_large_can() {
    let cans = cans_of(vec![201, 201], vec![], vec![226]);
    assert_eq!(total_fuel(&cans), 210);
    let plan = solve_plan(&cans).unwrap();
    assert_eq!(plan.keep, vec![true, true, false]);
    assert_eq!(plan.final_fuel, vec![110, 100, 0]);
    assert_eq!(plan.transfers, vec![vec![0, 0, 0], vec![0, 0, 0], vec![10, 0, 0]]);
    check_invariants(&cans, &plan);
}

#[test]
fn empty_list_is_refused() {
    let cans: Vec<Can> = Vec::new();
    assert_eq!(solve_plan(&cans), Err(PlanError::NoCans));
}

#[test]
fn same_input_gives_same_plan() {
    let cans = cans_of(vec![150, 120], vec![200, 160], vec![300]);
    let first = solve_plan(&cans).unwrap();
    let second = solve_plan(&cans).unwrap();
    assert_eq!(first, second);
}

#[test]
fn invariants_hold_on_mixed_input() {
    let cans = cans_of(vec![150, 120, 180], vec![200, 160, 300], vec![300, 500]);
    let plan = solve_plan(&cans).unwrap();
    check_invariants(&cans, &plan);
}

#[test]
fn fewer_cans_break_weight_ties() {
    // Two sets weigh 20 empty: the single can and the pair; the single one is chosen.
    let cans = vec![can(50, 10, 30), can(50, 10, 30), can(100, 20, 0)];
    let plan = solve_plan(&cans).unwrap();
    assert_eq!(plan.keep, vec![false, false, true]);
    assert_eq!(plan.final_fuel, vec![0, 0, 60]);
    assert_eq!(plan.transfers[0][2], 30);
    assert_eq!(plan.transfers[1][2], 30);
    check_invariants(&cans, &plan);
}

#[test]
fn most_spare_room_is_filled_first() {
    // Keeping both small cans is lightest; the one with more room is topped up first.
    let cans = vec![can(100, 10, 90), can(100, 10, 20), can(300, 50, 15)];
    let plan = solve_plan(&cans).unwrap();
    assert_eq!(plan.keep, vec![true, true, false]);
    assert_eq!(plan.final_fuel, vec![90, 35, 0]);
    assert_eq!(plan.transfers[2], vec![0, 15, 0]);
    check_invariants(&cans, &plan);
}

#[test]
fn donors_fill_recipients_in_order() {
    let cans = vec![can(100, 10, 60), can(100, 10, 70), can(40, 30, 25), can(40, 30, 20)];
    let plan = solve_plan(&cans).unwrap();
    assert_eq!(plan.keep, vec![true, true, false, false]);
    assert_eq!(plan.final_fuel, vec![100, 75, 0, 0]);
    assert_eq!(plan.transfers[2], vec![25, 0, 0, 0]);
    assert_eq!(plan.transfers[3], vec![15, 5, 0, 0]);
    check_invariants(&cans, &plan);
}

#[test]
fn build_keeps_size_order() {
    let cans = build_cans_from_gross(&input(vec![120], vec![150, 147], vec![400])).unwrap();
    assert_eq!(cans.len(), 4);
    assert_eq!(cans[0].spec.capacity, 110);
    assert_eq!(cans[0].fuel, 19);
    assert_eq!(cans[1].spec.capacity, 227);
    assert_eq!(cans[1].fuel, 3);
    assert_eq!(cans[2].fuel, 0);
    assert_eq!(cans[3].spec.capacity, 450);
    assert_eq!(cans[3].fuel, 184);
    assert_eq!(cans[3].gross, 400);
    assert!(cans.iter().all(|c| c.id.is_empty()));
}

#[test]
fn build_rejects_light_weight() {
    let r = build_cans_from_gross(&input(vec![120], vec![150, 140, 100], vec![]));
    assert_eq!(
        r.unwrap_err(),
        InputError::TooLight { size: CanSize::Msr227, gross: 140, empty_weight: 147 }
    );
    let r = build_cans_from_gross(&input(vec![], vec![], vec![215]));
    assert_eq!(
        r.unwrap_err(),
        InputError::TooLight { size: CanSize::Msr450, gross: 215, empty_weight: 216 }
    );
}

#[test]
fn ids_follow_position_and_weight() {
    let cans = cans_of(vec![141], vec![152], vec![]);
    assert_eq!(cans[0].id, "Can #1 (141g start)");
    assert_eq!(cans[1].id, "Can #2 (152g start)");
    assert_eq!(cans[1].fuel, 5);
}

#[test]
fn catalog_entries() {
    let s = CanSize::Msr227.spec();
    assert_eq!((s.capacity, s.empty_weight), (227, 147));
    let s = CanSize::Msr450.spec();
    assert_eq!((s.name, s.capacity, s.empty_weight), ("MSR 450g", 450, 216));
}

#[test]
fn total_fuel_sums_all_cans() {
    let cans = cans_of(vec![141, 150], vec![152], vec![226]);
    assert_eq!(total_fuel(&cans), 40 + 49 + 5 + 10);
}

#[test]
fn can_plan_checks_the_limits() {
    let cans = cans_of(vec![141], vec![152], vec![]);
    assert!(fuel_can_packer::can_plan(&cans));
    assert!(fuel_can_packer::can_plan(&[]));
    let big = vec![can(i32::MAX, 1, 0), can(1, 1, 0)];
    assert!(!fuel_can_packer::can_plan(&big));
    let heavy = vec![can(10, i32::MAX, 0), can(10, 1, 0)];
    assert!(!fuel_can_packer::can_plan(&heavy));
    let negative = vec![can(10, 1, -1)];
    assert!(!fuel_can_packer::can_plan(&negative));
    let flat = vec![can(0, 1, 0)];
    assert!(!fuel_can_packer::can_plan(&flat));
}

#[test]
fn catalog_names() {
    assert_eq!(CanSize::Msr110.spec().name, "MSR 110g");
    assert_eq!(CanSize::Msr227.spec().name, "MSR 227g");
    let s = CanSize::Msr110.spec();
    assert_eq!((s.capacity, s.empty_weight), (110, 101));
}

#[test]
fn over_full_can_pours_its_excess() {
    // A measured weight above a full can: the excess moves to the other kept canister.
    let cans = vec![can(100, 10, 120), can(100, 10, 30)];
    let plan = solve_plan(&cans).unwrap();
    assert_eq!(plan.keep, vec![true, true]);
    assert_eq!(plan.final_fuel, vec![100, 50]);
    assert_eq!(plan.transfers, vec![vec![0, 20], vec![0, 0]]);
    check_invariants(&cans, &plan);
    let cans = cans_of(vec![221, 101], vec![], vec![]);
    let plan = solve_plan(&cans).unwrap();
    assert_eq!(plan.keep, vec![true, true]);
    assert_eq!(plan.final_fuel, vec![110, 10]);
    assert_eq!(plan.transfers, vec![vec![0, 10], vec![0, 0]]);
    check_invariants(&cans, &plan);
}

#[test]
fn recipients_listed_by_amount_added() {
    let cans = vec![can(100, 10, 60), can(100, 10, 70), can(40, 30, 25), can(40, 30, 20)];
    let plan = solve_plan(&cans).unwrap();
    assert_eq!(fuel_can_packer::recipients_in_order(&cans, &plan), vec![0, 1]);
    assert_eq!(fuel_can_packer::donors_in_order(&cans, &plan, 0), vec![2, 3]);
    assert_eq!(fuel_can_packer::donors_in_order(&cans, &plan, 1), vec![3]);
    assert_eq!(fuel_can_packer::donors_in_order(&cans, &plan, 2), Vec::<usize>::new());
}

#[test]
fn equal_amounts_keep_index_order() {
    let cans = vec![can(100, 10, 50), can(100, 10, 50), can(30, 40, 20), can(30, 40, 20)];
    let plan = solve_plan(&cans).unwrap();
    assert_eq!(plan.keep, vec![true, true, false, false]);
    assert_eq!(plan.final_fuel, vec![90, 50, 0, 0]);
    assert_eq!(fuel_can_packer::recipients_in_order(&cans, &plan), vec![0]);
    assert_eq!(fuel_can_packer::donors_in_order(&cans, &plan, 0), vec![2, 3]);
}

#[test]
fn no_recipients_when_nothing_moves() {
    let cans = cans_of(vec![211], vec![], vec![]);
    let plan = solve_plan(&cans).unwrap();
    assert!(fuel_can_packer::recipients_in_order(&cans, &plan).is_empty());
}
