//! Combinatorics, prefix algebra, quorum and sweep behaviour on concrete
//! values.

use routing_sims::binomial;
use routing_sims::prob::{prob_compromise, prob_disruption, Ratio};
use routing_sims::probQRChosen;
use routing_sims::node::{Prefix, NodeData};
use routing_sims::quorum::{Proportion, Quorum, SimpleQuorum, AgeQuorum};
use routing_sims::net::Group;
use routing_sims::args::{ArgProc, AttackType, DefaultStep, Milli, RelOrAbs, SamplePoints, SimType};
use routing_sims::tools::ToolArgs;
use routing_sims::args::SimParams;
use routing_sims::net::{AddRestriction, RestrictOnePerAge, NoAddRestriction};

#[test]
fn lib_test_choose() {
    assert_eq!(binomial(15, 0), Some(1));
    assert_eq!(binomial(1563, 1563), Some(1));
    assert_eq!(binomial(65, 1), Some(65));
    assert_eq!(binomial(16, 2), Some(8 * 15));
    assert_eq!(binomial(35, 3), Some(35 * 17 * 11));
    assert_eq!(binomial(56, 7), Some(8 * 11 * 9 * 53 * 13 * 17 * 25));
}

#[test]
fn prob_test_choose() {
    assert_eq!(binomial(15, 0), Some(1));
    assert_eq!(binomial(1563, 1563), Some(1));
    assert_eq!(binomial(65, 1), Some(65));
    assert_eq!(binomial(16, 2), Some(8 * 15));
    assert_eq!(binomial(35, 3), Some(35 * 17 * 11));
    assert_eq!(binomial(56, 7), Some(8 * 11 * 9 * 53 * 13 * 17 * 25));
}

#[test]
fn test_choose_exact_value() {
    assert_eq!(binomial(56, 7), Some(231_917_400));
}

#[test]
fn test_choose_symmetry_concrete() {
    assert_eq!(binomial(20, 6), binomial(20, 14));
    assert_eq!(binomial(100, 1), binomial(100, 99));
    assert_eq!(binomial(13, 5), binomial(13, 8));
}

#[test]
fn test_prob_compromise_no_reds() {
    let p = prob_compromise(50, 0, 10, 3).unwrap();
    assert_eq!(p.num, 0);
    assert!(p.den >= 1);
}

#[test]
fn test_prob_compromise_all_reds() {
    let p = prob_compromise(20, 20, 5, 3).unwrap();
    assert_eq!(p.num, p.den);
}

#[test]
fn test_prob_compromise_value() {
    // prob_compromise(100, 10, 10, 5) is about 6.716e-4: the tail sum
    // 66_661_386_210 over C(100, 10).
    let p = prob_compromise(100, 10, 10, 5).unwrap();
    assert_eq!(p.den, 17_310_309_456_440);
    let v = p.num as f64 / p.den as f64;
    assert!((v - 6.7163e-4).abs() < 1e-7);
}

#[test]
fn test_prob_disruption_complement() {
    let pc = prob_compromise(100, 10, 10, 5).unwrap();
    let pd = prob_disruption(100, 90, 10, 5).unwrap();
    assert_eq!(pd.den, pc.den);
    assert_eq!(pd.num, pc.den - pc.num);
}

#[test]
fn test_prob_qr_chosen_matches_prob_compromise() {
    assert_eq!(probQRChosen(100, 10, 10, 5), prob_compromise(100, 10, 10, 5));
}

#[test]
fn test_prefix_push_pop_round_trip() {
    let p = Prefix::new(3, 0xA000_0000_0000_0000);
    assert_eq!(p.pushed(true).popped(), p);
    assert_eq!(p.pushed(false).popped(), p);
    let root = Prefix::new(0, 0);
    assert_eq!(root.pushed(true).popped(), root);
    assert_eq!(root.popped(), root);
}

#[test]
fn test_prefix_matches_and_compatibility() {
    let p = Prefix::new(2, 0xC000_0000_0000_0000);
    assert!(p.matches(0xC123_0000_0000_0000));
    assert!(!p.matches(0x8000_0000_0000_0000));
    let q = Prefix::new(1, 0x8000_0000_0000_0000);
    assert!(p.is_compatible(q));
    let r = Prefix::new(1, 0);
    assert!(!p.is_compatible(r));
    assert_eq!(p.common_prefix(0x8000_0000_0000_0000), 1);
    assert_eq!(p.common_prefix(0xFFFF_0000_0000_0000), 2);
    assert_eq!(p.bit_count(), 2);
}

#[test]
fn test_node_data_ageing_boundary() {
    // Eligibility fires exactly when churns crosses 2^age.
    let mut d = NodeData::new();
    assert!(!d.is_malicious());
    assert_eq!(d.age(), 0);
    assert!(d.churn_and_can_age()); // churns 1 >= 2^0
    d.incr_age(); // age 1
    assert!(d.churn_and_can_age()); // churns 2 >= 2^1
    d.incr_age(); // age 2
    assert!(!d.churn_and_can_age()); // churns 3 < 4
    assert!(d.churn_and_can_age()); // churns 4 >= 4
    assert_eq!(d.churns(), 4);
    let m = NodeData::new_malicious();
    assert!(m.is_malicious());
}

fn group_of(nodes: &[(u64, NodeData)]) -> Group {
    let mut g = Group::new();
    for (nm, d) in nodes {
        assert!(g.insert(*nm, *d));
    }
    g
}

fn aged(age: u32, malicious: bool) -> NodeData {
    let mut d = if malicious { NodeData::new_malicious() } else { NodeData::new() };
    for _ in 0..age {
        d.incr_age();
    }
    d
}

#[test]
fn test_simple_quorum_half() {
    let q = SimpleQuorum::from(Proportion::new(1, 2));
    let g = group_of(&[(1, aged(0, true)), (2, aged(0, true)), (3, aged(0, false)), (4, aged(0, false))]);
    assert!(q.quorum_compromised(&g)); // 2/4 >= 1/2
    assert!(!q.quorum_disrupted(&g)); // 2/4 is not < 1/2
    let g2 = group_of(&[(1, aged(0, true)), (2, aged(0, true)), (3, aged(0, true)), (4, aged(0, false))]);
    assert!(q.quorum_disrupted(&g2)); // good 1/4 < 1/2
}

#[test]
fn test_simple_quorum_unanimity_and_trivial() {
    // Proportion 1 requires unanimity; proportion 0 is trivially satisfied.
    let whole = SimpleQuorum::new();
    let mixed = group_of(&[(1, aged(0, true)), (2, aged(0, false))]);
    let all_bad = group_of(&[(1, aged(0, true)), (2, aged(0, true))]);
    assert!(!whole.quorum_compromised(&mixed));
    assert!(whole.quorum_compromised(&all_bad));
    assert!(whole.quorum_disrupted(&mixed));
    let trivial = SimpleQuorum::from(Proportion::new(0, 1));
    assert!(trivial.quorum_compromised(&mixed));
    assert!(!trivial.quorum_disrupted(&mixed));
    assert!(!trivial.quorum_compromised(&Group::new()));
}

#[test]
fn test_age_quorum() {
    let mut q = AgeQuorum::new();
    q.set_quorum_proportion(Proportion::new(1, 2));
    // Two bad of age 1 each, two good of age 3 each: bad count reaches
    // the proportion but bad age 2/8 does not.
    let g = group_of(&[(1, aged(1, true)), (2, aged(1, true)), (3, aged(3, false)), (4, aged(3, false))]);
    assert!(!q.quorum_compromised(&g));
    // Age-weight flips it: two bad of age 3, two good of age 1.
    let g2 = group_of(&[(1, aged(3, true)), (2, aged(3, true)), (3, aged(1, false)), (4, aged(1, false))]);
    assert!(q.quorum_compromised(&g2));
    assert_eq!(q.quorum_size(10), None);
}

#[test]
fn test_quorum_size_ceiling() {
    let q = SimpleQuorum::from(Proportion::new(1, 2));
    assert_eq!(q.quorum_size(10), Some(5));
    let q7 = SimpleQuorum::from(Proportion::new(7, 10));
    assert_eq!(q7.quorum_size(10), Some(7));
    assert_eq!(q7.quorum_size(11), Some(8));
}

#[test]
fn test_sample_points_iter() {
    let r: SamplePoints<u64> = SamplePoints::Range(1, 5, None);
    assert_eq!(r.iter(), vec![1, 2, 3, 4, 5]);
    let r2: SamplePoints<u64> = SamplePoints::Range(100, 200, Some(50));
    assert_eq!(r2.iter(), vec![100, 150, 200]);
    let l: SamplePoints<u64> = SamplePoints::List(vec![7, 3, 9]);
    assert_eq!(l.iter(), vec![7, 3, 9]);
    let n: SamplePoints<u64> = SamplePoints::Number(42);
    assert_eq!(n.iter(), vec![42]);
    // An empty range still yields its start, once.
    let e: SamplePoints<u64> = SamplePoints::Range(5, 3, None);
    assert_eq!(e.iter(), vec![5]);
    let m: SamplePoints<Milli> = SamplePoints::Range(Milli(500), Milli(700), Some(Milli(100)));
    assert_eq!(m.iter(), vec![Milli(500), Milli(600), Milli(700)]);
}

#[test]
fn test_sweep_single_point_yields_one() {
    // A sweep in which every tunable is a single point yields exactly one
    // parameter set.
    let v = ArgProc::make_sim_params(
        SimType::FullSim,
        &SamplePoints::Number(1000),
        &SamplePoints::Number(RelOrAbs::Rel(Milli(100))),
        &SamplePoints::Number(RelOrAbs::Rel(Milli(20))),
        &SamplePoints::Number(RelOrAbs::Rel(Milli(1))),
        &SamplePoints::Number(RelOrAbs::Rel(Milli(1))),
        &SamplePoints::Number(10),
        &SamplePoints::Number(Milli(500)),
        &SamplePoints::Number(Milli(1000)),
        &SamplePoints::Number(Milli(100_000)),
        &vec![false],
        &vec![AttackType::Untargetted],
    );
    assert_eq!(v.len(), 1);
    assert_eq!(v[0].num_initial, 1000);
    assert_eq!(v[0].min_group_size, 10);
}

#[test]
fn test_sweep_product() {
    let v = ArgProc::make_sim_params(
        SimType::DirectCalc,
        &SamplePoints::Range(1000u64, 3000, Some(1000)),
        &SamplePoints::Number(RelOrAbs::Abs(50)),
        &SamplePoints::Number(RelOrAbs::Rel(Milli(20))),
        &SamplePoints::Number(RelOrAbs::Rel(Milli(1))),
        &SamplePoints::Number(RelOrAbs::Rel(Milli(1))),
        &SamplePoints::List(vec![8u64, 10]),
        &SamplePoints::Number(Milli(500)),
        &SamplePoints::Number(Milli(1000)),
        &SamplePoints::Number(Milli(100_000)),
        &vec![false, true],
        &vec![AttackType::Untargetted],
    );
    // 3 node counts x 2 group sizes x 2 quorum algorithms.
    assert_eq!(v.len(), 12);
}

#[test]
fn test_rel_or_abs_from_base() {
    assert_eq!(RelOrAbs::Rel(Milli(100)).from_base(1000), 100);
    assert_eq!(RelOrAbs::Rel(Milli(125)).from_base(1000), 125);
    assert_eq!(RelOrAbs::Rel(Milli(1)).from_base(1500), 2); // rounds
    assert_eq!(RelOrAbs::Abs(77).from_base(1000), 77);
}

#[test]
fn test_default_steps() {
    assert_eq!(<u64 as DefaultStep>::default_step(5), 1);
    assert_eq!(<Milli as DefaultStep>::default_step(Milli(5)), Milli(1000));
    assert_eq!(RelOrAbs::default_step(RelOrAbs::Rel(Milli(0))), RelOrAbs::Rel(Milli(100)));
    assert_eq!(RelOrAbs::default_step(RelOrAbs::Abs(0)), RelOrAbs::Abs(1));
}

#[test]
fn test_tool_names() {
    assert_eq!(SimType::DirectCalc.name(), "dir_calc");
    assert_eq!(SimType::Structure.name(), "structure");
    assert_eq!(SimType::FullSim.name(), "full_sim");
    assert_eq!(AttackType::Untargetted.name(), "untarg.");
    assert_eq!(AttackType::SimpleTargetted.name(), "simp_targ");
}

#[test]
fn test_tool_args_from_params() {
    let params = SimParams {
        sim_type: SimType::FullSim,
        age_quorum: false,
        targetting: AttackType::Untargetted,
        num_initial: 1000,
        num_attacking: RelOrAbs::Rel(Milli(100)),
        max_join: RelOrAbs::Rel(Milli(20)),
        add_good: RelOrAbs::Rel(Milli(1)),
        leave_good: RelOrAbs::Rel(Milli(1)),
        min_group_size: 10,
        quorum_prop: Milli(500),
        proof_time: Milli(1000),
        max_days: Milli(100_000),
    };
    let args = ToolArgs::from_params(&params).unwrap();
    assert_eq!(args.num_initial, 1000);
    assert_eq!(args.num_attacking, 100); // 10% of 1000
    assert_eq!(args.min_section_size, 10);
    assert_eq!(args.max_steps, 100); // 100 days at one day per step
    assert_eq!(args.section_quorum_prop, Proportion::new(500, 1000));
    // An out-of-range quorum proportion is rejected.
    let mut bad = params;
    bad.quorum_prop = Milli(1500);
    assert!(ToolArgs::from_params(&bad).is_none());
}

#[test]
fn test_restriction_one_per_age() {
    let two_zero = group_of(&[(1, aged(0, false)), (2, aged(0, false))]);
    let one_zero = group_of(&[(1, aged(0, false)), (2, aged(1, false))]);
    assert!(!RestrictOnePerAge::can_add(&aged(0, false), &two_zero));
    assert!(RestrictOnePerAge::can_add(&aged(0, false), &one_zero));
    assert!(RestrictOnePerAge::can_add(&aged(1, false), &two_zero));
    assert!(NoAddRestriction::can_add(&aged(0, false), &two_zero));
}
