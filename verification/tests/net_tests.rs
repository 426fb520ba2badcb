//! Network growth, split and merge, churn, the estimators and the
//! attacker strategies, driven end to end with real randomness.

use routing_sims::node::{NodeData, Prefix};
use routing_sims::net::{Network, RestrictOnePerAge, NoAddRestriction, Group};
use routing_sims::quorum::{Proportion, Quorum, SimpleQuorum};
use routing_sims::tools::{DirectCalcTool, SimStructureTool, FullSimTool, SimResult, ToolArgs, bool_prob};
use routing_sims::prob::{prob_compromise, prob_disruption, Ratio};
use routing_sims::attack::{AttackStrategy, Random, SimpleTargettedAttack, UntargettedAttack};
use routing_sims::metadata::{Data, Metadata};
use routing_sims::Error;

fn observer() -> Random {
    Random::create(&args(0, 0, 1, Proportion::new(1, 2), 1))
}

fn args(n: u64, attacking: u64, k: u64, quorum: Proportion, max_steps: u64) -> ToolArgs {
    ToolArgs {
        num_initial: n,
        num_attacking: attacking,
        min_section_size: k,
        section_quorum_prop: quorum,
        group_size: k,
        group_quorum_prop: quorum,
        max_steps,
    }
}

#[test]
fn test_network_new_has_root() {
    let net = Network::new(8);
    assert_eq!(net.groups().len(), 1);
    assert_eq!(net.groups()[0].0.bit_count(), 0);
    assert_eq!(net.groups()[0].1.len(), 0);
}

#[test]
fn test_network_growth_structure() {
    // Building a network of 1000 random good names with a minimum
    // section size of 8 yields between 32 and 128 sections, every
    // section size in 8..=16, after the final drain.
    let mut net = Network::new(8);
    let mut atk = observer();
    for _ in 0..1000 {
        net.add_node::<RestrictOnePerAge, Random>(NodeData::new(), &mut atk).unwrap();
        net.add_all_pending_nodes::<RestrictOnePerAge, Random>(&mut atk).unwrap();
    }
    let sections = net.groups().len();
    assert!(32 <= sections && sections <= 128, "sections: {}", sections);
    // Every non-root section keeps at least the minimum; a section splits
    // once both halves would exceed it, which keeps sizes small, though an
    // unbalanced section can sit a little above twice the minimum.
    for i in 0..net.groups().len() {
        let len = net.groups()[i].1.len();
        assert!(8 <= len && len <= 24, "section size: {}", len);
    }
}

#[test]
fn test_find_prefix_matches() {
    let mut net = Network::new(4);
    let mut atk = observer();
    for _ in 0..100 {
        net.add_node::<RestrictOnePerAge, Random>(NodeData::new(), &mut atk).unwrap();
        net.add_all_pending_nodes::<RestrictOnePerAge, Random>(&mut atk).unwrap();
    }
    for probe in [0u64, u64::MAX, 0x8000_0000_0000_0000, 12345] {
        let p = net.find_prefix(probe);
        assert!(p.matches(probe));
    }
}

#[test]
fn test_churn_relocation_increases_age() {
    // After a successful relocation the relocated node's age strictly
    // increases: every fresh node is eligible after one churn, and the
    // section is above the minimum size, so one node must come back aged.
    let mut group = Group::new();
    assert!(group.insert(10, NodeData::new()));
    assert!(group.insert(20, NodeData::new()));
    assert!(group.insert(30, NodeData::new()));
    let root = Prefix::new(0, 0);
    let mut net = Network { min_section_size: 1, sections: vec![(root, group)], pending: vec![] };
    let reloc = net.churn(root, 999);
    let (name, data) = reloc.expect("a fresh group must yield a relocation candidate");
    assert_eq!(data.age(), 1);
    assert_eq!(data.churns(), 1);
    assert_eq!(name, 10); // ties go to the earliest member
    assert_eq!(net.groups()[0].1.len(), 2);
    // At minimum size, relocation is suppressed but the candidate still
    // ages in place.
    let mut small = Group::new();
    assert!(small.insert(7, NodeData::new()));
    let mut net2 = Network { min_section_size: 1, sections: vec![(root, small)], pending: vec![] };
    assert!(net2.churn(root, 999).is_none());
    assert_eq!(net2.groups()[0].1.node_at(0).1.age(), 1);
}

#[test]
fn test_remove_node_absent_is_not_found() {
    let mut net = Network::new(4);
    let root = net.groups()[0].0;
    assert_eq!(net.remove_node(root, 42), Err(Error::NotFound));
    let missing = root.pushed(true);
    assert_eq!(net.remove_node(missing, 42), Err(Error::NotFound));
}

#[test]
fn test_do_merge_absent_prefix_is_no_op() {
    let mut net = Network::new(8);
    let mut atk = observer();
    for _ in 0..100 {
        net.add_node::<RestrictOnePerAge, Random>(NodeData::new(), &mut atk).unwrap();
        net.add_all_pending_nodes::<RestrictOnePerAge, Random>(&mut atk).unwrap();
    }
    let sections_before = net.groups().len();
    // The root prefix was split away long ago: merging it is a no-op,
    // and so is merging the root itself.
    let mut absent = net.groups()[0].0;
    while absent.bit_count() < 64 {
        absent = absent.pushed(true);
        if net.section_with_prefix(absent).is_none() {
            break;
        }
    }
    net.do_merge(absent);
    assert_eq!(net.groups().len(), sections_before);
}

#[test]
fn test_do_merge_collapses_siblings() {
    let mut net = Network::new(4);
    let mut atk = observer();
    for _ in 0..40 {
        net.add_node::<RestrictOnePerAge, Random>(NodeData::new(), &mut atk).unwrap();
        net.add_all_pending_nodes::<RestrictOnePerAge, Random>(&mut atk).unwrap();
    }
    let sections_before = net.groups().len();
    if sections_before >= 2 {
        let victim = net.groups()[0].0;
        net.do_merge(victim);
        assert!(net.groups().len() < sections_before);
    }
}

#[test]
fn test_direct_calc_tool() {
    // DirectCalc with 900 initial and 100 attacking nodes, sections of
    // 10 and a 0.5 quorum: q = 5 and one-section probabilities follow
    // the hypergeometric formulas; the final probability over ~100
    // sections is 1 - (1 - pc_one)^100.
    let a = args(900, 100, 10, Proportion::new(1, 2), 10);
    let tool = DirectCalcTool::new(&a);
    let (pd, pc) = tool.calc_one_section().unwrap();
    let expect_pc = prob_compromise(1000, 100, 10, 5).unwrap();
    let expect_pd = prob_disruption(1000, 100, 10, 5).unwrap();
    assert_eq!(pc, expect_pc);
    assert_eq!(pd, expect_pd);
    let pc_one = pc.num as f64 / pc.den as f64;
    assert!((pc_one - 1.5214219e-3).abs() < 1e-8);
    let n_groups = 1000.0f64 / 10.0;
    let p_final = 1.0 - (1.0 - pc_one).powf(n_groups);
    assert!((p_final - 0.1412333).abs() < 1e-6);
}

#[test]
fn test_sim_structure_tool() {
    let a = args(450, 50, 8, Proportion::new(1, 2), 10);
    let tool = SimStructureTool::new(&a);
    let sections = tool.calc_sections().unwrap();
    assert!(!sections.is_empty());
    for (k, q, entry) in &sections {
        assert!(*k >= 8);
        assert_eq!(*q, (*k + 1) / 2);
        let (pd, pc) = entry.expect("hypergeometric preconditions hold here");
        assert!(pc.num <= pc.den);
        assert!(pd.num <= pd.den);
    }
}

#[test]
fn test_full_sim_no_attackers_never_compromised() {
    // With no attacking nodes, a 0.5 quorum is never disrupted nor
    // compromised, in every replication.
    let a = args(100, 0, 8, Proportion::new(1, 2), 10);
    let tool: FullSimTool<SimpleQuorum, SimpleQuorum> =
        FullSimTool::new(&a, SimpleQuorum::new(), SimpleQuorum::new());
    let res = tool.calc_p_compromise::<Random>(3).unwrap();
    assert_eq!(res.p_compromise().num, 0);
    assert_eq!(res.p_disrupt().num, 0);
    assert_eq!(res.p_compromise().den, 3);
}

#[test]
fn test_full_sim_overwhelming_attack_compromises() {
    // Ten times more attackers than honest nodes always meet a 0.5
    // quorum somewhere.
    let a = args(20, 200, 8, Proportion::new(1, 2), 5);
    let tool: FullSimTool<SimpleQuorum, SimpleQuorum> =
        FullSimTool::new(&a, SimpleQuorum::new(), SimpleQuorum::new());
    let mut meta = Metadata::new(false);
    let res = tool.run_sim::<UntargettedAttack>(&mut meta).unwrap();
    assert_eq!(res.p_compromise().num, 1);
}

#[test]
fn test_compromised_data_fraction_all_malicious() {
    let mut net = Network::new(4);
    let mut atk = observer();
    for _ in 0..30 {
        net.add_node::<NoAddRestriction, Random>(NodeData::new_malicious(), &mut atk).unwrap();
        net.add_all_pending_nodes::<NoAddRestriction, Random>(&mut atk).unwrap();
    }
    // Every sampled data group is fully malicious, so with any real
    // proportion every sample is compromised.
    let q = SimpleQuorum::from(Proportion::new(1, 2));
    let frac = net.compromised_data_fraction(4, &q).unwrap();
    assert_eq!(frac.num, frac.den);
    // An all-good network gives no compromised sample at all.
    let mut good = Network::new(4);
    let mut atk2 = observer();
    for _ in 0..30 {
        good.add_node::<NoAddRestriction, Random>(NodeData::new(), &mut atk2).unwrap();
        good.add_all_pending_nodes::<NoAddRestriction, Random>(&mut atk2).unwrap();
    }
    assert!(good.compromised_data_fraction(4, &q).is_none());
}

#[test]
fn test_random_attack_picks_malicious() {
    let mut net = Network::new(4);
    let mut atk = observer();
    for _ in 0..20 {
        net.add_node::<NoAddRestriction, Random>(NodeData::new(), &mut atk).unwrap();
        net.add_all_pending_nodes::<NoAddRestriction, Random>(&mut atk).unwrap();
    }
    let a = args(20, 0, 4, Proportion::new(1, 2), 1);
    let mut attack = Random::create(&a);
    // No malicious nodes: nothing to evict.
    assert!(attack.force_to_rejoin(&net, false).is_none());
    net.add_node::<NoAddRestriction, Random>(NodeData::new_malicious(), &mut atk).unwrap();
    net.add_all_pending_nodes::<NoAddRestriction, Random>(&mut atk).unwrap();
    let (prefix, name) = attack.force_to_rejoin(&net, false).unwrap();
    let section = net.section_with_prefix(prefix).unwrap();
    assert!(section.get(name).unwrap().is_malicious());
}

#[test]
fn test_simple_targetted_attack_resets_outside_target() {
    // The attacker fixes the first section its node lands in; every
    // later malicious arrival outside that target is reset.
    let mut net = Network::new(4);
    let mut atk = observer();
    for _ in 0..60 {
        net.add_node::<RestrictOnePerAge, Random>(NodeData::new(), &mut atk).unwrap();
        net.add_all_pending_nodes::<RestrictOnePerAge, Random>(&mut atk).unwrap();
    }
    let a = args(60, 2, 4, Proportion::new(1, 1), 1);
    let mut attack = SimpleTargettedAttack::create(&a);
    assert!(attack.target.is_none());
    let mal = NodeData::new_malicious();
    let (_, first_name) = net.find_name::<RestrictOnePerAge>(&mal).unwrap();
    assert!(!attack.reset_on_new_name(&net, first_name, &mal));
    let target = attack.target.expect("target chosen on first arrival");
    assert!(target.matches(first_name));
    // A name with the leading bit flipped cannot match a non-root target.
    assert!(target.bit_count() >= 1);
    let outside = first_name ^ 0x8000_0000_0000_0000;
    assert!(attack.reset_on_new_name(&net, outside, &mal));
    assert!(!attack.reset_on_new_name(&net, first_name, &mal));
    // Honest nodes are never reset.
    assert!(!attack.reset_on_new_name(&net, outside, &NodeData::new()));
}

#[test]
fn test_sim_result_accessors() {
    let r = SimResult::new(bool_prob(true), bool_prob(false), bool_prob(false), bool_prob(true));
    assert_eq!(r.p_disrupt().num, 1);
    assert_eq!(r.p_compromise().num, 0);
    assert_eq!(r.p_double_vote().num, 0);
    assert_eq!(r.p_data_compromise().num, 1);
    let l = SimResult::legacy(Ratio::zero(), Ratio::one());
    assert_eq!(l.p_compromise().num, 1);
    assert_eq!(l.p_data_compromise().num, 0);
}

#[test]
fn test_metadata_series() {
    let mut data: Data<usize> = Data::new(String::from("xs"), String::from("y"), true);
    data.add_point(0, 10);
    data.add_point(1, 12);
    assert_eq!(data.x, vec![0, 1]);
    assert_eq!(data.y, vec![10, 12]);

    let mut net = Network::new(4);
    let mut atk = observer();
    for _ in 0..10 {
        net.add_node::<NoAddRestriction, Random>(NodeData::new_malicious(), &mut atk).unwrap();
        net.add_all_pending_nodes::<NoAddRestriction, Random>(&mut atk).unwrap();
    }
    let mut meta = Metadata::new(true);
    meta.update(&net, Ratio::zero(), Ratio::zero());
    assert_eq!(meta.step_num, 1);
    assert_eq!(meta.num_nodes.y, vec![10]);
    assert_eq!(meta.num_malicious.y, vec![10]);
    assert_eq!(meta.num_sections.y, vec![net.groups().len()]);
    let mut off = Metadata::new(false);
    off.update(&net, Ratio::zero(), Ratio::zero());
    assert_eq!(off.step_num, 0);
}

#[test]
fn test_group_insert_remove() {
    let mut g = Group::new();
    assert!(g.insert(5, NodeData::new()));
    assert!(g.insert(3, NodeData::new_malicious()));
    assert!(!g.insert(5, NodeData::new())); // collision
    assert_eq!(g.len(), 2);
    assert_eq!(g.node_at(0).0, 3); // name order
    assert_eq!(g.node_at(1).0, 5);
    assert!(g.contains(3));
    assert_eq!(g.count_malicious(), 1);
    let removed = g.remove(3).unwrap();
    assert!(removed.is_malicious());
    assert!(g.remove(3).is_none());
    assert_eq!(g.len(), 1);
}

#[test]
fn test_on_split_follows_target() {
    // The targetted attacker moves its target to the new half when the
    // target section splits, and ignores splits of other sections.
    let a = args(10, 1, 4, Proportion::new(1, 1), 1);
    let mut attack = SimpleTargettedAttack::create(&a);
    let target = Prefix::new(1, 0x8000_0000_0000_0000);
    attack.target = Some(target);
    let other = Prefix::new(1, 0);
    attack.on_split(other, other.pushed(false), 5, &NodeData::new_malicious());
    assert_eq!(attack.target, Some(target));
    attack.on_split(target, target.pushed(true), 5, &NodeData::new_malicious());
    assert_eq!(attack.target, Some(target.pushed(true)));
}

#[test]
fn test_process_join_leave_replaces_node() {
    let mut net = Network::new(2);
    let mut atk = observer();
    for _ in 0..12 {
        net.add_node::<NoAddRestriction, Random>(NodeData::new_malicious(), &mut atk).unwrap();
        net.add_all_pending_nodes::<NoAddRestriction, Random>(&mut atk).unwrap();
    }
    let mut attack = Random::create(&args(12, 12, 2, Proportion::new(1, 2), 1));
    let before = net.groups().iter().map(|(_, g)| g.len()).sum::<usize>();
    let pick = net.process_join_leave(&mut attack, false).unwrap();
    let ((_, _), removed) = pick.expect("a fully malicious network always offers a pick");
    assert!(removed.is_malicious());
    let after = net.groups().iter().map(|(_, g)| g.len()).sum::<usize>()
        + net.pending.len();
    assert_eq!(before, after);
}

#[test]
fn test_metadata_extended_series() {
    let mut net = Network::new(4);
    let mut atk = observer();
    for _ in 0..10 {
        net.add_node::<NoAddRestriction, Random>(NodeData::new_malicious(), &mut atk).unwrap();
        net.add_all_pending_nodes::<NoAddRestriction, Random>(&mut atk).unwrap();
    }
    let mut meta = Metadata::new(true);
    meta.update(&net, Ratio::zero(), Ratio::zero());
    assert_eq!(meta.section_sizes.y.len(), net.groups().len());
    assert_eq!(meta.node_ages.y.len() as u64, 10);
    // Everything is malicious, so the top node fraction is 1.
    let top = meta.most_malicious_count.y[0];
    assert!(top.num > 0 && top.num == top.den);
}
