//! Drivers of the simulations and calculations: the parameter bundle the
//! estimators consume, the result record they produce, and the three
//! estimators themselves.

use vstd::prelude::*;

verus! {

use crate::NN;
use crate::node::{NodeData, Node};
use crate::net::{Network, RestrictOnePerAge, NoAddRestriction, sections_count};
use crate::quorum::{Proportion, Quorum, SimpleQuorum};
use crate::prob::{Ratio, prob_compromise, prob_disruption, spec_binomial, hyper_sum_from};
use crate::attack::{AttackStrategy, Random};
use crate::metadata::Metadata;

/// The parameter bundle consumed by every estimator.
#[derive(Clone, Copy, Debug)]
pub struct ToolArgs {
    /// Number of initial (honest) nodes.
    pub num_initial: NN,
    /// Number of malicious nodes added at the start of the attack.
    pub num_attacking: NN,
    /// Minimum section size.
    pub min_section_size: NN,
    /// Quorum proportion for section-level decisions.
    pub section_quorum_prop: Proportion,
    /// Size of a data group.
    pub group_size: NN,
    /// Quorum proportion for data-group decisions.
    pub group_quorum_prop: Proportion,
    /// Number of simulation steps before the attack gives up.
    pub max_steps: NN,
}

impl ToolArgs {
    /// The proportions are unit-interval rationals and the node counts
    /// fit one machine's address space.
    pub open spec fn wf(self) -> bool {
        &&& self.section_quorum_prop.wf()
        &&& self.group_quorum_prop.wf()
        &&& self.min_section_size <= usize::MAX
        &&& self.group_size <= usize::MAX
        &&& self.num_initial + self.num_attacking <= u32::MAX
    }
}

impl ToolArgs {
    /// Derive the estimator parameters from one sweep point: resolve the
    /// attacker count against the initial count and turn the attack
    /// deadline into a step count of one proof-of-work time each,
    /// rounded to the nearest step. The data-group size and quorum
    /// default to the section values. `None` exactly when the quorum
    /// proportion is out of range, the proof time is zero, or a count
    /// does not fit its type.
    pub fn from_params(params: &crate::args::SimParams) -> (r: Option<ToolArgs>)
        ensures
            ({
                let att = match params.num_attacking {
                    crate::args::RelOrAbs::Rel(m) => (params.num_initial * m.0 + 500) / 1000,
                    crate::args::RelOrAbs::Abs(v) => v as int,
                };
                let steps = (2 * params.max_days.0 + params.proof_time.0) / (2
                    * params.proof_time.0);
                match r {
                    Some(a) => {
                        &&& a.wf()
                        &&& a.num_initial == params.num_initial
                        &&& a.num_attacking == att
                        &&& a.min_section_size == params.min_group_size
                        &&& a.section_quorum_prop == (Proportion {
                            num: params.quorum_prop.0 as u32,
                            den: 1000u32,
                        })
                        &&& a.group_size == params.min_group_size
                        &&& a.group_quorum_prop == a.section_quorum_prop
                        &&& a.max_steps == (if steps > u64::MAX {
                            u64::MAX as int
                        } else {
                            steps
                        })
                    },
                    None => params.quorum_prop.0 > 1000 || params.proof_time.0 == 0 || att
                        > u64::MAX || params.num_initial + att > u32::MAX
                        || params.min_group_size > usize::MAX,
                }
            }),
    {
        if params.quorum_prop.0 > 1000 || params.proof_time.0 == 0 {
            return None;
        }
        let att128: u128 = match params.num_attacking {
            crate::args::RelOrAbs::Rel(m) => {
                proof {
                    assert((params.num_initial as u128) * (m.0 as u128)
                        < 0xffff_ffff_ffff_ffff_ffff_ffff_ffff_f000u128) by (nonlinear_arith)
                        requires
                            params.num_initial <= u64::MAX && m.0 <= u64::MAX,
                    ;
                }
                ((params.num_initial as u128) * (m.0 as u128) + 500) / 1000
            },
            crate::args::RelOrAbs::Abs(v) => v as u128,
        };
        if att128 > u64::MAX as u128 {
            return None;
        }
        let att = att128 as u64;
        if (params.num_initial as u128) + (att as u128) > u32::MAX as u128 {
            return None;
        }
        if params.min_group_size > usize::MAX as u64 {
            return None;
        }
        let steps128: u128 = (2 * (params.max_days.0 as u128) + (params.proof_time.0 as u128)) / (
        2 * (params.proof_time.0 as u128));
        let max_steps: u64 = if steps128 > u64::MAX as u128 {
            u64::MAX
        } else {
            steps128 as u64
        };
        let prop = Proportion::new(params.quorum_prop.0 as u32, 1000);
        Some(
            ToolArgs {
                num_initial: params.num_initial,
                num_attacking: att,
                min_section_size: params.min_group_size,
                section_quorum_prop: prop,
                group_size: params.min_group_size,
                group_quorum_prop: prop,
                max_steps,
            },
        )
    }
}

/// Result of a simulation, carrying the probabilities of the different
/// kinds of compromise as exact rationals.
#[derive(Clone, Copy, PartialEq, Eq, Structural, Debug)]
pub struct SimResult {
    /// Probability that honest nodes cannot form a quorum in a section.
    pub p_disrupt: Ratio,
    /// Probability that the attacker can form a quorum in a section.
    pub p_compromise: Ratio,
    /// Probability that the attacker can double-vote.
    pub p_double_vote: Ratio,
    /// Probability that the attacker can form a quorum in a data group.
    pub p_data_compromise: Ratio,
}

impl SimResult {
    /// A result carrying only the two section-level probabilities.
    pub fn legacy(p_disrupt: Ratio, p_compromise: Ratio) -> (r: SimResult)
        ensures
            r == (SimResult {
                p_disrupt,
                p_compromise,
                p_double_vote: Ratio { num: 0, den: 1 },
                p_data_compromise: Ratio { num: 0, den: 1 },
            }),
    {
        SimResult::new(p_disrupt, p_compromise, Ratio::zero(), Ratio::zero())
    }

    /// A result carrying all four probabilities.
    pub fn new(p_disrupt: Ratio, p_compromise: Ratio, p_double_vote: Ratio, p_data_compromise: Ratio) -> (r: SimResult)
        ensures
            r == (SimResult { p_disrupt, p_compromise, p_double_vote, p_data_compromise }),
    {
        SimResult { p_disrupt, p_compromise, p_double_vote, p_data_compromise }
    }

    /// Probability of disruption.
    pub fn p_disrupt(&self) -> (r: Ratio)
        ensures
            r == self.p_disrupt,
    {
        self.p_disrupt
    }

    /// Probability of compromise.
    pub fn p_compromise(&self) -> (r: Ratio)
        ensures
            r == self.p_compromise,
    {
        self.p_compromise
    }

    /// Probability of a double vote.
    pub fn p_double_vote(&self) -> (r: Ratio)
        ensures
            r == self.p_double_vote,
    {
        self.p_double_vote
    }

    /// Probability of data compromise.
    pub fn p_data_compromise(&self) -> (r: Ratio)
        ensures
            r == self.p_data_compromise,
    {
        self.p_data_compromise
    }
}

/// The quorum size the simple quorum demands of a section of size `k`:
/// the smallest count whose fraction of `k` reaches the proportion.
pub open spec fn spec_ceil_q(k: NN, p: Proportion) -> int {
    (k * p.num + p.den - 1) / (p.den as int)
}

/// The simple quorum count never exceeds the group size.
proof fn lemma_ceil_q_le_k(k: NN, p: Proportion)
    requires
        p.wf(),
    ensures
        0 <= spec_ceil_q(k, p) <= k,
{
    let num = p.num as int;
    let den = p.den as int;
    vstd::arithmetic::mul::lemma_mul_inequality(num, den, k as int);
    vstd::arithmetic::mul::lemma_mul_is_commutative(k as int, num);
    vstd::arithmetic::mul::lemma_mul_is_commutative(k as int, den);
    vstd::arithmetic::div_mod::lemma_div_is_ordered(
        k as int * num + den - 1,
        k as int * den + den - 1,
        den,
    );
    assert((k as int * den + den - 1) / den == k) by (nonlinear_arith)
        requires
            den >= 1,
    ;
    vstd::arithmetic::div_mod::lemma_div_is_ordered(0, k as int * num + den - 1, den);
    assert(0int / den == 0) by (nonlinear_arith)
        requires
            den >= 1,
    ;
    vstd::arithmetic::mul::lemma_mul_nonnegative(k as int, num);
}

/// Simplest tool: assumes all sections have minimum size; cannot simulate
/// targetting or ageing. It computes the exact one-section disruption and
/// compromise probabilities; combining them over the number of sections
/// is floating-point work left to the caller.
pub struct DirectCalcTool {
    /// The parameters.
    pub args: ToolArgs,
    /// The section quorum.
    pub quorum: SimpleQuorum,
}

impl DirectCalcTool {
    /// Create from a parameter bundle.
    pub fn new(args: &ToolArgs) -> (r: Self)
        requires
            args.wf(),
        ensures
            r.args == *args,
            r.quorum.proportion == args.section_quorum_prop,
            r.args.wf(),
            r.quorum.inv(),
    {
        DirectCalcTool { args: *args, quorum: SimpleQuorum::from(args.section_quorum_prop) }
    }

    /// The exact probabilities that one minimum-size section is disrupted
    /// or compromised, given `n` nodes of which `num_attacking` are
    /// malicious and a quorum of `q = ceil(k * proportion)` out of
    /// `k = min_section_size`. `None` exactly when the parameters violate
    /// the hypergeometric preconditions or the counts do not fit the
    /// arithmetic type.
    pub fn calc_one_section(&self) -> (r: Option<(Ratio, Ratio)>)
        requires
            self.args.wf(),
            self.quorum.proportion == self.args.section_quorum_prop,
        ensures
            ({
                let k = self.args.min_section_size;
                let q = spec_ceil_q(k, self.args.section_quorum_prop);
                let n = self.args.num_initial + self.args.num_attacking;
                let a = self.args.num_attacking;
                match r {
                    Some(p) => {
                        &&& n >= k
                        &&& n - a >= k - q
                        &&& a >= k - q
                        &&& p.1.num == hyper_sum_from(a as nat, (n - a) as nat, k as nat, q as nat)
                        &&& p.1.den == spec_binomial(n as nat, k as nat)
                        &&& p.0.num == spec_binomial(n as nat, k as nat) - hyper_sum_from(
                            (n - a) as nat,
                            a as nat,
                            k as nat,
                            q as nat,
                        )
                        &&& p.0.den == spec_binomial(n as nat, k as nat)
                        &&& p.0.wf() && p.1.wf()
                    },
                    None => n < k || n - a < k - q || a < k - q || spec_binomial(
                        n as nat,
                        k as nat,
                    ) > u128::MAX,
                }
            }),
    {
        let k = self.args.min_section_size;
        let q = match self.quorum.quorum_size(k) {
            Some(q) => q,
            None => {
                proof {
                    assert(false);
                }
                return None;
            },
        };
        proof {
            lemma_ceil_q_le_k(k, self.args.section_quorum_prop);
        }
        let n = self.args.num_initial + self.args.num_attacking;
        let a = self.args.num_attacking;
        if n < k || (n as u128) + (q as u128) < (k as u128) + (a as u128) || (a as u128) + (
        q as u128) < k as u128 {
            return None;
        }
        let pc = match prob_compromise(n, a, k, q) {
            Some(p) => p,
            None => {
                return None;
            },
        };
        let pd = match prob_disruption(n, a, k, q) {
            Some(p) => p,
            None => {
                return None;
            },
        };
        Some((pd, pc))
    }
}

/// A tool which simulates the section structure (the division of nodes
/// between sections), then does direct calculations per section. The
/// product-of-complements combination over sections is floating-point
/// work left to the caller.
pub struct SimStructureTool {
    /// The parameters.
    pub args: ToolArgs,
    /// The section quorum.
    pub quorum: SimpleQuorum,
}

impl SimStructureTool {
    /// Create from a parameter bundle.
    pub fn new(args: &ToolArgs) -> (r: Self)
        requires
            args.wf(),
        ensures
            r.args == *args,
            r.quorum.proportion == args.section_quorum_prop,
            r.args.wf(),
            r.quorum.inv(),
    {
        SimStructureTool { args: *args, quorum: SimpleQuorum::from(args.section_quorum_prop) }
    }

    /// Build a network of purely good nodes of the full target size, and
    /// return for each resulting section its size `k`, its quorum count
    /// `q`, and where the hypergeometric preconditions hold, the exact
    /// one-section disruption and compromise probabilities for `k` draws
    /// from the whole population.
    pub fn calc_sections(&self) -> (r: Result<Vec<(NN, NN, Option<(Ratio, Ratio)>)>, crate::Error>)
        requires
            self.args.wf(),
            self.quorum.proportion == self.args.section_quorum_prop,
        ensures
            ({
                let n = self.args.num_initial + self.args.num_attacking;
                let a = self.args.num_attacking;
                match r {
                    Ok(v) => forall|t: int|
                        0 <= t < v@.len() ==> {
                            let k = (#[trigger] v@[t]).0;
                            let q = v@[t].1;
                            &&& q == spec_ceil_q(k, self.args.section_quorum_prop)
                            &&& match v@[t].2 {
                                Some(p) => {
                                    &&& p.1.num == hyper_sum_from(
                                        a as nat,
                                        (n - a) as nat,
                                        k as nat,
                                        q as nat,
                                    )
                                    &&& p.1.den == spec_binomial(n as nat, k as nat)
                                    &&& p.0.num == spec_binomial(n as nat, k as nat)
                                        - hyper_sum_from(
                                        (n - a) as nat,
                                        a as nat,
                                        k as nat,
                                        q as nat,
                                    )
                                    &&& p.0.den == spec_binomial(n as nat, k as nat)
                                    &&& p.0.wf() && p.1.wf()
                                },
                                None => n < k || n - a < k - q || a < k - q || spec_binomial(
                                    n as nat,
                                    k as nat,
                                ) > u128::MAX,
                            }
                        },
                    Err(e) => e == crate::Error::FindNameExhausted,
                }
            }),
    {
        let n = self.args.num_initial + self.args.num_attacking;
        let a = self.args.num_attacking;
        // All nodes are good for this structural simulation; some are
        // treated as bad only in the calculation afterwards. An attack
        // strategy must exist to observe splits, though only one variant
        // is supported here.
        let mut attack = Random::create(&self.args);
        let mut net = Network::new(self.args.min_section_size as usize);
        let mut added: u64 = 0;
        while added < n
            invariant
                net.wf(),
                attack.inv(),
                added <= n,
            decreases n - added,
        {
            match net.add_node::<NoAddRestriction, Random>(NodeData::new(), &mut attack) {
                Ok(_) => {},
                Err(_) => {
                    return Err(crate::Error::FindNameExhausted);
                },
            }
            match net.add_all_pending_nodes::<NoAddRestriction, Random>(&mut attack) {
                Ok(_) => {},
                Err(_) => {
                    return Err(crate::Error::FindNameExhausted);
                },
            }
            added += 1;
        }
        let mut v: Vec<(NN, NN, Option<(Ratio, Ratio)>)> = Vec::new();
        let mut i: usize = 0;
        let groups = net.groups();
        while i < groups.len()
            invariant
                i <= groups@.len(),
                self.args.wf(),
                self.quorum.proportion == self.args.section_quorum_prop,
                self.quorum.inv(),
                n == self.args.num_initial + self.args.num_attacking,
                a == self.args.num_attacking,
                forall|t: int|
                    0 <= t < v@.len() ==> {
                        let k = (#[trigger] v@[t]).0;
                        let q = v@[t].1;
                        &&& q == spec_ceil_q(k, self.args.section_quorum_prop)
                        &&& match v@[t].2 {
                            Some(p) => {
                                &&& p.1.num == hyper_sum_from(
                                    a as nat,
                                    (n - a) as nat,
                                    k as nat,
                                    q as nat,
                                )
                                &&& p.1.den == spec_binomial(n as nat, k as nat)
                                &&& p.0.num == spec_binomial(n as nat, k as nat) - hyper_sum_from(
                                    (n - a) as nat,
                                    a as nat,
                                    k as nat,
                                    q as nat,
                                )
                                &&& p.0.den == spec_binomial(n as nat, k as nat)
                                &&& p.0.wf() && p.1.wf()
                            },
                            None => n < k || n - a < k - q || a < k - q || spec_binomial(
                                n as nat,
                                k as nat,
                            ) > u128::MAX,
                        }
                    },
            decreases groups@.len() - i,
        {
            let k = groups[i].1.len() as u64;
            let q = match self.quorum.quorum_size(k) {
                Some(q) => q,
                None => {
                    proof {
                        assert(false);
                    }
                    0
                },
            };
            proof {
                lemma_ceil_q_le_k(k, self.args.section_quorum_prop);
            }
            let entry = if n < k || (n as u128) + (q as u128) < (k as u128) + (a as u128) || (
            a as u128) + (q as u128) < k as u128 {
                None
            } else {
                match (prob_disruption(n, a, k, q), prob_compromise(n, a, k, q)) {
                    (Some(pd), Some(pc)) => Some((pd, pc)),
                    _ => None,
                }
            };
            let ghost vp = v@;
            v.push((k, q, entry));
            proof {
                assert forall|t: int|
                    0 <= t < v@.len() implies {
                    let kk = (#[trigger] v@[t]).0;
                    let qq = v@[t].1;
                    &&& qq == spec_ceil_q(kk, self.args.section_quorum_prop)
                    &&& match v@[t].2 {
                        Some(p) => {
                            &&& p.1.num == hyper_sum_from(
                                a as nat,
                                (n - a) as nat,
                                kk as nat,
                                qq as nat,
                            )
                            &&& p.1.den == spec_binomial(n as nat, kk as nat)
                            &&& p.0.num == spec_binomial(n as nat, kk as nat) - hyper_sum_from(
                                (n - a) as nat,
                                a as nat,
                                kk as nat,
                                qq as nat,
                            )
                            &&& p.0.den == spec_binomial(n as nat, kk as nat)
                            &&& p.0.wf() && p.1.wf()
                        },
                        None => n < kk || n - a < kk - qq || a < kk - qq || spec_binomial(
                            n as nat,
                            kk as nat,
                        ) > u128::MAX,
                    }
                } by {
                    if t < vp.len() {
                        assert(v@[t] == vp[t]);
                    } else {
                        assert(v@[t] == (k, q, entry));
                    }
                }
            }
            i += 1;
        }
        Ok(v)
    }
}

/// A tool which simulates section operations in full: it grows a network,
/// ages and relocates nodes on churn, runs the attacker, and judges
/// every section by the quorum each step.
pub struct FullSimTool<Q: Quorum, G: Quorum> {
    /// The parameters.
    pub args: ToolArgs,
    /// The quorum judging sections.
    pub section_quorum: Q,
    /// The quorum judging data groups.
    pub group_quorum: G,
}

impl<Q: Quorum, G: Quorum> FullSimTool<Q, G> {
    /// Create from a parameter bundle and the two quorum instances, whose
    /// proportions are overwritten from the bundle.
    pub fn new(args: &ToolArgs, section_quorum: Q, group_quorum: G) -> (r: Self)
        requires
            args.wf(),
        ensures
            r.args == *args,
            r.args.wf(),
            r.section_quorum.inv(),
            r.group_quorum.inv(),
            r.section_quorum.proportion() == args.section_quorum_prop,
            r.group_quorum.proportion() == args.group_quorum_prop,
    {
        let mut section_quorum = section_quorum;
        let mut group_quorum = group_quorum;
        section_quorum.set_quorum_proportion(args.section_quorum_prop);
        group_quorum.set_quorum_proportion(args.group_quorum_prop);
        FullSimTool { args: *args, section_quorum, group_quorum }
    }

    /// Run one replication of the simulation: build the network of good
    /// nodes, admit the attacker's nodes, run the attack for at most
    /// `max_steps` steps, and report whether disruption, compromise or
    /// data compromise was ever observed, as 0-or-1 probabilities.
    ///
    /// Where no attacker joins at all, a quorum that needs actual malice
    /// reports neither compromise nor disruption, in every replication.
    /// The observer is updated after every network mutation.
    pub fn run_sim<A: AttackStrategy>(&self, meta: &mut Metadata) -> (r: Result<
        SimResult,
        crate::Error,
    >)
        requires
            self.args.wf(),
            self.section_quorum.inv(),
            self.group_quorum.inv(),
        ensures
            final(meta).enabled == old(meta).enabled,
            match r {
                Ok(res) => {
                    &&& res.p_disrupt.wf() && res.p_disrupt.den == 1
                    &&& res.p_compromise.wf() && res.p_compromise.den == 1
                    &&& res.p_double_vote.wf() && res.p_double_vote.den == 1
                    &&& res.p_data_compromise.wf() && res.p_data_compromise.den == 1
                    &&& (self.args.num_attacking == 0 && crate::quorum::quorum_needs_malice(
                        self.section_quorum,
                    )) ==> (res.p_compromise.num == 0 && res.p_disrupt.num == 0)
                    &&& res.p_compromise.num == 1 ==> res.p_disrupt.num == 1
                },
                Err(e) => e == crate::Error::FindNameExhausted,
            },
    {
        let mut attack = A::create(&self.args);
        let mut net = Network::new(self.args.min_section_size as usize);
        meta.update(&net, Ratio::zero(), Ratio::zero());

        // 1. Create an initial network of good nodes.
        let mut i: u64 = 0;
        while i < self.args.num_initial
            invariant
                net.wf(),
                attack.inv(),
                i <= self.args.num_initial,
                self.args.wf(),
                self.section_quorum.inv(),
                self.group_quorum.inv(),
                net.min_section_size == self.args.min_section_size,
                net.spec_node_total() <= i,
                net.spec_mal_total() == 0,
                meta.enabled == old(meta).enabled,
            decreases self.args.num_initial - i,
        {
            match net.add_node::<RestrictOnePerAge, A>(NodeData::new(), &mut attack) {
                Ok(_) => {},
                Err(_) => {
                    return Err(crate::Error::FindNameExhausted);
                },
            }
            match net.add_all_pending_nodes::<RestrictOnePerAge, A>(&mut attack) {
                Ok(_) => {},
                Err(_) => {
                    return Err(crate::Error::FindNameExhausted);
                },
            }
            meta.update(&net, Ratio::zero(), Ratio::zero());
            i += 1;
        }

        // 2. Join the malicious nodes; the attacker may reset any of its
        // instances when it learns the name, consuming the budget slot.
        let mut j: u64 = 0;
        while j < self.args.num_attacking
            invariant
                net.wf(),
                attack.inv(),
                j <= self.args.num_attacking,
                self.args.wf(),
                self.section_quorum.inv(),
                self.group_quorum.inv(),
                net.min_section_size == self.args.min_section_size,
                net.spec_node_total() <= self.args.num_initial + j,
                self.args.num_attacking == 0 ==> net.spec_mal_total() == 0,
                meta.enabled == old(meta).enabled,
            decreases self.args.num_attacking - j,
        {
            let data = NodeData::new_malicious();
            let (prefix, name) = match net.find_name::<RestrictOnePerAge>(&data) {
                Ok(v) => v,
                Err(_) => {
                    return Err(crate::Error::FindNameExhausted);
                },
            };
            if !attack.reset_on_new_name(&net, name, &data) {
                match net.add_node_with_name::<RestrictOnePerAge, A>(prefix, name, data, &mut attack) {
                    Ok(_) => {},
                    Err(_) => {
                        proof {
                            assert(false);
                        }
                    },
                }
                match net.add_all_pending_nodes::<RestrictOnePerAge, A>(&mut attack) {
                    Ok(_) => {},
                    Err(_) => {
                        return Err(crate::Error::FindNameExhausted);
                    },
                }
                meta.update(&net, Ratio::zero(), Ratio::zero());
            }
            j += 1;
        }

        // 3. Run the attack.
        let mut disruption = false;
        let mut data_corrupted = false;
        // No evaluator for double votes is defined for this simulation,
        // so its flag never rises and the reported probability is zero.
        let double_vote = false;
        let allow_join_leave = true;
        let mut step: u64 = 0;
        while step < self.args.max_steps
            invariant
                net.wf(),
                attack.inv(),
                step <= self.args.max_steps,
                self.args.wf(),
                self.section_quorum.inv(),
                self.group_quorum.inv(),
                net.min_section_size == self.args.min_section_size,
                net.spec_node_total() <= u32::MAX,
                self.args.num_attacking == 0 ==> net.spec_mal_total() == 0,
                (self.args.num_attacking == 0 && crate::quorum::quorum_needs_malice(
                    self.section_quorum,
                )) ==> !disruption,
                meta.enabled == old(meta).enabled,
            decreases self.args.max_steps - step,
        {
            match net.do_step::<RestrictOnePerAge, A>(&mut attack, allow_join_leave) {
                Ok(_) => {},
                Err(_) => {
                    return Err(crate::Error::FindNameExhausted);
                },
            }

            let corrupt = net.compromised_data_fraction::<G>(self.args.group_size, &self.group_quorum);
            let corrupt_now = match corrupt {
                Some(p) => {
                    data_corrupted = true;
                    p
                },
                None => Ratio::zero(),
            };
            meta.update(&net, bool_prob(double_vote), corrupt_now);

            // Check if disruption or compromise occurred; compromise
            // implies disruption and ends the replication.
            let groups = net.groups();
            let ghost quiet = self.args.num_attacking == 0
                && crate::quorum::quorum_needs_malice(self.section_quorum);
            proof {
                if self.args.num_attacking == 0 {
                    assert(sections_count(groups@, |nd: Node| nd.1.is_malicious) == 0);
                }
            }
            let mut t: usize = 0;
            let mut compromised = false;
            while t < groups.len()
                invariant
                    t <= groups@.len(),
                    self.section_quorum.inv(),
                    forall|w: int| 0 <= w < groups@.len() ==> (#[trigger] groups@[w]).1.wf(),
                    quiet == (self.args.num_attacking == 0
                        && crate::quorum::quorum_needs_malice(self.section_quorum)),
                    quiet ==> sections_count(groups@, |nd: Node| nd.1.is_malicious) == 0,
                    quiet ==> !compromised && !disruption,
                decreases groups@.len() - t,
            {
                proof {
                    if quiet {
                        crate::net::lemma_sections_count_remove(
                            groups@,
                            t as int,
                            |nd: Node| nd.1.is_malicious,
                        );
                        assert(crate::quorum::mal_count(groups@[t as int].1@) == 0);
                    }
                }
                if self.section_quorum.quorum_compromised(&groups[t].1) {
                    compromised = true;
                } else if self.section_quorum.quorum_disrupted(&groups[t].1) {
                    disruption = true;
                }
                t += 1;
            }
            if compromised {
                return Ok(
                    SimResult::new(
                        Ratio::one(),
                        Ratio::one(),
                        bool_prob(double_vote),
                        bool_prob(data_corrupted),
                    ),
                );
            }
            step += 1;
        }
        Ok(
            SimResult::new(
                bool_prob(disruption),
                Ratio::zero(),
                bool_prob(double_vote),
                bool_prob(data_corrupted),
            ),
        )
    }

    /// Calculate the probability of compromise by running `repetitions`
    /// replications and averaging the 0-or-1 outcomes exactly.
    pub fn calc_p_compromise<A: AttackStrategy>(&self, repetitions: u32) -> (r: Result<
        SimResult,
        crate::Error,
    >)
        requires
            self.args.wf(),
            self.section_quorum.inv(),
            self.group_quorum.inv(),
            repetitions >= 1,
        ensures
            match r {
                Ok(res) => {
                    &&& res.p_disrupt.wf() && res.p_disrupt.den == repetitions
                    &&& res.p_compromise.wf() && res.p_compromise.den == repetitions
                    &&& res.p_double_vote.wf() && res.p_double_vote.den == repetitions
                    &&& res.p_data_compromise.wf() && res.p_data_compromise.den == repetitions
                    &&& (self.args.num_attacking == 0 && crate::quorum::quorum_needs_malice(
                        self.section_quorum,
                    )) ==> (res.p_compromise.num == 0 && res.p_disrupt.num == 0)
                    &&& res.p_disrupt.num >= res.p_compromise.num
                },
                Err(e) => e == crate::Error::FindNameExhausted,
            },
    {
        let mut n_disrupt: u32 = 0;
        let mut n_compromise: u32 = 0;
        let mut n_double: u32 = 0;
        let mut n_data: u32 = 0;
        let mut rep: u32 = 0;
        while rep < repetitions
            invariant
                self.args.wf(),
                self.section_quorum.inv(),
                self.group_quorum.inv(),
                rep <= repetitions,
                n_disrupt <= rep,
                n_compromise <= rep,
                n_double <= rep,
                n_data <= rep,
                (self.args.num_attacking == 0 && crate::quorum::quorum_needs_malice(
                    self.section_quorum,
                )) ==> (n_compromise == 0 && n_disrupt == 0),
                n_disrupt >= n_compromise,
            decreases repetitions - rep,
        {
            let mut meta = Metadata::new(false);
            let one = match self.run_sim::<A>(&mut meta) {
                Ok(res) => res,
                Err(e) => {
                    return Err(e);
                },
            };
            if one.p_disrupt.num > 0 {
                n_disrupt += 1;
            }
            if one.p_compromise.num > 0 {
                n_compromise += 1;
            }
            if one.p_double_vote.num > 0 {
                n_double += 1;
            }
            if one.p_data_compromise.num > 0 {
                n_data += 1;
            }
            rep += 1;
        }
        Ok(
            SimResult::new(
                Ratio { num: n_disrupt as u128, den: repetitions as u128 },
                Ratio { num: n_compromise as u128, den: repetitions as u128 },
                Ratio { num: n_double as u128, den: repetitions as u128 },
                Ratio { num: n_data as u128, den: repetitions as u128 },
            ),
        )
    }
}

/// The 0-or-1 probability of a boolean outcome.
pub fn bool_prob(value: bool) -> (r: Ratio)
    ensures
        r.den == 1,
        r.num == (if value {
            1int
        } else {
            0int
        }),
        r.wf(),
{
    if value {
        Ratio::one()
    } else {
        Ratio::zero()
    }
}

} // verus!
