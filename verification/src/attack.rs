//! Attack strategies: pluggable policies for which node the adversary
//! resets or evicts in order to steer its nodes into one section.

use vstd::prelude::*;

verus! {

use crate::NN;
use crate::node::{Prefix, NodeData, Node};
use crate::net::{Network, Group, Section, count_nodes, sections_count, lemma_count_take_step,
    lemma_count_le_len, member_of};
use crate::tools::ToolArgs;

/// Relies on `rand::random_range` over `0..ub`: a value in the given
/// range, drawn from the thread-local generator. Panics on an empty
/// range, so the bound must be positive.
#[verifier::external_body]
fn random_index(ub: usize) -> (r: usize)
    requires
        ub > 0,
    ensures
        r < ub,
{
    rand::random_range(0..ub)
}

/// Describes an attacker: its reaction to a section split, its veto over
/// a freshly assigned name, and its choice of a node to force-evict.
pub trait AttackStrategy: Sized {
    /// Internal consistency of the attacker's private state; nothing, by
    /// default.
    open spec fn inv(&self) -> bool {
        true
    }

    /// Create a fresh attacker for one replication.
    fn create(args: &ToolArgs) -> (r: Self)
        ensures
            r.inv(),
    ;

    /// Called for each malicious member moved by a split, so the attacker
    /// can update its private targeting state.
    fn on_split(&mut self, old_prefix: Prefix, new_prefix: Prefix, name: NN, data: &NodeData)
        requires
            old(self).inv(),
            old_prefix.wf(),
            new_prefix.wf(),
        ensures
            final(self).inv(),
    ;

    /// Return true to discard this malicious instance before proof of
    /// work, consuming one malicious budget slot instead of joining.
    fn reset_on_new_name(&mut self, net: &Network, new_name: NN, data: &NodeData) -> (r: bool)
        requires
            old(self).inv(),
            net.wf(),
        ensures
            final(self).inv(),
    ;

    /// Pick a node to evict to provoke churn: any node it names must be a
    /// malicious member of the section whose prefix it names.
    fn force_to_rejoin(&mut self, net: &Network, allow_ddos: bool) -> (r: Option<(Prefix, NN)>)
        requires
            old(self).inv(),
            net.wf(),
            net.spec_node_total() <= u32::MAX,
        ensures
            final(self).inv(),
            match r {
                Some(pn) => net.spec_has_malicious_member(pn.0, pn.1),
                None => true,
            },
    ;
}

/// Every section of a network holding at most `u32::MAX` nodes in total
/// is itself at most that big.
proof fn lemma_sections_small(net: Network)
    requires
        net.spec_node_total() <= u32::MAX,
    ensures
        forall|i: int| 0 <= i < net.sections@.len() ==> (#[trigger] net.sections@[i]).1@.len()
            <= u32::MAX,
{
    assert forall|i: int| 0 <= i < net.sections@.len() implies (#[trigger] net.sections@[i]).1@.len()
        <= u32::MAX by {
        net.lemma_section_le_total(i);
    }
}

/// Evict one malicious node from the section a metric entry names: the
/// youngest or the oldest of its malicious members.
fn evict_from_listed(
    net: &Network,
    e: (Prefix, MetricVal),
    Ghost(metric): Ghost<MaliciousMetric>,
    youngest: bool,
) -> (r: Option<(Prefix, NN)>)
    requires
        net.wf(),
        listed_metric(net.sections@, metric, e),
    ensures
        match r {
            Some(pn) => net.spec_has_malicious_member(pn.0, pn.1),
            None => true,
        },
{
    let g = match net.section_with_prefix(e.0) {
        Some(g) => g,
        None => {
            return None;
        },
    };
    proof {
        let i = choose|i: int|
            0 <= i < net.sections@.len() && (#[trigger] net.sections@[i]).0 == e.0 && g@
                == net.sections@[i].1@;
        assert(net.sections@[i].1.wf());
    }
    let list = youngest_nodes(g);
    if list.len() == 0 {
        return None;
    }
    let nd = if youngest {
        (list[0].0, list[0].1)
    } else {
        (list[list.len() - 1].0, list[list.len() - 1].1)
    };
    proof {
        let i = choose|i: int|
            0 <= i < net.sections@.len() && (#[trigger] net.sections@[i]).0 == e.0 && g@
                == net.sections@[i].1@;
        assert(member_of(g@, nd) && nd.1.is_malicious);
        let w = choose|w: int| 0 <= w < g@.len() && (#[trigger] g@[w]) == nd;
        assert(net.sections@[i].1@[w] == nd);
    }
    Some((e.0, nd.0))
}

/// The pair names a malicious member of one of the listed sections.
pub open spec fn listed_malicious(groups: Seq<Section>, pn: (Prefix, NN)) -> bool {
    exists|i: int, v: int|
        #![trigger groups[i].1@[v]]
        {
            &&& 0 <= i < groups.len()
            &&& 0 <= v < groups[i].1@.len()
            &&& groups[i].0 == pn.0
            &&& groups[i].1@[v].0 == pn.1
            &&& groups[i].1@[v].1.is_malicious
        }
}

/// Every malicious node of the network, as (section prefix, name) pairs,
/// in section order; their number is exactly the malicious section total.
pub fn all_malicious_nodes(groups: &Vec<Section>) -> (r: Vec<(Prefix, NN)>)
    ensures
        r@.len() == sections_count(groups@, |nd: Node| nd.1.is_malicious),
        forall|t: int| 0 <= t < r@.len() ==> listed_malicious(groups@, #[trigger] r@[t]),
{
    let ghost fmal = |nd: Node| nd.1.is_malicious;
    let mut r: Vec<(Prefix, NN)> = Vec::new();
    let mut i: usize = 0;
    while i < groups.len()
        invariant
            i <= groups@.len(),
            r@.len() == sections_count(groups@.take(i as int), fmal),
            fmal == (|nd: Node| nd.1.is_malicious),
            forall|t: int| 0 <= t < r@.len() ==> listed_malicious(groups@, #[trigger] r@[t]),
        decreases groups@.len() - i,
    {
        let p = groups[i].0;
        let g = &groups[i].1;
        let n = g.len();
        let mut v: usize = 0;
        while v < n
            invariant
                i < groups@.len(),
                v <= n,
                n == groups@[i as int].1@.len(),
                p == groups@[i as int].0,
                g == &groups@[i as int].1,
                r@.len() == sections_count(groups@.take(i as int), fmal) + count_nodes(
                    groups@[i as int].1@.take(v as int),
                    fmal,
                ),
                fmal == (|nd: Node| nd.1.is_malicious),
                forall|t: int| 0 <= t < r@.len() ==> listed_malicious(groups@, #[trigger] r@[t]),
            decreases n - v,
        {
            proof {
                lemma_count_take_step(groups@[i as int].1@, v as int, fmal);
            }
            let (nm, d) = g.node_at(v);
            if d.is_malicious() {
                let ghost rp = r@;
                r.push((p, nm));
                proof {
                    assert forall|t: int| 0 <= t < r@.len() implies listed_malicious(
                        groups@,
                        #[trigger] r@[t],
                    ) by {
                        if t < rp.len() {
                            assert(r@[t] == rp[t]);
                            assert(listed_malicious(groups@, rp[t]));
                        } else {
                            assert(groups@[i as int].1@[v as int] == (nm, d));
                        }
                    }
                }
            }
            v += 1;
        }
        proof {
            assert(groups@[i as int].1@.take(n as int) =~= groups@[i as int].1@);
            assert(groups@.take(i + 1).drop_last() =~= groups@.take(i as int));
            assert(groups@.take(i + 1).last() == groups@[i as int]);
        }
        i += 1;
    }
    proof {
        assert(groups@.take(groups@.len() as int) =~= groups@);
    }
    r
}



/// The malicious members of a group, sorted by rising age.
pub fn youngest_nodes(group: &Group) -> (r: Vec<Node>)
    requires
        group.wf(),
    ensures
        r@.len() == crate::quorum::mal_count(group@),
        forall|u: int|
            0 <= u < r@.len() ==> member_of(group@, #[trigger] r@[u]) && r@[u].1.is_malicious,
        forall|u: int, v: int|
            0 <= u < v < r@.len() ==> (#[trigger] r@[u]).1.age <= (#[trigger] r@[v]).1.age,
        forall|u: int, v: int|
            0 <= u < v < r@.len() ==> (#[trigger] r@[u]).0 != (#[trigger] r@[v]).0,
{
    let ghost fmal = |nd: Node| nd.1.is_malicious;
    let mut work: Vec<Node> = Vec::new();
    let mut i: usize = 0;
    while i < group.len()
        invariant
            group.wf(),
            i <= group@.len(),
            work@.len() == count_nodes(group@.take(i as int), fmal),
            forall|u: int|
                0 <= u < work@.len() ==> member_of(group@, #[trigger] work@[u])
                    && work@[u].1.is_malicious,
            forall|u: int, w: int|
                #![trigger work@[u], group@[w]]
                0 <= u < work@.len() && i <= w < group@.len() ==> work@[u].0 < group@[w].0,
            forall|u: int, v: int|
                0 <= u < v < work@.len() ==> (#[trigger] work@[u]).0 < (#[trigger] work@[v]).0,
            fmal == (|nd: Node| nd.1.is_malicious),
        decreases group@.len() - i,
    {
        proof {
            lemma_count_take_step(group@, i as int, fmal);
        }
        let (nm, d) = group.node_at(i);
        if d.is_malicious() {
            let ghost wp = work@;
            work.push((nm, d));
            proof {
                assert forall|u: int| 0 <= u < work@.len() implies member_of(
                    group@,
                    #[trigger] work@[u],
                ) && work@[u].1.is_malicious by {
                    if u < wp.len() {
                        assert(work@[u] == wp[u]);
                    } else {
                        assert(group@[i as int] == (nm, d));
                    }
                }
                assert forall|u: int, w: int|
                    #![trigger work@[u], group@[w]]
                    0 <= u < work@.len() && i + 1 <= w < group@.len() implies work@[u].0
                    < group@[w].0 by {
                    if u < wp.len() {
                        assert(work@[u] == wp[u]);
                    } else {
                        assert(work@[u] == group@[i as int]);
                    }
                }
                assert forall|u: int, v: int|
                    0 <= u < v < work@.len() implies (#[trigger] work@[u]).0 < (
                #[trigger] work@[v]).0 by {
                    if v < wp.len() {
                        assert(work@[u] == wp[u] && work@[v] == wp[v]);
                    } else {
                        assert(work@[u] == wp[u] && work@[v] == group@[i as int]);
                    }
                }
            }
        }
        i += 1;
    }
    proof {
        assert(group@.take(group@.len() as int) =~= group@);
    }
    let mut r: Vec<Node> = Vec::new();
    while work.len() > 0
        invariant
            r@.len() + work@.len() == crate::quorum::mal_count(group@),
            forall|u: int|
                0 <= u < work@.len() ==> member_of(group@, #[trigger] work@[u])
                    && work@[u].1.is_malicious,
            forall|u: int|
                0 <= u < r@.len() ==> member_of(group@, #[trigger] r@[u])
                    && r@[u].1.is_malicious,
            forall|u: int, v: int|
                0 <= u < v < r@.len() ==> (#[trigger] r@[u]).1.age <= (#[trigger] r@[v]).1.age,
            forall|u: int, w: int|
                #![trigger r@[u], work@[w]]
                0 <= u < r@.len() && 0 <= w < work@.len() ==> r@[u].1.age <= work@[w].1.age,
            forall|u: int, v: int|
                0 <= u < v < work@.len() ==> (#[trigger] work@[u]).0 != (#[trigger] work@[v]).0,
            forall|u: int, v: int|
                0 <= u < v < r@.len() ==> (#[trigger] r@[u]).0 != (#[trigger] r@[v]).0,
            forall|u: int, w: int|
                #![trigger r@[u], work@[w]]
                0 <= u < r@.len() && 0 <= w < work@.len() ==> r@[u].0 != work@[w].0,
        decreases work@.len(),
    {
        let mut mi: usize = 0;
        let mut j: usize = 1;
        while j < work.len()
            invariant
                work@.len() > 0,
                mi < j <= work@.len(),
                forall|t: int| 0 <= t < j ==> work@[mi as int].1.age <= (#[trigger] work@[t]).1.age,
            decreases work@.len() - j,
        {
            if work[j].1.age() < work[mi].1.age() {
                mi = j;
            }
            j += 1;
        }
        let ghost wp2 = work@;
        let nd = work.remove(mi);
        let ghost rp = r@;
        r.push(nd);
        proof {
            assert forall|u: int|
                0 <= u < work@.len() implies member_of(group@, #[trigger] work@[u])
                && work@[u].1.is_malicious by {
                let ou = if u < mi { u } else { u + 1 };
                assert(member_of(group@, wp2[ou]));
            }
            assert forall|u: int, v: int|
                0 <= u < v < work@.len() implies (#[trigger] work@[u]).0 != (
            #[trigger] work@[v]).0 by {
                let ou = if u < mi { u } else { u + 1 };
                let ov = if v < mi { v } else { v + 1 };
                assert(work@[u] == wp2[ou] && work@[v] == wp2[ov]);
            }
            assert forall|u: int, w: int|
                #![trigger r@[u], work@[w]]
                0 <= u < r@.len() && 0 <= w < work@.len() implies r@[u].0 != work@[w].0 by {
                let ow = if w < mi { w } else { w + 1 };
                assert(work@[w] == wp2[ow]);
                if u < rp.len() {
                    assert(r@[u] == rp[u]);
                } else {
                    assert(r@[u] == wp2[mi as int]);
                }
            }
            assert forall|u: int, v: int|
                0 <= u < v < r@.len() implies (#[trigger] r@[u]).0 != (#[trigger] r@[v]).0 by {
                if v < rp.len() {
                    assert(r@[u] == rp[u] && r@[v] == rp[v]);
                } else {
                    assert(r@[u] == rp[u] && r@[v] == wp2[mi as int]);
                }
            }
        }
    }
    r
}

/// Metrics for measuring how malicious a section is.
#[derive(Clone, Copy, PartialEq, Eq, Structural, Debug)]
pub enum MaliciousMetric {
    /// Absolute number of malicious nodes.
    Absolute,
    /// Fraction of nodes that are malicious.
    NodeFraction,
    /// Fraction of nodes that are malicious, weighted by their age.
    AgeFraction,
}

/// A metric value as an exact fraction; a denominator of zero carries no
/// weight and is never selected.
#[derive(Clone, Copy, PartialEq, Eq, Structural, Debug)]
pub struct MetricVal {
    /// Numerator.
    pub num: u64,
    /// Denominator.
    pub den: u64,
}

impl MaliciousMetric {
    /// The numerator of the metric on a snapshot.
    pub open spec fn spec_num(self, g: Seq<Node>) -> nat {
        match self {
            MaliciousMetric::Absolute => crate::quorum::mal_count(g),
            MaliciousMetric::NodeFraction => crate::quorum::mal_count(g),
            MaliciousMetric::AgeFraction => crate::quorum::mal_age_sum(g),
        }
    }

    /// The denominator of the metric on a snapshot.
    pub open spec fn spec_den(self, g: Seq<Node>) -> nat {
        match self {
            MaliciousMetric::Absolute => 1,
            MaliciousMetric::NodeFraction => g.len(),
            MaliciousMetric::AgeFraction => crate::quorum::age_sum(g),
        }
    }

    /// Calculate the metric on a group, as an exact fraction.
    pub fn calculate(&self, group: &Group) -> (r: MetricVal)
        requires
            group@.len() <= u32::MAX,
        ensures
            r.num == self.spec_num(group@),
            r.den == self.spec_den(group@),
    {
        proof {
            lemma_count_le_len(group@, |nd: Node| nd.1.is_malicious);
            crate::quorum::lemma_age_sums_bounded(group@);
            assert(group@.len() * (u32::MAX as nat) < 0xffff_ffff_ffff_ffffu64) by (
            nonlinear_arith)
                requires
                    group@.len() <= u32::MAX,
            ;
        }
        match self {
            MaliciousMetric::Absolute => MetricVal { num: group.count_malicious() as u64, den: 1 },
            MaliciousMetric::NodeFraction => MetricVal {
                num: group.count_malicious() as u64,
                den: group.len() as u64,
            },
            MaliciousMetric::AgeFraction => MetricVal {
                num: group.sum_age_malicious() as u64,
                den: group.sum_age() as u64,
            },
        }
    }
}

/// `a` is a strictly smaller fraction than `b`, compared exactly.
pub open spec fn spec_metric_lt(a: MetricVal, b: MetricVal) -> bool {
    a.num * b.den < b.num * a.den
}

fn metric_lt(a: MetricVal, b: MetricVal) -> (r: bool)
    ensures
        r == spec_metric_lt(a, b),
{
    proof {
        assert((a.num as u128) * (b.den as u128) <= u128::MAX && (b.num as u128) * (
        a.den as u128) <= u128::MAX) by (nonlinear_arith)
            requires
                a.num <= u64::MAX && a.den <= u64::MAX && b.num <= u64::MAX && b.den
                    <= u64::MAX,
        ;
    }
    (a.num as u128) * (b.den as u128) < (b.num as u128) * (a.den as u128)
}

/// If `m` is at least `t` and strictly below `j`, then `j` is at least
/// `t`: the exact fraction order is transitive for positive denominators.
proof fn lemma_metric_order_trans(m: MetricVal, j: MetricVal, t: MetricVal)
    by (nonlinear_arith)
    requires
        m.den > 0,
        j.den > 0,
        t.den > 0,
        m.num * t.den >= t.num * m.den,
        m.num * j.den < j.num * m.den,
    ensures
        j.num * t.den >= t.num * j.den,
{
}

/// The entry records section `i`'s prefix and exact metric value.
pub open spec fn records_section(
    groups: Seq<Section>,
    metric: MaliciousMetric,
    i: int,
    e: (Prefix, MetricVal),
) -> bool {
    &&& e.0 == groups[i].0
    &&& e.1.num == metric.spec_num(groups[i].1@)
    &&& e.1.den == metric.spec_den(groups[i].1@)
}

/// The entry records the exact metric of one of the listed sections, and
/// that section has a strictly positive metric.
pub open spec fn listed_metric(
    groups: Seq<Section>,
    metric: MaliciousMetric,
    e: (Prefix, MetricVal),
) -> bool {
    &&& e.1.num > 0
    &&& e.1.den > 0
    &&& exists|i: int|
        {
            &&& 0 <= i < groups.len()
            &&& (#[trigger] groups[i]).0 == e.0
            &&& e.1.num == metric.spec_num(groups[i].1@)
            &&& e.1.den == metric.spec_den(groups[i].1@)
        }
}

/// The sections on which the metric is strictly positive, with their
/// exact metric values, in section order.
pub fn malicious_groups(groups: &Vec<Section>, metric: MaliciousMetric) -> (r: Vec<
    (Prefix, MetricVal),
>)
    requires
        forall|i: int| 0 <= i < groups@.len() ==> (#[trigger] groups@[i]).1@.len() <= u32::MAX,
    ensures
        forall|t: int| 0 <= t < r@.len() ==> listed_metric(groups@, metric, #[trigger] r@[t]),
        forall|i: int|
            0 <= i < groups@.len() && metric.spec_num((#[trigger] groups@[i]).1@) > 0
                ==> exists|t: int|
                0 <= t < r@.len() && records_section(groups@, metric, i, #[trigger] r@[t]),
{
    let mut r: Vec<(Prefix, MetricVal)> = Vec::new();
    let mut i: usize = 0;
    while i < groups.len()
        invariant
            i <= groups@.len(),
            forall|w: int| 0 <= w < groups@.len() ==> (#[trigger] groups@[w]).1@.len()
                <= u32::MAX,
            forall|t: int| 0 <= t < r@.len() ==> listed_metric(groups@, metric, #[trigger] r@[t]),
            forall|w: int|
                0 <= w < i && metric.spec_num((#[trigger] groups@[w]).1@) > 0 ==> exists|t: int|
                    0 <= t < r@.len() && records_section(groups@, metric, w, #[trigger] r@[t]),
        decreases groups@.len() - i,
    {
        let mal = metric.calculate(&groups[i].1);
        let ghost rp0 = r@;
        if mal.num > 0 {
            let ghost rp = r@;
            r.push((groups[i].0, mal));
            proof {
                lemma_count_le_len(groups@[i as int].1@, |nd: Node| nd.1.is_malicious);
                crate::quorum::lemma_age_sums_bounded(groups@[i as int].1@);
                assert forall|t: int| 0 <= t < r@.len() implies listed_metric(
                    groups@,
                    metric,
                    #[trigger] r@[t],
                ) by {
                    if t < rp.len() {
                        assert(r@[t] == rp[t]);
                        assert(listed_metric(groups@, metric, rp[t]));
                    } else {
                        assert(groups@[i as int].0 == r@[t].0);
                    }
                }
            }
        }
        proof {
            assert forall|w: int|
                0 <= w < i + 1 && metric.spec_num((#[trigger] groups@[w]).1@) > 0 implies exists|
                t: int,
            |
                0 <= t < r@.len() && records_section(groups@, metric, w, #[trigger] r@[t]) by {
                if w < i {
                    let t = choose|t: int|
                        0 <= t < rp0.len() && records_section(groups@, metric, w, #[trigger] rp0[t]);
                    assert(records_section(groups@, metric, w, r@[t]));
                } else {
                    assert(records_section(groups@, metric, w, r@[r@.len() - 1]));
                }
            }
        }
        i += 1;
    }
    r
}

/// The positive-metric sections, sorted by falling metric value.
pub fn most_malicious_groups(groups: &Vec<Section>, metric: MaliciousMetric) -> (r: Vec<
    (Prefix, MetricVal),
>)
    requires
        forall|i: int| 0 <= i < groups@.len() ==> (#[trigger] groups@[i]).1@.len() <= u32::MAX,
    ensures
        forall|t: int| 0 <= t < r@.len() ==> listed_metric(groups@, metric, #[trigger] r@[t]),
        forall|u: int, v: int|
            0 <= u < v < r@.len() ==> !spec_metric_lt(#[trigger] r@[u].1, #[trigger] r@[v].1),
        forall|i: int|
            0 <= i < groups@.len() && metric.spec_num((#[trigger] groups@[i]).1@) > 0
                ==> exists|t: int|
                0 <= t < r@.len() && records_section(groups@, metric, i, #[trigger] r@[t]),
{
    let mut work = malicious_groups(groups, metric);
    let mut r: Vec<(Prefix, MetricVal)> = Vec::new();
    while work.len() > 0
        invariant
            forall|t: int| 0 <= t < work@.len() ==> listed_metric(
                groups@,
                metric,
                #[trigger] work@[t],
            ),
            forall|t: int| 0 <= t < r@.len() ==> listed_metric(groups@, metric, #[trigger] r@[t]),
            forall|u: int, v: int|
                0 <= u < v < r@.len() ==> !spec_metric_lt(#[trigger] r@[u].1, #[trigger] r@[v].1),
            forall|u: int, w: int|
                #![trigger r@[u], work@[w]]
                0 <= u < r@.len() && 0 <= w < work@.len() ==> !spec_metric_lt(
                    r@[u].1,
                    work@[w].1,
                ),
            forall|i: int|
                0 <= i < groups@.len() && metric.spec_num((#[trigger] groups@[i]).1@) > 0
                    ==> (exists|t: int|
                    0 <= t < r@.len() && records_section(groups@, metric, i, #[trigger] r@[t]))
                    || (exists|t: int|
                    0 <= t < work@.len() && records_section(
                        groups@,
                        metric,
                        i,
                        #[trigger] work@[t],
                    )),
        decreases work@.len(),
    {
        let mut mi: usize = 0;
        let mut j: usize = 1;
        while j < work.len()
            invariant
                work@.len() > 0,
                mi < j <= work@.len(),
                forall|t: int| 0 <= t < work@.len() ==> listed_metric(
                    groups@,
                    metric,
                    #[trigger] work@[t],
                ),
                forall|t: int| 0 <= t < j ==> !spec_metric_lt(
                    work@[mi as int].1,
                    (#[trigger] work@[t]).1,
                ),
            decreases work@.len() - j,
        {
            if metric_lt(work[mi].1, work[j].1) {
                proof {
                    assert forall|t: int| 0 <= t < j + 1 implies !spec_metric_lt(
                        work@[j as int].1,
                        (#[trigger] work@[t]).1,
                    ) by {
                        if t < j {
                            lemma_metric_order_trans(
                                work@[mi as int].1,
                                work@[j as int].1,
                                work@[t].1,
                            );
                        }
                    }
                }
                mi = j;
            }
            j += 1;
        }
        let ghost wp2 = work@;
        let e = work.remove(mi);
        let ghost rp = r@;
        r.push(e);
        proof {
            assert forall|t: int| 0 <= t < work@.len() implies listed_metric(
                groups@,
                metric,
                #[trigger] work@[t],
            ) by {
                let ot = if t < mi { t } else { t + 1 };
                assert(listed_metric(groups@, metric, wp2[ot]));
            }
            assert forall|i: int|
                0 <= i < groups@.len() && metric.spec_num((#[trigger] groups@[i]).1@)
                    > 0 implies (exists|t: int|
                0 <= t < r@.len() && records_section(groups@, metric, i, #[trigger] r@[t])) || (
            exists|t: int|
                0 <= t < work@.len() && records_section(groups@, metric, i, #[trigger] work@[t])
            ) by {
                if exists|t: int|
                    0 <= t < rp.len() && records_section(groups@, metric, i, #[trigger] rp[t]) {
                    let t = choose|t: int|
                        0 <= t < rp.len() && records_section(groups@, metric, i, #[trigger] rp[t]);
                    assert(records_section(groups@, metric, i, r@[t]));
                } else {
                    let t = choose|t: int|
                        0 <= t < wp2.len() && records_section(
                            groups@,
                            metric,
                            i,
                            #[trigger] wp2[t],
                        );
                    if t == mi {
                        assert(records_section(groups@, metric, i, r@[r@.len() - 1]));
                    } else {
                        let nt = if t < mi { t } else { t - 1 };
                        assert(records_section(groups@, metric, i, work@[nt]));
                    }
                }
            }
        }
    }
    r
}

/// Untargetted attack: force a uniformly random malicious node to rejoin.
pub struct Random {
}

impl AttackStrategy for Random {
    fn create(_args: &ToolArgs) -> Self {
        Random {  }
    }

    fn on_split(&mut self, _old_prefix: Prefix, _new_prefix: Prefix, _name: NN, _data: &NodeData) {
    }

    fn reset_on_new_name(&mut self, _net: &Network, _new_name: NN, _data: &NodeData) -> bool {
        false
    }

    fn force_to_rejoin(&mut self, net: &Network, _allow_ddos: bool) -> (r: Option<(Prefix, NN)>)
        ensures
            r is None <==> sections_count(net.sections@, |nd: Node| nd.1.is_malicious) == 0,
    {
        let malicious_nodes = all_malicious_nodes(net.groups());
        if malicious_nodes.len() == 0 {
            return None;
        }
        let i = random_index(malicious_nodes.len());
        let pn = (malicious_nodes[i].0, malicious_nodes[i].1);
        proof {
            assert(listed_malicious(net.sections@, malicious_nodes@[i as int]));
            let (w, vv) = choose|w: int, vv: int|
                #![trigger net.sections@[w].1@[vv]]
                {
                    &&& 0 <= w < net.sections@.len()
                    &&& 0 <= vv < net.sections@[w].1@.len()
                    &&& net.sections@[w].0 == malicious_nodes@[i as int].0
                    &&& net.sections@[w].1@[vv].0 == malicious_nodes@[i as int].1
                    &&& net.sections@[w].1@[vv].1.is_malicious
                };
            assert(net.sections@[w].1@[vv].1.is_malicious);
        }
        Some(pn)
    }
}

/// Attack which evicts nodes of a chosen age band from the most
/// malicious sections, hoping to reseat them nearby with more weight.
pub struct NewAttack {
    /// Minimum age at which to kick a node.
    pub age_min: u32,
    /// Maximum age at which to kick a node.
    pub age_max: u32,
}

impl AttackStrategy for NewAttack {
    fn create(_args: &ToolArgs) -> Self {
        NewAttack { age_min: 3, age_max: 4 }
    }

    fn on_split(&mut self, _old_prefix: Prefix, _new_prefix: Prefix, _name: NN, _data: &NodeData) {
    }

    fn reset_on_new_name(&mut self, _net: &Network, _new_name: NN, _data: &NodeData) -> bool {
        false
    }

    fn force_to_rejoin(&mut self, net: &Network, _allow_ddos: bool) -> (r: Option<(Prefix, NN)>) {
        proof {
            lemma_sections_small(*net);
        }
        let most_isolated = most_malicious_groups(net.groups(), MaliciousMetric::Absolute);
        let half = most_isolated.len() / 2;
        let mut t: usize = 0;
        while t < half
            invariant
                half <= most_isolated@.len(),
                net.wf(),
                forall|w: int| 0 <= w < most_isolated@.len() ==> listed_metric(
                    net.sections@,
                    MaliciousMetric::Absolute,
                    #[trigger] most_isolated@[w],
                ),
            decreases half - t,
        {
            let e = (most_isolated[t].0, most_isolated[t].1);
            let g = match net.section_with_prefix(e.0) {
                Some(g) => g,
                None => {
                    t += 1;
                    continue ;
                },
            };
            proof {
                let i = choose|i: int|
                    0 <= i < net.sections@.len() && (#[trigger] net.sections@[i]).0 == e.0 && g@
                        == net.sections@[i].1@;
                assert(net.sections@[i].1.wf());
            }
            let nodes = youngest_nodes(g);
            let mut v: usize = 0;
            while v < nodes.len()
                invariant
                    net.wf(),
                    exists|i: int|
                        0 <= i < net.sections@.len() && (#[trigger] net.sections@[i]).0 == e.0
                            && g@ == net.sections@[i].1@,
                    forall|u: int|
                        0 <= u < nodes@.len() ==> member_of(g@, #[trigger] nodes@[u])
                            && nodes@[u].1.is_malicious,
                decreases nodes@.len() - v,
            {
                let nd = (nodes[v].0, nodes[v].1);
                if nd.1.age() >= self.age_min && nd.1.age() <= self.age_max {
                    proof {
                        let i = choose|i: int|
                            0 <= i < net.sections@.len() && (#[trigger] net.sections@[i]).0 == e.0
                                && g@ == net.sections@[i].1@;
                        let w = choose|w: int| 0 <= w < g@.len() && (#[trigger] g@[w]) == nd;
                        assert(net.sections@[i].1@[w] == nd);
                    }
                    return Some((e.0, nd.0));
                }
                v += 1;
            }
            t += 1;
        }
        None
    }
}

/// Evict the oldest malicious node of the group ranked last among the
/// age-weighted most malicious sections.
pub struct OldestFromWorstGroup {
}

impl AttackStrategy for OldestFromWorstGroup {
    fn create(_args: &ToolArgs) -> Self {
        OldestFromWorstGroup {  }
    }

    fn on_split(&mut self, _old_prefix: Prefix, _new_prefix: Prefix, _name: NN, _data: &NodeData) {
    }

    fn reset_on_new_name(&mut self, _net: &Network, _new_name: NN, _data: &NodeData) -> bool {
        false
    }

    fn force_to_rejoin(&mut self, net: &Network, _allow_ddos: bool) -> (r: Option<(Prefix, NN)>) {
        proof {
            lemma_sections_small(*net);
        }
        let most_malicious = most_malicious_groups(net.groups(), MaliciousMetric::AgeFraction);
        if most_malicious.len() == 0 {
            return None;
        }
        let e = (most_malicious[most_malicious.len() - 1].0, most_malicious[most_malicious.len()
            - 1].1);
        evict_from_listed(net, e, Ghost(MaliciousMetric::AgeFraction), false)
    }
}

/// Evict the youngest malicious node of the group ranked last among the
/// age-weighted most malicious sections.
pub struct YoungestFromWorstGroup {
}

impl AttackStrategy for YoungestFromWorstGroup {
    fn create(_args: &ToolArgs) -> Self {
        YoungestFromWorstGroup {  }
    }

    fn on_split(&mut self, _old_prefix: Prefix, _new_prefix: Prefix, _name: NN, _data: &NodeData) {
    }

    fn reset_on_new_name(&mut self, _net: &Network, _new_name: NN, _data: &NodeData) -> bool {
        false
    }

    fn force_to_rejoin(&mut self, net: &Network, _allow_ddos: bool) -> (r: Option<(Prefix, NN)>) {
        proof {
            lemma_sections_small(*net);
        }
        let most_malicious = most_malicious_groups(net.groups(), MaliciousMetric::AgeFraction);
        if most_malicious.len() == 0 {
            return None;
        }
        let e = (most_malicious[most_malicious.len() - 1].0, most_malicious[most_malicious.len()
            - 1].1);
        evict_from_listed(net, e, Ghost(MaliciousMetric::AgeFraction), true)
    }
}

/// The untargetted attack under the name the sweep driver selects it by:
/// force a uniformly random malicious node to rejoin.
pub struct UntargettedAttack {
}

impl AttackStrategy for UntargettedAttack {
    fn create(_args: &ToolArgs) -> Self {
        UntargettedAttack {  }
    }

    fn on_split(&mut self, _old_prefix: Prefix, _new_prefix: Prefix, _name: NN, _data: &NodeData) {
    }

    fn reset_on_new_name(&mut self, _net: &Network, _new_name: NN, _data: &NodeData) -> bool {
        false
    }

    fn force_to_rejoin(&mut self, net: &Network, _allow_ddos: bool) -> (r: Option<(Prefix, NN)>)
        ensures
            r is None <==> sections_count(net.sections@, |nd: Node| nd.1.is_malicious) == 0,
    {
        let malicious_nodes = all_malicious_nodes(net.groups());
        if malicious_nodes.len() == 0 {
            return None;
        }
        let i = random_index(malicious_nodes.len());
        let pn = (malicious_nodes[i].0, malicious_nodes[i].1);
        proof {
            assert(listed_malicious(net.sections@, malicious_nodes@[i as int]));
            let (w, vv) = choose|w: int, vv: int|
                #![trigger net.sections@[w].1@[vv]]
                {
                    &&& 0 <= w < net.sections@.len()
                    &&& 0 <= vv < net.sections@[w].1@.len()
                    &&& net.sections@[w].0 == malicious_nodes@[i as int].0
                    &&& net.sections@[w].1@[vv].0 == malicious_nodes@[i as int].1
                    &&& net.sections@[w].1@[vv].1.is_malicious
                };
            assert(net.sections@[w].1@[vv].1.is_malicious);
        }
        Some(pn)
    }
}

/// Naive targetting: fix the first section a malicious node lands in,
/// reset every later malicious arrival outside that target, and follow
/// the target when its section splits.
pub struct SimpleTargettedAttack {
    /// The section the attacker is concentrating on, once chosen.
    pub target: Option<Prefix>,
}

impl AttackStrategy for SimpleTargettedAttack {
    open spec fn inv(&self) -> bool {
        match self.target {
            Some(t) => t.wf(),
            None => true,
        }
    }

    fn create(_args: &ToolArgs) -> Self {
        SimpleTargettedAttack { target: None }
    }

    fn on_split(&mut self, old_prefix: Prefix, new_prefix: Prefix, _name: NN, _data: &NodeData)
        ensures
            final(self).target == (if old(self).target == Some(old_prefix) {
                Some(new_prefix)
            } else {
                old(self).target
            }),
    {
        let follow = match &self.target {
            Some(t) => *t == old_prefix,
            None => false,
        };
        if follow {
            self.target = Some(new_prefix);
        }
    }

    fn reset_on_new_name(&mut self, net: &Network, new_name: NN, data: &NodeData) -> (r: bool)
        ensures
            !data.is_malicious ==> !r && *final(self) == *old(self),
            data.is_malicious && old(self).target is None ==> !r && final(self).target is Some,
            (data.is_malicious && old(self).target is Some) ==> (*final(self) == *old(self) && r
                == !old(self).target.unwrap().spec_matches(new_name)),
    {
        if !data.is_malicious() {
            return false;
        }
        let t = match &self.target {
            Some(t) => *t,
            None => {
                self.target = Some(net.find_prefix(new_name));
                return false;
            },
        };
        !t.matches(new_name)
    }

    fn force_to_rejoin(&mut self, _net: &Network, _allow_ddos: bool) -> (r: Option<(Prefix, NN)>) {
        None
    }
}

} // verus!
