//! Observer hooks: time-series accumulated while a simulation runs, one
//! update per network mutation. Writing the series out is the caller's
//! concern.

use vstd::prelude::*;

verus! {

use crate::node::Node;
use crate::net::{Network, Section, sections_count, lemma_count_true_is_len, lemma_count_le_len};
use crate::attack::{MaliciousMetric, MetricVal, most_malicious_groups, records_section,
    spec_metric_lt};
use crate::prob::Ratio;

/// One time series: paired step numbers and values, with the metadata a
/// writer needs.
#[derive(Clone, Debug)]
pub struct Data<T> {
    /// The series' name.
    pub name: String,
    /// Which axis a plot should use.
    pub yaxis: String,
    /// Whether the series should be written out at the end of the run.
    pub write_out: bool,
    /// The step numbers.
    pub x: Vec<usize>,
    /// The values.
    pub y: Vec<T>,
}

impl<T> Data<T> {
    /// A fresh, empty series.
    pub fn new(name: String, yaxis: String, write_out: bool) -> (r: Data<T>)
        ensures
            r.x@.len() == 0,
            r.y@.len() == 0,
            r.write_out == write_out,
    {
        Data { name, yaxis, write_out, x: Vec::new(), y: Vec::new() }
    }

    /// Append one point.
    pub fn add_point(&mut self, x: usize, y: T)
        ensures
            final(self).x@ == old(self).x@.push(x),
            final(self).y@ == old(self).y@.push(y),
            final(self).name == old(self).name,
            final(self).yaxis == old(self).yaxis,
            final(self).write_out == old(self).write_out,
    {
        self.x.push(x);
        self.y.push(y);
    }
}

/// The ages of the malicious members of one section snapshot, in member
/// order.
pub open spec fn ages_of_malicious(s: Seq<Node>) -> Seq<u32>
    decreases s.len(),
{
    if s.len() == 0 {
        Seq::empty()
    } else if s.last().1.is_malicious {
        ages_of_malicious(s.drop_last()).push(s.last().1.age)
    } else {
        ages_of_malicious(s.drop_last())
    }
}

/// The ages of every malicious member over all sections, section by
/// section.
pub open spec fn mal_ages(ss: Seq<Section>) -> Seq<u32>
    decreases ss.len(),
{
    if ss.len() == 0 {
        Seq::empty()
    } else {
        mal_ages(ss.drop_last()) + ages_of_malicious(ss.last().1@)
    }
}

/// The sizes of the sections, in section order.
pub open spec fn section_sizes_of(ss: Seq<Section>) -> Seq<usize> {
    Seq::new(ss.len(), |i: int| ss[i].1@.len() as usize)
}

/// The value is the exact metric of some listed section, maximal among
/// the positive ones — or the empty zero value where no section has a
/// positive metric.
pub open spec fn is_top_metric(ss: Seq<Section>, metric: MaliciousMetric, v: MetricVal) -> bool {
    if forall|i: int| 0 <= i < ss.len() ==> metric.spec_num((#[trigger] ss[i]).1@) == 0 {
        v == (MetricVal { num: 0u64, den: 0u64 })
    } else {
        exists|i: int|
            {
                &&& 0 <= i < ss.len()
                &&& v.num == metric.spec_num((#[trigger] ss[i]).1@)
                &&& v.den == metric.spec_den(ss[i].1@)
                &&& v.num > 0
                &&& forall|j: int|
                    0 <= j < ss.len() && metric.spec_num((#[trigger] ss[j]).1@) > 0 ==> v.num
                        * metric.spec_den(ss[j].1@) >= metric.spec_num(ss[j].1@) * v.den
            }
    }
}

/// The time series recorded over one replication.
pub struct Metadata {
    /// The current step number; saturates rather than wrapping.
    pub step_num: usize,
    /// Number of sections per step.
    pub num_sections: Data<usize>,
    /// Number of nodes per step.
    pub num_nodes: Data<usize>,
    /// Number of malicious nodes per step.
    pub num_malicious: Data<usize>,
    /// The largest malicious node-count fraction over the sections.
    pub most_malicious_count: Data<MetricVal>,
    /// The age-weighted malicious fraction of that same section.
    pub most_malicious_age: Data<MetricVal>,
    /// The age of every malicious node, per step.
    pub node_ages: Data<u32>,
    /// The size of every section, per step.
    pub section_sizes: Data<usize>,
    /// Data-corruption fraction per step.
    pub corrupt_data: Data<Ratio>,
    /// Double-vote probability per step.
    pub double_vote: Data<Ratio>,
    /// Whether recording is on at all.
    pub enabled: bool,
}

impl Metadata {
    /// Fresh, empty series.
    pub fn new(enabled: bool) -> (r: Metadata)
        ensures
            r.enabled == enabled,
            r.step_num == 0,
    {
        Metadata {
            step_num: 0,
            num_sections: Data::new(String::new(), String::new(), enabled),
            num_nodes: Data::new(String::new(), String::new(), enabled),
            num_malicious: Data::new(String::new(), String::new(), enabled),
            most_malicious_count: Data::new(String::new(), String::new(), enabled),
            most_malicious_age: Data::new(String::new(), String::new(), enabled),
            node_ages: Data::new(String::new(), String::new(), enabled),
            section_sizes: Data::new(String::new(), String::new(), enabled),
            corrupt_data: Data::new(String::new(), String::new(), enabled),
            double_vote: Data::new(String::new(), String::new(), enabled),
            enabled,
        }
    }

    /// Record one step: the section count, the node and malicious-node
    /// totals, the most-malicious fractions, every malicious node's age,
    /// every section's size, and the step's double-vote and corruption
    /// estimates. Disabled recording changes nothing.
    pub fn update(&mut self, net: &Network, double_vote_prob: Ratio, corrupt_fraction: Ratio)
        requires
            net.wf(),
            net.spec_node_total() <= u32::MAX,
        ensures
            final(self).enabled == old(self).enabled,
            !old(self).enabled ==> *final(self) == *old(self),
            old(self).enabled ==> {
                let step = old(self).step_num;
                &&& final(self).step_num == (if step < usize::MAX {
                    step + 1
                } else {
                    step as int
                })
                &&& final(self).num_sections.y@ == old(self).num_sections.y@.push(
                    net.sections@.len() as usize,
                )
                &&& final(self).num_nodes.y@ == old(self).num_nodes.y@.push(
                    sections_count(net.sections@, |nd: Node| true) as usize,
                )
                &&& final(self).num_malicious.y@ == old(self).num_malicious.y@.push(
                    sections_count(net.sections@, |nd: Node| nd.1.is_malicious) as usize,
                )
                &&& is_top_metric(
                    net.sections@,
                    MaliciousMetric::NodeFraction,
                    final(self).most_malicious_count.y@.last(),
                )
                &&& final(self).most_malicious_count.y@.len() == old(
                    self,
                ).most_malicious_count.y@.len() + 1
                &&& final(self).most_malicious_age.y@.len() == old(
                    self,
                ).most_malicious_age.y@.len() + 1
                &&& final(self).node_ages.y@ == old(self).node_ages.y@ + mal_ages(net.sections@)
                &&& final(self).section_sizes.y@ == old(self).section_sizes.y@ + section_sizes_of(
                    net.sections@,
                )
                &&& final(self).corrupt_data.y@ == old(self).corrupt_data.y@.push(
                    corrupt_fraction,
                )
                &&& final(self).double_vote.y@ == old(self).double_vote.y@.push(double_vote_prob)
            },
    {
        if !self.enabled {
            return;
        }
        let groups = net.groups();
        let mut nodes: usize = 0;
        let mut malicious: usize = 0;
        let mut i: usize = 0;
        let ghost fall = |nd: Node| true;
        let ghost fmal = |nd: Node| nd.1.is_malicious;
        let ghost base_ages = self.node_ages.y@;
        let ghost base_sizes = self.section_sizes.y@;
        while i < groups.len()
            invariant
                i <= groups@.len(),
                nodes == sections_count(groups@.take(i as int), fall),
                malicious == sections_count(groups@.take(i as int), fmal),
                malicious <= nodes,
                sections_count(groups@, fall) <= usize::MAX,
                groups@ == net.sections@,
                net.wf(),
                self.enabled,
                *self == *old(self),
                fall == (|nd: Node| true),
                fmal == (|nd: Node| nd.1.is_malicious),
            decreases groups@.len() - i,
        {
            proof {
                assert(groups@.take(i + 1).drop_last() =~= groups@.take(i as int));
                assert(groups@.take(i + 1).last() == groups@[i as int]);
                crate::net::lemma_count_le_len(groups@[i as int].1@, fmal);
                lemma_count_true_is_len(groups@[i as int].1@);
                lemma_sections_take_le(groups@, i + 1, fall);
            }
            nodes = nodes + groups[i].1.len();
            malicious = malicious + groups[i].1.count_malicious();
            i += 1;
        }
        proof {
            assert(groups@.take(groups@.len() as int) =~= groups@);
        }
        // The most malicious section by node fraction, and its
        // age-weighted fraction.
        proof {
            assert forall|w: int| 0 <= w < net.sections@.len() implies (#[trigger] net.sections@[w]).1@.len()
                <= u32::MAX by {
                net.lemma_section_le_total(w);
            }
        }
        let mm = most_malicious_groups(net.groups(), MaliciousMetric::NodeFraction);
        let (top_count, top_age) = if mm.len() == 0 {
            proof {
                assert forall|w: int|
                    0 <= w < net.sections@.len() implies MaliciousMetric::NodeFraction.spec_num(
                    (#[trigger] net.sections@[w]).1@) == 0 by {
                    if MaliciousMetric::NodeFraction.spec_num(net.sections@[w].1@) > 0 {
                        let t = choose|t: int|
                            0 <= t < mm@.len() && records_section(
                                net.sections@,
                                MaliciousMetric::NodeFraction,
                                w,
                                #[trigger] mm@[t],
                            );
                    }
                }
            }
            (MetricVal { num: 0, den: 0 }, MetricVal { num: 0, den: 0 })
        } else {
            let e = (mm[0].0, mm[0].1);
            let g = match net.section_with_prefix(e.0) {
                Some(g) => g,
                None => {
                    proof {
                        let i = choose|i: int|
                            {
                                &&& 0 <= i < net.sections@.len()
                                &&& (#[trigger] net.sections@[i]).0 == e.0
                                &&& e.1.num == MaliciousMetric::NodeFraction.spec_num(
                                    net.sections@[i].1@,
                                )
                                &&& e.1.den == MaliciousMetric::NodeFraction.spec_den(
                                    net.sections@[i].1@,
                                )
                            };
                        assert(false);
                    }
                    return ;
                },
            };
            proof {
                let i = choose|i: int|
                    0 <= i < net.sections@.len() && (#[trigger] net.sections@[i]).0 == e.0 && g@
                        == net.sections@[i].1@;
                net.lemma_section_le_total(i);
                // The head of the sorted listing dominates every positive
                // metric: completeness lists them all, order bounds them.
                assert forall|j: int|
                    0 <= j < net.sections@.len() && MaliciousMetric::NodeFraction.spec_num(
                        (#[trigger] net.sections@[j]).1@,
                    ) > 0 implies e.1.num * MaliciousMetric::NodeFraction.spec_den(
                    net.sections@[j].1@) >= MaliciousMetric::NodeFraction.spec_num(
                    net.sections@[j].1@) * e.1.den by {
                    let t = choose|t: int|
                        0 <= t < mm@.len() && records_section(
                            net.sections@,
                            MaliciousMetric::NodeFraction,
                            j,
                            #[trigger] mm@[t],
                        );
                    if t > 0 {
                        assert(!spec_metric_lt(mm@[0].1, mm@[t].1));
                    }
                }
            }
            let av = MaliciousMetric::AgeFraction.calculate(g);
            (mm[0].1, av)
        };
        self.num_sections.add_point(self.step_num, groups.len());
        self.num_nodes.add_point(self.step_num, nodes);
        self.num_malicious.add_point(self.step_num, malicious);
        self.most_malicious_count.add_point(self.step_num, top_count);
        self.most_malicious_age.add_point(self.step_num, top_age);
        // Every malicious node's age and every section's size.
        let mut w: usize = 0;
        while w < groups.len()
            invariant
                w <= groups@.len(),
                groups@ == net.sections@,
                net.wf(),
                self.enabled,
                self.node_ages.y@ == base_ages + mal_ages(groups@.take(w as int)),
                self.section_sizes.y@ == base_sizes + section_sizes_of(groups@.take(w as int)),
                self.step_num == old(self).step_num,
                self.num_sections.y@ == old(self).num_sections.y@.push(
                    net.sections@.len() as usize,
                ),
                self.num_nodes.y@ == old(self).num_nodes.y@.push(nodes),
                self.num_malicious.y@ == old(self).num_malicious.y@.push(malicious),
                self.most_malicious_count.y@ == old(self).most_malicious_count.y@.push(top_count),
                self.most_malicious_age.y@ == old(self).most_malicious_age.y@.push(top_age),
                self.corrupt_data == old(self).corrupt_data,
                self.double_vote == old(self).double_vote,
            decreases groups@.len() - w,
        {
            let g = &groups[w].1;
            let n2 = g.len();
            let ghost secv = g@;
            let mut v: usize = 0;
            while v < n2
                invariant
                    v <= n2,
                    n2 == secv.len(),
                    g@ == secv,
                    self.enabled,
                    self.node_ages.y@ == base_ages + mal_ages(groups@.take(w as int))
                        + ages_of_malicious(secv.take(v as int)),
                    self.section_sizes.y@ == base_sizes + section_sizes_of(
                        groups@.take(w as int),
                    ),
                    self.step_num == old(self).step_num,
                    self.num_sections.y@ == old(self).num_sections.y@.push(
                        net.sections@.len() as usize,
                    ),
                    self.num_nodes.y@ == old(self).num_nodes.y@.push(nodes),
                    self.num_malicious.y@ == old(self).num_malicious.y@.push(malicious),
                    self.most_malicious_count.y@ == old(self).most_malicious_count.y@.push(
                        top_count,
                    ),
                    self.most_malicious_age.y@ == old(self).most_malicious_age.y@.push(top_age),
                    self.corrupt_data == old(self).corrupt_data,
                    self.double_vote == old(self).double_vote,
                decreases n2 - v,
            {
                proof {
                    assert(secv.take(v + 1).drop_last() =~= secv.take(v as int));
                    assert(secv.take(v + 1).last() == secv[v as int]);
                }
                let (_, d) = g.node_at(v);
                if d.is_malicious() {
                    self.node_ages.add_point(self.step_num, d.age());
                    proof {
                        assert(self.node_ages.y@ =~= base_ages + mal_ages(groups@.take(w as int))
                            + ages_of_malicious(secv.take(v + 1)));
                    }
                } else {
                    proof {
                        assert(ages_of_malicious(secv.take(v + 1)) =~= ages_of_malicious(
                            secv.take(v as int),
                        ));
                    }
                }
                v += 1;
            }
            self.section_sizes.add_point(self.step_num, g.len());
            proof {
                assert(secv.take(n2 as int) =~= secv);
                assert(groups@.take(w + 1).drop_last() =~= groups@.take(w as int));
                assert(groups@.take(w + 1).last() == groups@[w as int]);
                assert(self.node_ages.y@ =~= base_ages + mal_ages(groups@.take(w + 1)));
                assert(self.section_sizes.y@ =~= base_sizes + section_sizes_of(groups@.take(w
                    + 1)));
            }
            w += 1;
        }
        proof {
            assert(groups@.take(groups@.len() as int) =~= groups@);
        }
        self.corrupt_data.add_point(self.step_num, corrupt_fraction);
        self.double_vote.add_point(self.step_num, double_vote_prob);
        if self.step_num < usize::MAX {
            self.step_num += 1;
        }
    }
}

/// A count over a take is bounded by the count over the whole.
proof fn lemma_sections_take_le(
    ss: Seq<crate::net::Section>,
    i: int,
    f: spec_fn(Node) -> bool,
)
    requires
        0 <= i <= ss.len(),
    ensures
        sections_count(ss.take(i), f) <= sections_count(ss, f),
    decreases ss.len() - i,
{
    if i < ss.len() {
        lemma_sections_take_le(ss, i + 1, f);
        assert(ss.take(i + 1).drop_last() =~= ss.take(i));
    } else {
        assert(ss.take(i) =~= ss);
    }
}

} // verus!
