//! Quorum predicates: given a section snapshot, decide whether honest nodes
//! cannot reach quorum (*disrupted*) and whether the attacker can
//! (*compromised*). Proportions are exact rationals.

use vstd::prelude::*;

verus! {

use crate::NN;
use crate::net::{Group, count_nodes, sum_age_nodes, lemma_count_le_len};
use crate::node::Node;

/// A proportion in the closed unit interval, as an exact rational.
#[derive(Clone, Copy, PartialEq, Eq, Structural, Debug)]
pub struct Proportion {
    /// Numerator; at most `den`.
    pub num: u32,
    /// Denominator; at least 1.
    pub den: u32,
}

impl Proportion {
    /// A value in the closed unit interval: `0 <= num/den <= 1`.
    pub open spec fn wf(self) -> bool {
        1 <= self.den && self.num <= self.den
    }

    /// The proportion 1: the whole group.
    pub fn whole() -> (r: Proportion)
        ensures
            r == (Proportion { num: 1u32, den: 1u32 }),
            r.wf(),
    {
        Proportion { num: 1, den: 1 }
    }

    /// The proportion `num / den`.
    pub fn new(num: u32, den: u32) -> (r: Proportion)
        requires
            1 <= den,
            num <= den,
        ensures
            r == (Proportion { num, den }),
            r.wf(),
    {
        Proportion { num, den }
    }
}

/// The number of malicious members of a section snapshot.
pub open spec fn mal_count(g: Seq<Node>) -> nat {
    count_nodes(g, |nd: Node| nd.1.is_malicious)
}

/// The number of honest members of a section snapshot.
pub open spec fn good_count(g: Seq<Node>) -> nat {
    count_nodes(g, |nd: Node| !nd.1.is_malicious)
}

/// The summed age of all members.
pub open spec fn age_sum(g: Seq<Node>) -> nat {
    sum_age_nodes(g, |nd: Node| true)
}

/// The summed age of the malicious members.
pub open spec fn mal_age_sum(g: Seq<Node>) -> nat {
    sum_age_nodes(g, |nd: Node| nd.1.is_malicious)
}

/// The summed age of the honest members.
pub open spec fn good_age_sum(g: Seq<Node>) -> nat {
    sum_age_nodes(g, |nd: Node| !nd.1.is_malicious)
}

proof fn lemma_mul_u64_u32(a: u128, b: u128)
    by (nonlinear_arith)
    requires
        a <= 0xffff_ffff_ffff_ffffu128,
        b <= 0xffff_ffffu128,
    ensures
        a * b < 0x1_0000_0000_0000_0000_0000_0000u128,
{
}

proof fn lemma_mul_u96_u32(a: u128, b: u128)
    by (nonlinear_arith)
    requires
        a < 0x1_0000_0000_0000_0000_0000_0000u128,
        b <= 0xffff_ffffu128,
    ensures
        a * b <= u128::MAX,
{
}

/// The fraction `a / b` is strictly below `p`, compared exactly; a fraction
/// with `b == 0` is below nothing.
pub open spec fn frac_lt(a: nat, b: nat, p: Proportion) -> bool {
    a * p.den < b * p.num
}

/// The fraction `a / b` is at least `p`, compared exactly, where a fraction
/// with `b == 0` only reaches a quorum if the group is real: callers guard
/// emptiness themselves.
pub open spec fn frac_ge(a: nat, b: nat, p: Proportion) -> bool {
    a * p.den >= b * p.num
}

/// Describes the "quorum" algorithm: how a section snapshot is judged
/// disrupted or compromised for a configured proportion.
pub trait Quorum: Sized {
    /// The configured proportion.
    spec fn proportion(&self) -> Proportion;

    /// Internal consistency: the proportion is a unit-interval rational.
    spec fn inv(&self) -> bool;

    /// What `quorum_size` returns: the member count needed for quorum,
    /// where the variant admits a plain count threshold.
    spec fn spec_quorum_size(&self, k: NN) -> Option<NN>;

    /// What `quorum_disrupted` decides on a snapshot.
    spec fn spec_disrupted(&self, g: Seq<Node>) -> bool;

    /// What `quorum_compromised` decides on a snapshot.
    spec fn spec_compromised(&self, g: Seq<Node>) -> bool;

    /// Get the number of members needed for a quorum of a group of size
    /// `k`, or `None` if the algorithm weighs more than the count.
    fn quorum_size(&self, k: NN) -> (r: Option<NN>)
        requires
            self.inv(),
        ensures
            r == self.spec_quorum_size(k),
    ;

    /// Specify the proportion of group agreement required.
    fn set_quorum_proportion(&mut self, prop: Proportion)
        requires
            prop.wf(),
        ensures
            final(self).proportion() == prop,
            final(self).inv(),
    ;

    /// Returns true if there is not a quorum of good nodes in the group.
    fn quorum_disrupted(&self, group: &Group) -> (r: bool)
        requires
            self.inv(),
            group.wf(),
        ensures
            r == self.spec_disrupted(group@),
    ;

    /// Returns true if there is a quorum of bad nodes in the group.
    fn quorum_compromised(&self, group: &Group) -> (r: bool)
        requires
            self.inv(),
            group.wf(),
        ensures
            r == self.spec_compromised(group@),
    ;
}

/// Quorum based on simply meeting some minimum proportion of the group.
#[derive(Clone, Copy, Debug)]
pub struct SimpleQuorum {
    /// Proportion of the group required for quorum.
    pub proportion: Proportion,
}

/// An empty group never counts as compromised: there is no attacker
/// quorum where there are no members.
pub open spec fn simple_compromised(g: Seq<Node>, p: Proportion) -> bool {
    g.len() > 0 && frac_ge(mal_count(g), g.len(), p)
}

/// Honest nodes fail to reach quorum when their fraction of the group is
/// strictly below the proportion; an empty group is not disrupted.
pub open spec fn simple_disrupted(g: Seq<Node>, p: Proportion) -> bool {
    frac_lt(good_count(g), g.len(), p)
}

impl SimpleQuorum {
    /// New structure. Default to requiring a quorum of the entire group.
    pub fn new() -> (r: Self)
        ensures
            r.proportion == (Proportion { num: 1u32, den: 1u32 }),
            r.inv(),
    {
        SimpleQuorum { proportion: Proportion::whole() }
    }

    /// New structure, with specified proportion required.
    pub fn from(prop: Proportion) -> (r: Self)
        requires
            prop.wf(),
        ensures
            r.proportion == prop,
            r.inv(),
    {
        SimpleQuorum { proportion: prop }
    }
}

impl Quorum for SimpleQuorum {
    open spec fn proportion(&self) -> Proportion {
        self.proportion
    }

    open spec fn inv(&self) -> bool {
        self.proportion.wf()
    }

    open spec fn spec_quorum_size(&self, k: NN) -> Option<NN> {
        Some(
            (((k * self.proportion.num) + self.proportion.den - 1) / (
            self.proportion.den as int)) as NN,
        )
    }

    open spec fn spec_disrupted(&self, g: Seq<Node>) -> bool {
        simple_disrupted(g, self.proportion)
    }

    open spec fn spec_compromised(&self, g: Seq<Node>) -> bool {
        simple_compromised(g, self.proportion)
    }

    fn quorum_size(&self, k: NN) -> (r: Option<NN>) {
        let num = self.proportion.num as u128;
        let den = self.proportion.den as u128;
        proof {
            lemma_mul_u64_u32(k as u128, num);
            lemma_mul_u64_u32(k as u128, den);
            // The ceiling is at most k because num <= den.
            vstd::arithmetic::mul::lemma_mul_inequality(num as int, den as int, k as int);
            vstd::arithmetic::mul::lemma_mul_is_commutative(k as int, num as int);
            vstd::arithmetic::mul::lemma_mul_is_commutative(k as int, den as int);
            vstd::arithmetic::div_mod::lemma_div_is_ordered(
                (k as u128 * num + den - 1) as int,
                (k as u128 * den + den - 1) as int,
                den as int,
            );
            assert((k as int * den + den - 1) / (den as int) == k) by (nonlinear_arith)
                requires
                    den >= 1,
            ;
        }
        let v = ((k as u128) * num + den - 1) / den;
        Some(v as NN)
    }

    fn set_quorum_proportion(&mut self, prop: Proportion) {
        self.proportion = prop;
    }

    fn quorum_disrupted(&self, group: &Group) -> (r: bool) {
        let n = group.len();
        let bad = group.count_malicious();
        proof {
            lemma_count_le_len(group@, |nd: Node| nd.1.is_malicious);
            lemma_good_mal_partition(group@);
            lemma_mul_u64_u32(good_count(group@) as u128, self.proportion.den as u128);
            lemma_mul_u64_u32(n as u128, self.proportion.num as u128);
        }
        let good = n - bad;
        (good as u128) * (self.proportion.den as u128) < (group.len() as u128) * (
        self.proportion.num as u128)
    }

    fn quorum_compromised(&self, group: &Group) -> (r: bool) {
        let n = group.len();
        let bad = group.count_malicious();
        proof {
            lemma_count_le_len(group@, |nd: Node| nd.1.is_malicious);
            lemma_mul_u64_u32(mal_count(group@) as u128, self.proportion.den as u128);
            lemma_mul_u64_u32(n as u128, self.proportion.num as u128);
        }
        n > 0 && (bad as u128) * (self.proportion.den as u128) >= (n as u128) * (
        self.proportion.num as u128)
    }
}

/// Every member is honest or malicious: the two counts partition the group.
pub proof fn lemma_good_mal_partition(g: Seq<Node>)
    ensures
        good_count(g) + mal_count(g) == g.len(),
        good_age_sum(g) + mal_age_sum(g) == age_sum(g),
    decreases g.len(),
{
    if g.len() > 0 {
        lemma_good_mal_partition(g.drop_last());
    }
}

/// Quorum which requires some proportion of group age as well as number.
///
/// The same proportion applies to the age sum as to the number of nodes.
#[derive(Clone, Copy, Debug)]
pub struct AgeQuorum {
    /// Proportion of the group (count and summed age) required for quorum.
    pub proportion: Proportion,
}

/// An age quorum of bad nodes needs both the count fraction and the age
/// fraction to reach the proportion. A group whose members all have age
/// zero carries no age weight and cannot be compromised.
pub open spec fn age_compromised(g: Seq<Node>, p: Proportion) -> bool {
    &&& g.len() > 0
&&& frac_ge(mal_count(g), g.len(), p)
&&& age_sum(g) > 0
&&& frac_ge(mal_age_sum(g), age_sum(g), p)
}

/// Honest nodes fail an age quorum when their count fraction or their age
/// fraction falls strictly below the proportion.
pub open spec fn age_disrupted(g: Seq<Node>, p: Proportion) -> bool {
    frac_lt(good_count(g), g.len(), p) || frac_lt(good_age_sum(g), age_sum(g), p)
}

impl AgeQuorum {
    /// New structure. Default to requiring a quorum of the entire group.
    pub fn new() -> (r: Self)
        ensures
            r.proportion == (Proportion { num: 1u32, den: 1u32 }),
            r.inv(),
    {
        AgeQuorum { proportion: Proportion::whole() }
    }
}

impl Quorum for AgeQuorum {
    open spec fn proportion(&self) -> Proportion {
        self.proportion
    }

    open spec fn inv(&self) -> bool {
        self.proportion.wf()
    }

    open spec fn spec_quorum_size(&self, k: NN) -> Option<NN> {
        None
    }

    open spec fn spec_disrupted(&self, g: Seq<Node>) -> bool {
        age_disrupted(g, self.proportion)
    }

    open spec fn spec_compromised(&self, g: Seq<Node>) -> bool {
        age_compromised(g, self.proportion)
    }

    fn quorum_size(&self, k: NN) -> (r: Option<NN>) {
        None
    }

    fn set_quorum_proportion(&mut self, prop: Proportion) {
        self.proportion = prop;
    }

    fn quorum_disrupted(&self, group: &Group) -> (r: bool) {
        let n = group.len();
        let bad = group.count_malicious();
        let all_age = group.sum_age();
        let bad_age = group.sum_age_malicious();
        proof {
            lemma_count_le_len(group@, |nd: Node| nd.1.is_malicious);
            lemma_good_mal_partition(group@);
            lemma_age_sums_bounded(group@);
            lemma_mul_u64_u32(n as u128, u32::MAX as u128);
            lemma_mul_u64_u32(good_count(group@) as u128, self.proportion.den as u128);
            lemma_mul_u64_u32(n as u128, self.proportion.num as u128);
            lemma_mul_u96_u32(good_age_sum(group@) as u128, self.proportion.den as u128);
            lemma_mul_u96_u32(age_sum(group@) as u128, self.proportion.num as u128);
        }
        let good = n - bad;
        let good_age = all_age - bad_age;
        let den = self.proportion.den as u128;
        let num = self.proportion.num as u128;
        (good as u128) * den < (n as u128) * num || good_age * den < all_age * num
    }

    fn quorum_compromised(&self, group: &Group) -> (r: bool) {
        let n = group.len();
        let bad = group.count_malicious();
        let all_age = group.sum_age();
        let bad_age = group.sum_age_malicious();
        proof {
            lemma_count_le_len(group@, |nd: Node| nd.1.is_malicious);
            lemma_good_mal_partition(group@);
            lemma_age_sums_bounded(group@);
            lemma_mul_u64_u32(n as u128, u32::MAX as u128);
            lemma_mul_u64_u32(mal_count(group@) as u128, self.proportion.den as u128);
            lemma_mul_u64_u32(n as u128, self.proportion.num as u128);
            lemma_mul_u96_u32(mal_age_sum(group@) as u128, self.proportion.den as u128);
            lemma_mul_u96_u32(age_sum(group@) as u128, self.proportion.num as u128);
        }
        let den = self.proportion.den as u128;
        let num = self.proportion.num as u128;
        n > 0 && (bad as u128) * den >= (n as u128) * num && all_age > 0 && bad_age * den
            >= all_age * num
    }
}

/// Age sums are bounded by the group size times the largest age, so the
/// products compared by the age quorum fit the arithmetic type.
pub proof fn lemma_age_sums_bounded(g: Seq<Node>)
    ensures
        age_sum(g) <= g.len() * (u32::MAX as nat),
        mal_age_sum(g) <= age_sum(g),
        good_age_sum(g) <= age_sum(g),
    decreases g.len(),
{
    if g.len() > 0 {
        lemma_age_sums_bounded(g.drop_last());
        assert((g.len() - 1) * (u32::MAX as nat) + u32::MAX == g.len() * (u32::MAX as nat)) by (
        nonlinear_arith)
            requires
                g.len() >= 1,
        ;
        lemma_good_mal_partition(g);
        lemma_good_mal_partition(g.drop_last());
    }
}

/// The quorum never finds a section without malicious members
/// compromised or disrupted: the judgement needs actual malice.
pub open spec fn quorum_needs_malice<Q: Quorum>(q: Q) -> bool {
    forall|g: Seq<Node>|
        mal_count(g) == 0 ==> !(#[trigger] q.spec_compromised(g)) && !q.spec_disrupted(g)
}

/// The quorum is certain on full malice: any non-empty section whose
/// members are all malicious is compromised.
pub open spec fn quorum_certain_of_malice<Q: Quorum>(q: Q) -> bool {
    forall|g: Seq<Node>|
        g.len() > 0 && mal_count(g) == g.len() ==> #[trigger] q.spec_compromised(g)
}

/// A simple quorum is certain on full malice: when every member is
/// malicious, any proportion of the group is reached.
pub proof fn lemma_simple_quorum_certain_of_malice(q: SimpleQuorum)
    requires
        q.inv(),
    ensures
        quorum_certain_of_malice(q),
{
    assert forall|g: Seq<Node>|
        g.len() > 0 && mal_count(g) == g.len() implies #[trigger] q.spec_compromised(g) by {
        assert(g.len() * q.proportion.den >= g.len() * q.proportion.num) by (nonlinear_arith)
            requires
                q.proportion.num <= q.proportion.den,
                g.len() >= 0,
        ;
    }
}

/// A simple quorum with a positive proportion needs malice: a section
/// without malicious members is neither compromised nor disrupted by it.
pub proof fn lemma_simple_quorum_needs_malice(q: SimpleQuorum)
    requires
        q.inv(),
        q.proportion.num >= 1,
    ensures
        quorum_needs_malice(q),
{
    assert forall|g: Seq<Node>| mal_count(g) == 0 implies !(#[trigger] q.spec_compromised(g))
        && !q.spec_disrupted(g) by {
        lemma_good_mal_partition(g);
        if g.len() > 0 {
            assert(mal_count(g) * q.proportion.den == 0 && g.len() * q.proportion.num >= 1 && !(
            g.len() * q.proportion.den < g.len() * q.proportion.num)) by (nonlinear_arith)
                requires
                    mal_count(g) == 0,
                    g.len() >= 1,
                    1 <= q.proportion.num <= q.proportion.den,
            ;
        } else {
            assert(good_count(g) * q.proportion.den == 0 && g.len() * q.proportion.num == 0) by (
            nonlinear_arith)
                requires
                    good_count(g) == 0 && g.len() == 0,
            ;
        }
    }
}

/// An age quorum with a positive proportion needs malice as well.
pub proof fn lemma_age_quorum_needs_malice(q: AgeQuorum)
    requires
        q.inv(),
        q.proportion.num >= 1,
    ensures
        quorum_needs_malice(q),
{
    assert forall|g: Seq<Node>| mal_count(g) == 0 implies !(#[trigger] q.spec_compromised(g))
        && !q.spec_disrupted(g) by {
        lemma_good_mal_partition(g);
        crate::net::lemma_count_zero_age_zero(g, |nd: Node| nd.1.is_malicious);
        if g.len() > 0 {
            assert(mal_count(g) * q.proportion.den == 0 && g.len() * q.proportion.num >= 1 && !(
            g.len() * q.proportion.den < g.len() * q.proportion.num) && !(age_sum(g)
                * q.proportion.den < age_sum(g) * q.proportion.num)) by (nonlinear_arith)
                requires
                    mal_count(g) == 0,
                    g.len() >= 1,
                    1 <= q.proportion.num <= q.proportion.den,
            ;
        } else {
            assert(good_count(g) * q.proportion.den == 0 && g.len() * q.proportion.num == 0
                && age_sum(g) * q.proportion.num == 0) by (nonlinear_arith)
                requires
                    good_count(g) == 0 && g.len() == 0 && age_sum(g) == 0,
            ;
        }
    }
}

/// With proportion 1 a simple quorum requires unanimity: a group is
/// compromised exactly when it is non-empty and every member is malicious,
/// and disrupted exactly when some member is malicious.
pub proof fn lemma_simple_quorum_unanimity(q: SimpleQuorum, g: Seq<Node>)
    requires
        q.proportion == (Proportion { num: 1u32, den: 1u32 }),
    ensures
        q.spec_compromised(g) <==> (g.len() > 0 && mal_count(g) == g.len()),
        q.spec_disrupted(g) <==> good_count(g) < g.len(),
{
    lemma_count_le_len(g, |nd: Node| nd.1.is_malicious);
    lemma_count_le_len(g, |nd: Node| !nd.1.is_malicious);
}

/// With proportion 0 a simple quorum is trivially satisfied: any non-empty
/// group is compromised, and no group is ever disrupted.
pub proof fn lemma_simple_quorum_trivial(q: SimpleQuorum, g: Seq<Node>)
    requires
        q.proportion.num == 0,
    ensures
        q.spec_compromised(g) <==> g.len() > 0,
        !q.spec_disrupted(g),
{
}

} // verus!
