//! The section tree: groups of named nodes keyed by prefix, with insertion,
//! split, merge and churn-driven relocation.

use vstd::prelude::*;

verus! {

use crate::NN;
use crate::node::{Prefix, NodeData, Node, name_bits, new_node_name, churned_data, churn_eligible};
use vstd::multiset::Multiset;

/// Number of nodes in `s` whose entry satisfies `f`.
pub open spec fn count_nodes(s: Seq<Node>, f: spec_fn(Node) -> bool) -> nat
    decreases s.len(),
{
    if s.len() == 0 {
        0
    } else {
        count_nodes(s.drop_last(), f) + if f(s.last()) {
            1nat
        } else {
            0nat
        }
    }
}

/// Sum of the ages of the nodes in `s` whose entry satisfies `f`.
pub open spec fn sum_age_nodes(s: Seq<Node>, f: spec_fn(Node) -> bool) -> nat
    decreases s.len(),
{
    if s.len() == 0 {
        0
    } else {
        sum_age_nodes(s.drop_last(), f) + if f(s.last()) {
            s.last().1.age as nat
        } else {
            0nat
        }
    }
}

/// A count over a sequence never exceeds its length.
pub proof fn lemma_count_le_len(s: Seq<Node>, f: spec_fn(Node) -> bool)
    ensures
        count_nodes(s, f) <= s.len(),
    decreases s.len(),
{
    if s.len() > 0 {
        lemma_count_le_len(s.drop_last(), f);
    }
}

/// Counts add over concatenation.
pub proof fn lemma_count_concat(s1: Seq<Node>, s2: Seq<Node>, f: spec_fn(Node) -> bool)
    ensures
        count_nodes(s1 + s2, f) == count_nodes(s1, f) + count_nodes(s2, f),
    decreases s2.len(),
{
    if s2.len() == 0 {
        assert(s1 + s2 =~= s1);
    } else {
        lemma_count_concat(s1, s2.drop_last(), f);
        assert((s1 + s2).drop_last() =~= s1 + s2.drop_last());
    }
}

/// Age sums add over concatenation.
pub proof fn lemma_sum_age_concat(s1: Seq<Node>, s2: Seq<Node>, f: spec_fn(Node) -> bool)
    ensures
        sum_age_nodes(s1 + s2, f) == sum_age_nodes(s1, f) + sum_age_nodes(s2, f),
    decreases s2.len(),
{
    if s2.len() == 0 {
        assert(s1 + s2 =~= s1);
    } else {
        lemma_sum_age_concat(s1, s2.drop_last(), f);
        assert((s1 + s2).drop_last() =~= s1 + s2.drop_last());
    }
}

/// The effect on a count of inserting one node.
pub proof fn lemma_count_insert(s: Seq<Node>, p: int, x: Node, f: spec_fn(Node) -> bool)
    requires
        0 <= p <= s.len(),
    ensures
        count_nodes(s.insert(p, x), f) == count_nodes(s, f) + if f(x) {
            1nat
        } else {
            0nat
        },
{
    assert(s.insert(p, x) =~= s.take(p) + (seq![x] + s.skip(p)));
    assert(s =~= s.take(p) + s.skip(p));
    lemma_count_concat(s.take(p), seq![x] + s.skip(p), f);
    lemma_count_concat(seq![x], s.skip(p), f);
    lemma_count_concat(s.take(p), s.skip(p), f);
    assert(count_nodes(seq![x], f) == if f(x) {
        1nat
    } else {
        0nat
    }) by {
        assert(seq![x].drop_last() =~= Seq::<Node>::empty());
        assert(count_nodes(Seq::<Node>::empty(), f) == 0);
    }
}

/// The effect on a count of removing one node.
pub proof fn lemma_count_remove(s: Seq<Node>, p: int, f: spec_fn(Node) -> bool)
    requires
        0 <= p < s.len(),
    ensures
        count_nodes(s, f) == count_nodes(s.remove(p), f) + if f(s[p]) {
            1nat
        } else {
            0nat
        },
{
    lemma_count_insert(s.remove(p), p, s[p], f);
    assert(s.remove(p).insert(p, s[p]) =~= s);
}

/// The effect on a count of replacing one node in place.
pub proof fn lemma_count_update(s: Seq<Node>, p: int, x: Node, f: spec_fn(Node) -> bool)
    requires
        0 <= p < s.len(),
    ensures
        count_nodes(s.update(p, x), f) == count_nodes(s, f) - (if f(s[p]) {
            1int
        } else {
            0int
        }) + (if f(x) {
            1int
        } else {
            0int
        }),
{
    lemma_count_remove(s, p, f);
    lemma_count_insert(s.remove(p), p, x, f);
    assert(s.update(p, x) =~= s.remove(p).insert(p, x));
}

/// Truncating one element off the end takes its contribution off the count.
pub proof fn lemma_count_take_step(s: Seq<Node>, i: int, f: spec_fn(Node) -> bool)
    requires
        0 <= i < s.len(),
    ensures
        count_nodes(s.take(i + 1), f) == count_nodes(s.take(i), f) + if f(s[i]) {
            1nat
        } else {
            0nat
        },
        sum_age_nodes(s.take(i + 1), f) == sum_age_nodes(s.take(i), f) + if f(s[i]) {
            s[i].1.age as nat
        } else {
            0nat
        },
{
    assert(s.take(i + 1).drop_last() =~= s.take(i));
    assert(s.take(i + 1).last() == s[i]);
}

/// Counting every node just measures the length.
pub proof fn lemma_count_true_is_len(s: Seq<Node>)
    ensures
        count_nodes(s, |nd: Node| true) == s.len(),
    decreases s.len(),
{
    if s.len() > 0 {
        lemma_count_true_is_len(s.drop_last());
    }
}

/// Where no node satisfies the predicate, the matching age sum is zero.
pub proof fn lemma_count_zero_age_zero(s: Seq<Node>, f: spec_fn(Node) -> bool)
    requires
        count_nodes(s, f) == 0,
    ensures
        sum_age_nodes(s, f) == 0,
    decreases s.len(),
{
    if s.len() > 0 {
        lemma_count_zero_age_zero(s.drop_last(), f);
    }
}

/// There is a node with the given name in the sequence.
pub open spec fn seq_has_name(s: Seq<Node>, name: NN) -> bool {
    exists|i: int| 0 <= i < s.len() && s[i].0 == name
}

/// The node is one of the members of the snapshot.
pub open spec fn member_of(g: Seq<Node>, nd: Node) -> bool {
    exists|w: int| 0 <= w < g.len() && (#[trigger] g[w]) == nd
}

/// A `Group` is a collection of named nodes: the members of one section,
/// held in strictly increasing name order.
#[derive(Clone, Debug)]
pub struct Group {
    /// The members, sorted strictly by name.
    pub nodes: Vec<Node>,
}

impl View for Group {
    type V = Seq<Node>;

    open spec fn view(&self) -> Seq<Node> {
        self.nodes@
    }
}

impl Group {
    /// Names are strictly increasing, so each occurs at most once.
    pub open spec fn wf(self) -> bool {
        forall|i: int, j: int|
            0 <= i < j < self@.len() ==> (#[trigger] self@[i]).0 < (#[trigger] self@[j]).0
    }

    /// An empty group.
    pub fn new() -> (g: Group)
        ensures
            g@.len() == 0,
            g.wf(),
    {
        Group { nodes: Vec::new() }
    }

    /// Number of members.
    pub fn len(&self) -> (r: usize)
        ensures
            r == self@.len(),
    {
        self.nodes.len()
    }

    /// The member at the given position, in name order.
    pub fn node_at(&self, i: usize) -> (r: Node)
        requires
            i < self@.len(),
        ensures
            r == self@[i as int],
    {
        (self.nodes[i].0, self.nodes[i].1)
    }

    /// Look up a member by name.
    pub fn get(&self, name: NN) -> (r: Option<NodeData>)
        requires
            self.wf(),
        ensures
            match r {
                Some(d) => exists|i: int|
                    0 <= i < self@.len() && self@[i] == (name, d),
                None => !seq_has_name(self@, name),
            },
    {
        let mut i: usize = 0;
        while i < self.nodes.len()
            invariant
                i <= self@.len(),
                forall|t: int| 0 <= t < i ==> (#[trigger] self@[t]).0 != name,
            decreases self@.len() - i,
        {
            if self.nodes[i].0 == name {
                return Some(self.nodes[i].1);
            }
            i += 1;
        }
        None
    }

    /// Whether a member with this name exists.
    pub fn contains(&self, name: NN) -> (r: bool)
        requires
            self.wf(),
        ensures
            r == seq_has_name(self@, name),
    {
        match self.get(name) {
            Some(_) => true,
            None => false,
        }
    }

    /// Insert a member. Returns `true` and inserts in name order if the
    /// name is fresh; returns `false` and leaves the group unchanged if a
    /// member of that name already exists.
    pub fn insert(&mut self, name: NN, data: NodeData) -> (r: bool)
        requires
            old(self).wf(),
        ensures
            final(self).wf(),
            r == !seq_has_name(old(self)@, name),
            !r ==> final(self)@ == old(self)@,
            r ==> exists|p: int|
                0 <= p <= old(self)@.len() && final(self)@ == old(self)@.insert(
                    p,
                    (name, data),
                ),
    {
        let mut i: usize = 0;
        while i < self.nodes.len()
            invariant
                old(self) == self,
                self.wf(),
                i <= self@.len(),
                forall|t: int| 0 <= t < i ==> (#[trigger] self@[t]).0 < name,
            decreases self@.len() - i,
        {
            if self.nodes[i].0 == name {
                return false;
            }
            if self.nodes[i].0 > name {
                proof {
                    assert forall|t: int| 0 <= t < self@.len() implies (#[trigger] self@[t]).0
                        != name by {
                        if t > i {
                            assert(self@[i as int].0 < self@[t].0);
                        }
                    }
                }
                self.nodes.insert(i, (name, data));
                return true;
            }
            i += 1;
        }
        self.nodes.insert(i, (name, data));
        true
    }

    /// Remove the member with the given name, returning its data, or
    /// `None` (leaving the group unchanged) if there is none.
    pub fn remove(&mut self, name: NN) -> (r: Option<NodeData>)
        requires
            old(self).wf(),
        ensures
            final(self).wf(),
            match r {
                Some(d) => exists|p: int|
                    0 <= p < old(self)@.len() && old(self)@[p] == (name, d) && final(self)@
                        == old(self)@.remove(p),
                None => final(self)@ == old(self)@ && !seq_has_name(old(self)@, name),
            },
    {
        let mut i: usize = 0;
        while i < self.nodes.len()
            invariant
                old(self) == self,
                self.wf(),
                i <= self@.len(),
                forall|t: int| 0 <= t < i ==> (#[trigger] self@[t]).0 != name,
            decreases self@.len() - i,
        {
            if self.nodes[i].0 == name {
                let (_, d) = self.nodes.remove(i);
                return Some(d);
            }
            i += 1;
        }
        None
    }

    /// Replace the data of the member at a position, keeping its name.
    pub fn update_at(&mut self, i: usize, d: NodeData)
        requires
            old(self).wf(),
            i < old(self)@.len(),
        ensures
            final(self).wf(),
            final(self)@ == old(self)@.update(i as int, (old(self)@[i as int].0, d)),
    {
        let name = self.nodes[i].0;
        let _ = self.nodes.remove(i);
        self.nodes.insert(i, (name, d));
        proof {
            assert(self@ =~= old(self)@.update(i as int, (name, d)));
            assert forall|u: int, v: int| 0 <= u < v < self@.len() implies (#[trigger] self@[u]).0
                < (#[trigger] self@[v]).0 by {
                assert(old(self)@[u].0 < old(self)@[v].0);
            }
        }
    }

    /// Remove the member at a position.
    pub fn remove_at(&mut self, i: usize) -> (r: Node)
        requires
            old(self).wf(),
            i < old(self)@.len(),
        ensures
            final(self).wf(),
            r == old(self)@[i as int],
            final(self)@ == old(self)@.remove(i as int),
    {
        let r = self.nodes.remove(i);
        proof {
            assert forall|u: int, v: int| 0 <= u < v < self@.len() implies (#[trigger] self@[u]).0
                < (#[trigger] self@[v]).0 by {
                let uu = if u < i { u } else { u + 1 };
                let vv = if v < i { v } else { v + 1 };
                assert(old(self)@[uu].0 < old(self)@[vv].0);
            }
        }
        r
    }

    /// Number of malicious members.
    pub fn count_malicious(&self) -> (r: usize)
        ensures
            r == count_nodes(self@, |nd: Node| nd.1.is_malicious),
    {
        let ghost f = |nd: Node| nd.1.is_malicious;
        let mut acc: usize = 0;
        let mut i: usize = 0;
        while i < self.nodes.len()
            invariant
                i <= self@.len(),
                acc == count_nodes(self@.take(i as int), f),
                acc <= i,
                f == (|nd: Node| nd.1.is_malicious),
            decreases self@.len() - i,
        {
            proof {
                lemma_count_take_step(self@, i as int, f);
            }
            if self.nodes[i].1.is_malicious() {
                acc += 1;
            }
            i += 1;
        }
        proof {
            assert(self@.take(self@.len() as int) =~= self@);
        }
        acc
    }

    /// Summed age of all members (`f` admits every node).
    pub fn sum_age(&self) -> (r: u128)
        ensures
            r == sum_age_nodes(self@, |nd: Node| true),
    {
        let ghost f = |nd: Node| true;
        let mut acc: u128 = 0;
        let mut i: usize = 0;
        while i < self.nodes.len()
            invariant
                i <= self@.len(),
                acc == sum_age_nodes(self@.take(i as int), f),
                acc <= i * (u32::MAX as u128),
                f == (|nd: Node| true),
            decreases self@.len() - i,
        {
            proof {
                lemma_count_take_step(self@, i as int, f);
                assert((i + 1) * (u32::MAX as u128) == i * (u32::MAX as u128) + u32::MAX) by (
                nonlinear_arith);
            }
            acc = acc + self.nodes[i].1.age() as u128;
            i += 1;
        }
        proof {
            assert(self@.take(self@.len() as int) =~= self@);
        }
        acc
    }

    /// Number of members of age zero.
    pub fn count_age_zero(&self) -> (r: usize)
        ensures
            r == count_nodes(self@, |nd: Node| nd.1.age == 0),
    {
        let ghost f = |nd: Node| nd.1.age == 0;
        let mut acc: usize = 0;
        let mut i: usize = 0;
        while i < self.nodes.len()
            invariant
                i <= self@.len(),
                acc == count_nodes(self@.take(i as int), f),
                acc <= i,
                f == (|nd: Node| nd.1.age == 0),
            decreases self@.len() - i,
        {
            proof {
                lemma_count_take_step(self@, i as int, f);
            }
            if self.nodes[i].1.age() == 0 {
                acc += 1;
            }
            i += 1;
        }
        proof {
            assert(self@.take(self@.len() as int) =~= self@);
        }
        acc
    }

    /// Number of members whose name the given prefix matches.
    pub fn count_matching(&self, p: Prefix) -> (r: usize)
        requires
            p.wf(),
        ensures
            r == count_nodes(self@, |nd: Node| p.spec_matches(nd.0)),
    {
        let ghost f = |nd: Node| p.spec_matches(nd.0);
        let mut acc: usize = 0;
        let mut i: usize = 0;
        while i < self.nodes.len()
            invariant
                p.wf(),
                i <= self@.len(),
                acc == count_nodes(self@.take(i as int), f),
                acc <= i,
                f == (|nd: Node| p.spec_matches(nd.0)),
            decreases self@.len() - i,
        {
            proof {
                lemma_count_take_step(self@, i as int, f);
            }
            if p.matches(self.nodes[i].0) {
                acc += 1;
            }
            i += 1;
        }
        proof {
            assert(self@.take(self@.len() as int) =~= self@);
        }
        acc
    }

    /// Summed age of the malicious members.
    pub fn sum_age_malicious(&self) -> (r: u128)
        ensures
            r == sum_age_nodes(self@, |nd: Node| nd.1.is_malicious),
    {
        let ghost f = |nd: Node| nd.1.is_malicious;
        let mut acc: u128 = 0;
        let mut i: usize = 0;
        while i < self.nodes.len()
            invariant
                i <= self@.len(),
                acc == sum_age_nodes(self@.take(i as int), f),
                acc <= i * (u32::MAX as u128),
                f == (|nd: Node| nd.1.is_malicious),
            decreases self@.len() - i,
        {
            proof {
                lemma_count_take_step(self@, i as int, f);
                assert((i + 1) * (u32::MAX as u128) == i * (u32::MAX as u128) + u32::MAX) by (
                nonlinear_arith);
            }
            if self.nodes[i].1.is_malicious() {
                acc = acc + self.nodes[i].1.age() as u128;
            }
            i += 1;
        }
        proof {
            assert(self@.take(self@.len() as int) =~= self@);
        }
        acc
    }
}


/// The `n` members whose names are closest to `val` by XOR distance,
/// ordered by rising distance: any member left unchosen is at least as
/// far from `val` as every chosen one.
pub fn closest_nodes(group: &Group, val: NN, n: usize) -> (r: Vec<Node>)
    requires
        group.wf(),
    ensures
        r@.len() == vstd::math::min(n as int, group@.len() as int),
        forall|u: int| 0 <= u < r@.len() ==> member_of(group@, #[trigger] r@[u]),
        forall|u: int, v: int|
            0 <= u < v < r@.len() ==> ((#[trigger] r@[u]).0 ^ val) <= ((#[trigger] r@[v]).0
                ^ val) && r@[u].0 != r@[v].0,
        forall|u: int, w: int|
            #![trigger r@[u], group@[w]]
            0 <= u < r@.len() && 0 <= w < group@.len() && !seq_has_name(r@, group@[w].0) ==> (
            r@[u].0 ^ val) <= (group@[w].0 ^ val),
{
    let mut work: Vec<Node> = Vec::new();
    let mut i: usize = 0;
    while i < group.len()
        invariant
            i <= group@.len(),
            work@ == group@.take(i as int),
        decreases group@.len() - i,
    {
        let (nm, d) = group.node_at(i);
        work.push((nm, d));
        proof {
            assert(work@ =~= group@.take(i + 1));
        }
        i += 1;
    }
    proof {
        assert(group@.take(group@.len() as int) =~= group@);
    }
    let mut r: Vec<Node> = Vec::new();
    while r.len() < n && work.len() > 0
        invariant
            group.wf(),
            r@.len() <= n,
            r@.len() + work@.len() == group@.len(),
            forall|u: int| 0 <= u < r@.len() ==> member_of(group@, #[trigger] r@[u]),
            forall|w: int| 0 <= w < work@.len() ==> member_of(group@, #[trigger] work@[w]),
            forall|u: int, v: int|
                0 <= u < v < r@.len() ==> ((#[trigger] r@[u]).0 ^ val) <= ((#[trigger] r@[v]).0
                    ^ val) && r@[u].0 != r@[v].0,
            forall|u: int, w: int|
                #![trigger r@[u], work@[w]]
                0 <= u < r@.len() && 0 <= w < work@.len() ==> ((r@[u].0 ^ val) <= (work@[w].0
                    ^ val) && r@[u].0 != work@[w].0),
            forall|a: int, b: int|
                #![trigger work@[a], work@[b]]
                0 <= a < b < work@.len() ==> work@[a].0 != work@[b].0,
            forall|w: int|
                0 <= w < group@.len() ==> seq_has_name(r@, (#[trigger] group@[w]).0)
                    || seq_has_name(work@, group@[w].0),
        decreases work@.len(),
    {
        let mut mi: usize = 0;
        let mut j: usize = 1;
        while j < work.len()
            invariant
                work@.len() > 0,
                mi < j <= work@.len(),
                forall|t: int|
                    0 <= t < j ==> (work@[mi as int].0 ^ val) <= ((#[trigger] work@[t]).0 ^ val),
            decreases work@.len() - j,
        {
            if (work[j].0 ^ val) < (work[mi].0 ^ val) {
                mi = j;
            }
            j += 1;
        }
        let ghost wp = work@;
        let ghost rp = r@;
        let nd = work.remove(mi);
        r.push(nd);
        proof {
            assert forall|w: int| 0 <= w < work@.len() implies member_of(
                group@,
                #[trigger] work@[w],
            ) by {
                let ow = if w < mi { w } else { w + 1 };
                assert(member_of(group@, wp[ow]));
            }
            assert forall|w: int|
                0 <= w < group@.len() implies seq_has_name(r@, (#[trigger] group@[w]).0)
                || seq_has_name(work@, group@[w].0) by {
                if seq_has_name(rp, group@[w].0) {
                    let t = choose|t: int| 0 <= t < rp.len() && rp[t].0 == group@[w].0;
                    assert(r@[t].0 == group@[w].0);
                } else {
                    let t = choose|t: int| 0 <= t < wp.len() && wp[t].0 == group@[w].0;
                    if t == mi {
                        assert(r@[r@.len() - 1].0 == group@[w].0);
                    } else {
                        let nt = if t < mi { t } else { t - 1 };
                        assert(work@[nt].0 == group@[w].0);
                    }
                }
            }
        }
    }
    proof {
        assert forall|u: int, w: int|
            #![trigger r@[u], group@[w]]
            0 <= u < r@.len() && 0 <= w < group@.len() && !seq_has_name(r@, group@[w].0) implies (
        r@[u].0 ^ val) <= (group@[w].0 ^ val) by {
            let t = choose|t: int| 0 <= t < work@.len() && work@[t].0 == group@[w].0;
            assert((r@[u].0 ^ val) <= (work@[t].0 ^ val));
        }
    }
    r
}

/// A section of the network: its prefix together with its members.
pub type Section = (Prefix, Group);

/// Number of nodes over all sections whose entry satisfies `f`.
pub open spec fn sections_count(ss: Seq<Section>, f: spec_fn(Node) -> bool) -> nat
    decreases ss.len(),
{
    if ss.len() == 0 {
        0
    } else {
        sections_count(ss.drop_last(), f) + count_nodes(ss.last().1@, f)
    }
}

/// Section counts add over concatenation.
pub proof fn lemma_sections_count_concat(s1: Seq<Section>, s2: Seq<Section>, f: spec_fn(Node) -> bool)
    ensures
        sections_count(s1 + s2, f) == sections_count(s1, f) + sections_count(s2, f),
    decreases s2.len(),
{
    if s2.len() == 0 {
        assert(s1 + s2 =~= s1);
    } else {
        lemma_sections_count_concat(s1, s2.drop_last(), f);
        assert((s1 + s2).drop_last() =~= s1 + s2.drop_last());
    }
}

/// The effect on the total count of replacing one section.
pub proof fn lemma_sections_count_update(ss: Seq<Section>, i: int, x: Section, f: spec_fn(Node) -> bool)
    requires
        0 <= i < ss.len(),
    ensures
        sections_count(ss.update(i, x), f) == sections_count(ss, f) - count_nodes(ss[i].1@, f)
            + count_nodes(x.1@, f),
{
    lemma_sections_count_remove(ss, i, f);
    lemma_sections_count_insert(ss.remove(i), i, x, f);
    assert(ss.update(i, x) =~= ss.remove(i).insert(i, x));
}

/// The effect on the total count of inserting one section.
pub proof fn lemma_sections_count_insert(ss: Seq<Section>, p: int, x: Section, f: spec_fn(Node) -> bool)
    requires
        0 <= p <= ss.len(),
    ensures
        sections_count(ss.insert(p, x), f) == sections_count(ss, f) + count_nodes(x.1@, f),
{
    assert(ss.insert(p, x) =~= ss.take(p) + (seq![x] + ss.skip(p)));
    assert(ss =~= ss.take(p) + ss.skip(p));
    lemma_sections_count_concat(ss.take(p), seq![x] + ss.skip(p), f);
    lemma_sections_count_concat(seq![x], ss.skip(p), f);
    lemma_sections_count_concat(ss.take(p), ss.skip(p), f);
    assert(sections_count(seq![x], f) == count_nodes(x.1@, f)) by {
        assert(seq![x].drop_last() =~= Seq::<Section>::empty());
        assert(sections_count(Seq::<Section>::empty(), f) == 0);
    }
}

/// The effect on the total count of removing one section.
pub proof fn lemma_sections_count_remove(ss: Seq<Section>, p: int, f: spec_fn(Node) -> bool)
    requires
        0 <= p < ss.len(),
    ensures
        sections_count(ss, f) == sections_count(ss.remove(p), f) + count_nodes(ss[p].1@, f),
{
    lemma_sections_count_insert(ss.remove(p), p, ss[p], f);
    assert(ss.remove(p).insert(p, ss[p]) =~= ss);
}

/// The members of every listed section, as one multiset of nodes.
pub open spec fn net_members(ss: Seq<Section>) -> Multiset<Node>
    decreases ss.len(),
{
    if ss.len() == 0 {
        Multiset::empty()
    } else {
        net_members(ss.drop_last()).add(ss.last().1@.to_multiset())
    }
}

/// Member multisets add over concatenation of section lists.
pub proof fn lemma_net_members_concat(s1: Seq<Section>, s2: Seq<Section>)
    ensures
        net_members(s1 + s2) == net_members(s1).add(net_members(s2)),
    decreases s2.len(),
{
    broadcast use vstd::multiset::group_multiset_axioms;

    if s2.len() == 0 {
        assert(s1 + s2 =~= s1);
        assert(net_members(s1 + s2) =~= net_members(s1).add(net_members(s2)));
    } else {
        lemma_net_members_concat(s1, s2.drop_last());
        assert((s1 + s2).drop_last() =~= s1 + s2.drop_last());
        assert(net_members(s1 + s2) =~= net_members(s1).add(net_members(s2)));
    }
}

/// The effect on the member multiset of inserting one section.
pub proof fn lemma_net_members_insert(ss: Seq<Section>, p: int, x: Section)
    requires
        0 <= p <= ss.len(),
    ensures
        net_members(ss.insert(p, x)) == net_members(ss).add(x.1@.to_multiset()),
{
    broadcast use vstd::multiset::group_multiset_axioms;

    assert(ss.insert(p, x) =~= ss.take(p) + (seq![x] + ss.skip(p)));
    assert(ss =~= ss.take(p) + ss.skip(p));
    lemma_net_members_concat(ss.take(p), seq![x] + ss.skip(p));
    lemma_net_members_concat(seq![x], ss.skip(p));
    lemma_net_members_concat(ss.take(p), ss.skip(p));
    assert(net_members(seq![x]) == x.1@.to_multiset()) by {
        assert(seq![x].drop_last() =~= Seq::<Section>::empty());
        assert(net_members(Seq::<Section>::empty()).add(x.1@.to_multiset()) =~= x.1@.to_multiset());
    }
    assert(net_members(ss.insert(p, x)) =~= net_members(ss).add(x.1@.to_multiset()));
}

/// The effect on the member multiset of removing one section.
pub proof fn lemma_net_members_remove(ss: Seq<Section>, p: int)
    requires
        0 <= p < ss.len(),
    ensures
        net_members(ss) == net_members(ss.remove(p)).add(ss[p].1@.to_multiset()),
{
    lemma_net_members_insert(ss.remove(p), p, ss[p]);
    assert(ss.remove(p).insert(p, ss[p]) =~= ss);
}

/// Inserting one node adds exactly it to the sequence's multiset.
pub proof fn lemma_seq_insert_multiset(s: Seq<Node>, p: int, x: Node)
    requires
        0 <= p <= s.len(),
    ensures
        s.insert(p, x).to_multiset() == s.to_multiset().insert(x),
{
    broadcast use vstd::multiset::group_multiset_axioms;

    assert(s.insert(p, x) =~= s.take(p) + (seq![x] + s.skip(p)));
    assert(s =~= s.take(p) + s.skip(p));
    vstd::seq_lib::lemma_multiset_commutative(s.take(p), seq![x] + s.skip(p));
    vstd::seq_lib::lemma_multiset_commutative(seq![x], s.skip(p));
    vstd::seq_lib::lemma_multiset_commutative(s.take(p), s.skip(p));
    assert(seq![x].to_multiset() == Multiset::<Node>::empty().insert(x)) by {
        Seq::<Node>::empty().to_multiset_ensures();
        assert(Seq::<Node>::empty().push(x) =~= seq![x]);
    }
    assert(s.insert(p, x).to_multiset() =~= s.to_multiset().insert(x));
}

/// A full count means every node satisfies the predicate, and conversely.
pub proof fn lemma_count_full(s: Seq<Node>, f: spec_fn(Node) -> bool)
    ensures
        count_nodes(s, f) == s.len() <==> forall|w: int| 0 <= w < s.len() ==> f(#[trigger] s[w]),
    decreases s.len(),
{
    if s.len() > 0 {
        lemma_count_full(s.drop_last(), f);
        lemma_count_le_len(s.drop_last(), f);
        if count_nodes(s, f) == s.len() {
            assert forall|w: int| 0 <= w < s.len() implies f(#[trigger] s[w]) by {
                if w < s.len() - 1 {
                    assert(f(s.drop_last()[w]));
                }
            }
        }
        if forall|w: int| 0 <= w < s.len() ==> f(#[trigger] s[w]) {
            assert forall|w: int| 0 <= w < s.drop_last().len() implies f(
                #[trigger] s.drop_last()[w],
            ) by {
                assert(f(s[w]));
            }
        }
    }
}

/// A zero count means no node satisfies the predicate, and conversely.
pub proof fn lemma_count_zero(s: Seq<Node>, f: spec_fn(Node) -> bool)
    ensures
        count_nodes(s, f) == 0 <==> forall|w: int| 0 <= w < s.len() ==> !f(#[trigger] s[w]),
    decreases s.len(),
{
    if s.len() > 0 {
        lemma_count_zero(s.drop_last(), f);
        if count_nodes(s, f) == 0 {
            assert forall|w: int| 0 <= w < s.len() implies !f(#[trigger] s[w]) by {
                if w < s.len() - 1 {
                    assert(!f(s.drop_last()[w]));
                }
            }
        }
        if forall|w: int| 0 <= w < s.len() ==> !f(#[trigger] s[w]) {
            assert forall|w: int| 0 <= w < s.drop_last().len() implies !f(
                #[trigger] s.drop_last()[w],
            ) by {
                assert(!f(s[w]));
            }
        }
    }
}

/// Controls whether a node can get added to a group.
pub trait AddRestriction {
    /// What `can_add` decides for a candidate and a section snapshot.
    spec fn spec_can_add(data: NodeData, group: Seq<Node>) -> bool;

    /// May prevent an add operation, for example if the group has too many
    /// nodes of this age.
    fn can_add(data: &NodeData, group: &Group) -> (r: bool)
        requires
            group.wf(),
        ensures
            r == Self::spec_can_add(*data, group@),
    ;
}

/// As the name says: never reject nodes.
pub struct NoAddRestriction;

impl AddRestriction for NoAddRestriction {
    open spec fn spec_can_add(data: NodeData, group: Seq<Node>) -> bool {
        true
    }

    fn can_add(_data: &NodeData, _group: &Group) -> (r: bool) {
        true
    }
}

/// Limit the number of nodes of certain ages: a node of age zero is only
/// accepted while the group holds at most one other such node.
pub struct RestrictOnePerAge;

impl AddRestriction for RestrictOnePerAge {
    open spec fn spec_can_add(data: NodeData, group: Seq<Node>) -> bool {
        data.age >= 1 || count_nodes(group, |nd: Node| nd.1.age == 0) <= 1
    }

    fn can_add(data: &NodeData, group: &Group) -> (r: bool) {
        if data.age() >= 1 {
            return true;
        }
        group.count_age_zero() <= 1
    }
}

/// Number of random data identifiers sampled by the data-compromise
/// estimate.
pub const NUM_SAMPLES: usize = 5000;

/// Maximum number of iterations to run when adding pending nodes.
pub const PENDING_NODE_LIMIT: usize = 100;

/// Maximum number of iterations to run when searching for a name and a
/// section to accept us.
pub const FIND_NAME_LIMIT: usize = 100;

/// A `Network` is a collection of sections: a prefix-disjoint, covering
/// partition of the 64-bit name space, each section holding the nodes whose
/// names it matches.
pub struct Network {
    /// The minimum section size; every non-root section keeps at least this
    /// many members between steps.
    pub min_section_size: usize,
    /// The section tree.
    pub sections: Vec<Section>,
    /// Nodes relocated during the current step, waiting to rejoin.
    pub pending: Vec<Node>,
}

impl Network {
    /// Every name is matched by some section's prefix.
    pub open spec fn covers(ss: Seq<Section>, name: NN) -> bool {
        exists|i: int| 0 <= i < ss.len() && (#[trigger] ss[i]).0.spec_matches(name)
    }

    /// Sections are well-formed, pairwise incompatible, and every member
    /// name is matched by its own section's prefix.
    pub open spec fn sections_wf(ss: Seq<Section>) -> bool {
        &&& forall|i: int| 0 <= i < ss.len() ==> (#[trigger] ss[i]).0.wf()
        &&& forall|i: int| 0 <= i < ss.len() ==> (#[trigger] ss[i]).1.wf()
        &&& forall|i: int, j: int|
            #![trigger ss[i], ss[j]]
            0 <= i < j < ss.len() ==> !ss[i].0.spec_compatible(ss[j].0)
        &&& forall|i: int, t: int|
            #![trigger ss[i].1@[t]]
            0 <= i < ss.len() && 0 <= t < ss[i].1@.len() ==> ss[i].0.spec_matches(ss[i].1@[t].0)
    }

    /// The structural invariant: the prefixes are disjoint and cover the
    /// name space, and members sit in the sections that match their names.
    pub open spec fn wf(self) -> bool {
        &&& Self::sections_wf(self.sections@)
        &&& forall|name: NN| #[trigger] Self::covers(self.sections@, name)
    }

    /// Every non-root section holds at least the minimum number of members.
    pub open spec fn sizes_ok(self) -> bool {
        forall|i: int|
            0 <= i < self.sections@.len() ==> ((#[trigger] self.sections@[i]).0.bit_count > 0
                ==> self.sections@[i].1@.len() >= self.min_section_size)
    }

    /// The number of malicious nodes held anywhere: in sections or pending.
    pub open spec fn spec_mal_total(self) -> nat {
        sections_count(self.sections@, |nd: Node| nd.1.is_malicious) + count_nodes(
            self.pending@,
            |nd: Node| nd.1.is_malicious,
        )
    }

    /// The number of nodes held anywhere: in sections or pending.
    pub open spec fn spec_node_total(self) -> nat {
        sections_count(self.sections@, |nd: Node| true) + count_nodes(
            self.pending@,
            |nd: Node| true,
        )
    }

    /// The node of this name is a malicious member of the section with
    /// this prefix.
    pub open spec fn spec_has_malicious_member(self, p: Prefix, nm: NN) -> bool {
        exists|i: int, v: int|
            #![trigger self.sections@[i].1@[v]]
            {
                &&& 0 <= i < self.sections@.len()
                &&& self.sections@[i].0 == p
                &&& 0 <= v < self.sections@[i].1@.len()
                &&& self.sections@[i].1@[v].0 == nm
                &&& self.sections@[i].1@[v].1.is_malicious
            }
    }

    /// The sections partition the name space: every 64-bit name is
    /// matched by exactly one section's prefix.
    pub proof fn lemma_name_space_partition(self, name: NN)
        requires
            self.wf(),
        ensures
            exists|i: int|
                0 <= i < self.sections@.len() && (#[trigger] self.sections@[i]).0.spec_matches(
                    name,
                ),
            forall|i: int, j: int|
                #![trigger self.sections@[i], self.sections@[j]]
                0 <= i < self.sections@.len() && 0 <= j < self.sections@.len() && i != j
                    && self.sections@[i].0.spec_matches(name) ==> !self.sections@[j].0.spec_matches(
                    name,
                ),
    {
        assert(Self::covers(self.sections@, name));
        assert forall|i: int, j: int|
            #![trigger self.sections@[i], self.sections@[j]]
            0 <= i < self.sections@.len() && 0 <= j < self.sections@.len() && i != j
                && self.sections@[i].0.spec_matches(name) implies !self.sections@[j].0.spec_matches(
            name) by {
            if i < j {
                Self::lemma_sections_wf_incompat(self.sections@, i, j);
            } else {
                Self::lemma_sections_wf_incompat(self.sections@, j, i);
            }
            crate::node::lemma_incompatible_disjoint(
                self.sections@[i].0,
                self.sections@[j].0,
                name,
            );
        }
    }

    /// There is a section with exactly this prefix.
    pub open spec fn spec_has_prefix(self, p: Prefix) -> bool {
        exists|i: int| 0 <= i < self.sections@.len() && (#[trigger] self.sections@[i]).0 == p
    }

    /// Create. Specify the minimum section size. An initial, empty section
    /// at the root prefix covers the whole name space.
    pub fn new(min_section_size: usize) -> (net: Network)
        ensures
            net.wf(),
            net.sizes_ok(),
            net.min_section_size == min_section_size,
            net.sections@.len() == 1,
            net.sections@[0].1@.len() == 0,
            net.pending@.len() == 0,
            net.spec_mal_total() == 0,
            net.spec_node_total() == 0,
    {
        let root = Prefix::new(0, 0);
        let mut sections: Vec<Section> = Vec::new();
        sections.push((root, Group::new()));
        let net = Network { min_section_size, sections, pending: Vec::new() };
        proof {
            assert forall|name: NN| #[trigger] Self::covers(net.sections@, name) by {
                assert(root@ =~= name_bits(name).subrange(0, 0));
                assert(net.sections@[0].0.spec_matches(name));
            }
            assert(net.sections@.drop_last() =~= Seq::<Section>::empty());
            assert(sections_count(Seq::<Section>::empty(), |nd: Node| nd.1.is_malicious) == 0);
            assert(sections_count(Seq::<Section>::empty(), |nd: Node| true) == 0);
            assert(count_nodes(net.sections@.last().1@, |nd: Node| nd.1.is_malicious) == 0);
            assert(count_nodes(net.sections@.last().1@, |nd: Node| true) == 0);
            assert(count_nodes(net.pending@, |nd: Node| nd.1.is_malicious) == 0);
            assert(count_nodes(net.pending@, |nd: Node| true) == 0);
        }
        net
    }

    /// Access the sections.
    pub fn groups(&self) -> (r: &Vec<Section>)
        ensures
            r@ == self.sections@,
    {
        &self.sections
    }

    /// The index of the section whose prefix matches this name; unique by
    /// disjointness of the prefixes.
    pub fn find_idx(&self, name: NN) -> (r: usize)
        requires
            self.wf(),
        ensures
            r < self.sections@.len(),
            self.sections@[r as int].0.spec_matches(name),
    {
        let mut i: usize = 0;
        while i < self.sections.len()
            invariant
                self.wf(),
                i <= self.sections@.len(),
                forall|t: int|
                    0 <= t < i ==> !(#[trigger] self.sections@[t]).0.spec_matches(name),
            decreases self.sections@.len() - i,
        {
            let p = self.sections[i].0;
            if p.matches(name) {
                return i;
            }
            i += 1;
        }
        proof {
            assert(Self::covers(self.sections@, name));
            let w = choose|w: int|
                0 <= w < self.sections@.len() && (#[trigger] self.sections@[w]).0.spec_matches(
                    name,
                );
            assert(!self.sections@[w].0.spec_matches(name));
        }
        0
    }

    /// Get the prefix of the section to which this name belongs.
    pub fn find_prefix(&self, name: NN) -> (r: Prefix)
        requires
            self.wf(),
        ensures
            self.spec_has_prefix(r),
            r.wf(),
            r.spec_matches(name),
    {
        let i = self.find_idx(name);
        self.sections[i].0
    }

    /// A fresh name is acceptable for this node at section `i`: no
    /// collision, and the section is either small or passes the restriction.
    pub open spec fn accepts_at<AR: AddRestriction>(
        self,
        i: int,
        name: NN,
        data: NodeData,
    ) -> bool {
        &&& 0 <= i < self.sections@.len()
        &&& self.sections@[i].0.spec_matches(name)
        &&& !seq_has_name(self.sections@[i].1@, name)
        &&& (self.sections@[i].1@.len() <= self.min_section_size || AR::spec_can_add(
            data,
            self.sections@[i].1@,
        ))
    }


    /// A prefix can occur at only one section index: any two sections'
    /// prefixes are incompatible, and a prefix is compatible with itself.
    pub proof fn lemma_prefix_unique(self, i: int, j: int)
        requires
            Self::sections_wf(self.sections@),
            0 <= i < self.sections@.len(),
            0 <= j < self.sections@.len(),
            self.sections@[i].0 == self.sections@[j].0,
        ensures
            i == j,
    {
        if i != j {
            let p = self.sections@[i].0;
            assert(p@.is_prefix_of(p@)) by {
                assert(p@ =~= p@.subrange(0, p@.len() as int));
            }
        }
    }

    /// Locate the section with exactly this prefix.
    fn find_exact(&self, prefix: Prefix) -> (r: Option<usize>)
        ensures
            match r {
                Some(i) => i < self.sections@.len() && self.sections@[i as int].0 == prefix,
                None => forall|t: int|
                    0 <= t < self.sections@.len() ==> (#[trigger] self.sections@[t]).0 != prefix,
            },
    {
        let mut i: usize = 0;
        while i < self.sections.len()
            invariant
                i <= self.sections@.len(),
                forall|t: int| 0 <= t < i ==> (#[trigger] self.sections@[t]).0 != prefix,
            decreases self.sections@.len() - i,
        {
            if self.sections[i].0 == prefix {
                return Some(i);
            }
            i += 1;
        }
        None
    }

    /// The section at index `i` is large enough to split: both of the two
    /// one-bit extensions of its prefix would keep strictly more than the
    /// minimum number of members.
    pub open spec fn spec_needs_split(self, i: int) -> bool {
        let p = self.sections@[i].0;
        let g = self.sections@[i].1@;
        let half = count_nodes(g, |nd: Node| p.spec_pushed(false).spec_matches(nd.0));
        &&& p.bit_count < 64
        &&& half >= self.min_section_size + 1
        &&& g.len() - half >= self.min_section_size + 1
    }

    /// Check whether the section with this prefix needs splitting; a
    /// prefix that is not present needs none.
    pub fn need_split(&self, prefix: Prefix) -> (r: bool)
        requires
            self.wf(),
            prefix.wf(),
        ensures
            r == exists|i: int|
                0 <= i < self.sections@.len() && (#[trigger] self.sections@[i]).0 == prefix
                    && self.spec_needs_split(i),
    {
        let idx = match self.find_exact(prefix) {
            Some(i) => i,
            None => {
                return false;
            },
        };
        if prefix.bit_count() >= 64 {
            return false;
        }
        let p0 = prefix.pushed(false);
        let group = &self.sections[idx].1;
        let size_all = group.len();
        let size0 = group.count_matching(p0);
        proof {
            lemma_count_le_len(group@, |nd: Node| p0.spec_matches(nd.0));
        }
        let r = size0 > self.min_section_size && size_all - size0 > self.min_section_size;
        proof {
            assert forall|j: int|
                0 <= j < self.sections@.len() && (#[trigger] self.sections@[j]).0 == prefix
                    && self.spec_needs_split(j) implies r by {
                self.lemma_prefix_unique(idx as int, j);
            }
            if r {
                assert(self.sections@[idx as int].0 == prefix && self.spec_needs_split(idx as int));
            }
        }
        r
    }

    /// One bit more of prefix stays incompatible with everything the
    /// parent was incompatible with.
    proof fn lemma_child_incompatible(parent: Prefix, cb: bool, child: Prefix, other: Prefix)
        requires
            child@ == parent@.push(cb),
            !parent.spec_compatible(other),
        ensures
            !child.spec_compatible(other),
    {
        assert(parent@.is_prefix_of(child@)) by {
            assert(parent@ =~= child@.subrange(0, parent@.len() as int));
        }
        if child@.is_prefix_of(other@) {
            crate::node::lemma_prefix_trans(parent@, child@, other@);
        }
        if other@.is_prefix_of(child@) {
            if other@.len() <= parent@.len() {
                crate::node::lemma_two_prefixes(other@, parent@, child@);
            } else {
                assert(other@ =~= child@);
            }
        }
    }

    /// Do a split: replace the section with this prefix by its two one-bit
    /// extensions, partitioning the members by their next name bit, and
    /// notify the attacker of each malicious member's move. Returns the
    /// prefixes of the two new sections, or an error (leaving the network
    /// unchanged) if no section has this prefix.
    pub fn do_split<A: crate::attack::AttackStrategy>(
        &mut self,
        prefix: Prefix,
        attack: &mut A,
    ) -> (r: Result<(Prefix, Prefix), crate::Error>)
        requires
            old(self).wf(),
            old(attack).inv(),
            prefix.wf(),
            prefix.bit_count < 64,
        ensures
            final(attack).inv(),
            final(self).wf(),
            final(self).min_section_size == old(self).min_section_size,
            final(self).pending@ == old(self).pending@,
            match r {
                Ok(pp) => {
                    &&& pp.0 == prefix.spec_pushed(false)
                    &&& pp.1 == prefix.spec_pushed(true)
                    &&& pp.0@ == prefix@.push(false)
                    &&& pp.1@ == prefix@.push(true)
                    &&& pp.0.wf()
                    &&& pp.1.wf()
                    &&& final(self).spec_mal_total() == old(self).spec_mal_total()
                    &&& final(self).spec_node_total() == old(self).spec_node_total()
                    &&& exists|i: int|
                        {
                            &&& 0 <= i < old(self).sections@.len()
                            &&& (#[trigger] old(self).sections@[i]).0 == prefix
                            &&& final(self).sections@ == old(self).sections@.take(i) + seq![
                                (pp.0, final(self).sections@[i].1),
                                (pp.1, final(self).sections@[i + 1].1),
                            ] + old(self).sections@.skip(i + 1)
                            &&& final(self).sections@[i].1@.len() == count_nodes(
                                old(self).sections@[i].1@,
                                |nd: Node| prefix.spec_pushed(false).spec_matches(nd.0),
                            )
                            &&& final(self).sections@[i].1@.len() + final(self).sections@[i
                                + 1].1@.len() == old(self).sections@[i].1@.len()
                            &&& final(self).sections@[i].1@.to_multiset().add(
                                final(self).sections@[i + 1].1@.to_multiset(),
                            ) == old(self).sections@[i].1@.to_multiset()
                        }
                },
                Err(e) => {
                    &&& e == crate::Error::NotFound
                    &&& *final(self) == *old(self)
                    &&& !old(self).spec_has_prefix(prefix)
                },
            },
    {
        let idx = match self.find_exact(prefix) {
            Some(i) => i,
            None => {
                proof {
                    if old(self).spec_has_prefix(prefix) {
                        let w = choose|w: int|
                            0 <= w < self.sections@.len() && (#[trigger] self.sections@[w]).0
                                == prefix;
                        assert(self.sections@[w].0 != prefix);
                    }
                }
                return Err(crate::Error::NotFound);
            },
        };
        let p0 = prefix.pushed(false);
        let p1 = prefix.pushed(true);
        proof {
            assert(idx < self.sections.len());
        }
        let entry = self.sections.remove(idx);
        let old_group = entry.1;
        let n = old_group.len();
        let mut g0 = Group::new();
        let mut g1 = Group::new();
        let mut t: usize = 0;
        let ghost fmal = |nd: Node| nd.1.is_malicious;
        let ghost fall = |nd: Node| true;
        let ghost fm0 = |nd: Node| p0.spec_matches(nd.0);
        proof {
            broadcast use vstd::multiset::group_multiset_axioms;

            g0@.to_multiset_ensures();
            g1@.to_multiset_ensures();
            old_group@.take(0).to_multiset_ensures();
            assert(g0@.to_multiset().add(g1@.to_multiset()) =~= old_group@.take(
                0,
            ).to_multiset());
        }
        while t < n
            invariant
                0 <= t <= n,
                n == old_group@.len(),
                old_group.wf(),
                p0.wf(),
                p1.wf(),
                p0 == prefix.spec_pushed(false),
                p1 == prefix.spec_pushed(true),
                p0@ == prefix@.push(false),
                p1@ == prefix@.push(true),
                prefix.wf(),
                prefix.bit_count < 64,
                forall|u: int|
                    0 <= u < old_group@.len() ==> prefix.spec_matches(
                        (#[trigger] old_group@[u]).0,
                    ),
                g0.wf(),
                g1.wf(),
                forall|u: int| 0 <= u < g0@.len() ==> p0.spec_matches((#[trigger] g0@[u]).0),
                forall|u: int| 0 <= u < g1@.len() ==> p1.spec_matches((#[trigger] g1@[u]).0),
                forall|u: int, w: int|
                    #![trigger g0@[u], old_group@[w]]
                    0 <= u < g0@.len() && t <= w < n ==> g0@[u].0 < old_group@[w].0,
                forall|u: int, w: int|
                    #![trigger g1@[u], old_group@[w]]
                    0 <= u < g1@.len() && t <= w < n ==> g1@[u].0 < old_group@[w].0,
                count_nodes(g0@, fmal) + count_nodes(g1@, fmal) == count_nodes(
                    old_group@.take(t as int),
                    fmal,
                ),
                count_nodes(g0@, fall) + count_nodes(g1@, fall) == count_nodes(
                    old_group@.take(t as int),
                    fall,
                ),
                g0@.to_multiset().add(g1@.to_multiset()) == old_group@.take(
                    t as int,
                ).to_multiset(),
                g0@.len() + g1@.len() == t,
                g0@.len() == count_nodes(old_group@.take(t as int), fm0),
                fmal == (|nd: Node| nd.1.is_malicious),
                fall == (|nd: Node| true),
                fm0 == (|nd: Node| p0.spec_matches(nd.0)),
                idx < old(self).sections@.len(),
                idx + 1 <= usize::MAX,
                self.sections@ == old(self).sections@.remove(idx as int),
                self.min_section_size == old(self).min_section_size,
                self.pending@ == old(self).pending@,
            decreases n - t,
        {
            let (nm, d) = old_group.node_at(t);
            proof {
                lemma_count_take_step(old_group@, t as int, fmal);
                lemma_count_take_step(old_group@, t as int, fall);
                lemma_count_take_step(old_group@, t as int, fm0);
                assert(prefix.spec_matches(nm));
                crate::node::lemma_push_prefix(prefix@, false, name_bits(nm));
                crate::node::lemma_push_prefix(prefix@, true, name_bits(nm));
            }
            if p0.matches(nm) {
                proof {
                    broadcast use vstd::multiset::group_multiset_axioms;

                    lemma_count_insert(g0@, g0@.len() as int, (nm, d), fmal);
                    lemma_count_insert(g0@, g0@.len() as int, (nm, d), fall);
                    assert(g0@.insert(g0@.len() as int, (nm, d)) =~= g0@.push((nm, d)));
                    g0@.to_multiset_ensures();
                    old_group@.take(t as int).to_multiset_ensures();
                    assert(old_group@.take(t + 1) =~= old_group@.take(t as int).push(
                        old_group@[t as int],
                    ));
                    assert(g0@.push((nm, d)).to_multiset().add(g1@.to_multiset())
                        =~= old_group@.take(t + 1).to_multiset());
                }
                g0.nodes.push((nm, d));
            } else {
                proof {
                    broadcast use vstd::multiset::group_multiset_axioms;

                    assert(p1.spec_matches(nm));
                    lemma_count_insert(g1@, g1@.len() as int, (nm, d), fmal);
                    lemma_count_insert(g1@, g1@.len() as int, (nm, d), fall);
                    assert(g1@.insert(g1@.len() as int, (nm, d)) =~= g1@.push((nm, d)));
                    g1@.to_multiset_ensures();
                    old_group@.take(t as int).to_multiset_ensures();
                    assert(old_group@.take(t + 1) =~= old_group@.take(t as int).push(
                        old_group@[t as int],
                    ));
                    assert(g0@.to_multiset().add(g1@.push((nm, d)).to_multiset())
                        =~= old_group@.take(t + 1).to_multiset());
                }
                g1.nodes.push((nm, d));
            }
            t += 1;
        }
        proof {
            assert(old_group@.take(n as int) =~= old_group@);
        }
        // Notify the attacker for each malicious member, in a
        // deterministic pass over the two halves.
        let mut t2: usize = 0;
        while t2 < g0.len()
            invariant
                attack.inv(),
                prefix.wf(),
                p0.wf(),
            decreases g0@.len() - t2,
        {
            let (nm, d) = g0.node_at(t2);
            if d.is_malicious() {
                attack.on_split(prefix, p0, nm, &d);
            }
            t2 += 1;
        }
        let mut t3: usize = 0;
        while t3 < g1.len()
            invariant
                attack.inv(),
                prefix.wf(),
                p1.wf(),
            decreases g1@.len() - t3,
        {
            let (nm, d) = g1.node_at(t3);
            if d.is_malicious() {
                attack.on_split(prefix, p1, nm, &d);
            }
            t3 += 1;
        }
        self.sections.insert(idx, (p0, g0));
        self.sections.insert(idx + 1, (p1, g1));
        proof {
            let ss0 = old(self).sections@;
            let ss1 = self.sections@;
            let i = idx as int;
            assert(ss1 =~= ss0.take(i) + seq![ss1[i], ss1[i + 1]] + ss0.skip(i + 1));
            // Well-formedness of the new section list.
            assert forall|a: int, b: int|
                #![trigger ss1[a], ss1[b]]
                0 <= a < b < ss1.len() implies !ss1[a].0.spec_compatible(ss1[b].0) by {
                let pa = ss1[a].0;
                let pb = ss1[b].0;
                if a == i && b == i + 1 {
                    crate::node::lemma_siblings_incompatible(prefix@);
                } else if a == i || a == i + 1 {
                    assert(ss1[b] == ss0[b - 1]);
                    assert(!prefix.spec_compatible(ss0[b - 1].0)) by {
                        Self::lemma_sections_wf_incompat(ss0, i, b - 1);
                    }
                    Self::lemma_child_incompatible(
                        prefix,
                        if a == i {
                            false
                        } else {
                            true
                        },
                        pa,
                        pb,
                    );
                } else if b == i || b == i + 1 {
                    let oa = if a < i { a } else { a - 1 };
                    assert(ss1[a] == ss0[oa]);
                    assert(!prefix.spec_compatible(ss0[oa].0)) by {
                        Self::lemma_sections_wf_incompat(ss0, i, oa);
                    }
                    Self::lemma_child_incompatible(
                        prefix,
                        if b == i {
                            false
                        } else {
                            true
                        },
                        pb,
                        pa,
                    );
                } else {
                    let oa = if a < i { a } else { a - 1 };
                    let ob = if b < i { b } else { b - 1 };
                    assert(ss1[a] == ss0[oa]);
                    assert(ss1[b] == ss0[ob]);
                    Self::lemma_sections_wf_incompat(ss0, oa, ob);
                }
            }
            // Coverage.
            assert forall|name: NN| #[trigger] Self::covers(ss1, name) by {
                assert(Self::covers(ss0, name));
                let w = choose|w: int|
                    0 <= w < ss0.len() && (#[trigger] ss0[w]).0.spec_matches(name);
                if w < i {
                    assert(ss1[w] == ss0[w]);
                    assert(ss1[w].0.spec_matches(name));
                } else if w > i {
                    assert(ss1[w + 1] == ss0[w]);
                    assert(ss1[w + 1].0.spec_matches(name));
                } else {
                    crate::node::lemma_push_prefix(prefix@, false, name_bits(name));
                    crate::node::lemma_push_prefix(prefix@, true, name_bits(name));
                    if name_bits(name)[prefix@.len() as int] == false {
                        assert(ss1[i].0.spec_matches(name));
                    } else {
                        assert(ss1[i + 1].0.spec_matches(name));
                    }
                }
            }
            // Totals.
            lemma_sections_count_remove(ss0, i, fmal);
            lemma_sections_count_insert(ss0.remove(i), i, (p0, g0), fmal);
            lemma_sections_count_insert(ss0.remove(i).insert(i, (p0, g0)), i + 1, (p1, g1), fmal);
            assert(ss1 =~= ss0.remove(i).insert(i, (p0, g0)).insert(i + 1, (p1, g1)));
            lemma_sections_count_remove(ss0, i, fall);
            lemma_sections_count_insert(ss0.remove(i), i, (p0, g0), fall);
            lemma_sections_count_insert(ss0.remove(i).insert(i, (p0, g0)), i + 1, (p1, g1), fall);
            // Membership: members of the two new sections match their own
            // prefixes; every other section is unchanged.
            assert forall|a: int, u: int|
                #![trigger ss1[a].1@[u]]
                0 <= a < ss1.len() && 0 <= u < ss1[a].1@.len() implies ss1[a].0.spec_matches(
                ss1[a].1@[u].0) by {
                if a < i {
                    assert(ss1[a] == ss0[a]);
                    assert(ss0[a].0.spec_matches(ss0[a].1@[u].0));
                } else if a > i + 1 {
                    assert(ss1[a] == ss0[a - 1]);
                    assert(ss0[a - 1].0.spec_matches(ss0[a - 1].1@[u].0));
                }
            }
            assert forall|a: int| 0 <= a < ss1.len() implies (#[trigger] ss1[a]).0.wf()
                && ss1[a].1.wf() by {
                if a < i {
                    assert(ss1[a] == ss0[a]);
                } else if a > i + 1 {
                    assert(ss1[a] == ss0[a - 1]);
                }
            }
            assert(old(self).sections@[i].0 == prefix);
        }
        Ok((p0, p1))
    }

    /// Incompatibility of two distinct section prefixes, in either order.
    proof fn lemma_sections_wf_incompat(ss: Seq<Section>, a: int, b: int)
        requires
            Self::sections_wf(ss),
            0 <= a < ss.len(),
            0 <= b < ss.len(),
            a != b,
        ensures
            !ss[a].0.spec_compatible(ss[b].0),
    {
    }


    /// One churn pass over a section snapshot: every member except the one
    /// named `skip` has its churn counter stepped.
    pub open spec fn churn_pass(s: Seq<Node>, skip: NN) -> Seq<Node> {
        Seq::new(
            s.len(),
            |t: int|
                if s[t].0 == skip {
                    s[t]
                } else {
                    (s[t].0, churned_data(s[t].1))
                },
        )
    }

    /// Some member other than the trigger became eligible for relocation.
    pub open spec fn any_churn_candidate(s: Seq<Node>, skip: NN) -> bool {
        exists|t: int| 0 <= t < s.len() && (#[trigger] s[t]).0 != skip && churn_eligible(s[t].1)
    }

    /// Index `c` holds the member that the churn relocates or ages: not the
    /// trigger, eligible, and of maximal stepped churn count; ties go to
    /// the earliest index.
    pub open spec fn is_churn_candidate(s: Seq<Node>, skip: NN, c: int) -> bool {
        &&& 0 <= c < s.len()
        &&& s[c].0 != skip
        &&& churn_eligible(s[c].1)
        &&& forall|t: int|
            0 <= t < s.len() && (#[trigger] s[t]).0 != skip && churn_eligible(s[t].1)
                ==> churned_data(s[t].1).churns < churned_data(s[c].1).churns || (churned_data(
                s[t].1,
            ).churns == churned_data(s[c].1).churns && c <= t)
    }

    /// A churn pass changes no member's name or allegiance, so counts of
    /// members and of malicious members are unchanged.
    proof fn lemma_churn_pass_counts(s: Seq<Node>, skip: NN)
        ensures
            count_nodes(Self::churn_pass(s, skip), |nd: Node| nd.1.is_malicious) == count_nodes(
                s,
                |nd: Node| nd.1.is_malicious,
            ),
            count_nodes(Self::churn_pass(s, skip), |nd: Node| true) == count_nodes(
                s,
                |nd: Node| true,
            ),
        decreases s.len(),
    {
        if s.len() > 0 {
            Self::lemma_churn_pass_counts(s.drop_last(), skip);
            assert(Self::churn_pass(s, skip).drop_last() =~= Self::churn_pass(
                s.drop_last(),
                skip,
            ));
        }
    }

    /// An eligible node's age is small: its stepped churn counter reaches
    /// `2^age` although the counter type tops out below `2^32`.
    pub proof fn lemma_eligible_age_small(d: NodeData)
        requires
            churn_eligible(d),
        ensures
            d.age < 32,
    {
        if d.age >= 32 {
            vstd::arithmetic::power2::lemma2_to64();
            if d.age > 32 {
                vstd::arithmetic::power2::lemma_pow2_strictly_increases(32, d.age as nat);
            }
        }
    }

    /// Do a group churn event. The churn affects all members of the
    /// section with this prefix except the node causing it, `new_node`:
    /// each other member's churn counter is stepped. Among the members
    /// that thereby became eligible for relocation, the one with the most
    /// churns (ties to iteration order) is relocated: removed and returned
    /// with its age incremented — unless the section is at minimum size,
    /// in which case it ages in place and stays. The caller gives the
    /// returned node a fresh name and re-adds it.
    pub fn churn(&mut self, prefix: Prefix, new_node: NN) -> (r: Option<Node>)
        requires
            old(self).wf(),
        ensures
            final(self).wf(),
            final(self).min_section_size == old(self).min_section_size,
            final(self).pending@ == old(self).pending@,
            final(self).sections@.len() == old(self).sections@.len(),
            old(self).sizes_ok() ==> final(self).sizes_ok(),
            !old(self).spec_has_prefix(prefix) ==> *final(self) == *old(self) && r is None,
            match r {
                Some(nd) => final(self).spec_mal_total() + (if nd.1.is_malicious {
                    1nat
                } else {
                    0nat
                }) == old(self).spec_mal_total() && final(self).spec_node_total() + 1 == old(self).spec_node_total(),
                None => final(self).spec_mal_total() == old(self).spec_mal_total()
                    && final(self).spec_node_total() == old(self).spec_node_total(),
            },
            old(self).spec_has_prefix(prefix) ==> exists|i: int|
                {
                    let s = (#[trigger] old(self).sections@[i]).1@;
                    let cp = Self::churn_pass(s, new_node);
                    &&& 0 <= i < old(self).sections@.len()
                    &&& old(self).sections@[i].0 == prefix
                    &&& forall|t: int|
                        0 <= t < old(self).sections@.len() && t != i
                            ==> final(self).sections@[t] == old(self).sections@[t]
                    &&& final(self).sections@[i].0 == prefix
                    &&& match r {
                        None => {
                            ||| (!Self::any_churn_candidate(s, new_node)
                                && final(self).sections@[i].1@ == cp)
                            ||| (s.len() <= old(self).min_section_size && exists|c: int|
                                Self::is_churn_candidate(s, new_node, c) && final(self).sections@[i].1@
                                    == cp.update(
                                    c,
                                    (
                                        s[c].0,
                                        NodeData {
                                            age: (s[c].1.age + 1) as u32,
                                            ..churned_data(s[c].1)
                                        },
                                    ),
                                ))
                        },
                        Some(nd) => {
                            &&& s.len() > old(self).min_section_size
                            &&& exists|c: int|
                                {
                                    &&& Self::is_churn_candidate(s, new_node, c)
                                    &&& nd == (
                                        s[c].0,
                                        NodeData {
                                            age: (s[c].1.age + 1) as u32,
                                            ..churned_data(s[c].1)
                                        },
                                    )
                                    &&& nd.1.age == s[c].1.age + 1
                                    &&& final(self).sections@[i].1@ == cp.remove(c)
                                }
                        },
                    }
                },
    {
        let idx = match self.find_exact(prefix) {
            Some(i) => i,
            None => {
                proof {
                    if old(self).spec_has_prefix(prefix) {
                        let w = choose|w: int|
                            0 <= w < self.sections@.len() && (#[trigger] self.sections@[w]).0
                                == prefix;
                        assert(self.sections@[w].0 != prefix);
                    }
                }
                return None;
            },
        };
        proof {
            assert(idx < self.sections.len());
        }
        let (epfx, mut egrp) = self.sections.remove(idx);
        let ghost s = egrp@;
        let n = egrp.len();
        let mut best_idx: usize = 0;
        let mut best_churns: u32 = 0;
        let mut have_best: bool = false;
        let mut t: usize = 0;
        while t < n
            invariant
                0 <= t <= n,
                n == egrp@.len(),
                n == s.len(),
                egrp.wf(),
                forall|u: int| 0 <= u < n ==> (#[trigger] egrp@[u]).0 == s[u].0,
                forall|u: int| 0 <= u < t ==> #[trigger] egrp@[u] == Self::churn_pass(s, new_node)[u],
                forall|u: int| t <= u < n ==> #[trigger] egrp@[u] == s[u],
                !have_best ==> forall|u: int|
                    0 <= u < t ==> !((#[trigger] s[u]).0 != new_node && churn_eligible(s[u].1)),
                have_best ==> {
                    &&& 0 <= best_idx < t
                    &&& s[best_idx as int].0 != new_node
                    &&& churn_eligible(s[best_idx as int].1)
                    &&& best_churns == churned_data(s[best_idx as int].1).churns
                    &&& forall|u: int|
                        0 <= u < t && (#[trigger] s[u]).0 != new_node && churn_eligible(s[u].1)
                            ==> churned_data(s[u].1).churns < best_churns || (churned_data(
                            s[u].1,
                        ).churns == best_churns && best_idx <= u)
                },
            decreases n - t,
        {
            let (nm, d) = egrp.node_at(t);
            if nm != new_node {
                let mut dd = d;
                let can = dd.churn_and_can_age();
                egrp.update_at(t, dd);
                if can {
                    if !have_best {
                        have_best = true;
                        best_idx = t;
                        best_churns = dd.churns();
                    } else if dd.churns() > best_churns {
                        best_idx = t;
                        best_churns = dd.churns();
                    }
                }
            }
            t += 1;
        }
        proof {
            assert(egrp@ =~= Self::churn_pass(s, new_node));
        }
        if !have_best {
            self.sections.insert(idx, (epfx, egrp));
            proof {
                let ss1 = old(self).sections@;
                assert(self.sections@ =~= ss1.update(idx as int, (epfx, egrp)));
                assert forall|u: int| 0 <= u < egrp@.len() implies epfx.spec_matches(
                    (#[trigger] egrp@[u]).0) by {
                    assert(egrp@[u].0 == s[u].0);
                    assert(old(self).sections@[idx as int].0.spec_matches(s[u].0));
                }
                self.lemma_after_group_update(*old(self), idx as int, epfx, egrp@, s);
                let fmal = |nd: Node| nd.1.is_malicious;
                let fall = |nd: Node| true;
                Self::lemma_churn_pass_counts(s, new_node);
                lemma_sections_count_update(ss1, idx as int, (epfx, egrp), fmal);
                lemma_sections_count_update(ss1, idx as int, (epfx, egrp), fall);
                assert(old(self).sections@[idx as int].0 == prefix);
            }
            return None;
        }
        let ghost c = best_idx as int;
        proof {
            Self::lemma_eligible_age_small(s[c].1);
            assert(Self::is_churn_candidate(s, new_node, c));
        }
        let ghost aged = NodeData { age: (s[c].1.age + 1) as u32, ..churned_data(s[c].1) };
        if n <= self.min_section_size {
            let (_, d) = egrp.node_at(best_idx);
            let mut dd = d;
            dd.incr_age();
            egrp.update_at(best_idx, dd);
            self.sections.insert(idx, (epfx, egrp));
            proof {
                let ss1 = old(self).sections@;
                let cp = Self::churn_pass(s, new_node);
                assert(self.sections@ =~= ss1.update(idx as int, (epfx, egrp)));
                assert(egrp@ =~= cp.update(c, (s[c].0, aged)));
                assert forall|u: int| 0 <= u < egrp@.len() implies epfx.spec_matches(
                    (#[trigger] egrp@[u]).0) by {
                    assert(egrp@[u].0 == s[u].0);
                    assert(old(self).sections@[idx as int].0.spec_matches(s[u].0));
                }
                self.lemma_after_group_update(*old(self), idx as int, epfx, egrp@, s);
                let fmal = |nd: Node| nd.1.is_malicious;
                let fall = |nd: Node| true;
                Self::lemma_churn_pass_counts(s, new_node);
                lemma_count_update(cp, c, (s[c].0, aged), fmal);
                lemma_count_update(cp, c, (s[c].0, aged), fall);
                lemma_sections_count_update(ss1, idx as int, (epfx, egrp), fmal);
                lemma_sections_count_update(ss1, idx as int, (epfx, egrp), fall);
                assert(old(self).sections@[idx as int].0 == prefix);
            }
            None
        } else {
            let node = egrp.remove_at(best_idx);
            let mut dd = node.1;
            dd.incr_age();
            self.sections.insert(idx, (epfx, egrp));
            proof {
                let ss1 = old(self).sections@;
                let cp = Self::churn_pass(s, new_node);
                assert(self.sections@ =~= ss1.update(idx as int, (epfx, egrp)));
                assert(egrp@ =~= cp.remove(c));
                assert forall|u: int| 0 <= u < egrp@.len() implies epfx.spec_matches(
                    (#[trigger] egrp@[u]).0) by {
                    if u < c {
                        assert(egrp@[u].0 == s[u].0);
                        assert(old(self).sections@[idx as int].0.spec_matches(s[u].0));
                    } else {
                        assert(egrp@[u].0 == s[u + 1].0);
                        assert(old(self).sections@[idx as int].0.spec_matches(s[u + 1].0));
                    }
                }
                self.lemma_after_group_update(*old(self), idx as int, epfx, egrp@, s);
                let fmal = |nd: Node| nd.1.is_malicious;
                let fall = |nd: Node| true;
                Self::lemma_churn_pass_counts(s, new_node);
                lemma_count_remove(cp, c, fmal);
                lemma_count_remove(cp, c, fall);
                lemma_sections_count_update(ss1, idx as int, (epfx, egrp), fmal);
                lemma_sections_count_update(ss1, idx as int, (epfx, egrp), fall);
                assert(old(self).sections@[idx as int].0 == prefix);
                assert((node.0, dd) == (s[c].0, aged));
            }
            Some((node.0, dd))
        }
    }

    /// After taking out the section at `i` and putting back a group with
    /// the same prefix and the same member names (or a subset), the
    /// structural invariant and the counting totals relate as expected.
    proof fn lemma_after_group_update(
        self,
        pre: Network,
        i: int,
        epfx: Prefix,
        g: Seq<Node>,
        s: Seq<Node>,
    )
        requires
            Network::sections_wf(pre.sections@),
            forall|name: NN| #[trigger] Network::covers(pre.sections@, name),
            0 <= i < pre.sections@.len(),
            pre.sections@[i].0 == epfx,
            pre.sections@[i].1@ == s,
            self.sections@.len() == pre.sections@.len(),
            forall|t: int| 0 <= t < pre.sections@.len() && t != i ==> self.sections@[t]
                == pre.sections@[t],
            self.sections@[i].0 == epfx,
            self.sections@[i].1@ == g,
            self.sections@[i].1.wf(),
            forall|u: int| 0 <= u < g.len() ==> epfx.spec_matches((#[trigger] g[u]).0),
        ensures
            self.wf(),
    {
        assert forall|a: int, b: int|
            #![trigger self.sections@[a], self.sections@[b]]
            0 <= a < b < self.sections@.len() implies !self.sections@[a].0.spec_compatible(
            self.sections@[b].0) by {
            assert(pre.sections@[a].0 == self.sections@[a].0);
            assert(pre.sections@[b].0 == self.sections@[b].0);
        }
        assert forall|a: int, u: int|
            #![trigger self.sections@[a].1@[u]]
            0 <= a < self.sections@.len() && 0 <= u < self.sections@[a].1@.len() implies self
            .sections@[a].0.spec_matches(self.sections@[a].1@[u].0) by {
            if a == i {
                assert(epfx.spec_matches(g[u].0));
            } else {
                assert(pre.sections@[a].0.spec_matches(pre.sections@[a].1@[u].0));
            }
        }
        assert forall|name: NN| #[trigger] Network::covers(self.sections@, name) by {
            assert(Network::covers(pre.sections@, name));
            let w = choose|w: int|
                0 <= w < pre.sections@.len() && (#[trigger] pre.sections@[w]).0.spec_matches(name);
            assert(self.sections@[w].0.spec_matches(name));
        }
        assert forall|a: int| 0 <= a < self.sections@.len() implies (#[trigger] self.sections@[a]).0.wf()
            && self.sections@[a].1.wf() by {
            if a != i {
                assert(self.sections@[a] == pre.sections@[a]);
            }
            assert(pre.sections@[a].0.wf());
        }
    }


    /// Check `need_split` and if so split. Returns the prefix matching
    /// `name`: one of the two new halves, or the input prefix if no split
    /// occurs.
    #[verifier::rlimit(100)]
    pub fn maybe_split<A: crate::attack::AttackStrategy>(
        &mut self,
        prefix: Prefix,
        name: NN,
        attack: &mut A,
    ) -> (r: Prefix)
        requires
            old(self).wf(),
            old(attack).inv(),
            prefix.wf(),
            prefix.spec_matches(name),
            old(self).spec_has_prefix(prefix),
        ensures
            final(attack).inv(),
            final(self).wf(),
            final(self).min_section_size == old(self).min_section_size,
            final(self).pending@ == old(self).pending@,
            final(self).spec_mal_total() == old(self).spec_mal_total(),
            final(self).spec_node_total() == old(self).spec_node_total(),
            r.wf(),
            r.spec_matches(name),
            final(self).spec_has_prefix(r),
            old(self).sizes_ok() ==> final(self).sizes_ok(),
            !(exists|i: int|
                0 <= i < old(self).sections@.len() && (#[trigger] old(self).sections@[i]).0
                    == prefix && old(self).spec_needs_split(i)) ==> (*final(self) == *old(self)
                && r == prefix),
            (exists|i: int|
                0 <= i < old(self).sections@.len() && (#[trigger] old(self).sections@[i]).0
                    == prefix && old(self).spec_needs_split(i)) ==> (r == prefix.spec_pushed(false)
                || r == prefix.spec_pushed(true)),
    {
        if !self.need_split(prefix) {
            proof {
                let w = choose|w: int|
                    0 <= w < self.sections@.len() && (#[trigger] self.sections@[w]).0 == prefix;
                assert(self.sections@[w].0 == prefix);
            }
            return prefix;
        }
        let ghost pre = *self;
        let ghost wns = choose|i: int|
            0 <= i < pre.sections@.len() && (#[trigger] pre.sections@[i]).0 == prefix
                && pre.spec_needs_split(i);
        proof {
            assert(prefix.bit_count < 64);
        }
        match self.do_split::<A>(prefix, attack) {
            Ok((p0, p1)) => {
                proof {
                    let i = choose|i: int|
                        {
                            &&& 0 <= i < pre.sections@.len()
                            &&& (#[trigger] pre.sections@[i]).0 == prefix
                            &&& self.sections@ == pre.sections@.take(i) + seq![
                                (p0, self.sections@[i].1),
                                (p1, self.sections@[i + 1].1),
                            ] + pre.sections@.skip(i + 1)
                            &&& self.sections@[i].1@.len() == count_nodes(
                                pre.sections@[i].1@,
                                |nd: Node| prefix.spec_pushed(false).spec_matches(nd.0),
                            )
                            &&& self.sections@[i].1@.len() + self.sections@[i + 1].1@.len()
                                == pre.sections@[i].1@.len()
                        };
                    pre.lemma_prefix_unique(i, wns);
                    // Both halves keep more than the minimum, so sizes stay
                    // in order.
                    if pre.sizes_ok() {
                        assert forall|t: int|
                            0 <= t < self.sections@.len() implies ((#[trigger] self.sections@[t]).0.bit_count
                            > 0 ==> self.sections@[t].1@.len() >= self.min_section_size) by {
                            if t < i {
                                assert(self.sections@[t] == pre.sections@[t]);
                            } else if t > i + 1 {
                                assert(self.sections@[t] == pre.sections@[t - 1]);
                            }
                        }
                    }
                    assert(self.sections@[i].0 == p0);
                    assert(self.sections@[i + 1].0 == p1);
                    crate::node::lemma_push_prefix(prefix@, false, name_bits(name));
                    crate::node::lemma_push_prefix(prefix@, true, name_bits(name));
                }
                if p0.matches(name) {
                    p0
                } else {
                    p1
                }
            },
            Err(_) => {
                proof {
                    assert(false);
                }
                prefix
            },
        }
    }

    /// Add a single node under a name already found acceptable: insert it
    /// in its section, split if necessary, and run the churn event,
    /// queueing any relocated node for the next step.
    pub fn add_node_with_name<AR: AddRestriction, A: crate::attack::AttackStrategy>(
        &mut self,
        prefix: Prefix,
        name: NN,
        node_data: NodeData,
        attack: &mut A,
    ) -> (r: Result<(), crate::Error>)
        requires
            old(self).wf(),
            old(attack).inv(),
            exists|i: int|
                old(self).accepts_at::<AR>(i, name, node_data) && (#[trigger] old(
                    self,
                ).sections@[i]).0 == prefix,
        ensures
            final(attack).inv(),
            final(self).wf(),
            final(self).min_section_size == old(self).min_section_size,
            old(self).sizes_ok() ==> final(self).sizes_ok(),
            match r {
                Ok(u) => final(self).spec_mal_total() == old(self).spec_mal_total() + (
                if node_data.is_malicious {
                    1nat
                } else {
                    0nat
                }) && final(self).spec_node_total() == old(self).spec_node_total() + 1,
                Err(e) => false,
            },
    {
        let ghost wacc = choose|i: int|
            old(self).accepts_at::<AR>(i, name, node_data) && (#[trigger] old(
                self,
            ).sections@[i]).0 == prefix;
        let idx = match self.find_exact(prefix) {
            Some(i) => i,
            None => {
                proof {
                    assert(self.sections@[wacc].0 != prefix);
                    assert(false);
                }
                return Err(crate::Error::FindNameExhausted);
            },
        };
        proof {
            self.lemma_prefix_unique(idx as int, wacc);
            assert(idx < self.sections.len());
        }
        let (epfx, mut egrp) = self.sections.remove(idx);
        let ghost s = egrp@;
        let inserted = egrp.insert(name, node_data);
        proof {
            assert(inserted);
        }
        self.sections.insert(idx, (epfx, egrp));
        let ghost mid = *self;
        proof {
            let ss1 = old(self).sections@;
            assert(self.sections@ =~= ss1.update(idx as int, (epfx, egrp)));
            let p = choose|p: int|
                0 <= p <= s.len() && egrp@ == s.insert(p, (name, node_data));
            assert forall|u: int| 0 <= u < egrp@.len() implies epfx.spec_matches(
                (#[trigger] egrp@[u]).0) by {
                if u < p {
                    assert(egrp@[u] == s[u]);
                    assert(old(self).sections@[idx as int].0.spec_matches(s[u].0));
                } else if u > p {
                    assert(egrp@[u] == s[u - 1]);
                    assert(old(self).sections@[idx as int].0.spec_matches(s[u - 1].0));
                } else {
                    assert(egrp@[u] == (name, node_data));
                }
            }
            self.lemma_after_group_update(*old(self), idx as int, epfx, egrp@, s);
            let fmal = |nd: Node| nd.1.is_malicious;
            let fall = |nd: Node| true;
            lemma_count_insert(s, p, (name, node_data), fmal);
            lemma_count_insert(s, p, (name, node_data), fall);
            lemma_sections_count_update(ss1, idx as int, (epfx, egrp), fmal);
            lemma_sections_count_update(ss1, idx as int, (epfx, egrp), fall);
            // Sizes only grow on insertion.
            if old(self).sizes_ok() {
                assert forall|t: int|
                    0 <= t < self.sections@.len() implies ((#[trigger] self.sections@[t]).0.bit_count
                    > 0 ==> self.sections@[t].1@.len() >= self.min_section_size) by {
                    if t != idx {
                        assert(self.sections@[t] == old(self).sections@[t]);
                    }
                }
            }
            assert(self.spec_has_prefix(prefix)) by {
                assert(self.sections@[idx as int].0 == prefix);
            }
        }
        let prefix2 = self.maybe_split::<A>(prefix, name, attack);
        let ghost mid2 = *self;
        let reloc = self.churn(prefix2, name);
        proof {
            assert(mid2.spec_has_prefix(prefix2));
        }
        match reloc {
            Some(nd) => {
                proof {
                    lemma_count_insert(
                        self.pending@,
                        self.pending@.len() as int,
                        nd,
                        |x: Node| x.1.is_malicious,
                    );
                    lemma_count_insert(
                        self.pending@,
                        self.pending@.len() as int,
                        nd,
                        |x: Node| true,
                    );
                    assert(self.pending@.insert(self.pending@.len() as int, nd) =~= self.pending@.push(
                        nd,
                    ));
                }
                self.pending.push(nd);
            },
            None => {},
        }
        Ok(())
    }

    /// Add a single node under a fresh random name: find a section that
    /// accepts it, insert, split the section if necessary, and run the
    /// churn event, queueing any relocated node for the next step. Fails
    /// (leaving the network unchanged) only when no acceptable name was
    /// found within the retry bound.
    pub fn add_node<AR: AddRestriction, A: crate::attack::AttackStrategy>(
        &mut self,
        node_data: NodeData,
        attack: &mut A,
    ) -> (r: Result<(), crate::Error>)
        requires
            old(self).wf(),
            old(attack).inv(),
        ensures
            final(attack).inv(),
            final(self).wf(),
            final(self).min_section_size == old(self).min_section_size,
            old(self).sizes_ok() ==> final(self).sizes_ok(),
            match r {
                Ok(u) => final(self).spec_mal_total() == old(self).spec_mal_total() + (
                if node_data.is_malicious {
                    1nat
                } else {
                    0nat
                }) && final(self).spec_node_total() == old(self).spec_node_total() + 1,
                Err(e) => e == crate::Error::FindNameExhausted && *final(self) == *old(self),
            },
            old(self).spec_node_total() == 0 ==> r is Ok,
    {
        let (prefix, name) = match self.find_name::<AR>(&node_data) {
            Ok(v) => v,
            Err(e) => {
                return Err(e);
            },
        };
        match self.add_node_with_name::<AR, A>(prefix, name, node_data, attack) {
            Ok(_) => Ok(()),
            Err(_) => {
                proof {
                    assert(false);
                }
                Ok(())
            },
        }
    }

    /// Execute a merge for the given prefix: remove its section and every
    /// section below its parent (the prefix one bit shorter), and unite
    /// all their members in a single section at the parent. A no-op for
    /// the root prefix, and for a prefix that is not present — for
    /// instance one already merged away by an earlier call.
    #[verifier::rlimit(100)]
    pub fn do_merge(&mut self, prefix: Prefix)
        requires
            old(self).wf(),
            prefix.wf(),
        ensures
            final(self).wf(),
            final(self).min_section_size == old(self).min_section_size,
            final(self).pending@ == old(self).pending@,
            final(self).spec_mal_total() == old(self).spec_mal_total(),
            final(self).spec_node_total() == old(self).spec_node_total(),
            net_members(final(self).sections@) == net_members(old(self).sections@),
            prefix.bit_count == 0 ==> *final(self) == *old(self),
            !old(self).spec_has_prefix(prefix) ==> *final(self) == *old(self),
            (prefix.bit_count > 0 && old(self).spec_has_prefix(prefix)) ==> ({
                let parent = prefix.spec_popped();
                &&& final(self).sections@.len() >= 1
                &&& final(self).sections@.last().0 == parent
                &&& forall|t: int|
                    0 <= t < final(self).sections@.len() - 1 ==> ((exists|j: int|
                        0 <= j < old(self).sections@.len() && (#[trigger] final(self).sections@[t])
                            == old(self).sections@[j])
                        && !final(self).sections@[t].0.spec_compatible(parent))
                &&& forall|j: int|
                    0 <= j < old(self).sections@.len()
                        && !(#[trigger] old(self).sections@[j]).0.spec_compatible(parent)
                        ==> exists|t: int|
                        0 <= t < final(self).sections@.len() - 1 && final(self).sections@[t]
                            == old(self).sections@[j]
            }),
    {
        if prefix.bit_count() == 0 {
            return;
        }
        let idx = match self.find_exact(prefix) {
            Some(i) => i,
            None => {
                proof {
                    if old(self).spec_has_prefix(prefix) {
                        let w = choose|w: int|
                            0 <= w < self.sections@.len() && (#[trigger] self.sections@[w]).0
                                == prefix;
                        assert(self.sections@[w].0 != prefix);
                    }
                }
                return;
            },
        };
        proof {
            assert(idx < self.sections.len());
        }
        let (epfx, egrp) = self.sections.remove(idx);
        let parent = prefix.popped();
        let ghost orig = self.sections@;
        let ghost fmal = |nd: Node| nd.1.is_malicious;
        let ghost fall = |nd: Node| true;
        let mut merged: Group = egrp;
        let mut rest: Vec<Section> = Vec::new();
        let ghost mut srcs: Seq<int> = Seq::empty();
        proof {
            broadcast use vstd::multiset::group_multiset_axioms;

            assert(net_members(rest@) == Multiset::<Node>::empty()) by {
                assert(rest@ =~= Seq::<Section>::empty());
            }
            assert(net_members(self.sections@).add(net_members(rest@)).add(merged@.to_multiset())
                =~= net_members(orig).add(old(self).sections@[idx as int].1@.to_multiset()));
            assert(parent@.is_prefix_of(prefix@)) by {
                assert(parent@ =~= prefix@.subrange(0, parent@.len() as int));
            }
            assert forall|i: int| 0 <= i < orig.len() implies !(#[trigger] orig[i]).0.spec_compatible(
                prefix) by {
                let oi = if i < idx { i } else { i + 1 };
                Self::lemma_sections_wf_incompat(old(self).sections@, oi, idx as int);
            }
            assert forall|u: int| 0 <= u < merged@.len() implies parent.spec_matches(
                (#[trigger] merged@[u]).0) by {
                assert(old(self).sections@[idx as int].0.spec_matches(merged@[u].0));
                crate::node::lemma_prefix_trans(parent@, prefix@, name_bits(merged@[u].0));
            }
            assert forall|i: int, v: int, u: int|
                #![trigger self.sections@[i].1@[v], merged@[u]]
                0 <= i < self.sections@.len() && 0 <= v < self.sections@[i].1@.len() && 0 <= u
                    < merged@.len() implies merged@[u].0 != self.sections@[i].1@[v].0 by {
                let oi = if i < idx { i } else { i + 1 };
                Self::lemma_sections_wf_incompat(old(self).sections@, idx as int, oi);
                assert(old(self).sections@[idx as int].0.spec_matches(merged@[u].0));
                assert(old(self).sections@[oi].0.spec_matches(old(self).sections@[oi].1@[v].0));
                crate::node::lemma_incompatible_disjoint(
                    old(self).sections@[idx as int].0,
                    old(self).sections@[oi].0,
                    merged@[u].0,
                );
            }
            assert(orig.take(orig.len() as int) =~= orig);
        }
        while self.sections.len() > 0
            invariant
                prefix.wf(),
                parent.wf(),
                prefix.bit_count >= 1,
                parent@ == prefix@.drop_last(),
                parent@.is_prefix_of(prefix@),
                self.sections@.len() <= orig.len(),
                idx < old(self).sections@.len(),
                orig == old(self).sections@.remove(idx as int),
                self.sections@ == orig.take(self.sections@.len() as int),
                self.min_section_size == old(self).min_section_size,
                self.pending@ == old(self).pending@,
                Self::sections_wf(orig),
                forall|i: int|
                    0 <= i < orig.len() ==> !(#[trigger] orig[i]).0.spec_compatible(prefix),
                merged.wf(),
                forall|u: int|
                    0 <= u < merged@.len() ==> parent.spec_matches((#[trigger] merged@[u]).0),
                forall|i: int, v: int, u: int|
                    #![trigger self.sections@[i].1@[v], merged@[u]]
                    0 <= i < self.sections@.len() && 0 <= v < self.sections@[i].1@.len() && 0 <= u
                        < merged@.len() ==> merged@[u].0 != self.sections@[i].1@[v].0,
                forall|a: int|
                    0 <= a < rest@.len() ==> (#[trigger] rest@[a]).0.wf() && rest@[a].1.wf(),
                forall|a: int|
                    0 <= a < rest@.len() ==> !(#[trigger] rest@[a]).0.spec_compatible(parent),
                srcs.len() == rest@.len(),
                forall|a: int|
                    0 <= a < rest@.len() ==> self.sections@.len() <= #[trigger] srcs[a]
                        < orig.len() && rest@[a] == orig[srcs[a]],
                forall|a: int, b: int|
                    #![trigger srcs[a], srcs[b]]
                    0 <= a < b < srcs.len() ==> srcs[a] > srcs[b],
                forall|a: int, u: int|
                    #![trigger rest@[a].1@[u]]
                    0 <= a < rest@.len() && 0 <= u < rest@[a].1@.len() ==> rest@[a].0.spec_matches(
                        rest@[a].1@[u].0,
                    ),
                forall|j: int|
                    self.sections@.len() <= j < orig.len() ==> (exists|t: int|
                        0 <= t < rest@.len() && rest@[t] == (#[trigger] orig[j]))
                        || parent@.is_prefix_of(orig[j].0@),
                net_members(self.sections@).add(net_members(rest@)).add(merged@.to_multiset())
                    == net_members(orig).add(old(self).sections@[idx as int].1@.to_multiset()),
                sections_count(self.sections@, fmal) + sections_count(rest@, fmal) + count_nodes(
                    merged@,
                    fmal,
                ) == sections_count(orig, fmal) + count_nodes(old(self).sections@[idx as int].1@, fmal),
                sections_count(self.sections@, fall) + sections_count(rest@, fall) + count_nodes(
                    merged@,
                    fall,
                ) == sections_count(orig, fall) + count_nodes(old(self).sections@[idx as int].1@, fall),
                fmal == (|nd: Node| nd.1.is_malicious),
                fall == (|nd: Node| true),
            decreases self.sections@.len(),
        {
            let ghost k = self.sections@.len() as int;
            let (p, g) = match self.sections.pop() {
                Some(x) => x,
                None => {
                    proof {
                        assert(false);
                    }
                    (prefix, Group::new())
                },
            };
            proof {
                assert(orig.take(k).drop_last() =~= orig.take(k - 1));
                assert(self.sections@ =~= orig.take(k - 1));
                assert(orig.take(k).last() == orig[k - 1]);
                assert((p, g) == orig[k - 1]);
                assert(net_members(orig.take(k)) == net_members(orig.take(k - 1)).add(
                    g@.to_multiset(),
                ));
            }
            let ghost rpre = rest@;
            if p.is_compatible(parent) {
                proof {
                    if p@.is_prefix_of(parent@) {
                        crate::node::lemma_prefix_trans(p@, parent@, prefix@);
                        assert(false);
                    }
                }
                let n2 = g.len();
                let ghost merged0 = merged@;
                proof {
                    broadcast use vstd::multiset::group_multiset_axioms;

                    g@.take(0).to_multiset_ensures();
                    assert(merged@.to_multiset() =~= merged0.to_multiset().add(g@.take(
                        0,
                    ).to_multiset()));
                }
                let mut v: usize = 0;
                while v < n2
                    invariant
                        merged@.to_multiset() == merged0.to_multiset().add(g@.take(
                            v as int,
                        ).to_multiset()),
                        0 <= v <= n2,
                        n2 == g@.len(),
                        g.wf(),
                        p.wf(),
                        parent.wf(),
                        parent@.is_prefix_of(p@),
                        forall|u: int| 0 <= u < n2 ==> p.spec_matches((#[trigger] g@[u]).0),
                        merged.wf(),
                        forall|u: int|
                            0 <= u < merged@.len() ==> parent.spec_matches(
                                (#[trigger] merged@[u]).0,
                            ),
                        forall|u: int, w: int|
                            #![trigger merged@[u], g@[w]]
                            0 <= u < merged@.len() && v <= w < n2 ==> merged@[u].0 != g@[w].0,
                        forall|i: int, vv: int, u: int|
                            #![trigger self.sections@[i].1@[vv], merged@[u]]
                            0 <= i < self.sections@.len() && 0 <= vv < self.sections@[i].1@.len()
                                && 0 <= u < merged@.len() ==> merged@[u].0
                                != self.sections@[i].1@[vv].0,
                        self.sections@ == orig.take(k - 1),
                        Self::sections_wf(orig),
                        0 < k <= orig.len(),
                        (p, g) == orig[k - 1],
                        count_nodes(merged@, fmal) == count_nodes(merged0, fmal) + count_nodes(
                            g@.take(v as int),
                            fmal,
                        ),
                        count_nodes(merged@, fall) == count_nodes(merged0, fall) + count_nodes(
                            g@.take(v as int),
                            fall,
                        ),
                        fmal == (|nd: Node| nd.1.is_malicious),
                        fall == (|nd: Node| true),
                    decreases n2 - v,
                {
                    let (nm, d) = g.node_at(v);
                    proof {
                        lemma_count_take_step(g@, v as int, fmal);
                        lemma_count_take_step(g@, v as int, fall);
                    }
                    let ghost mpre = merged@;
                    let ok = merged.insert(nm, d);
                    proof {
                        assert(ok) by {
                            if seq_has_name(mpre, nm) {
                                let u = choose|u: int|
                                    0 <= u < mpre.len() && (#[trigger] mpre[u]).0 == nm;
                                assert(mpre[u].0 != g@[v as int].0);
                            }
                        }
                        let pos = choose|pos: int|
                            0 <= pos <= mpre.len() && merged@ == mpre.insert(pos, (nm, d));
                        lemma_count_insert(mpre, pos, (nm, d), fmal);
                        lemma_count_insert(mpre, pos, (nm, d), fall);
                        broadcast use vstd::multiset::group_multiset_axioms;

                        lemma_seq_insert_multiset(mpre, pos, (nm, d));
                        g@.take(v as int).to_multiset_ensures();
                        assert(g@.take(v + 1) =~= g@.take(v as int).push(g@[v as int]));
                        assert(merged@.to_multiset() =~= merged0.to_multiset().add(g@.take(
                            v + 1,
                        ).to_multiset()));
                        assert forall|u: int|
                            0 <= u < merged@.len() implies parent.spec_matches(
                            (#[trigger] merged@[u]).0) by {
                            if u < pos {
                                assert(merged@[u] == mpre[u]);
                            } else if u > pos {
                                assert(merged@[u] == mpre[u - 1]);
                            } else {
                                assert(merged@[u] == (nm, d));
                                assert(p.spec_matches(nm));
                                crate::node::lemma_prefix_trans(parent@, p@, name_bits(nm));
                            }
                        }
                        assert forall|u: int, w: int|
                            #![trigger merged@[u], g@[w]]
                            0 <= u < merged@.len() && v + 1 <= w < n2 implies merged@[u].0
                            != g@[w].0 by {
                            if u < pos {
                                assert(merged@[u] == mpre[u]);
                            } else if u > pos {
                                assert(merged@[u] == mpre[u - 1]);
                            } else {
                                assert(merged@[u].0 == g@[v as int].0);
                                assert(g@[v as int].0 != g@[w].0);
                            }
                        }
                        assert forall|i: int, vv: int, u: int|
                            #![trigger self.sections@[i].1@[vv], merged@[u]]
                            0 <= i < self.sections@.len() && 0 <= vv
                                < self.sections@[i].1@.len() && 0 <= u < merged@.len() implies merged@[u].0
                            != self.sections@[i].1@[vv].0 by {
                            if u < pos {
                                assert(merged@[u] == mpre[u]);
                            } else if u > pos {
                                assert(merged@[u] == mpre[u - 1]);
                            } else {
                                assert(merged@[u].0 == nm);
                                assert(self.sections@[i] == orig[i]);
                                Self::lemma_sections_wf_incompat(orig, k - 1, i);
                                assert(p.spec_matches(nm));
                                assert(orig[i].0.spec_matches(orig[i].1@[vv].0));
                                crate::node::lemma_incompatible_disjoint(
                                    p,
                                    orig[i].0,
                                    nm,
                                );
                            }
                        }
                    }
                    v += 1;
                }
                proof {
                    broadcast use vstd::multiset::group_multiset_axioms;

                    assert(g@.take(n2 as int) =~= g@);
                    assert(parent@.is_prefix_of(orig[k - 1].0@));
                    assert(net_members(self.sections@).add(net_members(rest@)).add(
                        merged@.to_multiset(),
                    ) =~= net_members(orig).add(old(self).sections@[idx as int].1@.to_multiset()));
                }
            } else {
                rest.push((p, g));
                proof {
                    broadcast use vstd::multiset::group_multiset_axioms;

                    srcs = srcs.push(k - 1);
                    assert(rest@ =~= rpre.push((p, g)));
                    assert(rest@[rest@.len() - 1] == orig[k - 1]);
                    lemma_sections_count_insert(rpre, rpre.len() as int, (p, g), fmal);
                    lemma_sections_count_insert(rpre, rpre.len() as int, (p, g), fall);
                    assert(rpre.insert(rpre.len() as int, (p, g)) =~= rest@);
                    lemma_net_members_insert(rpre, rpre.len() as int, (p, g));
                    assert(net_members(self.sections@).add(net_members(rest@)).add(
                        merged@.to_multiset(),
                    ) =~= net_members(orig).add(old(self).sections@[idx as int].1@.to_multiset()));
                }
            }
            proof {
                assert forall|j: int|
                    self.sections@.len() <= j < orig.len() implies (exists|t: int|
                        0 <= t < rest@.len() && rest@[t] == (#[trigger] orig[j]))
                        || parent@.is_prefix_of(orig[j].0@) by {
                    if j == k - 1 {
                        if p.spec_compatible(parent) {
                        } else {
                            assert(rest@[rest@.len() - 1] == orig[k - 1]);
                        }
                    } else {
                        if exists|t: int| 0 <= t < rpre.len() && rpre[t] == (#[trigger] orig[j]) {
                            let t = choose|t: int|
                                0 <= t < rpre.len() && rpre[t] == (#[trigger] orig[j]);
                            assert(rest@[t] == orig[j]);
                        }
                    }
                }
            }
        }
        let ghost restv = rest@;
        self.sections = rest;
        self.sections.push((parent, merged));
        proof {
            let ss1 = self.sections@;
            let last = ss1.len() - 1;
            assert(ss1 =~= restv.push((parent, merged)));
            assert(orig.take(0) =~= Seq::<Section>::empty());
            assert(sections_count(Seq::<Section>::empty(), fmal) == 0);
            assert(sections_count(Seq::<Section>::empty(), fall) == 0);
            // Structural invariant of the final list.
            assert forall|a: int, b: int|
                #![trigger ss1[a], ss1[b]]
                0 <= a < b < ss1.len() implies !ss1[a].0.spec_compatible(ss1[b].0) by {
                if b < last {
                    assert(restv[a] == orig[srcs[a]]);
                    assert(restv[b] == orig[srcs[b]]);
                    assert(srcs[a] > srcs[b]);
                    Self::lemma_sections_wf_incompat(orig, srcs[a], srcs[b]);
                } else {
                    assert(!restv[a].0.spec_compatible(parent));
                }
            }
            assert forall|a: int, u: int|
                #![trigger ss1[a].1@[u]]
                0 <= a < ss1.len() && 0 <= u < ss1[a].1@.len() implies ss1[a].0.spec_matches(
                ss1[a].1@[u].0) by {
                if a < last {
                    assert(ss1[a] == restv[a]);
                }
            }
            assert forall|a: int| 0 <= a < ss1.len() implies (#[trigger] ss1[a]).0.wf()
                && ss1[a].1.wf() by {
                if a < last {
                    assert(ss1[a] == restv[a]);
                }
            }
            // Coverage.
            assert forall|name: NN| #[trigger] Self::covers(ss1, name) by {
                assert(Self::covers(old(self).sections@, name));
                let w = choose|w: int|
                    0 <= w < old(self).sections@.len() && (#[trigger] old(
                        self,
                    ).sections@[w]).0.spec_matches(name);
                if w == idx {
                    crate::node::lemma_two_prefixes(parent@, prefix@, name_bits(name));
                    crate::node::lemma_prefix_trans(parent@, prefix@, name_bits(name));
                    assert(ss1[last].0.spec_matches(name));
                } else {
                    let ow = if w < idx {
                        w
                    } else {
                        w - 1
                    };
                    assert(orig[ow] == old(self).sections@[w]);
                    if exists|t: int| 0 <= t < restv.len() && restv[t] == (#[trigger] orig[ow]) {
                        let t = choose|t: int|
                            0 <= t < restv.len() && restv[t] == (#[trigger] orig[ow]);
                        assert(ss1[t].0.spec_matches(name));
                    } else {
                        assert(parent@.is_prefix_of(orig[ow].0@));
                        crate::node::lemma_prefix_trans(parent@, orig[ow].0@, name_bits(name));
                        assert(ss1[last].0.spec_matches(name));
                    }
                }
            }
            // Totals.
            lemma_sections_count_insert(restv, restv.len() as int, (parent, merged), fmal);
            lemma_sections_count_insert(restv, restv.len() as int, (parent, merged), fall);
            assert(restv.insert(restv.len() as int, (parent, merged)) =~= ss1);
            lemma_sections_count_remove(old(self).sections@, idx as int, fmal);
            lemma_sections_count_remove(old(self).sections@, idx as int, fall);
            // Member multiset preserved across the whole merge.
            broadcast use vstd::multiset::group_multiset_axioms;

            lemma_net_members_insert(restv, restv.len() as int, (parent, merged));
            lemma_net_members_remove(old(self).sections@, idx as int);
            assert(net_members(ss1) =~= net_members(old(self).sections@));
            // The surviving sections are exactly the old sections that are
            // incompatible with the parent, and the parent holds the rest.
            assert(ss1.last() == (parent, merged));
            assert forall|t: int|
                0 <= t < ss1.len() - 1 implies (exists|j: int|
                    0 <= j < old(self).sections@.len() && (#[trigger] ss1[t]) == old(
                        self,
                    ).sections@[j]) && !ss1[t].0.spec_compatible(parent) by {
                assert(ss1[t] == restv[t]);
                assert(restv[t] == orig[srcs[t]]);
                let oj = if srcs[t] < idx {
                    srcs[t]
                } else {
                    srcs[t] + 1
                };
                assert(old(self).sections@[oj] == orig[srcs[t]]);
                assert(!restv[t].0.spec_compatible(parent));
            }
            assert forall|j: int|
                0 <= j < old(self).sections@.len() && !(#[trigger] old(
                    self,
                ).sections@[j]).0.spec_compatible(parent) implies exists|t: int|
                0 <= t < ss1.len() - 1 && ss1[t] == old(self).sections@[j] by {
                assert(parent@.is_prefix_of(prefix@));
                if j == idx {
                    assert(old(self).sections@[idx as int].0 == prefix);
                    assert(false);
                }
                let oj = if j < idx {
                    j
                } else {
                    j - 1
                };
                assert(orig[oj] == old(self).sections@[j]);
                if parent@.is_prefix_of(orig[oj].0@) {
                    assert(false);
                }
                let t = choose|t: int| 0 <= t < restv.len() && restv[t] == (#[trigger] orig[oj]);
                assert(ss1[t] == old(self).sections@[j]);
            }
        }
    }


    /// There is a section with this prefix whose size is at or below the
    /// minimum.
    pub open spec fn spec_has_small(self, p: Prefix) -> bool {
        exists|i: int|
            0 <= i < self.sections@.len() && (#[trigger] self.sections@[i]).0 == p
                && self.sections@[i].1@.len() <= self.min_section_size
    }

    /// The members of the section with exactly this prefix, if any.
    pub fn section_with_prefix(&self, p: Prefix) -> (r: Option<&Group>)
        ensures
            match r {
                Some(g) => exists|i: int|
                    0 <= i < self.sections@.len() && (#[trigger] self.sections@[i]).0 == p
                        && g@ == self.sections@[i].1@,
                None => !self.spec_has_prefix(p),
            },
    {
        let idx = match self.find_exact(p) {
            Some(i) => i,
            None => {
                proof {
                    if self.spec_has_prefix(p) {
                        let w = choose|w: int|
                            0 <= w < self.sections@.len() && (#[trigger] self.sections@[w]).0
                                == p;
                        assert(self.sections@[w].0 != p);
                    }
                }
                return None;
            },
        };
        proof {
            assert(self.sections@[idx as int].0 == p);
        }
        Some(&self.sections[idx].1)
    }

    /// No single section holds more members than the whole network.
    pub proof fn lemma_section_le_total(self, i: int)
        requires
            0 <= i < self.sections@.len(),
        ensures
            self.sections@[i].1@.len() <= self.spec_node_total(),
    {
        let fall = |nd: Node| true;
        lemma_sections_count_remove(self.sections@, i, fall);
        lemma_count_true_is_len(self.sections@[i].1@);
    }


    /// The node of this name is a member of the section with this prefix.
    pub open spec fn spec_has_member(self, p: Prefix, nm: NN) -> bool {
        exists|i: int, v: int|
            #![trigger self.sections@[i].1@[v]]
            {
                &&& 0 <= i < self.sections@.len()
                &&& self.sections@[i].0 == p
                &&& 0 <= v < self.sections@[i].1@.len()
                &&& self.sections@[i].1@[v].0 == nm
            }
    }

    /// Let the attacker force one node to rejoin: evict the node it
    /// names, merge what shrank, and re-admit one fresh node of age zero
    /// and the same allegiance under a new name. Returns the attacker's
    /// pick together with the evicted node's data; a pick of `None`
    /// leaves the network unchanged.
    pub fn process_join_leave<A: crate::attack::AttackStrategy>(
        &mut self,
        attack: &mut A,
        allow_ddos: bool,
    ) -> (r: Result<Option<((Prefix, NN), NodeData)>, crate::Error>)
        requires
            old(self).wf(),
            old(attack).inv(),
            old(self).spec_node_total() <= u32::MAX,
        ensures
            final(self).wf(),
            final(attack).inv(),
            final(self).min_section_size == old(self).min_section_size,
            old(self).spec_node_total() == 0 ==> r is Ok,
            match r {
                Ok(pick) => match pick {
                    None => *final(self) == *old(self),
                    Some(pd) => {
                        &&& exists|i: int, v: int|
                            #![trigger old(self).sections@[i].1@[v]]
                            {
                                &&& 0 <= i < old(self).sections@.len()
                                &&& old(self).sections@[i].0 == pd.0.0
                                &&& 0 <= v < old(self).sections@[i].1@.len()
                                &&& old(self).sections@[i].1@[v] == (pd.0.1, pd.1)
                            }
                        &&& pd.1.is_malicious
                        &&& final(self).spec_mal_total() == old(self).spec_mal_total()
                        &&& final(self).spec_node_total() == old(self).spec_node_total()
                    },
                },
                Err(e) => e == crate::Error::FindNameExhausted,
            },
    {
        let picked = attack.force_to_rejoin(self, allow_ddos);
        match picked {
            Some(pn) => {
                let (prefix, node_name) = pn;
                proof {
                    let (i, v) = choose|i: int, v: int|
                        #![trigger self.sections@[i].1@[v]]
                        {
                            &&& 0 <= i < self.sections@.len()
                            &&& self.sections@[i].0 == prefix
                            &&& 0 <= v < self.sections@[i].1@.len()
                            &&& self.sections@[i].1@[v].0 == node_name
                            &&& self.sections@[i].1@[v].1.is_malicious
                        };
                    assert(self.sections@[i].0.wf());
                    assert(self.spec_has_member(prefix, node_name));
                    // A picked node means a populated network.
                    lemma_sections_count_remove(self.sections@, i, |nd: Node| true);
                    lemma_count_true_is_len(self.sections@[i].1@);
                }
                let removed = match self.remove_node(prefix, node_name) {
                    Ok(d) => d,
                    Err(_) => {
                        proof {
                            assert(false);
                        }
                        NodeData::new()
                    },
                };
                proof {
                    // The strategy's pick and the removal name the same
                    // member, so the evicted node is the malicious one:
                    // names are unique within a section, and a prefix
                    // names a unique section.
                    let (i1, v1) = choose|i: int, v: int|
                        #![trigger old(self).sections@[i].1@[v]]
                        {
                            &&& 0 <= i < old(self).sections@.len()
                            &&& old(self).sections@[i].0 == prefix
                            &&& 0 <= v < old(self).sections@[i].1@.len()
                            &&& old(self).sections@[i].1@[v].0 == node_name
                            &&& old(self).sections@[i].1@[v].1.is_malicious
                        };
                    let (i2, v2) = choose|i: int, v: int|
                        #![trigger old(self).sections@[i].1@[v]]
                        {
                            &&& 0 <= i < old(self).sections@.len()
                            &&& old(self).sections@[i].0 == prefix
                            &&& 0 <= v < old(self).sections@[i].1@.len()
                            &&& old(self).sections@[i].1@[v] == (node_name, removed)
                        };
                    old(self).lemma_prefix_unique(i1, i2);
                    if v1 != v2 {
                        assert(old(self).sections@[i1].1@[v1].0 != old(
                            self,
                        ).sections@[i2].1@[v2].0);
                    }
                    assert(removed.is_malicious);
                }
                let fresh = if removed.is_malicious() {
                    NodeData::new_malicious()
                } else {
                    NodeData::new()
                };
                match self.add_node::<RestrictOnePerAge, A>(fresh, attack) {
                    Ok(_) => Ok(Some(((prefix, node_name), removed))),
                    Err(e) => Err(e),
                }
            },
            None => Ok(None),
        }
    }

    /// Run one step of the simulation: add the nodes pending from the
    /// previous step, then, if join-leave is allowed, let the attacker do
    /// one join-leave move.
    pub fn do_step<AR: AddRestriction, A: crate::attack::AttackStrategy>(
        &mut self,
        attack: &mut A,
        allow_join_leave: bool,
    ) -> (r: Result<(), crate::Error>)
        requires
            old(self).wf(),
            old(attack).inv(),
            old(self).spec_node_total() <= u32::MAX,
        ensures
            final(self).wf(),
            final(attack).inv(),
            final(self).min_section_size == old(self).min_section_size,
            old(self).sizes_ok() && !allow_join_leave ==> final(self).sizes_ok(),
            old(self).spec_node_total() == 0 ==> r is Ok,
            r is Ok ==> final(self).spec_mal_total() == old(self).spec_mal_total()
                && final(self).spec_node_total() == old(self).spec_node_total(),
    {
        let allow_ddos = false;
        match self.add_pending_nodes::<AR, A>(attack) {
            Ok(_) => {},
            Err(e) => {
                return Err(e);
            },
        }
        if allow_join_leave {
            match self.process_join_leave::<A>(attack, allow_ddos) {
                Ok(_) => {},
                Err(e) => {
                    return Err(e);
                },
            }
        }
        Ok(())
    }


    /// Return the estimated proportion of compromised data on the
    /// network: sample random data identifiers; for each, form the group
    /// of the `group_size` member names of its section closest to it by
    /// XOR, and test the group quorum on that group. Returns the fraction
    /// of compromised samples, or `None` if there was none.
    pub fn compromised_data_fraction<Q: crate::quorum::Quorum>(
        &self,
        group_size: NN,
        group_quorum: &Q,
    ) -> (r: Option<crate::prob::Ratio>)
        requires
            self.wf(),
            group_quorum.inv(),
            group_size <= usize::MAX,
        ensures
            match r {
                Some(p) => p.wf() && p.den == NUM_SAMPLES && 1 <= p.num <= NUM_SAMPLES,
                None => true,
            },
            (self.spec_mal_total() == 0 && crate::quorum::quorum_needs_malice(*group_quorum))
                ==> r is None,
            ((forall|i: int|
                0 <= i < self.sections@.len()
                    ==> crate::quorum::mal_count((#[trigger] self.sections@[i]).1@)
                    == self.sections@[i].1@.len() && self.sections@[i].1@.len() > 0)
                && group_size >= 1 && crate::quorum::quorum_certain_of_malice(*group_quorum))
                ==> (r matches Some(p) && p.num == NUM_SAMPLES),
    {
        let ghost fmal = |nd: Node| nd.1.is_malicious;
        let ghost quiet = self.spec_mal_total() == 0 && crate::quorum::quorum_needs_malice(
            *group_quorum,
        );
        let ghost allmal = (forall|i: int|
            0 <= i < self.sections@.len() ==> crate::quorum::mal_count(
                (#[trigger] self.sections@[i]).1@,
            ) == self.sections@[i].1@.len() && self.sections@[i].1@.len() > 0) && group_size >= 1
            && crate::quorum::quorum_certain_of_malice(*group_quorum);
        let mut num_compromised: usize = 0;
        let mut s: usize = 0;
        while s < NUM_SAMPLES
            invariant
                self.wf(),
                group_quorum.inv(),
                num_compromised <= s <= NUM_SAMPLES,
                group_size <= usize::MAX,
                fmal == (|nd: Node| nd.1.is_malicious),
                quiet == (self.spec_mal_total() == 0 && crate::quorum::quorum_needs_malice(
                    *group_quorum,
                )),
                allmal == ((forall|i: int|
                    0 <= i < self.sections@.len() ==> crate::quorum::mal_count(
                        (#[trigger] self.sections@[i]).1@,
                    ) == self.sections@[i].1@.len() && self.sections@[i].1@.len() > 0)
                    && group_size >= 1 && crate::quorum::quorum_certain_of_malice(*group_quorum)),
                quiet ==> num_compromised == 0,
                allmal ==> num_compromised == s,
            decreases NUM_SAMPLES - s,
        {
            let data_id = new_node_name();
            let idx = self.find_idx(data_id);
            let section = &self.sections[idx].1;
            let near = closest_nodes(section, data_id, group_size as usize);
            let mut cg = Group::new();
            let mut t: usize = 0;
            while t < near.len()
                invariant
                    cg.wf(),
                    t <= near@.len(),
                    cg@.len() == t,
                    forall|u: int, v: int|
                        0 <= u < v < near@.len() ==> (#[trigger] near@[u]).0 != (
                        #[trigger] near@[v]).0,
                    forall|w: int| 0 <= w < cg@.len() ==> exists|u: int|
                        0 <= u < t && (#[trigger] cg@[w]) == near@[u],
                decreases near@.len() - t,
            {
                let (nm, d) = (near[t].0, near[t].1);
                let ghost cgp = cg@;
                let ok = cg.insert(nm, d);
                proof {
                    assert(ok) by {
                        if seq_has_name(cgp, nm) {
                            let w = choose|w: int| 0 <= w < cgp.len() && cgp[w].0 == nm;
                            let u = choose|u: int| 0 <= u < t && (#[trigger] cgp[w]) == near@[u];
                            assert(near@[u].0 == near@[t as int].0);
                        }
                    }
                    let pos = choose|pos: int|
                        0 <= pos <= cgp.len() && cg@ == cgp.insert(pos, (nm, d));
                    assert forall|w: int| 0 <= w < cg@.len() implies exists|u: int|
                        0 <= u < t + 1 && (#[trigger] cg@[w]) == near@[u] by {
                        if w < pos {
                            assert(cg@[w] == cgp[w]);
                            let u = choose|u: int| 0 <= u < t && (#[trigger] cgp[w]) == near@[u];
                            assert(cg@[w] == near@[u]);
                        } else if w > pos {
                            assert(cg@[w] == cgp[w - 1]);
                            let u = choose|u: int|
                                0 <= u < t && (#[trigger] cgp[w - 1]) == near@[u];
                            assert(cg@[w] == near@[u]);
                        } else {
                            assert(cg@[w] == near@[t as int]);
                        }
                    }
                }
                t += 1;
            }
            proof {
                // Every member of the ad-hoc group is a member of the
                // chosen section, so its malice follows the section's.
                lemma_sections_count_remove(self.sections@, idx as int, fmal);
                lemma_count_zero(self.sections@[idx as int].1@, fmal);
                lemma_count_full(self.sections@[idx as int].1@, fmal);
                lemma_count_zero(cg@, fmal);
                lemma_count_full(cg@, fmal);
                if quiet {
                    assert forall|w: int| 0 <= w < cg@.len() implies !fmal(#[trigger] cg@[w]) by {
                        let u = choose|u: int|
                            0 <= u < near@.len() && (#[trigger] cg@[w]) == near@[u];
                        let v = choose|v: int|
                            0 <= v < section@.len() && (#[trigger] section@[v]) == near@[u];
                        assert(!fmal(self.sections@[idx as int].1@[v]));
                    }
                    assert(crate::quorum::mal_count(cg@) == 0);
                }
                if allmal {
                    assert forall|w: int| 0 <= w < cg@.len() implies fmal(#[trigger] cg@[w]) by {
                        let u = choose|u: int|
                            0 <= u < near@.len() && (#[trigger] cg@[w]) == near@[u];
                        let v = choose|v: int|
                            0 <= v < section@.len() && (#[trigger] section@[v]) == near@[u];
                        assert(fmal(self.sections@[idx as int].1@[v]));
                    }
                    assert(crate::quorum::mal_count(cg@) == cg@.len());
                    assert(cg@.len() == vstd::math::min(
                        group_size as int,
                        self.sections@[idx as int].1@.len() as int,
                    ));
                    assert(cg@.len() > 0);
                }
            }
            if group_quorum.quorum_compromised(&cg) {
                num_compromised += 1;
            }
            s += 1;
        }
        if num_compromised > 0 {
            Some(crate::prob::Ratio { num: num_compromised as u128, den: NUM_SAMPLES as u128 })
        } else {
            None
        }
    }

    /// Get all prefixes in need of a merge: those of the sections whose
    /// size has dropped to the minimum or below.
    pub fn need_merge(&self) -> (r: Vec<Prefix>)
        requires
            self.wf(),
        ensures
            forall|t: int| 0 <= t < r@.len() ==> self.spec_has_small(#[trigger] r@[t]),
            forall|i: int|
                0 <= i < self.sections@.len() && (#[trigger] self.sections@[i]).1@.len()
                    <= self.min_section_size ==> exists|t: int|
                    0 <= t < r@.len() && r@[t] == self.sections@[i].0,
            forall|a: int, b: int|
                0 <= a < b < r@.len() ==> (#[trigger] r@[a]) != (#[trigger] r@[b]),
    {
        let mut r: Vec<Prefix> = Vec::new();
        let mut i: usize = 0;
        while i < self.sections.len()
            invariant
                self.wf(),
                i <= self.sections@.len(),
                forall|t: int| 0 <= t < r@.len() ==> self.spec_has_small(#[trigger] r@[t]),
                forall|t: int| 0 <= t < r@.len() ==> exists|w: int|
                    0 <= w < i && (#[trigger] r@[t]) == self.sections@[w].0,
                forall|w: int|
                    0 <= w < i && (#[trigger] self.sections@[w]).1@.len()
                        <= self.min_section_size ==> exists|t: int|
                        0 <= t < r@.len() && r@[t] == self.sections@[w].0,
                forall|a: int, b: int|
                    0 <= a < b < r@.len() ==> (#[trigger] r@[a]) != (#[trigger] r@[b]),
            decreases self.sections@.len() - i,
        {
            if self.sections[i].1.len() <= self.min_section_size {
                let ghost rp = r@;
                r.push(self.sections[i].0);
                proof {
                    assert(r@[r@.len() - 1] == self.sections@[i as int].0);
                    assert forall|t: int| 0 <= t < r@.len() implies self.spec_has_small(
                        #[trigger] r@[t]) by {
                        if t < rp.len() {
                            assert(r@[t] == rp[t]);
                            assert(self.spec_has_small(rp[t]));
                        } else {
                            assert(self.sections@[i as int].0 == r@[t]
                                && self.sections@[i as int].1@.len() <= self.min_section_size);
                        }
                    }
                    assert forall|t: int| 0 <= t < r@.len() implies exists|w: int|
                        0 <= w < i + 1 && (#[trigger] r@[t]) == self.sections@[w].0 by {
                        if t < rp.len() {
                            assert(r@[t] == rp[t]);
                            let w = choose|w: int|
                                0 <= w < i && (#[trigger] rp[t]) == self.sections@[w].0;
                            assert(r@[t] == self.sections@[w].0);
                        } else {
                            assert(r@[t] == self.sections@[i as int].0);
                        }
                    }
                    assert forall|a: int, b: int|
                        0 <= a < b < r@.len() implies (#[trigger] r@[a]) != (#[trigger] r@[b]) by {
                        if b == rp.len() {
                            let w = choose|w: int|
                                0 <= w < i && (#[trigger] rp[a]) == self.sections@[w].0;
                            if r@[a] == r@[b] {
                                self.lemma_prefix_unique(w, i as int);
                            }
                        } else {
                            assert(r@[a] == rp[a] && r@[b] == rp[b]);
                        }
                    }
                    assert forall|w: int|
                        0 <= w < i + 1 && (#[trigger] self.sections@[w]).1@.len()
                            <= self.min_section_size implies exists|t: int|
                            0 <= t < r@.len() && r@[t] == self.sections@[w].0 by {
                        if w < i {
                            let t = choose|t: int|
                                0 <= t < rp.len() && rp[t] == self.sections@[w].0;
                            assert(r@[t] == self.sections@[w].0);
                        } else {
                            assert(r@[r@.len() - 1] == self.sections@[w].0);
                        }
                    }
                }
            }
            i += 1;
        }
        r
    }

    /// Merge every section that has fallen to the minimum size or below
    /// into its parent.
    pub fn do_merges(&mut self)
        requires
            old(self).wf(),
        ensures
            final(self).wf(),
            final(self).min_section_size == old(self).min_section_size,
            final(self).pending@ == old(self).pending@,
            final(self).spec_mal_total() == old(self).spec_mal_total(),
            final(self).spec_node_total() == old(self).spec_node_total(),
            net_members(final(self).sections@) == net_members(old(self).sections@),
    {
        let prefixes = self.need_merge();
        let ghost wfprefixes = prefixes@;
        proof {
            assert forall|t: int| 0 <= t < prefixes@.len() implies (#[trigger] prefixes@[t]).wf() by {
                let i = choose|i: int|
                    0 <= i < old(self).sections@.len() && (#[trigger] old(self).sections@[i]).0
                        == prefixes@[t] && old(self).sections@[i].1@.len()
                        <= old(self).min_section_size;
            }
        }
        let mut t: usize = 0;
        while t < prefixes.len()
            invariant
                self.wf(),
                t <= prefixes@.len(),
                forall|w: int| 0 <= w < prefixes@.len() ==> (#[trigger] prefixes@[w]).wf(),
                self.min_section_size == old(self).min_section_size,
                self.pending@ == old(self).pending@,
                self.spec_mal_total() == old(self).spec_mal_total(),
                self.spec_node_total() == old(self).spec_node_total(),
                net_members(self.sections@) == net_members(old(self).sections@),
            decreases prefixes@.len() - t,
        {
            self.do_merge(prefixes[t]);
            t += 1;
        }
    }

    /// Remove a single node from the network permanently (not used for
    /// relocation), merging any sections left too small. Returns the
    /// removed node's data, or an error (leaving the network unchanged) if
    /// no section has this prefix or the name is not a member.
    pub fn remove_node(&mut self, prefix: Prefix, node_name: NN) -> (r: Result<
        NodeData,
        crate::Error,
    >)
        requires
            old(self).wf(),
            prefix.wf(),
        ensures
            final(self).wf(),
            final(self).min_section_size == old(self).min_section_size,
            final(self).pending@ == old(self).pending@,
            match r {
                Ok(d) => final(self).spec_mal_total() + (if d.is_malicious {
                    1nat
                } else {
                    0nat
                }) == old(self).spec_mal_total() && final(self).spec_node_total() + 1 == old(
                    self,
                ).spec_node_total() && exists|i: int, v: int|
                    #![trigger old(self).sections@[i].1@[v]]
                    0 <= i < old(self).sections@.len() && old(self).sections@[i].0 == prefix && 0
                        <= v < old(self).sections@[i].1@.len() && old(self).sections@[i].1@[v] == (
                    node_name, d),
                Err(e) => e == crate::Error::NotFound && *final(self) == *old(self)
                    && !old(self).spec_has_member(prefix, node_name),
            },
    {
        let idx = match self.find_exact(prefix) {
            Some(i) => i,
            None => {
                proof {
                    if old(self).spec_has_member(prefix, node_name) {
                        let (i, v) = choose|i: int, v: int|
                            #![trigger self.sections@[i].1@[v]]
                            {
                                &&& 0 <= i < self.sections@.len()
                                &&& self.sections@[i].0 == prefix
                                &&& 0 <= v < self.sections@[i].1@.len()
                                &&& self.sections@[i].1@[v].0 == node_name
                            };
                        assert(self.sections@[i].0 != prefix);
                    }
                }
                return Err(crate::Error::NotFound);
            },
        };
        proof {
            assert(idx < self.sections.len());
        }
        let present = self.sections[idx].1.contains(node_name);
        if !present {
            proof {
                if old(self).spec_has_member(prefix, node_name) {
                    let (i, v) = choose|i: int, v: int|
                        #![trigger self.sections@[i].1@[v]]
                        {
                            &&& 0 <= i < self.sections@.len()
                            &&& self.sections@[i].0 == prefix
                            &&& 0 <= v < self.sections@[i].1@.len()
                            &&& self.sections@[i].1@[v].0 == node_name
                        };
                    self.lemma_prefix_unique(i, idx as int);
                }
            }
            return Err(crate::Error::NotFound);
        }
        let (epfx, mut egrp) = self.sections.remove(idx);
        let ghost s = egrp@;
        let removed = egrp.remove(node_name);
        self.sections.insert(idx, (epfx, egrp));
        let d = match removed {
            Some(d) => d,
            None => {
                proof {
                    assert(false);
                }
                NodeData::new()
            },
        };
        proof {
            let ss1 = old(self).sections@;
            assert(self.sections@ =~= ss1.update(idx as int, (epfx, egrp)));
            let p = choose|p: int|
                0 <= p < s.len() && s[p] == (node_name, d) && egrp@ == s.remove(p);
            assert forall|u: int| 0 <= u < egrp@.len() implies epfx.spec_matches(
                (#[trigger] egrp@[u]).0) by {
                if u < p {
                    assert(egrp@[u] == s[u]);
                    assert(old(self).sections@[idx as int].0.spec_matches(s[u].0));
                } else {
                    assert(egrp@[u] == s[u + 1]);
                    assert(old(self).sections@[idx as int].0.spec_matches(s[u + 1].0));
                }
            }
            self.lemma_after_group_update(*old(self), idx as int, epfx, egrp@, s);
            let fmal = |nd: Node| nd.1.is_malicious;
            let fall = |nd: Node| true;
            lemma_count_remove(s, p, fmal);
            lemma_count_remove(s, p, fall);
            lemma_sections_count_update(ss1, idx as int, (epfx, egrp), fmal);
            lemma_sections_count_update(ss1, idx as int, (epfx, egrp), fall);
        }
        self.do_merges();
        Ok(d)
    }

    /// Add all the nodes pending from the previous round, drawing a fresh
    /// random name for each. No node is lost: one that cannot be placed
    /// stays pending, and the retry-bound error is reported.
    pub fn add_pending_nodes<AR: AddRestriction, A: crate::attack::AttackStrategy>(
        &mut self,
        attack: &mut A,
    ) -> (r: Result<(), crate::Error>)
        requires
            old(self).wf(),
            old(attack).inv(),
        ensures
            final(attack).inv(),
            final(self).wf(),
            final(self).min_section_size == old(self).min_section_size,
            old(self).sizes_ok() ==> final(self).sizes_ok(),
            final(self).spec_mal_total() == old(self).spec_mal_total(),
            final(self).spec_node_total() == old(self).spec_node_total(),
            r is Err ==> r == Result::<(), crate::Error>::Err(crate::Error::FindNameExhausted),
            old(self).spec_node_total() == 0 ==> r is Ok,
    {
        let ghost fmal = |nd: Node| nd.1.is_malicious;
        let ghost fall = |nd: Node| true;
        proof {
            if self.spec_node_total() == 0 {
                lemma_count_true_is_len(self.pending@);
            }
        }
        let mut work: Vec<Node> = Vec::new();
        core::mem::swap(&mut work, &mut self.pending);
        proof {
            assert(work@.skip(0) =~= work@);
            assert(count_nodes(self.pending@, fmal) == 0);
            assert(count_nodes(self.pending@, fall) == 0);
        }
        let n = work.len();
        let mut i: usize = 0;
        while i < n
            invariant
                self.wf(),
                attack.inv(),
                i <= n,
                n == work@.len(),
                self.min_section_size == old(self).min_section_size,
                old(self).sizes_ok() ==> self.sizes_ok(),
                self.spec_mal_total() + count_nodes(work@.skip(i as int), fmal) == old(
                    self,
                ).spec_mal_total(),
                self.spec_node_total() + count_nodes(work@.skip(i as int), fall) == old(
                    self,
                ).spec_node_total(),
                old(self).spec_node_total() == 0 ==> n == 0,
                fmal == (|nd: Node| nd.1.is_malicious),
                fall == (|nd: Node| true),
            decreases n - i,
        {
            let (_, data) = (work[i].0, work[i].1);
            proof {
                assert(work@.skip(i as int) =~= seq![work@[i as int]] + work@.skip(i as int + 1));
                lemma_count_concat(seq![work@[i as int]], work@.skip(i as int + 1), fmal);
                lemma_count_concat(seq![work@[i as int]], work@.skip(i as int + 1), fall);
                assert(seq![work@[i as int]].drop_last() =~= Seq::<Node>::empty());
                assert(count_nodes(Seq::<Node>::empty(), fmal) == 0);
                assert(count_nodes(Seq::<Node>::empty(), fall) == 0);
            }
            match self.add_node::<AR, A>(data, attack) {
                Ok(_) => {},
                Err(e) => {
                    // Requeue this node and the rest so that none is lost.
                    let mut j: usize = i;
                    while j < n
                        invariant
                            i <= j <= n,
                            n == work@.len(),
                            self.wf(),
                            self.min_section_size == old(self).min_section_size,
                            old(self).sizes_ok() ==> self.sizes_ok(),
                            self.spec_mal_total() + count_nodes(work@.skip(j as int), fmal)
                                == old(self).spec_mal_total(),
                            self.spec_node_total() + count_nodes(work@.skip(j as int), fall)
                                == old(self).spec_node_total(),
                            fmal == (|nd: Node| nd.1.is_malicious),
                            fall == (|nd: Node| true),
                        decreases n - j,
                    {
                        proof {
                            assert(work@.skip(j as int) =~= seq![work@[j as int]] + work@.skip(
                                j as int + 1,
                            ));
                            lemma_count_concat(seq![work@[j as int]], work@.skip(j as int + 1), fmal);
                            lemma_count_concat(seq![work@[j as int]], work@.skip(j as int + 1), fall);
                            assert(seq![work@[j as int]].drop_last() =~= Seq::<Node>::empty());
                            assert(count_nodes(Seq::<Node>::empty(), fmal) == 0);
                            assert(count_nodes(Seq::<Node>::empty(), fall) == 0);
                            lemma_count_insert(
                                self.pending@,
                                self.pending@.len() as int,
                                work@[j as int],
                                fmal,
                            );
                            lemma_count_insert(
                                self.pending@,
                                self.pending@.len() as int,
                                work@[j as int],
                                fall,
                            );
                            assert(self.pending@.insert(
                                self.pending@.len() as int,
                                work@[j as int],
                            ) =~= self.pending@.push(work@[j as int]));
                        }
                        let nd = (work[j].0, work[j].1);
                        self.pending.push(nd);
                        j += 1;
                    }
                    proof {
                        assert(work@.skip(n as int) =~= Seq::<Node>::empty());
                        assert(count_nodes(Seq::<Node>::empty(), fmal) == 0);
                        assert(count_nodes(Seq::<Node>::empty(), fall) == 0);
                    }
                    return Err(crate::Error::FindNameExhausted);
                },
            }
            i += 1;
        }
        proof {
            assert(work@.skip(n as int) =~= Seq::<Node>::empty());
            assert(count_nodes(Seq::<Node>::empty(), fmal) == 0);
            assert(count_nodes(Seq::<Node>::empty(), fall) == 0);
        }
        Ok(())
    }

    /// Keep draining the pending queue, which each round may refill with
    /// newly relocated nodes, up to a fixed number of rounds.
    pub fn add_all_pending_nodes<AR: AddRestriction, A: crate::attack::AttackStrategy>(
        &mut self,
        attack: &mut A,
    ) -> (r: Result<(), crate::Error>)
        requires
            old(self).wf(),
            old(attack).inv(),
        ensures
            final(attack).inv(),
            final(self).wf(),
            final(self).min_section_size == old(self).min_section_size,
            old(self).sizes_ok() ==> final(self).sizes_ok(),
            final(self).spec_mal_total() == old(self).spec_mal_total(),
            final(self).spec_node_total() == old(self).spec_node_total(),
            r is Err ==> r == Result::<(), crate::Error>::Err(crate::Error::FindNameExhausted),
            old(self).spec_node_total() == 0 ==> r is Ok,
    {
        let mut round: usize = 0;
        while round < PENDING_NODE_LIMIT
            invariant
                self.wf(),
                attack.inv(),
                self.min_section_size == old(self).min_section_size,
                old(self).sizes_ok() ==> self.sizes_ok(),
                self.spec_mal_total() == old(self).spec_mal_total(),
                self.spec_node_total() == old(self).spec_node_total(),
            decreases PENDING_NODE_LIMIT - round,
        {
            proof {
                if self.spec_node_total() == 0 {
                    lemma_count_true_is_len(self.pending@);
                }
            }
            if self.pending.is_empty() {
                return Ok(());
            }
            proof {
                if old(self).spec_node_total() == 0 {
                    assert(false);
                }
            }
            match self.add_pending_nodes::<AR, A>(attack) {
                Ok(_) => {},
                Err(e) => {
                    return Err(e);
                },
            }
            round += 1;
        }
        Ok(())
    }

    /// Draw random names until one lands in a section that will accept this
    /// node: the name is fresh in its section, and the section is either at
    /// most the minimum size or passes the add-restriction. Gives up with
    /// an error after a fixed number of tries.
    pub fn find_name<AR: AddRestriction>(&self, node_data: &NodeData) -> (r: Result<
        (Prefix, NN),
        crate::Error,
    >)
        requires
            self.wf(),
        ensures
            match r {
                Ok(pn) => exists|i: int|
                    self.accepts_at::<AR>(i, pn.1, *node_data) && (#[trigger] self.sections@[i]).0
                        == pn.0,
                Err(e) => e == crate::Error::FindNameExhausted,
            },
            self.spec_node_total() == 0 ==> r is Ok,
    {
        let mut tries: usize = 0;
        while tries < FIND_NAME_LIMIT
            invariant
                self.wf(),
                self.spec_node_total() == 0 ==> tries == 0,
            decreases FIND_NAME_LIMIT - tries,
        {
            let name = new_node_name();
            let idx = self.find_idx(name);
            let group = &self.sections[idx].1;
            proof {
                // An empty network always accepts the first draw.
                if self.spec_node_total() == 0 {
                    self.lemma_section_le_total(idx as int);
                }
            }
            if !group.contains(name) && (group.len() <= self.min_section_size || AR::can_add(
                node_data,
                group,
            )) {
                proof {
                    assert(self.accepts_at::<AR>(idx as int, name, *node_data));
                }
                return Ok((self.sections[idx].0, name));
            }
            proof {
                if self.spec_node_total() == 0 {
                    assert(false);
                }
            }
            tries += 1;
        }
        Err(crate::Error::FindNameExhausted)
    }
}


} // verus!
