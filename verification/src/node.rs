//! Node names, section prefixes and per-node bookkeeping.
//!
//! A name is a random 64-bit integer; a section is identified by a `Prefix`,
//! the first `bit_count` bits of a name. `NodeData` carries the age and
//! churn counters that drive relocation.

use vstd::prelude::*;

verus! {

use crate::NN;

/// True iff bit `i` of `name` is set, counting from the most significant
/// bit, so that bit 0 decides the first binary split of the name space.
pub open spec fn nn_bit(name: NN, i: int) -> bool {
    (name >> ((63 - i) as u64)) & 1u64 == 1u64
}

/// The 64 bits of a name, most significant first.
pub open spec fn name_bits(name: NN) -> Seq<bool> {
    Seq::new(64, |i: int| nn_bit(name, i))
}

proof fn lemma_mask_bit(name: u64, bc: u64, j: u64, s: u64)
    by (bit_vector)
    requires
        bc < 64,
        j < 64,
        s == 63 - j,
    ensures
        ((name & !(0xffff_ffff_ffff_ffffu64 >> bc)) >> s) & 1u64 == (if j < bc {
            (name >> s) & 1u64
        } else {
            0u64
        }),
{
}

proof fn lemma_set_bit(name: u64, p: u64, j: u64, s: u64, t: u64)
    by (bit_vector)
    requires
        p < 64,
        j < 64,
        s == 63 - j,
        t == 63 - p,
    ensures
        ((name | (1u64 << t)) >> s) & 1u64 == (if j == p {
            1u64
        } else {
            (name >> s) & 1u64
        }),
{
}

proof fn lemma_clear_bit(name: u64, p: u64, j: u64, s: u64, t: u64)
    by (bit_vector)
    requires
        p < 64,
        j < 64,
        s == 63 - j,
        t == 63 - p,
    ensures
        ((name & !(1u64 << t)) >> s) & 1u64 == (if j == p {
            0u64
        } else {
            (name >> s) & 1u64
        }),
{
}

/// A section prefix: the first `bit_count` bits of `name`, the part of the
/// name space consisting of all names that start with those bits.
/// Insignificant bits of `name` are kept at zero.
#[derive(Clone, Copy, PartialEq, Eq, Structural, Debug)]
pub struct Prefix {
    /// The number of significant bits.
    pub bit_count: u64,
    /// The prefix bits, most significant first; bits past `bit_count` are zero.
    pub name: NN,
}

impl View for Prefix {
    type V = Seq<bool>;

    open spec fn view(&self) -> Seq<bool> {
        Seq::new(self.bit_count as nat, |i: int| nn_bit(self.name, i))
    }
}

impl Prefix {
    /// At most 64 significant bits, and every insignificant bit is zero,
    /// so that equal bit sequences are equal values.
    pub open spec fn wf(self) -> bool {
        &&& self.bit_count <= 64
    &&& forall|i: int| self.bit_count <= i < 64 ==> !nn_bit(self.name, i)
    }

    /// The prefix that `pushed` returns: `bit` appended at position
    /// `bit_count`.
    pub open spec fn spec_pushed(self, bit: bool) -> Prefix
        recommends
            self.bit_count < 64,
    {
        Prefix {
            bit_count: (self.bit_count + 1) as u64,
            name: if bit {
                self.name | (1u64 << ((63 - self.bit_count) as u64))
            } else {
                self.name
            },
        }
    }

    /// The prefix that `popped` returns: the last significant bit dropped
    /// and zeroed, or `self` if it is already empty.
    pub open spec fn spec_popped(self) -> Prefix {
        if self.bit_count == 0 {
            self
        } else {
            Prefix {
                bit_count: (self.bit_count - 1) as u64,
                name: self.name & !(1u64 << ((64 - self.bit_count) as u64)),
            }
        }
    }

    /// `self` is a prefix of the given name.
    pub open spec fn spec_matches(self, name: NN) -> bool {
        self@.is_prefix_of(name_bits(name))
    }

    /// One of the two prefixes is a prefix of the other.
    pub open spec fn spec_compatible(self, other: Prefix) -> bool {
        self@.is_prefix_of(other@) || other@.is_prefix_of(self@)
    }

    /// Creates a new `Prefix` from the first `bit_count` bits of `name`.
    pub fn new(bit_count: u64, name: NN) -> (r: Prefix)
        requires
            bit_count <= 64,
        ensures
            r.wf(),
            r.bit_count == bit_count,
            r@ == name_bits(name).take(bit_count as int),
    {
        let masked = if bit_count >= 64 {
            name
        } else {
            name & !(u64::MAX >> bit_count)
        };
        let r = Prefix { bit_count, name: masked };
        proof {
            assert forall|j: int| 0 <= j < 64 implies nn_bit(masked, j) == (j < bit_count
                && nn_bit(name, j)) by {
                if bit_count < 64 {
                    lemma_mask_bit(name, bit_count, j as u64, (63 - j) as u64);
                }
            }
            assert(r@ =~= name_bits(name).take(bit_count as int));
        }
        r
    }

    /// The number of significant bits.
    pub fn bit_count(&self) -> (r: usize)
        requires
            self.wf(),
        ensures
            r == self.bit_count,
    {
        self.bit_count as usize
    }

    /// Returns `self` with an appended bit: `0` if `bit` is `false` and `1`
    /// if it is `true`.
    pub fn pushed(self, bit: bool) -> (r: Prefix)
        requires
            self.wf(),
            self.bit_count < 64,
        ensures
            r == self.spec_pushed(bit),
            r.wf(),
            r.bit_count == self.bit_count + 1,
            r@ == self@.push(bit),
    {
        let name = if bit {
            self.name | (1u64 << (63 - self.bit_count))
        } else {
            self.name
        };
        let r = Prefix { bit_count: self.bit_count + 1, name };
        proof {
            assert forall|j: int| 0 <= j < 64 implies nn_bit(name, j) == (if j == self.bit_count {
                bit
            } else {
                nn_bit(self.name, j)
            }) by {
                if bit {
                    lemma_set_bit(
                        self.name,
                        self.bit_count,
                        j as u64,
                        (63 - j) as u64,
                        (63 - self.bit_count) as u64,
                    );
                }
            }
            assert(r@ =~= self@.push(bit));
        }
        r
    }

    /// Returns a prefix keeping the first `bit_count() - 1` bits of `self`,
    /// or `self` unchanged if it is already empty.
    pub fn popped(self) -> (r: Prefix)
        requires
            self.wf(),
        ensures
            r == self.spec_popped(),
            r.wf(),
            r@ == (if self.bit_count == 0 {
                self@
            } else {
                self@.drop_last()
            }),
            r.bit_count == (if self.bit_count == 0 {
                0int
            } else {
                self.bit_count - 1
            }),
    {
        if self.bit_count == 0 {
            return self;
        }
        let pos = self.bit_count - 1;
        let name = self.name & !(1u64 << (63 - pos));
        let r = Prefix { bit_count: pos, name };
        proof {
            assert forall|j: int| 0 <= j < 64 implies nn_bit(name, j) == (if j == pos {
                false
            } else {
                nn_bit(self.name, j)
            }) by {
                lemma_clear_bit(self.name, pos, j as u64, (63 - j) as u64, (63 - pos) as u64);
            }
            assert(r@ =~= self@.drop_last());
        }
        r
    }

    /// The length of the common prefix of `self` and `name`: the index of
    /// the first significant bit on which they differ, or `bit_count` if
    /// there is none.
    pub fn common_prefix(&self, name: NN) -> (r: usize)
        requires
            self.wf(),
        ensures
            0 <= r <= self.bit_count,
            forall|k: int| 0 <= k < r ==> self@[k] == name_bits(name)[k],
            r < self.bit_count ==> self@[r as int] != name_bits(name)[r as int],
    {
        let mut i: u64 = 0;
        while i < self.bit_count
            invariant
                self.wf(),
                0 <= i <= self.bit_count,
                forall|k: int| 0 <= k < i ==> self@[k] == name_bits(name)[k],
            decreases self.bit_count - i,
        {
            let pb = ((self.name >> (63 - i)) & 1) == 1;
            let nb = ((name >> (63 - i)) & 1) == 1;
            if pb != nb {
                return i as usize;
            }
            i += 1;
        }
        i as usize
    }

    /// Returns `true` if this is a prefix of the given `name`.
    pub fn matches(&self, name: NN) -> (r: bool)
        requires
            self.wf(),
        ensures
            r == self.spec_matches(name),
    {
        let c = self.common_prefix(name);
        let r = c == self.bit_count as usize;
        proof {
            if r {
                assert(self@ =~= name_bits(name).take(self.bit_count as int));
            }
        }
        r
    }

    /// Returns `true` if `self` is a prefix of `other` or vice versa.
    pub fn is_compatible(&self, other: Prefix) -> (r: bool)
        requires
            self.wf(),
            other.wf(),
        ensures
            r == self.spec_compatible(other),
    {
        let shorter: u64 = if self.bit_count <= other.bit_count {
            self.bit_count
        } else {
            other.bit_count
        };
        let mut i: u64 = 0;
        while i < shorter
            invariant
                self.wf(),
                other.wf(),
                shorter == vstd::math::min(self.bit_count as int, other.bit_count as int),
                0 <= i <= shorter,
                forall|k: int| 0 <= k < i ==> self@[k] == other@[k],
            decreases shorter - i,
        {
            let pb = ((self.name >> (63 - i)) & 1) == 1;
            let nb = ((other.name >> (63 - i)) & 1) == 1;
            if pb != nb {
                proof {
                    assert(self@[i as int] != other@[i as int]);
                }
                return false;
            }
            i += 1;
        }
        proof {
            if self.bit_count <= other.bit_count {
                assert(self@ =~= other@.take(self.bit_count as int));
            } else {
                assert(other@ =~= self@.take(other.bit_count as int));
            }
        }
        true
    }
}

proof fn lemma_set_clear_roundtrip(x: u64, t: u64)
    by (bit_vector)
    requires
        t < 64,
        (x >> t) & 1u64 != 1,
    ensures
        ((x | (1u64 << t)) & !(1u64 << t)) == x,
        (x & !(1u64 << t)) == x,
{
}

/// Appending any bit to a prefix and then popping it returns the original
/// prefix, as a value: `p.pushed(b).popped() == p`.
pub proof fn lemma_push_pop(p: Prefix, b: bool)
    requires
        p.wf(),
        p.bit_count < 64,
    ensures
        p.spec_pushed(b).spec_popped() == p,
{
    let t = (63 - p.bit_count) as u64;
    assert(!nn_bit(p.name, p.bit_count as int));
    lemma_set_clear_roundtrip(p.name, t);
}

/// A prefix of a prefix of a sequence is a prefix of that sequence.
pub proof fn lemma_prefix_trans(a: Seq<bool>, b: Seq<bool>, c: Seq<bool>)
    requires
        a.is_prefix_of(b),
        b.is_prefix_of(c),
    ensures
        a.is_prefix_of(c),
{
    assert(a =~= c.subrange(0, a.len() as int));
}

/// Two prefixes of one sequence are ordered by the prefix relation.
pub proof fn lemma_two_prefixes(a: Seq<bool>, b: Seq<bool>, s: Seq<bool>)
    requires
        a.is_prefix_of(s),
        b.is_prefix_of(s),
        a.len() <= b.len(),
    ensures
        a.is_prefix_of(b),
{
    assert(a =~= b.subrange(0, a.len() as int));
}

/// Extending a prefix by one bit matches exactly the part of its name
/// space whose next bit is that bit.
pub proof fn lemma_push_prefix(a: Seq<bool>, b: bool, s: Seq<bool>)
    requires
        a.len() < s.len(),
    ensures
        a.push(b).is_prefix_of(s) <==> (a.is_prefix_of(s) && s[a.len() as int] == b),
{
    if a.push(b).is_prefix_of(s) {
        assert(a =~= s.subrange(0, a.len() as int));
        assert(a.push(b)[a.len() as int] == b);
    }
    if a.is_prefix_of(s) && s[a.len() as int] == b {
        assert(a.push(b) =~= s.subrange(0, a.len() as int + 1));
    }
}

/// Names are partitioned: a name matched by one of two incompatible
/// prefixes is not matched by the other.
pub proof fn lemma_incompatible_disjoint(p: Prefix, q: Prefix, name: NN)
    requires
        !p.spec_compatible(q),
        p.spec_matches(name),
    ensures
        !q.spec_matches(name),
{
    if q.spec_matches(name) {
        if p@.len() <= q@.len() {
            lemma_two_prefixes(p@, q@, name_bits(name));
        } else {
            lemma_two_prefixes(q@, p@, name_bits(name));
        }
    }
}

/// The two one-bit extensions of a prefix are incompatible.
pub proof fn lemma_siblings_incompatible(a: Seq<bool>)
    ensures
        !a.push(false).is_prefix_of(a.push(true)),
        !a.push(true).is_prefix_of(a.push(false)),
{
    assert(a.push(false)[a.len() as int] == false);
    assert(a.push(true)[a.len() as int] == true);
}

/// Data stored for a node: its age, its churn counter and its allegiance.
#[derive(Clone, Copy, PartialEq, Eq, Structural, Debug)]
pub struct NodeData {
    /// Number of relocations this node has been through; starts at 0.
    pub age: u32,
    /// Number of churn events observed in this node's sections; starts at 0.
    pub churns: u32,
    /// Whether the node belongs to the attacker.
    pub is_malicious: bool,
}

impl NodeData {
    /// New data: initial age and churns, not malicious.
    pub fn new() -> (r: Self)
        ensures
            r == (NodeData { age: 0, churns: 0, is_malicious: false }),
    {
        NodeData { age: 0, churns: 0, is_malicious: false }
    }

    /// New data: initial age and churns, malicious.
    pub fn new_malicious() -> (r: Self)
        ensures
            r == (NodeData { age: 0, churns: 0, is_malicious: true }),
    {
        NodeData { age: 0, churns: 0, is_malicious: true }
    }

    /// Get the age.
    pub fn age(&self) -> (r: u32)
        ensures
            r == self.age,
    {
        self.age
    }

    /// Increment age by 1.
    pub fn incr_age(&mut self)
        requires
            old(self).age < u32::MAX,
        ensures
            *final(self) == (NodeData { age: (old(self).age + 1) as u32, ..*old(self) }),
    {
        self.age = self.age + 1;
    }

    /// Get the number of churns.
    pub fn churns(&self) -> (r: u32)
        ensures
            r == self.churns,
    {
        self.churns
    }

    /// Increment the churn counter (saturating at the type's maximum) and
    /// return whether the node is now eligible for relocation, which holds
    /// exactly when the counter has reached `2^age`.
    pub fn churn_and_can_age(&mut self) -> (r: bool)
        ensures
            *final(self) == churned_data(*old(self)),
            r == churn_eligible(*old(self)),
            final(self).age == old(self).age,
            final(self).is_malicious == old(self).is_malicious,
            final(self).churns == (if old(self).churns < u32::MAX {
                old(self).churns + 1
            } else {
                old(self).churns as int
            }),
            r == (final(self).churns >= vstd::arithmetic::power2::pow2(old(self).age as nat)),
    {
        if self.churns < u32::MAX {
            self.churns = self.churns + 1;
        }
        let r = self.age < 32 && self.churns >= (1u32 << self.age);
        proof {
            if self.age < 32 {
                vstd::bits::lemma_u32_pow2_no_overflow(self.age as nat);
                vstd::bits::lemma_u32_shl_is_mul(1u32, self.age);
            } else {
                vstd::arithmetic::power2::lemma2_to64();
                if self.age > 32 {
                    vstd::arithmetic::power2::lemma_pow2_strictly_increases(
                        32,
                        self.age as nat,
                    );
                }
            }
        }
        r
    }

    /// Is this node malicious?
    pub fn is_malicious(&self) -> (r: bool)
        ensures
            r == self.is_malicious,
    {
        self.is_malicious
    }
}

/// The node data after one churn event: the churn counter stepped,
/// saturating at the counter type's maximum.
pub open spec fn churned_data(d: NodeData) -> NodeData {
    NodeData {
        churns: if d.churns < u32::MAX {
            (d.churns + 1) as u32
        } else {
            d.churns
        },
        ..d
    }
}

/// After one more churn the node is eligible for relocation: its stepped
/// counter has reached the power-of-two boundary `2^age`.
pub open spec fn churn_eligible(d: NodeData) -> bool {
    churned_data(d).churns >= vstd::arithmetic::power2::pow2(d.age as nat)
}

/// Type of a node: a name together with its data.
pub type Node = (NN, NodeData);

/// Generate a new node name.
///
/// Relies on `rand::random`: a value drawn from the thread-local generator
/// under the uniform distribution. Nothing can be promised of the value;
/// callers state what holds of every outcome.
#[verifier::external_body]
pub fn new_node_name() -> NN {
    rand::random::<u64>()
}

} // verus!
