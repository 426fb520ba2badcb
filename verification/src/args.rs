//! Parameter sweeps: sample points for each tunable and the Cartesian
//! expansion into one simulation parameter set per point.

use vstd::prelude::*;

verus! {

use crate::NN;

/// A fractional tunable held exactly, in thousandths.
#[derive(Clone, Copy, PartialEq, Eq, Structural, Debug)]
pub struct Milli(pub u64);

/// A tunable's value type: ordered, steppable, with a default step for
/// ranges given without one.
pub trait DefaultStep: Sized + Copy {
    /// Whether two values can be compared and stepped together.
    spec fn same_kind(self, other: Self) -> bool;

    /// The value as an integer, for specification purposes.
    spec fn as_int(self) -> int;

    /// What `default_step` returns, as an integer.
    spec fn spec_default_step(x: Self) -> int;

    /// Return a default step. The value `x` is passed so that a
    /// relative-or-absolute tunable can pick a step of its own kind.
    fn default_step(x: Self) -> (r: Self)
        ensures
            x.same_kind(r),
            r.as_int() == Self::spec_default_step(x),
            r.as_int() >= 1,
    ;

    /// Comparison.
    fn lte(self, other: Self) -> (r: bool)
        requires
            self.same_kind(other),
        ensures
            r == (self.as_int() <= other.as_int()),
    ;

    /// The largest value the representation can hold.
    spec fn spec_max() -> int;

    /// Every value is within the representation's bound.
    proof fn as_int_le_max(x: Self)
        ensures
            x.as_int() <= Self::spec_max(),
    ;

    /// One step forward, or `None` where the representation would
    /// overflow.
    fn step_forward(self, step: Self) -> (r: Option<Self>)
        requires
            self.same_kind(step),
        ensures
            match r {
                Some(v) => v.as_int() == self.as_int() + step.as_int() && self.same_kind(v),
                None => self.as_int() + step.as_int() > Self::spec_max(),
            },
    ;

    /// Kinds are reflexive.
    proof fn same_kind_refl(x: Self)
        ensures
            x.same_kind(x),
    ;

    /// Kinds are symmetric.
    proof fn same_kind_sym(x: Self, y: Self)
        requires
            x.same_kind(y),
        ensures
            y.same_kind(x),
    ;

    /// Kinds are transitive.
    proof fn same_kind_trans(x: Self, y: Self, z: Self)
        requires
            x.same_kind(y),
            y.same_kind(z),
        ensures
            x.same_kind(z),
    ;
}

impl DefaultStep for NN {
    open spec fn same_kind(self, other: NN) -> bool {
        true
    }

    open spec fn as_int(self) -> int {
        self as int
    }

    open spec fn spec_default_step(x: NN) -> int {
        1
    }

    fn default_step(_x: NN) -> NN {
        1
    }

    fn lte(self, other: NN) -> bool {
        self <= other
    }

    open spec fn spec_max() -> int {
        u64::MAX as int
    }

    proof fn as_int_le_max(x: NN) {
    }

    proof fn same_kind_refl(x: NN) {
    }

    proof fn same_kind_sym(x: NN, y: NN) {
    }

    proof fn same_kind_trans(x: NN, y: NN, z: NN) {
    }

    fn step_forward(self, step: NN) -> Option<NN> {
        if self <= u64::MAX - step {
            Some(self + step)
        } else {
            None
        }
    }
}

impl DefaultStep for Milli {
    open spec fn same_kind(self, other: Milli) -> bool {
        true
    }

    open spec fn as_int(self) -> int {
        self.0 as int
    }

    open spec fn spec_default_step(x: Milli) -> int {
        1000
    }

    fn default_step(_x: Milli) -> Milli {
        Milli(1000)
    }

    fn lte(self, other: Milli) -> bool {
        self.0 <= other.0
    }

    open spec fn spec_max() -> int {
        u64::MAX as int
    }

    proof fn as_int_le_max(x: Milli) {
    }

    proof fn same_kind_refl(x: Milli) {
    }

    proof fn same_kind_sym(x: Milli, y: Milli) {
    }

    proof fn same_kind_trans(x: Milli, y: Milli, z: Milli) {
    }

    fn step_forward(self, step: Milli) -> Option<Milli> {
        if self.0 <= u64::MAX - step.0 {
            Some(Milli(self.0 + step.0))
        } else {
            None
        }
    }
}

/// A tunable given either relative to a base count (in thousandths) or as
/// an absolute value.
#[derive(Clone, Copy, PartialEq, Eq, Structural, Debug)]
pub enum RelOrAbs {
    /// A fraction of the base, in thousandths.
    Rel(Milli),
    /// An absolute value.
    Abs(u64),
}

impl RelOrAbs {
    /// Resolve against a base: the rounded fraction of the base for a
    /// relative value, the value itself for an absolute one.
    pub fn from_base(self, base: u64) -> (r: u64)
        requires
            match self {
                RelOrAbs::Rel(m) => (base * m.0 + 500) / 1000 <= u64::MAX,
                RelOrAbs::Abs(v) => true,
            },
        ensures
            r == match self {
                RelOrAbs::Rel(m) => ((base * m.0 + 500) / 1000) as int,
                RelOrAbs::Abs(v) => v as int,
            },
    {
        match self {
            RelOrAbs::Rel(m) => (((base as u128) * (m.0 as u128) + 500) / 1000) as u64,
            RelOrAbs::Abs(v) => v,
        }
    }
}

impl DefaultStep for RelOrAbs {
    open spec fn same_kind(self, other: RelOrAbs) -> bool {
        (self is Rel && other is Rel) || (self is Abs && other is Abs)
    }

    open spec fn as_int(self) -> int {
        match self {
            RelOrAbs::Rel(m) => m.0 as int,
            RelOrAbs::Abs(v) => v as int,
        }
    }

    open spec fn spec_default_step(x: RelOrAbs) -> int {
        match x {
            RelOrAbs::Rel(m) => 100,
            RelOrAbs::Abs(v) => 1,
        }
    }

    fn default_step(x: RelOrAbs) -> RelOrAbs {
        match x {
            RelOrAbs::Rel(_) => RelOrAbs::Rel(Milli(100)),
            RelOrAbs::Abs(_) => RelOrAbs::Abs(1),
        }
    }

    fn lte(self, other: RelOrAbs) -> bool {
        match (self, other) {
            (RelOrAbs::Rel(a), RelOrAbs::Rel(b)) => a.0 <= b.0,
            (RelOrAbs::Abs(a), RelOrAbs::Abs(b)) => a <= b,
            _ => false,
        }
    }

    open spec fn spec_max() -> int {
        u64::MAX as int
    }

    proof fn as_int_le_max(x: RelOrAbs) {
    }

    proof fn same_kind_refl(x: RelOrAbs) {
    }

    proof fn same_kind_sym(x: RelOrAbs, y: RelOrAbs) {
    }

    proof fn same_kind_trans(x: RelOrAbs, y: RelOrAbs, z: RelOrAbs) {
    }

    fn step_forward(self, step: RelOrAbs) -> Option<RelOrAbs> {
        match (self, step) {
            (RelOrAbs::Rel(a), RelOrAbs::Rel(b)) => if a.0 <= u64::MAX - b.0 {
                Some(RelOrAbs::Rel(Milli(a.0 + b.0)))
            } else {
                None
            },
            (RelOrAbs::Abs(a), RelOrAbs::Abs(b)) => if a <= u64::MAX - b {
                Some(RelOrAbs::Abs(a + b))
            } else {
                None
            },
            _ => None,
        }
    }
}

/// The sample points of one tunable: a range with an optional step, an
/// explicit list, or a single value.
pub enum SamplePoints<T> {
    /// `start..=stop` with an optional step (a default step otherwise).
    Range(T, T, Option<T>),
    /// An explicit list.
    List(Vec<T>),
    /// A single value.
    Number(T),
}

impl<T: DefaultStep> SamplePoints<T> {
    /// A range's bounds and step are of one kind, and any given step is
    /// positive.
    pub open spec fn wf(self) -> bool {
        match self {
            SamplePoints::Range(start, stop, step) => start.same_kind(stop) && match step {
                Some(s) => start.same_kind(s) && s.as_int() >= 1,
                None => true,
            },
            SamplePoints::List(v) => true,
            SamplePoints::Number(x) => true,
        }
    }

    /// How many points the tunable has: one for a single value, the list
    /// length for a list, and for a range the whole arithmetic progression
    /// within the bounds — where the range is empty, its start alone.
    pub open spec fn spec_num_points(self) -> nat {
        match self {
            SamplePoints::Number(x) => 1,
            SamplePoints::List(v) => v@.len(),
            SamplePoints::Range(start, stop, step) => {
                let st = match step {
                    Some(s) => s.as_int(),
                    None => T::spec_default_step(start),
                };
                if start.as_int() > stop.as_int() {
                    1
                } else {
                    ((stop.as_int() - start.as_int()) / st + 1) as nat
                }
            },
        }
    }

    /// Materialize the points, in order: the single value, the list as
    /// given, or the arithmetic progression from `start` by `step` while
    /// within `stop` — at least the start itself, even past `stop`.
    pub fn iter(&self) -> (r: Vec<T>)
        requires
            self.wf(),
        ensures
            r@.len() == self.spec_num_points(),
            match *self {
                SamplePoints::Number(x) => r@ == seq![x],
                SamplePoints::List(v) => r@ == v@,
                SamplePoints::Range(start, stop, step) => {
                    let st = match step {
                        Some(s) => s.as_int(),
                        None => T::spec_default_step(start),
                    };
                    &&& r@.len() >= 1
                    &&& forall|i: int|
                        0 <= i < r@.len() ==> (#[trigger] r@[i]).as_int() == start.as_int() + i
                            * st
                    &&& forall|i: int| 1 <= i < r@.len() ==> (#[trigger] r@[i]).as_int()
                        <= stop.as_int()
                },
            },
    {
        match self {
            SamplePoints::Number(x) => {
                let mut r: Vec<T> = Vec::new();
                r.push(*x);
                proof {
                    assert(r@ =~= seq![*x]);
                }
                r
            },
            SamplePoints::List(v) => {
                let mut r: Vec<T> = Vec::new();
                let mut i: usize = 0;
                while i < v.len()
                    invariant
                        i <= v@.len(),
                        r@ == v@.take(i as int),
                    decreases v@.len() - i,
                {
                    r.push(v[i]);
                    proof {
                        assert(r@ =~= v@.take(i + 1));
                    }
                    i += 1;
                }
                proof {
                    assert(v@.take(v@.len() as int) =~= v@);
                }
                r
            },
            SamplePoints::Range(start, stop, step) => {
                let st = match step {
                    Some(s) => *s,
                    None => T::default_step(*start),
                };
                let ghost sti = st.as_int();
                let mut r: Vec<T> = Vec::new();
                let mut cur = *start;
                proof {
                    T::same_kind_refl(*start);
                }
                r.push(cur);
                let mut more = true;
                proof {
                    vstd::arithmetic::mul::lemma_mul_basics(sti);
                    T::same_kind_sym(*start, cur);
                    T::same_kind_trans(cur, *start, st);
                    T::as_int_le_max(*stop);
                }
                match cur.step_forward(st) {
                    Some(next) => {
                        proof {
                            T::same_kind_trans(*start, cur, next);
                            T::same_kind_sym(*start, next);
                            T::same_kind_trans(next, *start, *stop);
                        }
                        if next.lte(*stop) {
                            cur = next;
                        } else {
                            more = false;
                        }
                    },
                    None => {
                        // The representation cannot step past its own
                        // maximum without also passing the stop bound.
                        more = false;
                    },
                }
                while more
                    invariant
                        start.same_kind(*stop),
                        start.same_kind(st),
                        start.same_kind(cur),
                        sti == st.as_int(),
                        sti >= 1,
                        r@.len() >= 1,
                        more ==> cur.as_int() == start.as_int() + r@.len() * sti
                            && cur.as_int() <= stop.as_int(),
                        !more ==> start.as_int() + r@.len() * sti > stop.as_int(),
                        forall|i: int|
                            0 <= i < r@.len() ==> (#[trigger] r@[i]).as_int() == start.as_int()
                                + i * sti,
                        forall|i: int| 1 <= i < r@.len() ==> (#[trigger] r@[i]).as_int()
                            <= stop.as_int(),
                    decreases stop.as_int() + sti - cur.as_int(), (if more { 1int } else { 0int }),
                {
                    r.push(cur);
                    proof {
                        vstd::arithmetic::mul::lemma_mul_is_distributive_add_other_way(
                            sti,
                            r@.len() - 1,
                            1,
                        );
                        vstd::arithmetic::mul::lemma_mul_basics(sti);
                        T::same_kind_sym(*start, cur);
                        T::same_kind_trans(cur, *start, st);
                        T::as_int_le_max(*stop);
                    }
                    match cur.step_forward(st) {
                        Some(next) => {
                            proof {
                                T::same_kind_trans(*start, cur, next);
                                T::same_kind_sym(*start, next);
                                T::same_kind_trans(next, *start, *stop);
                            }
                            cur = next;
                            more = cur.lte(*stop);
                        },
                        None => {
                            more = false;
                        },
                    }
                }
                proof {
                    // The count is exactly the progression length: the
                    // last point is within the bound, the next is not.
                    if start.as_int() > stop.as_int() {
                        assert(r@.len() == 1) by {
                            if r@.len() > 1 {
                                assert(r@[1].as_int() <= stop.as_int());
                                vstd::arithmetic::mul::lemma_mul_basics(sti);
                            }
                        }
                    } else {
                        let d = stop.as_int() - start.as_int();
                        let len = r@.len() as int;
                        assert(r@[len - 1].as_int() <= stop.as_int() || len == 1);
                        assert((len - 1) * sti <= d && len * sti > d) by {
                            vstd::arithmetic::mul::lemma_mul_basics(sti);
                        }
                        assert(d / sti == len - 1) by (nonlinear_arith)
                            requires
                                sti >= 1,
                                d >= 0,
                                (len - 1) * sti <= d,
                                len * sti > d,
                                len >= 1,
                        ;
                    }
                }
                r
            },
        }
    }
}

/// Which estimator to run.
#[derive(Clone, Copy, PartialEq, Eq, Structural, Debug)]
pub enum SimType {
    /// Closed-form calculation.
    DirectCalc,
    /// Simulated structure, then calculation.
    Structure,
    /// Full event-driven simulation.
    FullSim,
}

impl SimType {
    /// A short name for output tables.
    pub fn name(self) -> (r: &'static str)
        ensures
            r@ == match self {
                SimType::DirectCalc => "dir_calc"@,
                SimType::Structure => "structure"@,
                SimType::FullSim => "full_sim"@,
            },
    {
        match self {
            SimType::DirectCalc => "dir_calc",
            SimType::Structure => "structure",
            SimType::FullSim => "full_sim",
        }
    }
}

/// Which attack strategy to run.
#[derive(Clone, Copy, PartialEq, Eq, Structural, Debug)]
pub enum AttackType {
    /// Evict uniformly random malicious nodes.
    Untargetted,
    /// Concentrate on the first section reached.
    SimpleTargetted,
}

impl AttackType {
    /// A short name for output tables.
    pub fn name(&self) -> (r: &'static str)
        ensures
            r@ == match *self {
                AttackType::Untargetted => "untarg."@,
                AttackType::SimpleTargetted => "simp_targ"@,
            },
    {
        match self {
            AttackType::Untargetted => "untarg.",
            AttackType::SimpleTargetted => "simp_targ",
        }
    }
}

/// One point of the parameter sweep: everything one run needs.
#[derive(Clone, Copy, PartialEq, Eq, Structural, Debug)]
pub struct SimParams {
    /// Which estimator to run.
    pub sim_type: SimType,
    /// Whether to use the age quorum instead of the simple one.
    pub age_quorum: bool,
    /// Which attack strategy to use.
    pub targetting: AttackType,
    /// Initial number of (honest) nodes.
    pub num_initial: NN,
    /// Number of attacking nodes, absolute or relative to `num_initial`.
    pub num_attacking: RelOrAbs,
    /// Maximum join rate, per day.
    pub max_join: RelOrAbs,
    /// Background join rate of good nodes, per day.
    pub add_good: RelOrAbs,
    /// Leave rate of good nodes, per day.
    pub leave_good: RelOrAbs,
    /// Minimum section size.
    pub min_group_size: NN,
    /// Quorum proportion, in thousandths.
    pub quorum_prop: Milli,
    /// Length of one proof-of-work step, in thousandths of a day.
    pub proof_time: Milli,
    /// Attack deadline, in thousandths of a day.
    pub max_days: Milli,
}

/// Argument processing: expanding sample points into parameter sets.
pub struct ArgProc {
}

impl ArgProc {
    /// Expand the sample points of every tunable into the full Cartesian
    /// product of parameter sets, replicating in a fixed tunable order.
    /// A sweep in which every tunable is a single point yields exactly
    /// one parameter set.
    pub fn make_sim_params(
        sim_type: SimType,
        nodes: &SamplePoints<NN>,
        at_nodes: &SamplePoints<RelOrAbs>,
        max_join: &SamplePoints<RelOrAbs>,
        add_good: &SamplePoints<RelOrAbs>,
        leave_good: &SamplePoints<RelOrAbs>,
        group_size: &SamplePoints<NN>,
        quorum_prop: &SamplePoints<Milli>,
        proof_time: &SamplePoints<Milli>,
        max_days: &SamplePoints<Milli>,
        age_quorums: &Vec<bool>,
        at_types: &Vec<AttackType>,
    ) -> (r: Vec<SimParams>)
        requires
            nodes.wf(),
            at_nodes.wf(),
            max_join.wf(),
            add_good.wf(),
            leave_good.wf(),
            group_size.wf(),
            quorum_prop.wf(),
            proof_time.wf(),
            max_days.wf(),
            age_quorums@.len() >= 1,
            at_types@.len() >= 1,
        ensures
            forall|t: int| 0 <= t < r@.len() ==> (#[trigger] r@[t]).sim_type == sim_type,
            r@.len() == nodes.spec_num_points() * at_nodes.spec_num_points()
                * max_join.spec_num_points() * add_good.spec_num_points()
                * leave_good.spec_num_points() * group_size.spec_num_points()
                * quorum_prop.spec_num_points() * proof_time.spec_num_points()
                * max_days.spec_num_points() * age_quorums@.len() * at_types@.len(),
            *nodes matches SamplePoints::Number(a) ==> (*at_nodes matches SamplePoints::Number(
                b,
            ) ==> (*max_join matches SamplePoints::Number(c) ==> (*add_good matches
                SamplePoints::Number(d) ==> (*leave_good matches SamplePoints::Number(e) ==> (
            *group_size matches SamplePoints::Number(f) ==> (*quorum_prop matches
                SamplePoints::Number(g) ==> (*proof_time matches SamplePoints::Number(h) ==> (
            *max_days matches SamplePoints::Number(k) ==> ((age_quorums@.len() == 1
                && at_types@.len() == 1) ==> (r@.len() == 1 && r@[0] == (SimParams {
                sim_type,
                age_quorum: age_quorums@[0],
                targetting: at_types@[0],
                num_initial: a,
                num_attacking: b,
                max_join: c,
                add_good: d,
                leave_good: e,
                min_group_size: f,
                quorum_prop: g,
                proof_time: h,
                max_days: k,
            }))))))))))),
    {
        let nodes_v = nodes.iter();
        let at_nodes_v = at_nodes.iter();
        let max_join_v = max_join.iter();
        let add_good_v = add_good.iter();
        let leave_good_v = leave_good.iter();
        let group_size_v = group_size.iter();
        let quorum_v = quorum_prop.iter();
        let proof_time_v = proof_time.iter();
        let max_days_v = max_days.iter();
        if nodes_v.len() == 0 || at_nodes_v.len() == 0 || max_join_v.len() == 0
            || add_good_v.len() == 0 || leave_good_v.len() == 0 || group_size_v.len() == 0
            || quorum_v.len() == 0 || proof_time_v.len() == 0 || max_days_v.len() == 0 {
            proof {
                let c1 = nodes.spec_num_points();
                let c2 = at_nodes.spec_num_points();
                let c3 = max_join.spec_num_points();
                let c4 = add_good.spec_num_points();
                let c5 = leave_good.spec_num_points();
                let c6 = group_size.spec_num_points();
                let c7 = quorum_prop.spec_num_points();
                let c8 = proof_time.spec_num_points();
                let c9 = max_days.spec_num_points();
                let ca = age_quorums@.len();
                let cb = at_types@.len();
                assert(c1 * c2 * c3 * c4 * c5 * c6 * c7 * c8 * c9 * ca * cb == 0) by (
                nonlinear_arith)
                    requires
                        c1 == 0 || c2 == 0 || c3 == 0 || c4 == 0 || c5 == 0 || c6 == 0 || c7 == 0
                            || c8 == 0 || c9 == 0,
                ;
            }
            return Vec::new();
        }

        let first = SimParams {
            sim_type,
            age_quorum: age_quorums[0],
            targetting: at_types[0],
            num_initial: nodes_v[0],
            num_attacking: at_nodes_v[0],
            max_join: max_join_v[0],
            add_good: add_good_v[0],
            leave_good: leave_good_v[0],
            min_group_size: group_size_v[0],
            quorum_prop: quorum_v[0],
            proof_time: proof_time_v[0],
            max_days: max_days_v[0],
        };
        if nodes_v.len() == 1 && at_nodes_v.len() == 1 && max_join_v.len() == 1
            && add_good_v.len() == 1 && leave_good_v.len() == 1 && group_size_v.len() == 1
            && quorum_v.len() == 1 && proof_time_v.len() == 1 && max_days_v.len() == 1
            && age_quorums.len() == 1 && at_types.len() == 1 {
            let mut single: Vec<SimParams> = Vec::new();
            single.push(first);
            return single;
        }
        let mut v: Vec<SimParams> = Vec::new();
        v.push(first);

        // Replicate for every further value of each tunable in turn, in a
        // fixed order, giving the full Cartesian product.
        let range_len = v.len();
        let mut i: usize = 1;
        while i < nodes_v.len()
            invariant
                1 <= i <= nodes_v@.len(),
                v@.len() >= 1,
                range_len <= v@.len(),
                v@.len() == range_len * i,
                forall|t: int| 0 <= t < v@.len() ==> (#[trigger] v@[t]).sim_type == sim_type,
            decreases nodes_v@.len() - i,
        {
            let mut t: usize = 0;
            while t < range_len
                invariant
                    t <= range_len <= v@.len(),
                    1 <= i < nodes_v@.len(),
                    v@.len() >= 1,
                    v@.len() == range_len * i + t,
                    forall|w: int| 0 <= w < v@.len() ==> (#[trigger] v@[w]).sim_type == sim_type,
                decreases range_len - t,
            {
                let mut s = v[t];
                s.num_initial = nodes_v[i];
                v.push(s);
                t += 1;
            }
            proof {
                vstd::arithmetic::mul::lemma_mul_is_distributive_add(
                    range_len as int,
                    i as int,
                    1,
                );
            }
            i += 1;
        }
        proof {
            assert(v@.len() == nodes.spec_num_points());
        }
        let range_len = v.len();
        let mut i: usize = 1;
        while i < at_nodes_v.len()
            invariant
                1 <= i <= at_nodes_v@.len(),
                v@.len() >= 1,
                range_len <= v@.len(),
                v@.len() == range_len * i,
                forall|t: int| 0 <= t < v@.len() ==> (#[trigger] v@[t]).sim_type == sim_type,
            decreases at_nodes_v@.len() - i,
        {
            let mut t: usize = 0;
            while t < range_len
                invariant
                    t <= range_len <= v@.len(),
                    1 <= i < at_nodes_v@.len(),
                    v@.len() >= 1,
                    v@.len() == range_len * i + t,
                    forall|w: int| 0 <= w < v@.len() ==> (#[trigger] v@[w]).sim_type == sim_type,
                decreases range_len - t,
            {
                let mut s = v[t];
                s.num_attacking = at_nodes_v[i];
                v.push(s);
                t += 1;
            }
            proof {
                vstd::arithmetic::mul::lemma_mul_is_distributive_add(
                    range_len as int,
                    i as int,
                    1,
                );
            }
            i += 1;
        }
        proof {
            assert(v@.len() == nodes.spec_num_points() * at_nodes.spec_num_points());
        }
        let range_len = v.len();
        let mut i: usize = 1;
        while i < max_join_v.len()
            invariant
                1 <= i <= max_join_v@.len(),
                v@.len() >= 1,
                range_len <= v@.len(),
                v@.len() == range_len * i,
                forall|t: int| 0 <= t < v@.len() ==> (#[trigger] v@[t]).sim_type == sim_type,
            decreases max_join_v@.len() - i,
        {
            let mut t: usize = 0;
            while t < range_len
                invariant
                    t <= range_len <= v@.len(),
                    1 <= i < max_join_v@.len(),
                    v@.len() >= 1,
                    v@.len() == range_len * i + t,
                    forall|w: int| 0 <= w < v@.len() ==> (#[trigger] v@[w]).sim_type == sim_type,
                decreases range_len - t,
            {
                let mut s = v[t];
                s.max_join = max_join_v[i];
                v.push(s);
                t += 1;
            }
            proof {
                vstd::arithmetic::mul::lemma_mul_is_distributive_add(
                    range_len as int,
                    i as int,
                    1,
                );
            }
            i += 1;
        }
        proof {
            assert(v@.len() == nodes.spec_num_points() * at_nodes.spec_num_points() * max_join.spec_num_points());
        }
        let range_len = v.len();
        let mut i: usize = 1;
        while i < add_good_v.len()
            invariant
                1 <= i <= add_good_v@.len(),
                v@.len() >= 1,
                range_len <= v@.len(),
                v@.len() == range_len * i,
                forall|t: int| 0 <= t < v@.len() ==> (#[trigger] v@[t]).sim_type == sim_type,
            decreases add_good_v@.len() - i,
        {
            let mut t: usize = 0;
            while t < range_len
                invariant
                    t <= range_len <= v@.len(),
                    1 <= i < add_good_v@.len(),
                    v@.len() >= 1,
                    v@.len() == range_len * i + t,
                    forall|w: int| 0 <= w < v@.len() ==> (#[trigger] v@[w]).sim_type == sim_type,
                decreases range_len - t,
            {
                let mut s = v[t];
                s.add_good = add_good_v[i];
                v.push(s);
                t += 1;
            }
            proof {
                vstd::arithmetic::mul::lemma_mul_is_distributive_add(
                    range_len as int,
                    i as int,
                    1,
                );
            }
            i += 1;
        }
        proof {
            assert(v@.len() == nodes.spec_num_points() * at_nodes.spec_num_points() * max_join.spec_num_points() * add_good.spec_num_points());
        }
        let range_len = v.len();
        let mut i: usize = 1;
        while i < leave_good_v.len()
            invariant
                1 <= i <= leave_good_v@.len(),
                v@.len() >= 1,
                range_len <= v@.len(),
                v@.len() == range_len * i,
                forall|t: int| 0 <= t < v@.len() ==> (#[trigger] v@[t]).sim_type == sim_type,
            decreases leave_good_v@.len() - i,
        {
            let mut t: usize = 0;
            while t < range_len
                invariant
                    t <= range_len <= v@.len(),
                    1 <= i < leave_good_v@.len(),
                    v@.len() >= 1,
                    v@.len() == range_len * i + t,
                    forall|w: int| 0 <= w < v@.len() ==> (#[trigger] v@[w]).sim_type == sim_type,
                decreases range_len - t,
            {
                let mut s = v[t];
                s.leave_good = leave_good_v[i];
                v.push(s);
                t += 1;
            }
            proof {
                vstd::arithmetic::mul::lemma_mul_is_distributive_add(
                    range_len as int,
                    i as int,
                    1,
                );
            }
            i += 1;
        }
        proof {
            assert(v@.len() == nodes.spec_num_points() * at_nodes.spec_num_points() * max_join.spec_num_points() * add_good.spec_num_points() * leave_good.spec_num_points());
        }
        let range_len = v.len();
        let mut i: usize = 1;
        while i < group_size_v.len()
            invariant
                1 <= i <= group_size_v@.len(),
                v@.len() >= 1,
                range_len <= v@.len(),
                v@.len() == range_len * i,
                forall|t: int| 0 <= t < v@.len() ==> (#[trigger] v@[t]).sim_type == sim_type,
            decreases group_size_v@.len() - i,
        {
            let mut t: usize = 0;
            while t < range_len
                invariant
                    t <= range_len <= v@.len(),
                    1 <= i < group_size_v@.len(),
                    v@.len() >= 1,
                    v@.len() == range_len * i + t,
                    forall|w: int| 0 <= w < v@.len() ==> (#[trigger] v@[w]).sim_type == sim_type,
                decreases range_len - t,
            {
                let mut s = v[t];
                s.min_group_size = group_size_v[i];
                v.push(s);
                t += 1;
            }
            proof {
                vstd::arithmetic::mul::lemma_mul_is_distributive_add(
                    range_len as int,
                    i as int,
                    1,
                );
            }
            i += 1;
        }
        proof {
            assert(v@.len() == nodes.spec_num_points() * at_nodes.spec_num_points() * max_join.spec_num_points() * add_good.spec_num_points() * leave_good.spec_num_points() * group_size.spec_num_points());
        }
        let range_len = v.len();
        let mut i: usize = 1;
        while i < quorum_v.len()
            invariant
                1 <= i <= quorum_v@.len(),
                v@.len() >= 1,
                range_len <= v@.len(),
                v@.len() == range_len * i,
                forall|t: int| 0 <= t < v@.len() ==> (#[trigger] v@[t]).sim_type == sim_type,
            decreases quorum_v@.len() - i,
        {
            let mut t: usize = 0;
            while t < range_len
                invariant
                    t <= range_len <= v@.len(),
                    1 <= i < quorum_v@.len(),
                    v@.len() >= 1,
                    v@.len() == range_len * i + t,
                    forall|w: int| 0 <= w < v@.len() ==> (#[trigger] v@[w]).sim_type == sim_type,
                decreases range_len - t,
            {
                let mut s = v[t];
                s.quorum_prop = quorum_v[i];
                v.push(s);
                t += 1;
            }
            proof {
                vstd::arithmetic::mul::lemma_mul_is_distributive_add(
                    range_len as int,
                    i as int,
                    1,
                );
            }
            i += 1;
        }
        proof {
            assert(v@.len() == nodes.spec_num_points() * at_nodes.spec_num_points() * max_join.spec_num_points() * add_good.spec_num_points() * leave_good.spec_num_points() * group_size.spec_num_points() * quorum_prop.spec_num_points());
        }
        let range_len = v.len();
        let mut i: usize = 1;
        while i < proof_time_v.len()
            invariant
                1 <= i <= proof_time_v@.len(),
                v@.len() >= 1,
                range_len <= v@.len(),
                v@.len() == range_len * i,
                forall|t: int| 0 <= t < v@.len() ==> (#[trigger] v@[t]).sim_type == sim_type,
            decreases proof_time_v@.len() - i,
        {
            let mut t: usize = 0;
            while t < range_len
                invariant
                    t <= range_len <= v@.len(),
                    1 <= i < proof_time_v@.len(),
                    v@.len() >= 1,
                    v@.len() == range_len * i + t,
                    forall|w: int| 0 <= w < v@.len() ==> (#[trigger] v@[w]).sim_type == sim_type,
                decreases range_len - t,
            {
                let mut s = v[t];
                s.proof_time = proof_time_v[i];
                v.push(s);
                t += 1;
            }
            proof {
                vstd::arithmetic::mul::lemma_mul_is_distributive_add(
                    range_len as int,
                    i as int,
                    1,
                );
            }
            i += 1;
        }
        proof {
            assert(v@.len() == nodes.spec_num_points() * at_nodes.spec_num_points() * max_join.spec_num_points() * add_good.spec_num_points() * leave_good.spec_num_points() * group_size.spec_num_points() * quorum_prop.spec_num_points() * proof_time.spec_num_points());
        }
        let range_len = v.len();
        let mut i: usize = 1;
        while i < max_days_v.len()
            invariant
                1 <= i <= max_days_v@.len(),
                v@.len() >= 1,
                range_len <= v@.len(),
                v@.len() == range_len * i,
                forall|t: int| 0 <= t < v@.len() ==> (#[trigger] v@[t]).sim_type == sim_type,
            decreases max_days_v@.len() - i,
        {
            let mut t: usize = 0;
            while t < range_len
                invariant
                    t <= range_len <= v@.len(),
                    1 <= i < max_days_v@.len(),
                    v@.len() >= 1,
                    v@.len() == range_len * i + t,
                    forall|w: int| 0 <= w < v@.len() ==> (#[trigger] v@[w]).sim_type == sim_type,
                decreases range_len - t,
            {
                let mut s = v[t];
                s.max_days = max_days_v[i];
                v.push(s);
                t += 1;
            }
            proof {
                vstd::arithmetic::mul::lemma_mul_is_distributive_add(
                    range_len as int,
                    i as int,
                    1,
                );
            }
            i += 1;
        }
        proof {
            assert(v@.len() == nodes.spec_num_points() * at_nodes.spec_num_points() * max_join.spec_num_points() * add_good.spec_num_points() * leave_good.spec_num_points() * group_size.spec_num_points() * quorum_prop.spec_num_points() * proof_time.spec_num_points() * max_days.spec_num_points());
        }
        let range_len = v.len();
        let mut i: usize = 1;
        while i < age_quorums.len()
            invariant
                1 <= i <= age_quorums@.len(),
                v@.len() >= 1,
                range_len <= v@.len(),
                v@.len() == range_len * i,
                forall|t: int| 0 <= t < v@.len() ==> (#[trigger] v@[t]).sim_type == sim_type,
            decreases age_quorums@.len() - i,
        {
            let mut t: usize = 0;
            while t < range_len
                invariant
                    t <= range_len <= v@.len(),
                    1 <= i < age_quorums@.len(),
                    v@.len() >= 1,
                    v@.len() == range_len * i + t,
                    forall|w: int| 0 <= w < v@.len() ==> (#[trigger] v@[w]).sim_type == sim_type,
                decreases range_len - t,
            {
                let mut s = v[t];
                s.age_quorum = age_quorums[i];
                v.push(s);
                t += 1;
            }
            proof {
                vstd::arithmetic::mul::lemma_mul_is_distributive_add(
                    range_len as int,
                    i as int,
                    1,
                );
            }
            i += 1;
        }
        proof {
            assert(v@.len() == nodes.spec_num_points() * at_nodes.spec_num_points() * max_join.spec_num_points() * add_good.spec_num_points() * leave_good.spec_num_points() * group_size.spec_num_points() * quorum_prop.spec_num_points() * proof_time.spec_num_points() * max_days.spec_num_points() * age_quorums@.len());
        }
        let range_len = v.len();
        let mut i: usize = 1;
        while i < at_types.len()
            invariant
                1 <= i <= at_types@.len(),
                v@.len() >= 1,
                range_len <= v@.len(),
                v@.len() == range_len * i,
                forall|t: int| 0 <= t < v@.len() ==> (#[trigger] v@[t]).sim_type == sim_type,
            decreases at_types@.len() - i,
        {
            let mut t: usize = 0;
            while t < range_len
                invariant
                    t <= range_len <= v@.len(),
                    1 <= i < at_types@.len(),
                    v@.len() >= 1,
                    v@.len() == range_len * i + t,
                    forall|w: int| 0 <= w < v@.len() ==> (#[trigger] v@[w]).sim_type == sim_type,
                decreases range_len - t,
            {
                let mut s = v[t];
                s.targetting = at_types[i];
                v.push(s);
                t += 1;
            }
            proof {
                vstd::arithmetic::mul::lemma_mul_is_distributive_add(
                    range_len as int,
                    i as int,
                    1,
                );
            }
            i += 1;
        }
        proof {
            assert(v@.len() == nodes.spec_num_points() * at_nodes.spec_num_points() * max_join.spec_num_points() * add_good.spec_num_points() * leave_good.spec_num_points() * group_size.spec_num_points() * quorum_prop.spec_num_points() * proof_time.spec_num_points() * max_days.spec_num_points() * age_quorums@.len() * at_types@.len());
        }
        v
    }
}

} // verus!
