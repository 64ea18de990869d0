use vstd::prelude::*;

verus! {

/// Where along a train's route delays are measured.
#[derive(Debug, Clone, Copy)]
pub enum DelayMeasurementType {
    EverywhereEarliest,
    AllStationArrivals,
    AllStationDepartures,
    FinalStationArrival,
}

/// How a delay (in seconds) is turned into a cost.
#[derive(Debug, Clone, Copy)]
pub enum DelayCostType {
    FiniteSteps1_3Min,
    FiniteSteps1_5Min,
    FiniteSteps123,
    FiniteSteps12345,
    FiniteSteps139,
    InfiniteSteps60,
    InfiniteSteps180,
    InfiniteSteps360,
    Continuous,
}

/// A problem together with the names of its trains and resources.
#[derive(Debug)]
pub struct NamedProblem {
    pub problem: Problem,
    pub train_names: Vec<String>,
    pub resource_names: Vec<String>,
}

/// A train rescheduling problem: trains visiting resources in a fixed order,
/// and pairs of resources that may not be occupied at the same time.
#[derive(Debug, Clone)]
pub struct Problem {
    pub name: String,
    pub trains: Vec<Train>,
    pub conflicts: Vec<(usize, usize)>,
}

/// The fixed route of a train.
#[derive(Debug, Clone)]
pub struct Train {
    pub visits: Vec<Visit>,
}

/// One visit of a train to a resource.
#[derive(Debug, Clone, Copy)]
pub struct Visit {
    pub resource_id: usize,
    pub earliest: i32,
    pub aimed: Option<i32>,
    pub travel_time: i32,
}

/// A table of `(threshold, cost)` pairs: the cost of a delay is the cost of
/// the first pair whose threshold the delay exceeds.
pub struct DelayCostThresholds {
    pub thresholds: Vec<(i32, usize)>,
}

// ---------------------------------------------------------------------------
// Cost model
// ---------------------------------------------------------------------------

/// The cost of the first threshold that `delay` exceeds, or 0.
pub open spec fn thresholds_eval(th: Seq<(i32, usize)>, delay: int) -> nat
    decreases th.len(),
{
    if th.len() == 0 {
        0
    } else if delay > th[0].0 {
        th[0].1 as nat
    } else {
        thresholds_eval(th.drop_first(), delay)
    }
}

/// The delays at which each cost level of a threshold table begins.
pub open spec fn thresholds_step_delays(th: Seq<(i32, usize)>) -> Seq<i32> {
    Seq::new(th.len(), |i: int| (th[i].0 + 1) as i32)
}

pub open spec fn f1_3min_spec() -> Seq<(i32, usize)> {
    seq![(300i32, 1usize)]
}

pub open spec fn f1_5min_spec() -> Seq<(i32, usize)> {
    seq![(180i32, 1usize)]
}

pub open spec fn f123_spec() -> Seq<(i32, usize)> {
    seq![(360i32, 3usize), (180i32, 2usize), (0i32, 1usize)]
}

pub open spec fn f12345_spec() -> Seq<(i32, usize)> {
    seq![(1080i32, 5usize), (720i32, 4usize), (360i32, 3usize), (180i32, 2usize), (0i32, 1usize)]
}

pub open spec fn f139_spec() -> Seq<(i32, usize)> {
    seq![(360i32, 9usize), (180i32, 3usize), (0i32, 1usize)]
}

/// The threshold table of a finite-step cost type.
pub open spec fn finite_table(ty: DelayCostType) -> Option<Seq<(i32, usize)>> {
    match ty {
        DelayCostType::FiniteSteps1_3Min => Some(f1_3min_spec()),
        DelayCostType::FiniteSteps1_5Min => Some(f1_5min_spec()),
        DelayCostType::FiniteSteps123 => Some(f123_spec()),
        DelayCostType::FiniteSteps12345 => Some(f12345_spec()),
        DelayCostType::FiniteSteps139 => Some(f139_spec()),
        _ => None,
    }
}

/// The step length of an infinite-step cost type.
pub open spec fn infinite_interval(ty: DelayCostType) -> Option<nat> {
    match ty {
        DelayCostType::InfiniteSteps60 => Some(60nat),
        DelayCostType::InfiniteSteps180 => Some(180nat),
        DelayCostType::InfiniteSteps360 => Some(360nat),
        _ => None,
    }
}

/// `ceil(delay / interval)` as computed in floating point and then cast to
/// `usize`: 0 for delays that are not positive, `usize::MAX` when the
/// interval is 0 and the delay positive.
pub open spec fn staircase_spec(delay: int, interval: nat) -> nat {
    if delay <= 0 {
        0
    } else if interval == 0 {
        usize::MAX as nat
    } else {
        ((delay + interval - 1) / (interval as int)) as nat
    }
}

/// The cost of a (non-negative) delay under a cost type.
pub open spec fn delay_cost_spec(ty: DelayCostType, d: int) -> nat {
    match ty {
        DelayCostType::FiniteSteps1_3Min => thresholds_eval(f1_3min_spec(), d),
        DelayCostType::FiniteSteps1_5Min => thresholds_eval(f1_5min_spec(), d),
        DelayCostType::FiniteSteps123 => thresholds_eval(f123_spec(), d),
        DelayCostType::FiniteSteps12345 => thresholds_eval(f12345_spec(), d),
        DelayCostType::FiniteSteps139 => thresholds_eval(f139_spec(), d),
        DelayCostType::InfiniteSteps60 => staircase_spec(d, 60),
        DelayCostType::InfiniteSteps180 => staircase_spec(d, 180),
        DelayCostType::InfiniteSteps360 => staircase_spec(d, 360),
        DelayCostType::Continuous => if d >= 0 { d as nat } else { 0 },
    }
}

/// The delay of entering at `t` with respect to the aimed time.
pub open spec fn delay_of(aimed: i32, t: i32) -> int {
    if t - aimed > 0 {
        t - aimed
    } else {
        0
    }
}

/// The cost of train `train` entering its visit `v` at time `t`.
pub open spec fn visit_cost_spec(train: Train, ty: DelayCostType, v: int, t: i32) -> nat {
    match train.visits@[v].aimed {
        Some(a) => delay_cost_spec(ty, delay_of(a, t)),
        None => 0,
    }
}

/// The delay `t - aimed` of the visit fits in an `i32`.
pub open spec fn delay_fits(train: Train, v: int, t: i32) -> bool {
    match train.visits@[v].aimed {
        Some(a) => i32::MIN <= t - a <= i32::MAX,
        None => true,
    }
}

/// The summed cost of the first `k` visits of `train` at the times in `row`.
pub open spec fn train_cost_upto(train: Train, row: Seq<i32>, ty: DelayCostType, k: int) -> int
    decreases k,
{
    if k <= 0 {
        0
    } else {
        train_cost_upto(train, row, ty, k - 1) + visit_cost_spec(train, ty, k - 1, row[k - 1])
    }
}

/// The cost of a whole train.
pub open spec fn train_cost_spec(train: Train, row: Seq<i32>, ty: DelayCostType) -> int {
    train_cost_upto(train, row, ty, train.visits@.len() as int)
}

/// The summed cost of the first `k` trains.
pub open spec fn cost_upto(p: Problem, sol: Seq<Vec<i32>>, ty: DelayCostType, k: int) -> int
    decreases k,
{
    if k <= 0 {
        0
    } else {
        cost_upto(p, sol, ty, k - 1) + train_cost_spec(p.trains@[k - 1], sol[k - 1]@, ty)
    }
}

/// The cost of a solution: the sum of the costs of all trains.
pub open spec fn cost_spec(p: Problem, sol: Seq<Vec<i32>>, ty: DelayCostType) -> int {
    cost_upto(p, sol, ty, p.trains@.len() as int)
}

/// Each train has a row of times with at least one time per visit, and no
/// delay computation overflows.
pub open spec fn solution_covers(p: Problem, sol: Seq<Vec<i32>>) -> bool {
    &&& sol.len() >= p.trains@.len()
    &&& forall|ti: int|
        0 <= ti < p.trains@.len() ==> #[trigger] sol[ti]@.len() >= p.trains@[ti].visits@.len()
    &&& forall|ti: int, vi: int|
        0 <= ti < p.trains@.len() && 0 <= vi < p.trains@[ti].visits@.len() ==> delay_fits(
            p.trains@[ti],
            vi,
            #[trigger] sol[ti]@[vi],
        )
}

pub proof fn lemma_train_cost_monotone(train: Train, row: Seq<i32>, ty: DelayCostType, j: int, k: int)
    requires
        0 <= j <= k,
    ensures
        0 <= train_cost_upto(train, row, ty, j) <= train_cost_upto(train, row, ty, k),
    decreases k - j,
{
    if j < k {
        lemma_train_cost_monotone(train, row, ty, j, k - 1);
    } else {
        lemma_train_cost_nonneg(train, row, ty, j);
    }
}

pub proof fn lemma_train_cost_nonneg(train: Train, row: Seq<i32>, ty: DelayCostType, k: int)
    ensures
        0 <= train_cost_upto(train, row, ty, k),
    decreases k,
{
    if k > 0 {
        lemma_train_cost_nonneg(train, row, ty, k - 1);
    }
}

pub proof fn lemma_cost_monotone(p: Problem, sol: Seq<Vec<i32>>, ty: DelayCostType, j: int, k: int)
    requires
        0 <= j <= k,
    ensures
        0 <= cost_upto(p, sol, ty, j) <= cost_upto(p, sol, ty, k),
    decreases k - j,
{
    if j < k {
        lemma_cost_monotone(p, sol, ty, j, k - 1);
        lemma_train_cost_nonneg(p.trains@[k - 1], sol[k - 1]@, ty, p.trains@[k - 1].visits@.len() as int);
    } else {
        lemma_cost_nonneg(p, sol, ty, j);
    }
}

pub proof fn lemma_cost_nonneg(p: Problem, sol: Seq<Vec<i32>>, ty: DelayCostType, k: int)
    ensures
        0 <= cost_upto(p, sol, ty, k),
    decreases k,
{
    if k > 0 {
        lemma_cost_nonneg(p, sol, ty, k - 1);
        lemma_train_cost_nonneg(p.trains@[k - 1], sol[k - 1]@, ty, p.trains@[k - 1].visits@.len() as int);
    }
}

// ---------------------------------------------------------------------------
// Executable cost functions
// ---------------------------------------------------------------------------

/// `ceil(delay / interval)` as a cost level; 0 for delays that are not positive.
pub fn infinite_staircase(delay: i32, interval: usize) -> (r: usize)
    ensures
        r == staircase_spec(delay as int, interval as nat),
{
    if delay <= 0 {
        0
    } else if interval == 0 {
        usize::MAX
    } else {
        let d: usize = delay as usize;
        let q: usize = d / interval;
        let rem: usize = d % interval;
        proof {
            assert(d == q * interval + rem) by (nonlinear_arith)
                requires
                    q == d / interval,
                    rem == d % interval,
                    interval > 0,
            ;
            assert(0 <= rem < interval) by (nonlinear_arith)
                requires
                    rem == d % interval,
                    interval > 0,
            ;
            assert(q * interval <= d) by (nonlinear_arith)
                requires
                    d == q * interval + rem,
                    rem >= 0,
            ;
            assert(q <= d) by (nonlinear_arith)
                requires
                    q * interval <= d,
                    interval >= 1,
                    q >= 0,
            ;
            if rem == 0 {
                assert((d + interval - 1) / (interval as int) == q) by (nonlinear_arith)
                    requires
                        d == q * interval,
                        interval > 0,
                ;
            } else {
                assert((d + interval - 1) / (interval as int) == q + 1) by (nonlinear_arith)
                    requires
                        d == q * interval + rem,
                        0 < rem < interval,
                ;
            }
        }
        if rem != 0 {
            q + 1
        } else {
            q
        }
    }
}

/// The first `count` steps of the infinite staircase with the given interval:
/// the pair `(interval * x + 1, x + 1)` for each `x` below `count`, the delay at
/// which cost level `x + 1` begins.
pub fn iter_infinite_staircase(interval: usize, count: usize) -> (r: Vec<(i32, usize)>)
    requires
        interval <= i32::MAX,
        count <= 0x8000_0000,
        count > 0 ==> interval * (count - 1) + 1 <= i32::MAX,
    ensures
        r@.len() == count,
        forall|x: int|
            0 <= x < count ==> #[trigger] r@[x] == ((interval * x + 1) as i32, (x + 1) as usize),
        interval > 0 ==> forall|x: int| 0 <= x < count ==> staircase_spec(#[trigger] r@[x].0 as int, interval as nat) == r@[x].1
            && staircase_spec(r@[x].0 - 1, interval as nat) == x,
{
    let mut out: Vec<(i32, usize)> = Vec::new();
    let step: i32 = interval as i32;
    let mut x: usize = 0;
    while x < count
        invariant
            x <= count,
            step == interval,
            interval <= i32::MAX,
            count <= 0x8000_0000,
            count > 0 ==> interval * (count - 1) + 1 <= i32::MAX,
            out@.len() == x,
            forall|y: int| 0 <= y < x ==> #[trigger] out@[y] == ((interval * y + 1) as i32, (y + 1) as usize),
        decreases count - x,
    {
        proof {
            assert(interval * x <= interval * (count - 1)) by (nonlinear_arith)
                requires
                    x <= count - 1,
                    interval >= 0,
            ;
            assert(0 <= interval * x) by (nonlinear_arith)
                requires
                    x >= 0,
                    interval >= 0,
            ;
        }
        let xi: i32 = x as i32;
        assert(step * xi == interval * x);
        let d: i32 = step * xi + 1;
        out.push((d, x + 1));
        x = x + 1;
    }
    proof {
        if interval > 0 {
            assert forall|x: int| 0 <= x < count implies staircase_spec(#[trigger] out@[x].0 as int, interval as nat) == out@[x].1
                && staircase_spec(out@[x].0 - 1, interval as nat) == x by {
                staircase_steps(interval as nat, x as nat);
                assert(0 <= interval * x <= interval * (count - 1)) by (nonlinear_arith)
                    requires
                        0 <= x <= count - 1,
                        interval >= 0,
                ;
                assert(out@[x].0 == interval * x + 1) by (nonlinear_arith)
                    requires
                        out@[x].0 == (interval * x + 1) as i32,
                        0 <= interval * x,
                        interval * x + 1 <= i32::MAX,
                ;
            }
        }
    }
    out
}

impl DelayCostThresholds {
    pub fn f1_3min() -> (r: DelayCostThresholds)
        ensures
            r.thresholds@ == f1_3min_spec(),
    {
        DelayCostThresholds { thresholds: vec![(5 * 60, 1)] }
    }

    pub fn f1_5min() -> (r: DelayCostThresholds)
        ensures
            r.thresholds@ == f1_5min_spec(),
    {
        DelayCostThresholds { thresholds: vec![(3 * 60, 1)] }
    }

    pub fn f123() -> (r: DelayCostThresholds)
        ensures
            r.thresholds@ == f123_spec(),
    {
        DelayCostThresholds { thresholds: vec![(360, 3), (180, 2), (0, 1)] }
    }

    pub fn f12345() -> (r: DelayCostThresholds)
        ensures
            r.thresholds@ == f12345_spec(),
    {
        DelayCostThresholds {
            thresholds: vec![(3 * 360, 5), (2 * 360, 4), (360, 3), (180, 2), (0, 1)],
        }
    }

    pub fn f139() -> (r: DelayCostThresholds)
        ensures
            r.thresholds@ == f139_spec(),
    {
        DelayCostThresholds { thresholds: vec![(360, 9), (180, 3), (0, 1)] }
    }

    /// The cost of the first threshold that `delay` exceeds, or 0.
    pub fn eval(&self, delay: i32) -> (r: usize)
        ensures
            r == thresholds_eval(self.thresholds@, delay as int),
    {
        let mut i: usize = 0;
        assert(self.thresholds@.skip(0) =~= self.thresholds@);
        while i < self.thresholds.len()
            invariant
                i <= self.thresholds@.len(),
                thresholds_eval(self.thresholds@, delay as int) == thresholds_eval(
                    self.thresholds@.skip(i as int),
                    delay as int,
                ),
            decreases self.thresholds@.len() - i,
        {
            let (threshold, cost) = self.thresholds[i];
            let ghost rest = self.thresholds@.skip(i as int);
            assert(rest[0] == (threshold, cost));
            assert(rest.drop_first() =~= self.thresholds@.skip(i + 1));
            if delay > threshold {
                return cost;
            }
            i = i + 1;
        }
        assert(self.thresholds@.skip(i as int).len() == 0);
        0
    }

    /// The first delay of each cost level: one more than each threshold.
    pub fn step_delays(&self) -> (r: Vec<i32>)
        requires
            forall|i: int|
                0 <= i < self.thresholds@.len() ==> #[trigger] self.thresholds@[i].0 < i32::MAX,
        ensures
            r@ == thresholds_step_delays(self.thresholds@),
    {
        let mut out: Vec<i32> = Vec::new();
        let mut i: usize = 0;
        while i < self.thresholds.len()
            invariant
                i <= self.thresholds@.len(),
                forall|k: int|
                    0 <= k < self.thresholds@.len() ==> #[trigger] self.thresholds@[k].0 < i32::MAX,
                out@ =~= thresholds_step_delays(self.thresholds@).take(i as int),
            decreases self.thresholds@.len() - i,
        {
            let d: i32 = self.thresholds[i].0;
            out.push(d + 1);
            i = i + 1;
        }
        out
    }
}

/// The cost of a delay under a cost type.
fn delay_cost(delay_cost_type: DelayCostType, d: i32) -> (r: usize)
    requires
        d >= 0,
    ensures
        r == delay_cost_spec(delay_cost_type, d as int),
{
    match delay_cost_type {
        DelayCostType::FiniteSteps1_3Min => DelayCostThresholds::f1_3min().eval(d),
        DelayCostType::FiniteSteps1_5Min => DelayCostThresholds::f1_5min().eval(d),
        DelayCostType::FiniteSteps123 => DelayCostThresholds::f123().eval(d),
        DelayCostType::FiniteSteps12345 => DelayCostThresholds::f12345().eval(d),
        DelayCostType::FiniteSteps139 => DelayCostThresholds::f139().eval(d),
        DelayCostType::InfiniteSteps60 => infinite_staircase(d, 60),
        DelayCostType::InfiniteSteps180 => infinite_staircase(d, 180),
        DelayCostType::InfiniteSteps360 => infinite_staircase(d, 360),
        DelayCostType::Continuous => d as usize,
    }
}

/// The first delays of the cost levels of a cost type (the first 100 levels
/// for the infinite staircases).
pub open spec fn step_delays_spec(ty: DelayCostType) -> Seq<i32> {
    match ty {
        DelayCostType::FiniteSteps1_3Min => thresholds_step_delays(f1_3min_spec()),
        DelayCostType::FiniteSteps1_5Min => thresholds_step_delays(f1_5min_spec()),
        DelayCostType::FiniteSteps123 => thresholds_step_delays(f123_spec()),
        DelayCostType::FiniteSteps12345 => thresholds_step_delays(f12345_spec()),
        DelayCostType::FiniteSteps139 => thresholds_step_delays(f139_spec()),
        DelayCostType::InfiniteSteps60 => Seq::new(100, |x: int| (60 * x + 1) as i32),
        DelayCostType::InfiniteSteps180 => Seq::new(100, |x: int| (180 * x + 1) as i32),
        DelayCostType::InfiniteSteps360 => Seq::new(100, |x: int| (360 * x + 1) as i32),
        DelayCostType::Continuous => Seq::empty(),
    }
}

/// The times `aimed + d` for the delays `d`, keeping those after `earliest`, in order.
pub open spec fn shifted_after(delays: Seq<i32>, aimed: i32, earliest: i32) -> Seq<i32>
    decreases delays.len(),
{
    if delays.len() == 0 {
        Seq::empty()
    } else {
        let rest = shifted_after(delays.drop_last(), aimed, earliest);
        let t = aimed + delays.last();
        if t > earliest {
            rest.push(t as i32)
        } else {
            rest
        }
    }
}

/// The times after `earliest` at which the cost of visit `v` rises: its
/// aimed time plus each first delay of a cost level.
pub open spec fn threshold_times(train: Train, ty: DelayCostType, v: int, earliest: i32) -> Seq<i32> {
    match train.visits@[v].aimed {
        Some(a) => shifted_after(step_delays_spec(ty), a, earliest),
        None => Seq::empty(),
    }
}

fn step_delays_of(delay_cost_type: DelayCostType) -> (r: Vec<i32>)
    ensures
        r@ == step_delays_spec(delay_cost_type),
{
    match delay_cost_type {
        DelayCostType::FiniteSteps1_3Min => DelayCostThresholds::f1_3min().step_delays(),
        DelayCostType::FiniteSteps1_5Min => DelayCostThresholds::f1_5min().step_delays(),
        DelayCostType::FiniteSteps123 => DelayCostThresholds::f123().step_delays(),
        DelayCostType::FiniteSteps12345 => DelayCostThresholds::f12345().step_delays(),
        DelayCostType::FiniteSteps139 => DelayCostThresholds::f139().step_delays(),
        DelayCostType::InfiniteSteps60 => first_delays(60),
        DelayCostType::InfiniteSteps180 => first_delays(180),
        DelayCostType::InfiniteSteps360 => first_delays(360),
        DelayCostType::Continuous => Vec::new(),
    }
}

/// The delays of the first 100 steps of an infinite staircase.
fn first_delays(interval: usize) -> (r: Vec<i32>)
    requires
        interval == 60 || interval == 180 || interval == 360,
    ensures
        r@ == Seq::new(100, |x: int| (interval * x + 1) as i32),
{
    let steps = iter_infinite_staircase(interval, 100);
    let mut out: Vec<i32> = Vec::new();
    let mut i: usize = 0;
    while i < steps.len()
        invariant
            steps@.len() == 100,
            i <= 100,
            forall|x: int|
                0 <= x < 100 ==> #[trigger] steps@[x] == ((interval * x + 1) as i32, (x + 1) as usize),
            out@ =~= Seq::new(100, |x: int| (interval * x + 1) as i32).take(i as int),
        decreases 100 - i,
    {
        out.push(steps[i].0);
        i = i + 1;
    }
    out
}

impl Train {
    /// The absolute times after `earliest` at which the delay cost of visit
    /// `path_idx` increases.
    pub fn visit_cost_threshold_times(
        &self,
        delay_cost_type: DelayCostType,
        path_idx: usize,
        earliest: i32,
    ) -> (r: Vec<i32>)
        requires
            path_idx < self.visits@.len(),
            self.visits@[path_idx as int].aimed matches Some(a) ==> forall|i: int|
                0 <= i < step_delays_spec(delay_cost_type).len() ==> i32::MIN <= a
                    + #[trigger] step_delays_spec(delay_cost_type)[i] <= i32::MAX,
        ensures
            r@ == threshold_times(*self, delay_cost_type, path_idx as int, earliest),
    {
        let aimed: i32 = match self.visits[path_idx].aimed {
            Some(a) => a,
            None => return Vec::new(),
        };
        let step_delays = step_delays_of(delay_cost_type);
        let mut out: Vec<i32> = Vec::new();
        let mut i: usize = 0;
        while i < step_delays.len()
            invariant
                i <= step_delays@.len(),
                step_delays@ == step_delays_spec(delay_cost_type),
                forall|k: int|
                    0 <= k < step_delays@.len() ==> i32::MIN <= aimed + #[trigger] step_delays@[k]
                        <= i32::MAX,
                out@ == shifted_after(step_delays@.take(i as int), aimed, earliest),
            decreases step_delays@.len() - i,
        {
            assert(step_delays@.take(i + 1).drop_last() =~= step_delays@.take(i as int));
            let t: i32 = aimed + step_delays[i];
            if t > earliest {
                out.push(t);
            }
            i = i + 1;
        }
        assert(step_delays@.take(i as int) =~= step_delays@);
        out
    }

    /// The cost of entering visit `path_idx` at time `t`.
    pub fn visit_delay_cost(&self, delay_cost_type: DelayCostType, path_idx: usize, t: i32) -> (r:
        usize)
        requires
            path_idx < self.visits@.len(),
            delay_fits(*self, path_idx as int, t),
        ensures
            r == visit_cost_spec(*self, delay_cost_type, path_idx as int, t),
    {
        if let Some(aimed) = self.visits[path_idx].aimed {
            let diff: i32 = t - aimed;
            let d: i32 = if diff > 0 {
                diff
            } else {
                0
            };
            delay_cost(delay_cost_type, d)
        } else {
            0
        }
    }
}

impl Problem {
    /// The summed delay cost of one train in a solution.
    pub fn train_cost(&self, solution: &[Vec<i32>], delay_cost_type: DelayCostType, train_idx: usize) -> (r:
        i32)
        requires
            train_idx < self.trains@.len(),
            train_idx < solution@.len(),
            solution@[train_idx as int]@.len() >= self.trains@[train_idx as int].visits@.len(),
            forall|vi: int|
                0 <= vi < self.trains@[train_idx as int].visits@.len() ==> delay_fits(
                    self.trains@[train_idx as int],
                    vi,
                    #[trigger] solution@[train_idx as int]@[vi],
                ),
            train_cost_spec(self.trains@[train_idx as int], solution@[train_idx as int]@, delay_cost_type)
                <= i32::MAX,
        ensures
            r == train_cost_spec(self.trains@[train_idx as int], solution@[train_idx as int]@, delay_cost_type),
    {
        train_row_cost(&self.trains[train_idx], &solution[train_idx], delay_cost_type)
    }

    /// The summed delay cost of all trains in a solution.
    pub fn cost(&self, solution: &[Vec<i32>], delay_cost_type: DelayCostType) -> (r: i32)
        requires
            solution_covers(*self, solution@),
            cost_spec(*self, solution@, delay_cost_type) <= i32::MAX,
        ensures
            r == cost_spec(*self, solution@, delay_cost_type),
    {
        let mut sum: i32 = 0;
        let mut ti: usize = 0;
        while ti < self.trains.len()
            invariant
                ti <= self.trains@.len(),
                solution_covers(*self, solution@),
                cost_spec(*self, solution@, delay_cost_type) <= i32::MAX,
                sum == cost_upto(*self, solution@, delay_cost_type, ti as int),
            decreases self.trains@.len() - ti,
        {
            proof {
                lemma_cost_monotone(*self, solution@, delay_cost_type, ti + 1, self.trains@.len() as int);
                lemma_cost_nonneg(*self, solution@, delay_cost_type, ti as int);
                assert(solution@[ti as int]@.len() >= self.trains@[ti as int].visits@.len());
                assert forall|vi: int|
                    0 <= vi < self.trains@[ti as int].visits@.len() implies delay_fits(
                    self.trains@[ti as int],
                    vi,
                    #[trigger] solution@[ti as int]@[vi],
                ) by {}
            }
            let c: i32 = train_row_cost(&self.trains[ti], &solution[ti], delay_cost_type);
            sum = sum + c;
            ti = ti + 1;
        }
        sum
    }
}

/// The summed delay cost of one train whose visit times are `row`.
fn train_row_cost(train: &Train, row: &Vec<i32>, delay_cost_type: DelayCostType) -> (r: i32)
    requires
        row@.len() >= train.visits@.len(),
        forall|vi: int| 0 <= vi < train.visits@.len() ==> delay_fits(*train, vi, #[trigger] row@[vi]),
        train_cost_spec(*train, row@, delay_cost_type) <= i32::MAX,
    ensures
        r == train_cost_spec(*train, row@, delay_cost_type),
{
    let mut sum: i32 = 0;
    let mut vi: usize = 0;
    while vi < train.visits.len()
        invariant
            vi <= train.visits@.len(),
            row@.len() >= train.visits@.len(),
            forall|k: int| 0 <= k < train.visits@.len() ==> delay_fits(*train, k, #[trigger] row@[k]),
            train_cost_spec(*train, row@, delay_cost_type) <= i32::MAX,
            sum == train_cost_upto(*train, row@, delay_cost_type, vi as int),
        decreases train.visits@.len() - vi,
    {
        proof {
            lemma_train_cost_monotone(*train, row@, delay_cost_type, vi + 1, train.visits@.len() as int);
            lemma_train_cost_nonneg(*train, row@, delay_cost_type, vi as int);
        }
        let c: usize = train.visit_delay_cost(delay_cost_type, vi, row[vi]);
        if c > 0 {
            sum = sum + c as i32;
        }
        vi = vi + 1;
    }
    sum
}


// ---------------------------------------------------------------------------
// Checking a solution
// ---------------------------------------------------------------------------

/// Why a solution is not feasible.
#[derive(Debug, Clone, Copy, PartialEq, Eq)]
pub enum SolutionViolation {
    /// The train enters the visit more than 10 seconds before its earliest time.
    EarliestEntry { train_idx: usize, visit_idx: usize },
    /// The train leaves the visit before its travel time has passed.
    TravelTime { train_idx: usize, visit_idx: usize },
    /// Two different visits to conflicting resources overlap in time.
    ResourceConflict { train_idx1: usize, visit_idx1: usize, train_idx2: usize, visit_idx2: usize },
}

/// The time at which train `ti` enters its visit `vi`.
pub open spec fn t_in(sol: Seq<Vec<i32>>, ti: int, vi: int) -> i32 {
    sol[ti]@[vi]
}

/// The time at which train `ti` leaves its visit `vi`.
pub open spec fn t_out(sol: Seq<Vec<i32>>, ti: int, vi: int) -> i32 {
    sol[ti]@[vi + 1]
}

/// The visit index is valid.
pub open spec fn valid_visit(p: Problem, ti: int, vi: int) -> bool {
    0 <= ti < p.trains@.len() && 0 <= vi < p.trains@[ti].visits@.len()
}

/// The entry of the visit is at most 10 seconds before its earliest time.
pub open spec fn earliest_ok(p: Problem, sol: Seq<Vec<i32>>, ti: int, vi: int) -> bool {
    t_in(sol, ti, vi) >= p.trains@[ti].visits@[vi].earliest - 10
}

/// The visit lasts at least its travel time.
pub open spec fn travel_ok(p: Problem, sol: Seq<Vec<i32>>, ti: int, vi: int) -> bool {
    t_in(sol, ti, vi) + p.trains@[ti].visits@[vi].travel_time <= t_out(sol, ti, vi)
}

/// Two different visits to conflicting resources overlap (by more than one second).
pub open spec fn pair_conflict(p: Problem, sol: Seq<Vec<i32>>, t1: int, v1: int, t2: int, v2: int) -> bool {
    &&& (t1 != t2 || v1 != v2)
    &&& p.conflicts@.contains(
        (p.trains@[t1].visits@[v1].resource_id, p.trains@[t2].visits@[v2].resource_id),
    )
    &&& !(t_in(sol, t1, v1) >= t_out(sol, t2, v2) - 1 || t_in(sol, t2, v2) >= t_out(sol, t1, v1) - 1)
}

/// Visit `(a, b)` comes before visit `(t, v)` in route order.
pub open spec fn visit_before(a: int, b: int, t: int, v: int) -> bool {
    a < t || (a == t && b < v)
}

/// Pair `(a, b, c, d)` comes before pair `(t1, v1, t2, v2)` in the order `verify_solution` visits pairs.
pub open spec fn pair_before(a: int, b: int, c: int, d: int, t1: int, v1: int, t2: int, v2: int) -> bool {
    visit_before(a, b, t1, v1) || (a == t1 && b == v1 && visit_before(c, d, t2, v2))
}

/// Every visit before `(t, v)` respects its earliest time and travel time.
pub open spec fn travel_ok_before(p: Problem, sol: Seq<Vec<i32>>, t: int, v: int) -> bool {
    forall|a: int, b: int|
        valid_visit(p, a, b) && visit_before(a, b, t, v) ==> #[trigger] earliest_ok(p, sol, a, b)
            && travel_ok(p, sol, a, b)
}

/// No pair of visits before `(t1, v1, t2, v2)` is in conflict.
pub open spec fn no_conflict_before(p: Problem, sol: Seq<Vec<i32>>, t1: int, v1: int, t2: int, v2: int) -> bool {
    forall|a: int, b: int, c: int, d: int|
        valid_visit(p, a, b) && valid_visit(p, c, d) && pair_before(a, b, c, d, t1, v1, t2, v2)
            ==> !#[trigger] pair_conflict(p, sol, a, b, c, d)
}

/// Every visit respects its earliest and travel time.
pub open spec fn all_travel_ok(p: Problem, sol: Seq<Vec<i32>>) -> bool {
    forall|a: int, b: int| valid_visit(p, a, b) ==> #[trigger] earliest_ok(p, sol, a, b) && travel_ok(p, sol, a, b)
}

/// No two visits are in conflict.
pub open spec fn no_conflicts(p: Problem, sol: Seq<Vec<i32>>) -> bool {
    forall|a: int, b: int, c: int, d: int|
        valid_visit(p, a, b) && valid_visit(p, c, d) ==> !#[trigger] pair_conflict(p, sol, a, b, c, d)
}

/// The solution is feasible for the problem.
pub open spec fn feasible(p: Problem, sol: Seq<Vec<i32>>) -> bool {
    all_travel_ok(p, sol) && no_conflicts(p, sol)
}

/// The solution has one row per train with one time per visit plus the final
/// exit time.
pub open spec fn solution_shape(p: Problem, sol: Seq<Vec<i32>>) -> bool {
    &&& sol.len() == p.trains@.len()
    &&& forall|ti: int|
        0 <= ti < p.trains@.len() ==> #[trigger] sol[ti]@.len() == p.trains@[ti].visits@.len() + 1
}

/// None of the comparisons made on a solution overflows.
pub open spec fn solution_arith_ok(p: Problem, sol: Seq<Vec<i32>>) -> bool {
    forall|ti: int, vi: int|
        #![trigger t_in(sol, ti, vi)]
        #![trigger visit_arith_ok(p, sol, ti, vi)]
        valid_visit(p, ti, vi) ==> visit_arith_ok(p, sol, ti, vi)
}

/// None of the comparisons made on visit `vi` of train `ti` overflows.
pub open spec fn visit_arith_ok(p: Problem, sol: Seq<Vec<i32>>, ti: int, vi: int) -> bool {
    &&& p.trains@[ti].visits@[vi].earliest >= i32::MIN + 10
    &&& i32::MIN <= t_in(sol, ti, vi) + p.trains@[ti].visits@[vi].travel_time <= i32::MAX
    &&& t_out(sol, ti, vi) > i32::MIN
    &&& delay_fits(p.trains@[ti], vi, t_in(sol, ti, vi))
}

fn contains_pair(pairs: &Vec<(usize, usize)>, a: usize, b: usize) -> (r: bool)
    ensures
        r == pairs@.contains((a, b)),
{
    let mut i: usize = 0;
    while i < pairs.len()
        invariant
            i <= pairs@.len(),
            forall|k: int| 0 <= k < i ==> pairs@[k] != (a, b),
        decreases pairs@.len() - i,
    {
        if pairs[i].0 == a && pairs[i].1 == b {
            assert(pairs@[i as int] == (a, b));
            return true;
        }
        i = i + 1;
    }
    false
}

/// Whether a solution can be checked: it has the shape `verify_solution`
/// reads, and none of the comparisons made on it overflows.
pub fn solution_checkable(p: &Problem, solution: &[Vec<i32>]) -> (r: bool)
    ensures
        r == (solution_shape(*p, solution@) && solution_arith_ok(*p, solution@)),
{
    if solution.len() != p.trains.len() {
        return false;
    }
    let mut ti: usize = 0;
    while ti < p.trains.len()
        invariant
            solution@.len() == p.trains@.len(),
            ti <= p.trains@.len(),
            forall|t: int| 0 <= t < ti ==> #[trigger] solution@[t]@.len() == p.trains@[t].visits@.len() + 1,
            forall|t: int, v: int| 0 <= t < ti && valid_visit(*p, t, v) ==> #[trigger] visit_arith_ok(*p, solution@, t, v),
        decreases p.trains@.len() - ti,
    {
        let n = p.trains[ti].visits.len();
        let m = solution[ti].len();
        if m == 0 || m - 1 != n {
            proof {
                assert(!solution_shape(*p, solution@));
            }
            return false;
        }
        let mut vi: usize = 0;
        while vi < n
            invariant
                solution@.len() == p.trains@.len(),
                ti < p.trains@.len(),
                n == p.trains@[ti as int].visits@.len(),
                solution@[ti as int]@.len() == n + 1,
                vi <= n,
                forall|t: int| 0 <= t < ti ==> #[trigger] solution@[t]@.len() == p.trains@[t].visits@.len() + 1,
                forall|t: int, v: int| 0 <= t < ti && valid_visit(*p, t, v) ==> #[trigger] visit_arith_ok(*p, solution@, t, v),
                forall|v: int| 0 <= v < vi ==> #[trigger] visit_arith_ok(*p, solution@, ti as int, v),
            decreases n - vi,
        {
            let visit = p.trains[ti].visits[vi];
            let t_in_v = solution[ti][vi];
            let t_out_v = solution[ti][vi + 1];
            let aimed_ok = match visit.aimed {
                Some(a) => t_in_v.checked_sub(a).is_some(),
                None => true,
            };
            if visit.earliest < i32::MIN + 10 || t_in_v.checked_add(visit.travel_time).is_none()
                || t_out_v == i32::MIN || !aimed_ok {
                proof {
                    assert(valid_visit(*p, ti as int, vi as int));
                    assert(!visit_arith_ok(*p, solution@, ti as int, vi as int));
                    if solution_arith_ok(*p, solution@) {
                        assert(i32::MIN <= t_in(solution@, ti as int, vi as int)
                            + p.trains@[ti as int].visits@[vi as int].travel_time <= i32::MAX);
                    }
                }
                return false;
            }
            vi = vi + 1;
        }
        proof {
            assert forall|t: int, v: int| 0 <= t < ti + 1 && valid_visit(*p, t, v) implies #[trigger] visit_arith_ok(*p, solution@, t, v) by {
                if t == ti {
                    assert(0 <= v < vi);
                }
            }
        }
        ti = ti + 1;
    }
    proof {
        assert(solution_shape(*p, solution@));
        assert(solution_arith_ok(*p, solution@));
    }
    true
}

impl Problem {
    /// Checks that a solution respects earliest times (with 10 seconds of
    /// slack), travel times and resource conflicts, and returns its cost.
    /// The first violation found (earliest and travel times train by train and
    /// visit by visit, then all pairs of visits) is reported.
    #[verifier::spinoff_prover]
    pub fn verify_solution(&self, solution: &[Vec<i32>], delay_cost_type: DelayCostType) -> (r: Result<
        i32,
        SolutionViolation,
    >)
        requires
            solution_shape(*self, solution@),
            solution_arith_ok(*self, solution@),
            cost_spec(*self, solution@, delay_cost_type) <= i32::MAX,
        ensures
            r is Ok <==> feasible(*self, solution@),
            r matches Ok(c) ==> c == cost_spec(*self, solution@, delay_cost_type),
            r matches Err(SolutionViolation::EarliestEntry { train_idx, visit_idx }) ==> {
                &&& valid_visit(*self, train_idx as int, visit_idx as int)
                &&& !earliest_ok(*self, solution@, train_idx as int, visit_idx as int)
                &&& travel_ok_before(*self, solution@, train_idx as int, visit_idx as int)
            },
            r matches Err(SolutionViolation::TravelTime { train_idx, visit_idx }) ==> {
                &&& valid_visit(*self, train_idx as int, visit_idx as int)
                &&& earliest_ok(*self, solution@, train_idx as int, visit_idx as int)
                &&& !travel_ok(*self, solution@, train_idx as int, visit_idx as int)
                &&& travel_ok_before(*self, solution@, train_idx as int, visit_idx as int)
            },
            r matches Err(
                SolutionViolation::ResourceConflict { train_idx1, visit_idx1, train_idx2, visit_idx2 },
            ) ==> {
                &&& all_travel_ok(*self, solution@)
                &&& valid_visit(*self, train_idx1 as int, visit_idx1 as int)
                &&& valid_visit(*self, train_idx2 as int, visit_idx2 as int)
                &&& pair_conflict(
                    *self,
                    solution@,
                    train_idx1 as int,
                    visit_idx1 as int,
                    train_idx2 as int,
                    visit_idx2 as int,
                )
                &&& no_conflict_before(
                    *self,
                    solution@,
                    train_idx1 as int,
                    visit_idx1 as int,
                    train_idx2 as int,
                    visit_idx2 as int,
                )
            },
    {
        let n: usize = self.trains.len();
        // Earliest and travel times, summing the cost along the way.
        let mut sum: i32 = 0;
        let mut ti: usize = 0;
        while ti < n
            invariant
                n == self.trains@.len(),
                ti <= n,
                solution_shape(*self, solution@),
                solution_arith_ok(*self, solution@),
                cost_spec(*self, solution@, delay_cost_type) <= i32::MAX,
                travel_ok_before(*self, solution@, ti as int, 0),
                sum == cost_upto(*self, solution@, delay_cost_type, ti as int),
            decreases n - ti,
        {
            let train = &self.trains[ti];
            let row = &solution[ti];
            let ghost tr = self.trains@[ti as int];
            proof {
                lemma_cost_monotone(*self, solution@, delay_cost_type, ti + 1, n as int);
                lemma_cost_nonneg(*self, solution@, delay_cost_type, ti as int);
            }
            let mut vi: usize = 0;
            let mut tsum: i32 = 0;
            while vi < train.visits.len()
                invariant
                    n == self.trains@.len(),
                    ti < n,
                    *train == tr,
                    tr == self.trains@[ti as int],
                    *row == solution@[ti as int],
                    vi <= tr.visits@.len(),
                    solution_shape(*self, solution@),
                    solution_arith_ok(*self, solution@),
                    travel_ok_before(*self, solution@, ti as int, vi as int),
                    tsum == train_cost_upto(tr, row@, delay_cost_type, vi as int),
                    sum == cost_upto(*self, solution@, delay_cost_type, ti as int),
                    sum + train_cost_spec(tr, row@, delay_cost_type) <= i32::MAX,
                    sum >= 0,
                decreases tr.visits@.len() - vi,
            {
                let visit = &train.visits[vi];
                assert(valid_visit(*self, ti as int, vi as int));
                assert(row@.len() == tr.visits@.len() + 1);
                let t1_in: i32 = row[vi];
                let t1_out: i32 = row[vi + 1];
                assert(t_in(solution@, ti as int, vi as int) == t1_in);
                assert(t_out(solution@, ti as int, vi as int) == t1_out);
                if t1_in < visit.earliest - 10 {
                    assert(!(earliest_ok(*self, solution@, ti as int, vi as int) && travel_ok(*self, solution@, ti as int, vi as int)));
                    return Err(SolutionViolation::EarliestEntry { train_idx: ti, visit_idx: vi });
                }
                assert(earliest_ok(*self, solution@, ti as int, vi as int));
                if t1_in + visit.travel_time > t1_out {
                    assert(!travel_ok(*self, solution@, ti as int, vi as int));
                    assert(!(earliest_ok(*self, solution@, ti as int, vi as int) && travel_ok(*self, solution@, ti as int, vi as int)));
                    return Err(SolutionViolation::TravelTime { train_idx: ti, visit_idx: vi });
                }
                assert(travel_ok(*self, solution@, ti as int, vi as int));
                proof {
                    lemma_train_cost_monotone(tr, row@, delay_cost_type, vi + 1, tr.visits@.len() as int);
                    lemma_train_cost_nonneg(tr, row@, delay_cost_type, vi as int);
                    assert forall|a: int, b: int|
                        valid_visit(*self, a, b) && visit_before(a, b, ti as int, vi + 1) implies #[trigger] earliest_ok(
                        *self,
                        solution@,
                        a,
                        b,
                    ) && travel_ok(*self, solution@, a, b) by {
                        if visit_before(a, b, ti as int, vi as int) {
                            assert(travel_ok_before(*self, solution@, ti as int, vi as int));
                            assert(earliest_ok(*self, solution@, a, b));
                        } else {
                            assert(a == ti && b == vi);
                        }
                    }
                }
                let c: usize = train.visit_delay_cost(delay_cost_type, vi, t1_in);
                if c > 0 {
                    tsum = tsum + c as i32;
                }
                vi = vi + 1;
            }
            sum = sum + tsum;
            proof {
                assert forall|a: int, b: int|
                    valid_visit(*self, a, b) && visit_before(a, b, ti + 1, 0) implies #[trigger] earliest_ok(
                    *self,
                    solution@,
                    a,
                    b,
                ) && travel_ok(*self, solution@, a, b) by {
                    if !visit_before(a, b, ti as int, vi as int) {
                        assert(a == ti);
                    }
                }
            }
            ti = ti + 1;
        }
        proof {
            assert forall|a: int, b: int| valid_visit(*self, a, b) implies #[trigger] earliest_ok(
                *self,
                solution@,
                a,
                b,
            ) && travel_ok(*self, solution@, a, b) by {
                assert(visit_before(a, b, n as int, 0));
            }
        }
        // All pairs of visits to conflicting resources.
        let mut t1: usize = 0;
        while t1 < n
            invariant
                n == self.trains@.len(),
                t1 <= n,
                solution_shape(*self, solution@),
                solution_arith_ok(*self, solution@),
                all_travel_ok(*self, solution@),
                no_conflict_before(*self, solution@, t1 as int, 0, 0, 0),
            decreases n - t1,
        {
            let mut v1: usize = 0;
            while v1 < self.trains[t1].visits.len()
                invariant
                    n == self.trains@.len(),
                    t1 < n,
                    v1 <= self.trains@[t1 as int].visits@.len(),
                    solution_shape(*self, solution@),
                    solution_arith_ok(*self, solution@),
                    all_travel_ok(*self, solution@),
                    no_conflict_before(*self, solution@, t1 as int, v1 as int, 0, 0),
                decreases self.trains@[t1 as int].visits@.len() - v1,
            {
                let r1: usize = self.trains[t1].visits[v1].resource_id;
                let mut t2: usize = 0;
                while t2 < n
                    invariant
                        n == self.trains@.len(),
                        t1 < n,
                        v1 < self.trains@[t1 as int].visits@.len(),
                        r1 == self.trains@[t1 as int].visits@[v1 as int].resource_id,
                        t2 <= n,
                        solution_shape(*self, solution@),
                        solution_arith_ok(*self, solution@),
                        all_travel_ok(*self, solution@),
                        no_conflict_before(*self, solution@, t1 as int, v1 as int, t2 as int, 0),
                    decreases n - t2,
                {
                    let mut v2: usize = 0;
                    while v2 < self.trains[t2].visits.len()
                        invariant
                            n == self.trains@.len(),
                            t1 < n,
                            t2 < n,
                            v1 < self.trains@[t1 as int].visits@.len(),
                            r1 == self.trains@[t1 as int].visits@[v1 as int].resource_id,
                            v2 <= self.trains@[t2 as int].visits@.len(),
                            solution_shape(*self, solution@),
                            solution_arith_ok(*self, solution@),
                            all_travel_ok(*self, solution@),
                            no_conflict_before(*self, solution@, t1 as int, v1 as int, t2 as int, v2 as int),
                        decreases self.trains@[t2 as int].visits@.len() - v2,
                    {
                        let r2: usize = self.trains[t2].visits[v2].resource_id;
                        assert(solution@[t1 as int]@.len() == self.trains@[t1 as int].visits@.len() + 1);
                        assert(solution@[t2 as int]@.len() == self.trains@[t2 as int].visits@.len() + 1);
                        let l1: usize = solution[t1].len();
                        let l2: usize = solution[t2].len();
                        if (t1 != t2 || v1 != v2) && contains_pair(&self.conflicts, r1, r2) {
                            assert(t_in(solution@, t1 as int, v1 as int) == solution@[t1 as int]@[v1 as int]);
                            assert(t_in(solution@, t2 as int, v2 as int) == solution@[t2 as int]@[v2 as int]);
                            let a_in: i32 = solution[t1][v1];
                            let a_out: i32 = solution[t1][v1 + 1];
                            let b_in: i32 = solution[t2][v2];
                            let b_out: i32 = solution[t2][v2 + 1];
                            proof {
                                assert(valid_visit(*self, t1 as int, v1 as int));
                                assert(valid_visit(*self, t2 as int, v2 as int));
                                assert(earliest_ok(*self, solution@, t1 as int, v1 as int));
                                assert(earliest_ok(*self, solution@, t2 as int, v2 as int));
                                assert(travel_ok(*self, solution@, t1 as int, v1 as int));
                                assert(travel_ok(*self, solution@, t2 as int, v2 as int));
                                assert(t_out(solution@, t1 as int, v1 as int) == a_out);
                                assert(t_out(solution@, t2 as int, v2 as int) == b_out);
                            }
                            let ok: bool = a_in >= b_out - 1 || b_in >= a_out - 1;
                            if !ok {
                                assert(self.trains@[t2 as int].visits@[v2 as int].resource_id == r2);
                                assert(pair_conflict(*self, solution@, t1 as int, v1 as int, t2 as int, v2 as int));
                                assert(!no_conflicts(*self, solution@));
                                return Err(
                                    SolutionViolation::ResourceConflict {
                                        train_idx1: t1,
                                        visit_idx1: v1,
                                        train_idx2: t2,
                                        visit_idx2: v2,
                                    },
                                );
                            }
                        }
                        assert(!pair_conflict(*self, solution@, t1 as int, v1 as int, t2 as int, v2 as int));
                        proof {
                            assert forall|a: int, b: int, c: int, d: int|
                                valid_visit(*self, a, b) && valid_visit(*self, c, d) && pair_before(
                                    a,
                                    b,
                                    c,
                                    d,
                                    t1 as int,
                                    v1 as int,
                                    t2 as int,
                                    v2 + 1,
                                ) implies !#[trigger] pair_conflict(*self, solution@, a, b, c, d) by {
                                if !pair_before(a, b, c, d, t1 as int, v1 as int, t2 as int, v2 as int) {
                                    assert(a == t1 && b == v1 && c == t2 && d == v2);
                                }
                            }
                        }
                        v2 = v2 + 1;
                    }
                    proof {
                        assert forall|a: int, b: int, c: int, d: int|
                            valid_visit(*self, a, b) && valid_visit(*self, c, d) && pair_before(
                                a,
                                b,
                                c,
                                d,
                                t1 as int,
                                v1 as int,
                                t2 + 1,
                                0,
                            ) implies !#[trigger] pair_conflict(*self, solution@, a, b, c, d) by {
                            if !pair_before(a, b, c, d, t1 as int, v1 as int, t2 as int, v2 as int) {
                                assert(c == t2);
                            }
                        }
                    }
                    t2 = t2 + 1;
                }
                proof {
                    assert forall|a: int, b: int, c: int, d: int|
                        valid_visit(*self, a, b) && valid_visit(*self, c, d) && pair_before(
                            a,
                            b,
                            c,
                            d,
                            t1 as int,
                            v1 + 1,
                            0,
                            0,
                        ) implies !#[trigger] pair_conflict(*self, solution@, a, b, c, d) by {
                        if !pair_before(a, b, c, d, t1 as int, v1 as int, n as int, 0) {
                            assert(a == t1 && b == v1);
                            assert(c < n);
                        }
                    }
                }
                v1 = v1 + 1;
            }
            proof {
                assert forall|a: int, b: int, c: int, d: int|
                    valid_visit(*self, a, b) && valid_visit(*self, c, d) && pair_before(
                        a,
                        b,
                        c,
                        d,
                        t1 + 1,
                        0,
                        0,
                        0,
                    ) implies !#[trigger] pair_conflict(*self, solution@, a, b, c, d) by {
                    if !pair_before(a, b, c, d, t1 as int, v1 as int, 0, 0) {
                        assert(a == t1);
                    }
                }
            }
            t1 = t1 + 1;
        }
        proof {
            assert forall|a: int, b: int, c: int, d: int|
                valid_visit(*self, a, b) && valid_visit(*self, c, d) implies !#[trigger] pair_conflict(
                *self,
                solution@,
                a,
                b,
                c,
                d,
            ) by {
                assert(pair_before(a, b, c, d, n as int, 0, 0, 0));
            }
        }
        Ok(sum)
    }
}

// ---------------------------------------------------------------------------
// Small example problems
// ---------------------------------------------------------------------------

/// A visit whose aimed time is its earliest time.
pub open spec fn visit_spec(resource_id: usize, earliest: i32, travel_time: i32) -> Visit {
    Visit { resource_id, earliest, travel_time, aimed: Some(earliest) }
}

fn visit(resource_id: usize, earliest: i32, travel_time: i32) -> (r: Visit)
    ensures
        r == visit_spec(resource_id, earliest, travel_time),
{
    Visit { resource_id, earliest, travel_time, aimed: Some(earliest) }
}

/// Resources `0..=6` each conflicting with themselves only.
fn self_conflicts() -> (r: Vec<(usize, usize)>)
    ensures
        r@ == Seq::new(7, |i: int| (i as usize, i as usize)),
{
    let mut out: Vec<(usize, usize)> = Vec::new();
    let mut i: usize = 0;
    while i <= 6
        invariant
            i <= 7,
            out@ =~= Seq::new(7, |k: int| (k as usize, k as usize)).take(i as int),
        decreases 7 - i,
    {
        out.push((i, i));
        i = i + 1;
    }
    out
}

/// The visits of the small example with explicit station visits.
pub open spec fn problem1_with_stations_visits() -> Seq<Seq<Visit>> {
    seq![
        seq![visit_spec(0, 0, 6), visit_spec(7, 6, 0), visit_spec(1, 6, 3), visit_spec(7, 9, 0), visit_spec(6, 9, 8)],
        seq![visit_spec(2, 0, 4), visit_spec(7, 4, 0), visit_spec(1, 4, 3)],
        seq![visit_spec(3, 0, 9), visit_spec(7, 9, 0), visit_spec(1, 9, 3), visit_spec(7, 12, 0), visit_spec(5, 12, 5)],
        seq![visit_spec(4, 0, 10), visit_spec(7, 10, 0), visit_spec(5, 10, 5)],
    ]
}

/// The visits of the small example.
pub open spec fn problem1_visits() -> Seq<Seq<Visit>> {
    seq![
        seq![visit_spec(0, 0, 6), visit_spec(1, 6, 3), visit_spec(6, 9, 8)],
        seq![visit_spec(2, 0, 4), visit_spec(1, 4, 3)],
        seq![visit_spec(3, 0, 9), visit_spec(1, 9, 3), visit_spec(5, 12, 5)],
        seq![visit_spec(4, 0, 10), visit_spec(5, 10, 5)],
    ]
}

/// The problem has the given visits, resources `0..=6` conflicting with
/// themselves only, and the name "Unnamed".
pub open spec fn is_example_problem(p: Problem, visits: Seq<Seq<Visit>>) -> bool {
    &&& p.trains@.len() == visits.len()
    &&& forall|i: int| 0 <= i < visits.len() ==> #[trigger] p.trains@[i].visits@ == visits[i]
    &&& p.conflicts@ == Seq::new(7, |i: int| (i as usize, i as usize))
    &&& p.name@ == "Unnamed"@
}

/// A small example of four trains, with explicit station visits (resource 7).
pub fn problem1_with_stations() -> (r: Problem)
    ensures
        is_example_problem(r, problem1_with_stations_visits()),
{
    let travel_times: Vec<i32> = vec![6, 3, 4, 9, 10, 5, 8];
    let trains = vec![
        Train {
            visits: vec![
                visit(0, 0, travel_times[0]),
                visit(7, 6, 0),
                visit(1, 6, travel_times[1]),
                visit(7, 9, 0),
                visit(6, 9, travel_times[6]),
            ],
        },
        Train { visits: vec![visit(2, 0, travel_times[2]), visit(7, 4, 0), visit(1, 4, travel_times[1])] },
        Train {
            visits: vec![
                visit(3, 0, travel_times[3]),
                visit(7, 9, 0),
                visit(1, 9, travel_times[1]),
                visit(7, 12, 0),
                visit(5, 12, travel_times[5]),
            ],
        },
        Train { visits: vec![visit(4, 0, travel_times[4]), visit(7, 10, 0), visit(5, 10, travel_times[5])] },
    ];
    let p = Problem { name: "Unnamed".to_string(), trains, conflicts: self_conflicts() };
    proof {
        reveal_strlit("Unnamed");
        assert(p.trains@[0].visits@ =~= problem1_with_stations_visits()[0]);
        assert(p.trains@[1].visits@ =~= problem1_with_stations_visits()[1]);
        assert(p.trains@[2].visits@ =~= problem1_with_stations_visits()[2]);
        assert(p.trains@[3].visits@ =~= problem1_with_stations_visits()[3]);
    }
    p
}

/// A small example of four trains.
pub fn problem1() -> (r: Problem)
    ensures
        is_example_problem(r, problem1_visits()),
{
    let travel_times: Vec<i32> = vec![6, 3, 4, 9, 10, 5, 8];
    let trains = vec![
        Train {
            visits: vec![
                visit(0, 0, travel_times[0]),
                visit(1, 6, travel_times[1]),
                visit(6, 9, travel_times[6]),
            ],
        },
        Train { visits: vec![visit(2, 0, travel_times[2]), visit(1, 4, travel_times[1])] },
        Train {
            visits: vec![
                visit(3, 0, travel_times[3]),
                visit(1, 9, travel_times[1]),
                visit(5, 12, travel_times[5]),
            ],
        },
        Train { visits: vec![visit(4, 0, travel_times[4]), visit(5, 10, travel_times[5])] },
    ];
    let p = Problem { name: "Unnamed".to_string(), trains, conflicts: self_conflicts() };
    proof {
        reveal_strlit("Unnamed");
        assert(p.trains@[0].visits@ =~= problem1_visits()[0]);
        assert(p.trains@[1].visits@ =~= problem1_visits()[1]);
        assert(p.trains@[2].visits@ =~= problem1_visits()[2]);
        assert(p.trains@[3].visits@ =~= problem1_visits()[3]);
    }
    p
}
// ---------------------------------------------------------------------------
// Laws of the cost functions
// ---------------------------------------------------------------------------

/// The thresholds decrease strictly and the costs do not increase along the
/// table.
pub open spec fn table_ordered(th: Seq<(i32, usize)>) -> bool {
    forall|i: int, j: int| 0 <= i < j < th.len() ==> (#[trigger] th[i]).0 > (#[trigger] th[j]).0 && th[i].1 >= th[j].1
}

/// The thresholds and the costs both decrease strictly along the table, and
/// every cost is positive.
pub open spec fn table_strict(th: Seq<(i32, usize)>) -> bool {
    &&& forall|i: int, j: int| 0 <= i < j < th.len() ==> (#[trigger] th[i]).0 > (#[trigger] th[j]).0 && th[i].1 > th[j].1
    &&& forall|i: int| 0 <= i < th.len() ==> (#[trigger] th[i]).1 > 0
}

proof fn lemma_table_tail(th: Seq<(i32, usize)>)
    requires
        th.len() > 0,
        table_ordered(th),
    ensures
        table_ordered(th.drop_first()),
{
    assert forall|i: int, j: int| 0 <= i < j < th.drop_first().len() implies (#[trigger] th.drop_first()[i]).0 > (#[trigger] th.drop_first()[j]).0
        && th.drop_first()[i].1 >= th.drop_first()[j].1 by {
        assert(th.drop_first()[i] == th[i + 1]);
        assert(th.drop_first()[j] == th[j + 1]);
    }
}

/// A delay that exceeds no threshold costs nothing; and a delay that
/// exceeds the threshold of entry `i` but not that of the entry before costs
/// the cost of entry `i`.
pub proof fn thresholds_eval_at(th: Seq<(i32, usize)>, d: int, i: int)
    requires
        table_ordered(th),
        0 <= i < th.len(),
        th[i].0 < d,
        i == 0 || d <= th[i - 1].0,
    ensures
        thresholds_eval(th, d) == th[i].1,
    decreases i,
{
    if i > 0 {
        assert(d <= th[0].0) by {
            if i - 1 > 0 {
                assert(th[0].0 > th[i - 1].0);
            }
        }
        lemma_table_tail(th);
        assert(th.drop_first()[i - 1] == th[i]);
        if i - 1 > 0 {
            assert(th.drop_first()[i - 2] == th[i - 1]);
        }
        thresholds_eval_at(th.drop_first(), d, i - 1);
    }
}

/// A delay no greater than every threshold costs nothing.
pub proof fn thresholds_eval_below(th: Seq<(i32, usize)>, d: int)
    requires
        forall|i: int| 0 <= i < th.len() ==> d <= (#[trigger] th[i]).0,
    ensures
        thresholds_eval(th, d) == 0,
    decreases th.len(),
{
    if th.len() > 0 {
        assert(d <= th[0].0);
        assert forall|i: int| 0 <= i < th.drop_first().len() implies d <= (#[trigger] th.drop_first()[i]).0 by {
            assert(th.drop_first()[i] == th[i + 1]);
        }
        thresholds_eval_below(th.drop_first(), d);
    }
}

/// The cost of a delay is at most the first cost of an ordered table, and
/// at least the cost of any entry whose threshold the delay exceeds.
#[verifier::spinoff_prover]
proof fn lemma_eval_bounds(th: Seq<(i32, usize)>, d: int)
    requires
        table_ordered(th),
    ensures
        th.len() > 0 ==> thresholds_eval(th, d) <= th[0].1,
        forall|i: int| 0 <= i < th.len() && th[i].0 < d ==> thresholds_eval(th, d) >= (#[trigger] th[i]).1,
    decreases th.len(),
{
    if th.len() > 0 {
        lemma_table_tail(th);
        lemma_eval_bounds(th.drop_first(), d);
        if th.len() > 1 {
            assert(th.drop_first()[0] == th[1]);
            assert(th[0].1 >= th[1].1);
        }
        assert forall|i: int| 0 <= i < th.len() && th[i].0 < d implies thresholds_eval(th, d) >= (#[trigger] th[i]).1 by {
            if d <= th[0].0 && i > 0 {
                assert(th.drop_first()[i - 1] == th[i]);
            }
        }
    }
}

/// Over an ordered table, a longer delay never costs less.
pub proof fn thresholds_eval_monotone(th: Seq<(i32, usize)>, d1: int, d2: int)
    requires
        table_ordered(th),
        d1 <= d2,
    ensures
        thresholds_eval(th, d1) <= thresholds_eval(th, d2),
    decreases th.len(),
{
    if th.len() > 0 {
        lemma_table_tail(th);
        if d1 > th[0].0 {
        } else if d2 > th[0].0 {
            lemma_eval_bounds(th.drop_first(), d1);
            assert(thresholds_eval(th, d1) == thresholds_eval(th.drop_first(), d1));
            if th.len() > 1 {
                assert(th.drop_first()[0] == th[1]);
                assert(th[0].1 >= th[1].1);
            } else {
                assert(th.drop_first().len() == 0);
                assert(thresholds_eval(th.drop_first(), d1) == 0);
            }
        } else {
            thresholds_eval_monotone(th.drop_first(), d1, d2);
        }
    }
}

/// Over a strict table, each step delay costs the cost of its entry, one
/// second less costs strictly less.
pub proof fn step_delays_raise_cost(th: Seq<(i32, usize)>, i: int)
    requires
        table_strict(th),
        0 <= i < th.len(),
        th[i].0 < i32::MAX,
    ensures
        thresholds_step_delays(th)[i] == th[i].0 + 1,
        thresholds_eval(th, thresholds_step_delays(th)[i] as int) == th[i].1,
        thresholds_eval(th, thresholds_step_delays(th)[i] - 1) < th[i].1,
{
    assert(table_ordered(th)) by {
        assert forall|a: int, b: int| 0 <= a < b < th.len() implies (#[trigger] th[a]).0 > (#[trigger] th[b]).0 && th[a].1 >= th[b].1 by {}
    }
    let d = th[i].0 + 1;
    thresholds_eval_at(th, d, i);
    let d0 = th[i].0 as int;
    if i + 1 < th.len() {
        thresholds_eval_at(th, d0, i + 1);
    } else {
        assert forall|k: int| 0 <= k < th.len() implies d0 <= (#[trigger] th[k]).0 by {
            if k < i {
                assert(th[k].0 > th[i].0);
            }
        }
        thresholds_eval_below(th, d0);
    }
}

/// Step `x` of the infinite staircase: cost level `x + 1` begins one second
/// after `interval * x`, where cost level `x` holds.
pub proof fn staircase_steps(interval: nat, x: nat)
    requires
        interval > 0,
    ensures
        staircase_spec((interval * x + 1) as int, interval) == x + 1,
        staircase_spec((interval * x) as int, interval) == x,
{
    let i = interval as int;
    let y = x as int;
    assert((i * y + 1 + i - 1) / i == y + 1) by (nonlinear_arith)
        requires
            i > 0,
            y >= 0,
    ;
    if x > 0 {
        assert(i * y > 0) by (nonlinear_arith)
            requires
                i > 0,
                y > 0,
        ;
        assert((i * y + i - 1) / i == y) by (nonlinear_arith)
            requires
                i > 0,
                y >= 0,
        ;
    } else {
        assert(i * y == 0) by (nonlinear_arith)
            requires
                y == 0,
        ;
    }
}


/// A longer delay never costs less, under every cost type, and no delay
/// costs nothing.
pub proof fn delay_cost_monotone(ty: DelayCostType, d1: int, d2: int)
    requires
        0 <= d1 <= d2,
    ensures
        delay_cost_spec(ty, d1) <= delay_cost_spec(ty, d2),
        delay_cost_spec(ty, 0) == 0,
{
    reveal_with_fuel(thresholds_eval, 6);
    let interval: int = match ty {
        DelayCostType::InfiniteSteps60 => 60,
        DelayCostType::InfiniteSteps180 => 180,
        DelayCostType::InfiniteSteps360 => 360,
        _ => 1,
    };
    if d1 > 0 {
        vstd::arithmetic::div_mod::lemma_div_is_ordered(d1 + interval - 1, d2 + interval - 1, interval);
    }
}

/// Entering a visit later never costs less, under every cost type, and
/// entering it no later than its aimed time costs nothing.
pub proof fn visit_cost_monotone(train: Train, ty: DelayCostType, v: int, t1: i32, t2: i32)
    requires
        0 <= v < train.visits@.len(),
        t1 <= t2,
    ensures
        visit_cost_spec(train, ty, v, t1) <= visit_cost_spec(train, ty, v, t2),
        train.visits@[v].aimed matches Some(a) ==> (t1 <= a ==> visit_cost_spec(train, ty, v, t1) == 0),
{
    if let Some(a) = train.visits@[v].aimed {
        delay_cost_monotone(ty, delay_of(a, t1), delay_of(a, t2));
    }
}


/// Where a delay costs other than one second less, the table has a
/// threshold one second below it.
proof fn thresholds_jump(th: Seq<(i32, usize)>, d: int)
    ensures
        thresholds_eval(th, d) != thresholds_eval(th, d - 1) ==> exists|k: int| 0 <= k < th.len() && #[trigger] th[k].0 == d - 1,
    decreases th.len(),
{
    if th.len() > 0 {
        if d > th[0].0 {
            if d - 1 <= th[0].0 {
                assert(th[0].0 == d - 1);
            }
        } else {
            thresholds_jump(th.drop_first(), d);
            if thresholds_eval(th, d) != thresholds_eval(th, d - 1) {
                let k = choose|k: int| 0 <= k < th.drop_first().len() && #[trigger] th.drop_first()[k].0 == d - 1;
                assert(th[k + 1].0 == d - 1);
            }
        }
    }
}

/// The times that `shifted_after` keeps are the aimed time plus a delay, and
/// each such time after `earliest` is kept.
proof fn shifted_after_items(ds: Seq<i32>, a: i32, earliest: i32)
    requires
        forall|k: int| 0 <= k < ds.len() ==> i32::MIN <= a + #[trigger] ds[k] <= i32::MAX,
    ensures
        forall|j: int| 0 <= j < shifted_after(ds, a, earliest).len() ==> earliest < #[trigger] shifted_after(ds, a, earliest)[j]
            && exists|k: int| 0 <= k < ds.len() && shifted_after(ds, a, earliest)[j] == a + #[trigger] ds[k],
        forall|k: int| 0 <= k < ds.len() && a + #[trigger] ds[k] > earliest ==> shifted_after(ds, a, earliest).contains((a + ds[k]) as i32),
    decreases ds.len(),
{
    if ds.len() > 0 {
        let dl = ds.drop_last();
        assert forall|k: int| 0 <= k < dl.len() implies i32::MIN <= a + #[trigger] dl[k] <= i32::MAX by {
            assert(dl[k] == ds[k]);
        }
        shifted_after_items(dl, a, earliest);
        let rest = shifted_after(dl, a, earliest);
        let s = shifted_after(ds, a, earliest);
        let last = ds.len() - 1;
        assert(ds[last] == ds.last());
        assert forall|j: int| 0 <= j < s.len() implies earliest < #[trigger] s[j]
            && exists|k: int| 0 <= k < ds.len() && s[j] == a + #[trigger] ds[k] by {
            if j < rest.len() {
                assert(s[j] == rest[j]);
                let k = choose|k: int| 0 <= k < dl.len() && rest[j] == a + #[trigger] dl[k];
                assert(dl[k] == ds[k]);
            } else {
                assert(s[j] == a + ds[last]);
            }
        }
        assert forall|k: int| 0 <= k < ds.len() && a + #[trigger] ds[k] > earliest implies s.contains((a + ds[k]) as i32) by {
            if k < last {
                assert(dl[k] == ds[k]);
                let j = choose|j: int| 0 <= j < rest.len() && rest[j] == (a + dl[k]) as i32;
                assert(s[j] == rest[j]);
            } else {
                assert(s[rest.len() as int] == (a + ds[last]) as i32);
            }
        }
    }
}

/// The tables of the finite-step cost types are strict.
pub(crate) proof fn finite_tables_strict(ty: DelayCostType)
    ensures
        finite_table(ty) matches Some(th) ==> table_strict(th) && forall|k: int| 0 <= k < th.len() ==> 0 <= #[trigger] th[k].0 < 2000,
{
}

/// The delay cost of a visit rises at each time that
/// `visit_cost_threshold_times` returns: there it costs more than one second
/// earlier. Under a finite-step cost type these are all the times after
/// `earliest` at which it rises; a visit without an aimed time, or a
/// continuous cost, gives none.
pub proof fn cost_rises_at_threshold_times(train: Train, ty: DelayCostType, v: int, earliest: i32)
    requires
        0 <= v < train.visits@.len(),
        train.visits@[v].aimed matches Some(a) ==> forall|i: int|
            0 <= i < step_delays_spec(ty).len() ==> i32::MIN <= a + #[trigger] step_delays_spec(ty)[i] <= i32::MAX,
    ensures
        forall|j: int| 0 <= j < threshold_times(train, ty, v, earliest).len() ==> earliest < #[trigger] threshold_times(train, ty, v, earliest)[j]
            && visit_cost_spec(train, ty, v, (threshold_times(train, ty, v, earliest)[j] - 1) as i32)
                < visit_cost_spec(train, ty, v, threshold_times(train, ty, v, earliest)[j]),
        finite_table(ty) is Some ==> forall|t: i32| earliest < t && #[trigger] visit_cost_spec(train, ty, v, t)
            > visit_cost_spec(train, ty, v, (t - 1) as i32) ==> threshold_times(train, ty, v, earliest).contains(t),
        (train.visits@[v].aimed is None || ty is Continuous) ==> threshold_times(train, ty, v, earliest).len() == 0,
{
    finite_tables_strict(ty);
    if let Some(a) = train.visits@[v].aimed {
        let ds = step_delays_spec(ty);
        let s = threshold_times(train, ty, v, earliest);
        shifted_after_items(ds, a, earliest);
        assert forall|j: int| 0 <= j < s.len() implies earliest < #[trigger] s[j]
            && visit_cost_spec(train, ty, v, (s[j] - 1) as i32) < visit_cost_spec(train, ty, v, s[j]) by {
            let k = choose|k: int| 0 <= k < ds.len() && s[j] == a + #[trigger] ds[k];
            match finite_table(ty) {
                Some(th) => {
                    assert(ds == thresholds_step_delays(th));
                    step_delays_raise_cost(th, k);
                },
                None => {
                    let i = infinite_interval(ty)->0;
                    assert(ds[k] == i * k + 1);
                    staircase_steps(i, k as nat);
                },
            }
        }
        if let Some(th) = finite_table(ty) {
            assert(ds == thresholds_step_delays(th));
            assert forall|t: i32| earliest < t && #[trigger] visit_cost_spec(train, ty, v, t)
                > visit_cost_spec(train, ty, v, (t - 1) as i32) implies s.contains(t) by {
                thresholds_jump(th, t - a);
                assert(t - a > 0);
                let k = choose|k: int| 0 <= k < th.len() && #[trigger] th[k].0 == t - a - 1;
                assert(ds[k] == t - a);
            }
        }
    }
    if ty is Continuous {
        if let Some(a) = train.visits@[v].aimed {
            assert(step_delays_spec(ty).len() == 0);
        }
    }
}


/// What each cost type charges for a delay of `d` seconds: the finite
/// staircases 1 after 5 minutes; 1 after 3 minutes; 1, 2, 3 after 0, 3 and
/// 6 minutes; 1 to 5 after 0, 3, 6, 12 and 18 minutes; 1, 3, 9 after 0, 3
/// and 6 minutes; the uncapped staircases one per begun step of 60, 180 or
/// 360 seconds; the continuous cost the delay itself; and nothing for a
/// delay that is not positive.
pub proof fn cost_levels(d: int)
    ensures
        delay_cost_spec(DelayCostType::FiniteSteps1_3Min, d) == (if d > 300 { 1int } else { 0int }),
        delay_cost_spec(DelayCostType::FiniteSteps1_5Min, d) == (if d > 180 { 1int } else { 0int }),
        delay_cost_spec(DelayCostType::FiniteSteps123, d) == (if d > 360 { 3int } else if d > 180 { 2int } else if d > 0 { 1int } else { 0int }),
        delay_cost_spec(DelayCostType::FiniteSteps12345, d) == (if d > 1080 { 5int } else if d > 720 { 4int } else if d > 360 { 3int }
            else if d > 180 { 2int } else if d > 0 { 1int } else { 0int }),
        delay_cost_spec(DelayCostType::FiniteSteps139, d) == (if d > 360 { 9int } else if d > 180 { 3int } else if d > 0 { 1int } else { 0int }),
        delay_cost_spec(DelayCostType::InfiniteSteps60, d) == (if d > 0 { (d + 59) / 60 } else { 0int }),
        delay_cost_spec(DelayCostType::InfiniteSteps180, d) == (if d > 0 { (d + 179) / 180 } else { 0int }),
        delay_cost_spec(DelayCostType::InfiniteSteps360, d) == (if d > 0 { (d + 359) / 360 } else { 0int }),
        delay_cost_spec(DelayCostType::Continuous, d) == (if d > 0 { d } else { 0int }),
{
    reveal_with_fuel(thresholds_eval, 6);
}


/// The delay cost of a visit is the cost of its delay past the aimed time:
/// nothing when entered by the aimed time, and nothing for a visit without
/// an aimed time.
pub proof fn visit_cost_is_cost_of_delay(train: Train, ty: DelayCostType, v: int, t: i32)
    requires
        0 <= v < train.visits@.len(),
    ensures
        train.visits@[v].aimed matches Some(a) ==> visit_cost_spec(train, ty, v, t) == delay_cost_spec(ty, if t > a { t - a } else { 0 }),
        train.visits@[v].aimed is None ==> visit_cost_spec(train, ty, v, t) == 0,
{
}

proof fn lemma_train_cost_change(train: Train, row: Seq<i32>, row2: Seq<i32>, ty: DelayCostType, v: int, k: int)
    requires
        0 <= v < row.len(),
        row2 == row.update(v, row2[v]),
        0 <= k <= row.len(),
    ensures
        k <= v ==> train_cost_upto(train, row2, ty, k) == train_cost_upto(train, row, ty, k),
        k > v ==> train_cost_upto(train, row2, ty, k) == train_cost_upto(train, row, ty, k) - visit_cost_spec(train, ty, v, row[v])
            + visit_cost_spec(train, ty, v, row2[v]),
    decreases k,
{
    if k > 0 {
        lemma_train_cost_change(train, row, row2, ty, v, k - 1);
        assert(row2[k - 1] == (if k - 1 == v { row2[v] } else { row[k - 1] }));
    }
}

proof fn lemma_cost_change(p: Problem, sol: Seq<Vec<i32>>, sol2: Seq<Vec<i32>>, ty: DelayCostType, t: int, v: int, k: int)
    requires
        0 <= t < p.trains@.len(),
        0 <= v < p.trains@[t].visits@.len(),
        sol[t]@.len() >= p.trains@[t].visits@.len(),
        sol.len() >= p.trains@.len(),
        sol2.len() == sol.len(),
        forall|t2: int| 0 <= t2 < sol.len() && t2 != t ==> #[trigger] sol2[t2]@ == sol[t2]@,
        sol2[t]@ == sol[t]@.update(v, sol2[t]@[v]),
        0 <= k <= p.trains@.len(),
    ensures
        k <= t ==> cost_upto(p, sol2, ty, k) == cost_upto(p, sol, ty, k),
        k > t ==> cost_upto(p, sol2, ty, k) == cost_upto(p, sol, ty, k) - visit_cost_spec(p.trains@[t], ty, v, sol[t]@[v])
            + visit_cost_spec(p.trains@[t], ty, v, sol2[t]@[v]),
    decreases k,
{
    if k > 0 {
        lemma_cost_change(p, sol, sol2, ty, t, v, k - 1);
        if k - 1 == t {
            lemma_train_cost_change(p.trains@[t], sol[t]@, sol2[t]@, ty, v, p.trains@[t].visits@.len() as int);
        } else {
            assert(sol2[k - 1]@ == sol[k - 1]@);
        }
    }
}

/// The cost of a solution counts every visit once: changing the time of one
/// visit changes the cost by exactly the change of that visit's cost.
pub proof fn cost_counts_each_visit_once(p: Problem, ty: DelayCostType, sol: Seq<Vec<i32>>, sol2: Seq<Vec<i32>>, t: int, v: int)
    requires
        0 <= t < p.trains@.len(),
        0 <= v < p.trains@[t].visits@.len(),
        sol[t]@.len() >= p.trains@[t].visits@.len(),
        sol.len() >= p.trains@.len(),
        sol2.len() == sol.len(),
        forall|t2: int| 0 <= t2 < sol.len() && t2 != t ==> #[trigger] sol2[t2]@ == sol[t2]@,
        sol2[t]@ == sol[t]@.update(v, sol2[t]@[v]),
    ensures
        cost_spec(p, sol2, ty) == cost_spec(p, sol, ty) - visit_cost_spec(p.trains@[t], ty, v, sol[t]@[v])
            + visit_cost_spec(p.trains@[t], ty, v, sol2[t]@[v]),
{
    lemma_cost_change(p, sol, sol2, ty, t, v, p.trains@.len() as int);
}

proof fn lemma_on_time_train(train: Train, row: Seq<i32>, ty: DelayCostType, k: int)
    requires
        0 <= k <= train.visits@.len(),
        k <= row.len(),
        forall|v: int| 0 <= v < k ==> (train.visits@[v].aimed matches Some(a) ==> #[trigger] row[v] <= a),
    ensures
        train_cost_upto(train, row, ty, k) == 0,
    decreases k,
{
    if k > 0 {
        lemma_on_time_train(train, row, ty, k - 1);
        delay_cost_monotone(ty, 0, 0);
        assert(row[k - 1] == row[k - 1]);
    }
}

proof fn lemma_on_time(p: Problem, sol: Seq<Vec<i32>>, ty: DelayCostType, k: int)
    requires
        0 <= k <= p.trains@.len(),
        sol.len() >= p.trains@.len(),
        forall|t: int| 0 <= t < p.trains@.len() ==> #[trigger] sol[t]@.len() >= p.trains@[t].visits@.len(),
        forall|t: int, v: int| 0 <= t < p.trains@.len() && 0 <= v < p.trains@[t].visits@.len()
            ==> (p.trains@[t].visits@[v].aimed matches Some(a) ==> #[trigger] sol[t]@[v] <= a),
    ensures
        cost_upto(p, sol, ty, k) == 0,
    decreases k,
{
    if k > 0 {
        lemma_on_time(p, sol, ty, k - 1);
        let t = k - 1;
        assert forall|v: int| 0 <= v < p.trains@[t].visits@.len() implies (p.trains@[t].visits@[v].aimed matches Some(a) ==> #[trigger] sol[t]@[v] <= a) by {}
        lemma_on_time_train(p.trains@[t], sol[t]@, ty, p.trains@[t].visits@.len() as int);
    }
}

/// A solution in which every visit with an aimed time is entered by that
/// time costs nothing, under every cost type.
pub proof fn on_time_costs_nothing(p: Problem, sol: Seq<Vec<i32>>, ty: DelayCostType)
    requires
        sol.len() >= p.trains@.len(),
        forall|t: int| 0 <= t < p.trains@.len() ==> #[trigger] sol[t]@.len() >= p.trains@[t].visits@.len(),
        forall|t: int, v: int| 0 <= t < p.trains@.len() && 0 <= v < p.trains@[t].visits@.len()
            ==> (p.trains@[t].visits@[v].aimed matches Some(a) ==> #[trigger] sol[t]@[v] <= a),
    ensures
        cost_spec(p, sol, ty) == 0,
{
    lemma_on_time(p, sol, ty, p.trains@.len() as int);
}


/// What a feasible solution is, for a solution with an entry time per visit
/// and a final exit time per train: every visit is entered no more than ten
/// seconds before its earliest time and lasts at least its travel time (the
/// next entry, or the exit, comes that much later); and two different
/// visits to resources listed as in conflict overlap by no more than one
/// second.
pub proof fn feasible_means(p: Problem, sol: Seq<Vec<i32>>)
    requires
        solution_shape(p, sol),
    ensures
        feasible(p, sol) <==> {
            &&& forall|t: int, v: int| 0 <= t < p.trains@.len() && 0 <= v < p.trains@[t].visits@.len() ==> #[trigger] sol[t]@[v]
                >= p.trains@[t].visits@[v].earliest - 10 && sol[t]@[v] + p.trains@[t].visits@[v].travel_time <= sol[t]@[v + 1]
            &&& forall|t1: int, v1: int, t2: int, v2: int|
                0 <= t1 < p.trains@.len() && 0 <= v1 < p.trains@[t1].visits@.len() && 0 <= t2 < p.trains@.len() && 0 <= v2
                    < p.trains@[t2].visits@.len() && (t1 != t2 || v1 != v2) && p.conflicts@.contains(
                    (p.trains@[t1].visits@[v1].resource_id, p.trains@[t2].visits@[v2].resource_id),
                ) ==> #[trigger] sol[t1]@[v1] >= #[trigger] sol[t2]@[v2 + 1] - 1 || sol[t2]@[v2] >= sol[t1]@[v1 + 1] - 1
        },
{
    if feasible(p, sol) {
        assert forall|t: int, v: int| 0 <= t < p.trains@.len() && 0 <= v < p.trains@[t].visits@.len() implies #[trigger] sol[t]@[v]
            >= p.trains@[t].visits@[v].earliest - 10 && sol[t]@[v] + p.trains@[t].visits@[v].travel_time <= sol[t]@[v + 1] by {
            assert(valid_visit(p, t, v));
            assert(earliest_ok(p, sol, t, v) && travel_ok(p, sol, t, v));
        }
        assert forall|t1: int, v1: int, t2: int, v2: int|
            0 <= t1 < p.trains@.len() && 0 <= v1 < p.trains@[t1].visits@.len() && 0 <= t2 < p.trains@.len() && 0 <= v2
                < p.trains@[t2].visits@.len() && (t1 != t2 || v1 != v2) && p.conflicts@.contains(
                (p.trains@[t1].visits@[v1].resource_id, p.trains@[t2].visits@[v2].resource_id),
            ) implies #[trigger] sol[t1]@[v1] >= #[trigger] sol[t2]@[v2 + 1] - 1 || sol[t2]@[v2] >= sol[t1]@[v1 + 1] - 1 by {
            assert(valid_visit(p, t1, v1) && valid_visit(p, t2, v2));
            assert(!pair_conflict(p, sol, t1, v1, t2, v2));
        }
    }
    if ({
        &&& forall|t: int, v: int| 0 <= t < p.trains@.len() && 0 <= v < p.trains@[t].visits@.len() ==> #[trigger] sol[t]@[v]
            >= p.trains@[t].visits@[v].earliest - 10 && sol[t]@[v] + p.trains@[t].visits@[v].travel_time <= sol[t]@[v + 1]
        &&& forall|t1: int, v1: int, t2: int, v2: int|
            0 <= t1 < p.trains@.len() && 0 <= v1 < p.trains@[t1].visits@.len() && 0 <= t2 < p.trains@.len() && 0 <= v2
                < p.trains@[t2].visits@.len() && (t1 != t2 || v1 != v2) && p.conflicts@.contains(
                (p.trains@[t1].visits@[v1].resource_id, p.trains@[t2].visits@[v2].resource_id),
            ) ==> #[trigger] sol[t1]@[v1] >= #[trigger] sol[t2]@[v2 + 1] - 1 || sol[t2]@[v2] >= sol[t1]@[v1 + 1] - 1
    }) {
        assert forall|a: int, b: int| valid_visit(p, a, b) implies #[trigger] earliest_ok(p, sol, a, b) && travel_ok(p, sol, a, b) by {
            assert(sol[a]@[b] >= p.trains@[a].visits@[b].earliest - 10);
        }
        assert forall|a: int, b: int, c: int, d: int| valid_visit(p, a, b) && valid_visit(p, c, d) implies !#[trigger] pair_conflict(
            p, sol, a, b, c, d) by {
            if (a != c || b != d) && p.conflicts@.contains((p.trains@[a].visits@[b].resource_id, p.trains@[c].visits@[d].resource_id)) {
                assert(sol[a]@[b] >= sol[c]@[d + 1] - 1 || sol[c]@[d] >= sol[a]@[b + 1] - 1);
            }
        }
    }
}

} // verus!
