//! Cost of a trajectory: measured quantities times a declared rate.
//!
//! Nothing here is measured, which is why cost stands outside the report. The
//! run window is not an invoice: what is billed before and after it is not in
//! it.
use vstd::prelude::*;

use crate::accuracy::{
    is_near, lemma_integer_near, lemma_near_equal, lemma_near_widens, lemma_over_near,
    lemma_plus_near, lemma_times_near,
};
use crate::binary64::{
    integer, lemma_total_bounded, lemma_value_bound, scale, Binary64,
};
use crate::stats;
use crate::steps::StepKind;
use crate::trajectory::{StepMetrics, TrajectoryMetrics};

verus! {

/// Which cost is derived, and at what rate. One basis per derivation: on a
/// rented node the energy is inside the hourly price, so the two do not add
/// up. The rate travels with the result.
#[derive(Debug, Clone, Copy, PartialEq, Eq, Structural)]
pub enum CostBasis {
    /// A node rented by the hour.
    Occupancy {
        /// Price of the whole node per hour.
        usd_per_hour: Binary64,
    },
    /// Owned hardware, electricity metered.
    Energy {
        /// Price of electricity per kilowatt-hour.
        usd_per_kwh: Binary64,
    },
}

/// The cost of one step.
#[derive(Debug, Clone, Copy, PartialEq, Eq, Structural)]
pub struct StepCost {
    /// The step.
    pub step_id: u64,
    /// What it did.
    pub kind: StepKind,
    /// Cost of its window.
    pub usd: Binary64,
    /// Cost per million generation tokens; `None` for tool steps and where no
    /// tokens were observed or generated.
    pub usd_per_million_tokens: Option<Binary64>,
}

/// The cost of a whole trajectory on one basis.
#[derive(Debug, Clone, PartialEq, Eq)]
pub struct TrajectoryCost {
    /// The basis and rate behind every figure.
    pub basis: CostBasis,
    /// Cost of the whole run window.
    pub run_usd: Binary64,
    /// Cost of the kept steps.
    pub attributed_usd: Binary64,
    /// Cost of the steps that generate tokens.
    pub llm_usd: Binary64,
    /// Cost of the steps that do not.
    pub tool_usd: Binary64,
    /// Cost of the run outside any kept step.
    pub unattributed_usd: Binary64,
    /// The steps, in window order.
    pub steps: Vec<StepCost>,
    /// Cost of the whole run per million generation tokens; `None` without
    /// generation tokens.
    pub trajectory_usd_per_million_tokens: Option<Binary64>,
}

/// Nanoseconds in an hour.
pub const NS_PER_HOUR: u64 = 3_600_000_000_000;

/// Millijoules in a kilowatt-hour.
pub const MJ_PER_KWH: u64 = 3_600_000_000;

/// The rate of a basis.
pub open spec fn rate_of(basis: CostBasis) -> Binary64 {
    match basis {
        CostBasis::Occupancy { usd_per_hour } => usd_per_hour,
        CostBasis::Energy { usd_per_kwh } => usd_per_kwh,
    }
}

/// What a rate is asked per: nanoseconds in an hour, or millijoules in a
/// kilowatt-hour.
pub open spec fn unit_of(basis: CostBasis) -> nat {
    match basis {
        CostBasis::Occupancy { .. } => NS_PER_HOUR as nat,
        CostBasis::Energy { .. } => MJ_PER_KWH as nat,
    }
}

/// The price of a quantity on a basis.
pub open spec fn price(basis: CostBasis, quantity: u64) -> Binary64 {
    rate_of(basis).times(integer(quantity as nat)).over(integer(unit_of(basis)))
}

/// What a basis prices of a step: its time, or its energy.
pub open spec fn quantity_of(basis: CostBasis, step: StepMetrics) -> u64 {
    match basis {
        CostBasis::Occupancy { .. } => if step.end_elapsed_ns > step.start_elapsed_ns {
            (step.end_elapsed_ns - step.start_elapsed_ns) as u64
        } else {
            0
        },
        CostBasis::Energy { .. } => step.energy_mj,
    }
}

/// What a basis prices of a run.
pub open spec fn run_quantity(basis: CostBasis, t: TrajectoryMetrics) -> u64 {
    match basis {
        CostBasis::Occupancy { .. } => t.run_duration_ns,
        CostBasis::Energy { .. } => t.total_energy_mj,
    }
}

/// What a basis prices of the run outside any kept step.
pub open spec fn residual_quantity(basis: CostBasis, t: TrajectoryMetrics) -> u64 {
    match basis {
        CostBasis::Occupancy { .. } => t.unattributed_duration_ns,
        CostBasis::Energy { .. } => t.unattributed_energy_mj,
    }
}

/// A cost spread over tokens, per million of them.
pub open spec fn per_million(usd: Binary64, tokens: u64) -> Binary64 {
    usd.times(integer(1_000_000)).over(integer(tokens as nat))
}

/// The cost of one step.
pub open spec fn step_cost(basis: CostBasis, step: StepMetrics) -> StepCost {
    let usd = price(basis, quantity_of(basis, step));
    StepCost {
        step_id: step.step_id,
        kind: step.kind,
        usd,
        usd_per_million_tokens: match (step.kind, step.generation_tokens_delta) {
            (StepKind::LlmCall, Some(tokens)) => if tokens > 0 {
                Some(per_million(usd, tokens))
            } else {
                None
            },
            _ => None,
        },
    }
}

/// The costs of the steps, added up from the first.
pub open spec fn total(costs: Seq<StepCost>) -> Binary64
    decreases costs.len(),
{
    if costs.len() == 0 {
        integer(0)
    } else {
        total(costs.drop_last()).plus(costs.last().usd)
    }
}

/// The steps of one kind.
pub open spec fn of_kind(costs: Seq<StepCost>, kind: StepKind) -> Seq<StepCost>
    decreases costs.len(),
{
    if costs.len() == 0 {
        Seq::empty()
    } else {
        let before = of_kind(costs.drop_last(), kind);
        if costs.last().kind == kind {
            before.push(costs.last())
        } else {
            before
        }
    }
}

/// The costs of all steps.
pub open spec fn step_costs(basis: CostBasis, steps: Seq<StepMetrics>) -> Seq<StepCost> {
    Seq::new(steps.len(), |i: int| step_cost(basis, steps[i]))
}

/// Whether `c` is the cost of a trajectory on a basis.
pub open spec fn is_cost_of(c: TrajectoryCost, t: TrajectoryMetrics, basis: CostBasis) -> bool {
    let costs = step_costs(basis, t.steps@);
    &&& c.basis == basis
    &&& c.steps@ == costs
    &&& c.run_usd == price(basis, run_quantity(basis, t))
    &&& c.unattributed_usd == price(basis, residual_quantity(basis, t))
    &&& c.attributed_usd == total(costs)
    &&& c.llm_usd == total(of_kind(costs, StepKind::LlmCall))
    &&& c.tool_usd == total(of_kind(costs, StepKind::Tool))
    &&& c.trajectory_usd_per_million_tokens == if t.total_generation_tokens > 0 {
        Some(per_million(c.run_usd, t.total_generation_tokens))
    } else {
        None
    }
}

/// Whether the run figures of a cost are within the range that pricing gives.
pub open spec fn is_priced(cost: TrajectoryCost) -> bool {
    cost.run_usd.within(1500) && cost.unattributed_usd.within(1500)
}

/// Whether a rate is within the range of double precision.
pub open spec fn is_rate(basis: CostBasis) -> bool {
    rate_of(basis).within(1200)
}

/// A value that a price can have.
spec fn is_price(value: Binary64) -> bool {
    value.within(1500)
}

fn priced(basis: CostBasis, quantity: u64) -> (usd: Binary64)
    requires
        is_rate(basis),
    ensures
        usd == price(basis, quantity),
        is_price(usd),
{
    let (rate, unit) = match basis {
        CostBasis::Occupancy { usd_per_hour } => (usd_per_hour, NS_PER_HOUR),
        CostBasis::Energy { usd_per_kwh } => (usd_per_kwh, MJ_PER_KWH),
    };
    rate.product(Binary64::from_u64(quantity)).quotient(Binary64::from_u64(unit))
}

fn priced_per_million(usd: Binary64, tokens: u64) -> (r: Binary64)
    requires
        is_price(usd),
        tokens > 0,
    ensures
        r == per_million(usd, tokens),
{
    usd.product(Binary64::from_u64(1_000_000)).quotient(Binary64::from_u64(tokens))
}

fn cost_of_step(basis: CostBasis, step: &StepMetrics) -> (cost: StepCost)
    requires
        is_rate(basis),
    ensures
        cost == step_cost(basis, *step),
        is_price(cost.usd),
{
    let quantity: u64 = match basis {
        CostBasis::Occupancy { .. } => step.end_elapsed_ns.saturating_sub(step.start_elapsed_ns),
        CostBasis::Energy { .. } => step.energy_mj,
    };
    let usd: Binary64 = priced(basis, quantity);
    let usd_per_million_tokens: Option<Binary64> = match (
        step.kind,
        step.generation_tokens_delta,
    ) {
        (StepKind::LlmCall, Some(tokens)) => {
            if tokens > 0 {
                Some(priced_per_million(usd, tokens))
            } else {
                None
            }
        },
        _ => None,
    };
    StepCost { step_id: step.step_id, kind: step.kind, usd, usd_per_million_tokens }
}

/// A running total of prices.
spec fn is_total(value: Binary64, count: nat) -> bool {
    &&& value.within(1600)
    &&& value.num() <= count * scale(1600)
}

fn add_price(sum: Binary64, term: Binary64, Ghost(count): Ghost<nat>) -> (r: Binary64)
    requires
        is_total(sum, count),
        is_price(term),
        count <= u32::MAX,
    ensures
        r == sum.plus(term),
        is_total(r, count + 1),
{
    let r: Binary64 = sum.sum(term);
    proof {
        lemma_value_bound(term, 1600);
        lemma_total_bounded(sum, term, count, 1600);
    }
    r
}

/// More terms only widen the bound of a total.
proof fn lemma_total_widens(value: Binary64, count: nat)
    requires
        is_total(value, count),
    ensures
        is_total(value, count + 1),
{
    assert(count * scale(1600) <= (count + 1) * scale(1600)) by (nonlinear_arith)
        requires
            scale(1600) >= 0,
    ;
}

/// The cost of a trajectory at a declared rate. `None` where the basis has
/// nothing to price: a run of no length, or no measured energy. What was not
/// measured is withheld, not priced at zero.
pub fn derive_cost(t: &TrajectoryMetrics, basis: CostBasis) -> (cost: Option<TrajectoryCost>)
    requires
        is_rate(basis),
        t.steps@.len() <= u32::MAX,
    ensures
        cost is Some <==> run_quantity(basis, *t) > 0,
        cost matches Some(c) ==> is_cost_of(c, *t, basis) && is_priced(c),
{
    let (whole, residual) = match basis {
        CostBasis::Occupancy { .. } => (t.run_duration_ns, t.unattributed_duration_ns),
        CostBasis::Energy { .. } => (t.total_energy_mj, t.unattributed_energy_mj),
    };
    if whole == 0 {
        return None;
    }
    let mut steps: Vec<StepCost> = Vec::new();
    let mut attributed_usd: Binary64 = Binary64::from_u64(0);
    let mut llm_usd: Binary64 = Binary64::from_u64(0);
    let mut tool_usd: Binary64 = Binary64::from_u64(0);
    let mut i: usize = 0;
    let ghost costs = step_costs(basis, t.steps@);
    proof {
        assert(costs.take(0) =~= Seq::empty());
        assert(attributed_usd.num() == 0) by (nonlinear_arith)
            requires
                attributed_usd.num() == 0 * scale(0),
        ;
        assert(0 * scale(1600) == 0) by (nonlinear_arith);
    }
    while i < t.steps.len()
        invariant
            i <= t.steps@.len() <= u32::MAX,
            is_rate(basis),
            costs == step_costs(basis, t.steps@),
            steps@ == costs.take(i as int),
            attributed_usd == total(costs.take(i as int)),
            llm_usd == total(of_kind(costs.take(i as int), StepKind::LlmCall)),
            tool_usd == total(of_kind(costs.take(i as int), StepKind::Tool)),
            is_total(attributed_usd, i as nat),
            is_total(llm_usd, i as nat),
            is_total(tool_usd, i as nat),
        decreases t.steps@.len() - i,
    {
        let cost: StepCost = cost_of_step(basis, &t.steps[i]);
        let ghost before = costs.take(i as int);
        let ghost now = costs.take(i + 1);
        proof {
            assert(now.drop_last() =~= before);
            assert(now.last() == cost);
            assert(now =~= before.push(cost));
            lemma_total_widens(llm_usd, i as nat);
            lemma_total_widens(tool_usd, i as nat);
            let llm = of_kind(before, StepKind::LlmCall);
            let tool = of_kind(before, StepKind::Tool);
            assert(llm.push(cost).drop_last() =~= llm);
            assert(tool.push(cost).drop_last() =~= tool);
        }
        attributed_usd = add_price(attributed_usd, cost.usd, Ghost(i as nat));
        match cost.kind {
            StepKind::LlmCall => {
                llm_usd = add_price(llm_usd, cost.usd, Ghost(i as nat));
            },
            StepKind::Tool => {
                tool_usd = add_price(tool_usd, cost.usd, Ghost(i as nat));
            },
        }
        steps.push(cost);
        i += 1;
    }
    assert(costs.take(i as int) =~= costs);
    let run_usd: Binary64 = priced(basis, whole);
    let unattributed_usd: Binary64 = priced(basis, residual);
    let trajectory_usd_per_million_tokens: Option<Binary64> = if t.total_generation_tokens > 0 {
        Some(priced_per_million(run_usd, t.total_generation_tokens))
    } else {
        None
    };
    Some(
        TrajectoryCost {
            basis,
            run_usd,
            attributed_usd,
            llm_usd,
            tool_usd,
            unattributed_usd,
            steps,
            trajectory_usd_per_million_tokens,
        },
    )
}

/// Every step counts toward exactly one kind.
pub proof fn law_kinds_partition_the_steps(costs: Seq<StepCost>)
    ensures
        of_kind(costs, StepKind::LlmCall).to_multiset().add(
            of_kind(costs, StepKind::Tool).to_multiset(),
        ) =~= costs.to_multiset(),
    decreases costs.len(),
{
    broadcast use vstd::seq_lib::group_to_multiset_ensures;

    if costs.len() > 0 {
        law_kinds_partition_the_steps(costs.drop_last());
        let llm = of_kind(costs.drop_last(), StepKind::LlmCall);
        let tool = of_kind(costs.drop_last(), StepKind::Tool);
        assert(costs.drop_last().push(costs.last()) =~= costs);
        assert(llm.push(costs.last()).to_multiset() =~= llm.to_multiset().insert(costs.last()));
        assert(tool.push(costs.last()).to_multiset() =~= tool.to_multiset().insert(costs.last()));
    } else {
        assert(costs =~= Seq::empty());
    }
}

/// The costs of the steps, added up without rounding: the numerator over the
/// denominator that all values share.
pub open spec fn exact_total(costs: Seq<StepCost>) -> nat
    decreases costs.len(),
{
    if costs.len() == 0 {
        0
    } else {
        exact_total(costs.drop_last()) + costs.last().usd.num()
    }
}

/// Whether adding up the costs never rounds.
pub open spec fn adds_exactly(costs: Seq<StepCost>) -> bool
    decreases costs.len(),
{
    if costs.len() == 0 {
        true
    } else {
        &&& adds_exactly(costs.drop_last())
        &&& total(costs).num() == total(costs.drop_last()).num() + costs.last().usd.num()
    }
}

proof fn lemma_adds_exactly(costs: Seq<StepCost>)
    requires
        adds_exactly(costs),
    ensures
        total(costs).num() == exact_total(costs),
    decreases costs.len(),
{
    if costs.len() == 0 {
        assert(integer(0).num() == 0) by (nonlinear_arith)
            requires
                integer(0).num() == 0 * scale(0),
        ;
    } else {
        lemma_adds_exactly(costs.drop_last());
    }
}

/// LLM calls and tools carry the attributed cost between them: the sums agree
/// before any rounding, and so do the rounded ones wherever adding up needs
/// none.
pub proof fn law_kinds_carry_the_attributed_cost(costs: Seq<StepCost>)
    ensures
        exact_total(of_kind(costs, StepKind::LlmCall)) + exact_total(
            of_kind(costs, StepKind::Tool),
        ) == exact_total(costs),
        adds_exactly(costs) && adds_exactly(of_kind(costs, StepKind::LlmCall)) && adds_exactly(
            of_kind(costs, StepKind::Tool),
        ) ==> total(of_kind(costs, StepKind::LlmCall)).num() + total(
            of_kind(costs, StepKind::Tool),
        ).num() == total(costs).num(),
    decreases costs.len(),
{
    let llm = of_kind(costs, StepKind::LlmCall);
    let tool = of_kind(costs, StepKind::Tool);
    if costs.len() > 0 {
        let rest = costs.drop_last();
        law_kinds_carry_the_attributed_cost(rest);
        if costs.last().kind == StepKind::LlmCall {
            assert(llm.drop_last() =~= of_kind(rest, StepKind::LlmCall));
        } else {
            assert(tool.drop_last() =~= of_kind(rest, StepKind::Tool));
        }
    }
    if adds_exactly(costs) && adds_exactly(llm) && adds_exactly(tool) {
        lemma_adds_exactly(costs);
        lemma_adds_exactly(llm);
        lemma_adds_exactly(tool);
    }
}

/// Where all steps are of one kind, that kind carries the whole attributed
/// cost and the other carries none.
pub proof fn law_single_kind_carries_all(costs: Seq<StepCost>, kind: StepKind, other: StepKind)
    requires
        kind != other,
        forall|i: int| 0 <= i < costs.len() ==> (#[trigger] costs[i]).kind == kind,
    ensures
        total(of_kind(costs, kind)) == total(costs),
        total(of_kind(costs, other)) == integer(0),
{
    lemma_single_kind(costs, kind, other);
}

proof fn lemma_single_kind(costs: Seq<StepCost>, kind: StepKind, other: StepKind)
    requires
        kind != other,
        forall|i: int| 0 <= i < costs.len() ==> (#[trigger] costs[i]).kind == kind,
    ensures
        of_kind(costs, kind) == costs,
        of_kind(costs, other) == Seq::<StepCost>::empty(),
    decreases costs.len(),
{
    if costs.len() > 0 {
        assert forall|i: int| 0 <= i < costs.drop_last().len() implies (
        #[trigger] costs.drop_last()[i]).kind == kind by {
            assert(costs.drop_last()[i] == costs[i]);
        }
        lemma_single_kind(costs.drop_last(), kind, other);
        assert(costs.last() == costs[costs.len() - 1]);
        assert(costs.drop_last().push(costs.last()) =~= costs);
    } else {
        assert(costs =~= Seq::empty());
    }
}

/// A step has a price per token exactly where it is an LLM call that generated
/// tokens: no tokens is no price per token, not a price of zero.
pub proof fn law_no_tokens_no_price_per_token(basis: CostBasis, step: StepMetrics)
    ensures
        step_cost(basis, step).usd_per_million_tokens is Some <==> step.kind is LlmCall
            && step.generation_tokens_delta is Some && step.generation_tokens_delta->0 > 0,
{
}

/// A figure is no rounding away from itself.
proof fn lemma_own(x: Binary64)
    ensures
        is_near(x, x.num(), x.den(), 0),
{
    lemma_near_equal(x.num(), x.den(), x.num(), x.den());
}

/// A price is the rate times the quantity, over the quantity that the rate is
/// asked for, up to a few roundings.
proof fn lemma_price_near(basis: CostBasis, quantity: u64)
    requires
        is_rate(basis),
    ensures
        is_near(
            price(basis, quantity),
            rate_of(basis).num() * quantity as nat,
            rate_of(basis).den() * unit_of(basis),
            4,
        ),
        price(basis, quantity).within(1500),
{
    let rate = rate_of(basis);
    let q = quantity as nat;
    let u = unit_of(basis);
    lemma_own(rate);
    lemma_integer_near(q);
    lemma_integer_near(u);
    lemma_times_near(rate, 1200, rate.num(), rate.den(), 0, integer(q), 64, q, 1, 1);
    let x = rate.times(integer(q));
    let (a, b) = (rate.num() * q, rate.den());
    assert(b * 1 == b && a * 1 == a) by (nonlinear_arith);
    lemma_over_near(x, 1324, a, b, 2, integer(u), 64, u, 1, 1);
}

/// A price per million tokens, times the tokens, is a million times the price,
/// up to a few roundings.
proof fn lemma_per_million_near(usd: Binary64, tokens: u64)
    requires
        usd.within(1500),
        tokens > 0,
    ensures
        is_near(per_million(usd, tokens), usd.num() * 1_000_000, usd.den() * tokens as nat, 4),
{
    let n = tokens as nat;
    lemma_own(usd);
    lemma_integer_near(1_000_000);
    lemma_integer_near(n);
    lemma_times_near(
        usd,
        1500,
        usd.num(),
        usd.den(),
        0,
        integer(1_000_000),
        64,
        1_000_000,
        1,
        1,
    );
    let (a, b) = (usd.num() * 1_000_000, usd.den());
    assert(b * 1 == b && a * 1 == a) by (nonlinear_arith);
    lemma_over_near(usd.times(integer(1_000_000)), 1624, a, b, 2, integer(n), 64, n, 1, 1);
}

/// A step costs the rate times what the basis prices of it, up to a few
/// roundings: hours of its window at a price per hour, kilowatt-hours of its
/// energy at a price per kilowatt-hour. Its price per million tokens times its
/// tokens is a million times its cost, up to a few roundings.
pub proof fn law_step_is_priced_at_the_rate(basis: CostBasis, step: StepMetrics)
    requires
        is_rate(basis),
        step.start_elapsed_ns <= step.end_elapsed_ns,
    ensures
        ({
            let cost = step_cost(basis, step);
            &&& cost.step_id == step.step_id
            &&& cost.kind == step.kind
            &&& match basis {
                CostBasis::Occupancy { usd_per_hour } => is_near(
                    cost.usd,
                    usd_per_hour.num() * (step.end_elapsed_ns - step.start_elapsed_ns) as nat,
                    usd_per_hour.den() * 3_600_000_000_000,
                    4,
                ),
                CostBasis::Energy { usd_per_kwh } => is_near(
                    cost.usd,
                    usd_per_kwh.num() * step.energy_mj as nat,
                    usd_per_kwh.den() * 3_600_000_000,
                    4,
                ),
            }
            &&& cost.usd_per_million_tokens matches Some(v) ==> is_near(
                v,
                cost.usd.num() * 1_000_000,
                cost.usd.den() * step.generation_tokens_delta->0 as nat,
                4,
            )
        }),
{
    let q = quantity_of(basis, step);
    lemma_price_near(basis, q);
    let cost = step_cost(basis, step);
    if cost.usd_per_million_tokens is Some {
        lemma_per_million_near(cost.usd, step.generation_tokens_delta->0);
    }
}

/// The run, and what of it lies outside any step, cost the rate times what the
/// basis prices of them, up to a few roundings; the price per million tokens
/// times the tokens of the run is a million times the cost of the run.
pub proof fn law_run_is_priced_at_the_rate(c: TrajectoryCost, t: TrajectoryMetrics, basis: CostBasis)
    requires
        is_rate(basis),
        is_cost_of(c, t, basis),
    ensures
        c.basis == basis,
        c.steps@.len() == t.steps@.len(),
        forall|i: int|
            0 <= i < t.steps@.len() ==> #[trigger] c.steps@[i] == step_cost(basis, t.steps@[i]),
        match basis {
            CostBasis::Occupancy { usd_per_hour } => {
                let (a, b) = (usd_per_hour.num(), usd_per_hour.den() * 3_600_000_000_000);
                &&& is_near(c.run_usd, a * t.run_duration_ns as nat, b, 4)
                &&& is_near(c.unattributed_usd, a * t.unattributed_duration_ns as nat, b, 4)
            },
            CostBasis::Energy { usd_per_kwh } => {
                let (a, b) = (usd_per_kwh.num(), usd_per_kwh.den() * 3_600_000_000);
                &&& is_near(c.run_usd, a * t.total_energy_mj as nat, b, 4)
                &&& is_near(c.unattributed_usd, a * t.unattributed_energy_mj as nat, b, 4)
            },
        },
        c.trajectory_usd_per_million_tokens is Some <==> t.total_generation_tokens > 0,
        c.trajectory_usd_per_million_tokens matches Some(v) ==> is_near(
            v,
            c.run_usd.num() * 1_000_000,
            c.run_usd.den() * t.total_generation_tokens as nat,
            4,
        ),
{
    lemma_price_near(basis, run_quantity(basis, t));
    lemma_price_near(basis, residual_quantity(basis, t));
    if t.total_generation_tokens > 0 {
        lemma_per_million_near(c.run_usd, t.total_generation_tokens);
    }
}

/// A step that is the whole run, with all its energy and tokens, costs what the
/// run costs, and as much per million tokens.
pub proof fn law_whole_run_step_costs_the_run(
    c: TrajectoryCost,
    t: TrajectoryMetrics,
    basis: CostBasis,
    i: int,
)
    requires
        is_cost_of(c, t, basis),
        0 <= i < t.steps@.len(),
        t.steps@[i].kind == StepKind::LlmCall,
        t.steps@[i].start_elapsed_ns <= t.steps@[i].end_elapsed_ns,
        t.steps@[i].end_elapsed_ns - t.steps@[i].start_elapsed_ns == t.run_duration_ns,
        t.steps@[i].energy_mj == t.total_energy_mj,
        t.steps@[i].generation_tokens_delta == Some(t.total_generation_tokens),
    ensures
        c.steps@[i].usd == c.run_usd,
        c.steps@[i].usd_per_million_tokens == c.trajectory_usd_per_million_tokens,
{
    assert(c.steps@[i] == step_cost(basis, t.steps@[i]));
}

/// The costs of steps, exactly, over the denominator that all values share.
pub open spec fn exact_costs(costs: Seq<StepCost>) -> Seq<nat> {
    costs.map_values(|c: StepCost| c.usd.num())
}

proof fn lemma_total_near(costs: Seq<StepCost>)
    requires
        costs.len() <= u32::MAX,
        forall|i: int| 0 <= i < costs.len() ==> (#[trigger] costs[i]).usd.within(1500),
    ensures
        is_total(total(costs), costs.len()),
        is_near(total(costs), stats::total(exact_costs(costs)), scale(0), costs.len()),
    decreases costs.len(),
{
    if costs.len() == 0 {
        let x = integer(0);
        assert(x.num() == 0) by (nonlinear_arith)
            requires
                x.num() == 0 * scale(0),
        ;
        assert(0 * scale(1600) == 0 && 0 * scale(0) == 0) by (nonlinear_arith);
        lemma_near_equal(0, scale(0), 0, scale(0));
    } else {
        let rest = costs.drop_last();
        let n = rest.len();
        let term = costs.last().usd;
        assert(costs[costs.len() - 1].usd.within(1500));
        assert forall|i: int| 0 <= i < rest.len() implies (#[trigger] rest[i]).usd.within(
            1500,
        ) by {
            assert(rest[i] == costs[i]);
        }
        lemma_total_near(rest);
        assert(exact_costs(costs).drop_last() =~= exact_costs(rest));
        lemma_own(term);
        lemma_near_widens(term.num(), term.den(), term.num(), scale(0), 0, n);
        lemma_plus_near(
            total(rest),
            term,
            1600,
            stats::total(exact_costs(rest)),
            term.num(),
            scale(0),
            n,
        );
        lemma_value_bound(term, 1600);
        lemma_total_bounded(total(rest), term, n, 1600);
    }
}

/// The costs of the steps add up: to the attributed cost over all of them, to
/// the cost of a kind over those of that kind, each up to one rounding a step.
pub proof fn law_step_costs_add_up(c: TrajectoryCost, t: TrajectoryMetrics, basis: CostBasis)
    requires
        is_rate(basis),
        t.steps@.len() <= u32::MAX,
        is_cost_of(c, t, basis),
    ensures
        is_near(
            c.attributed_usd,
            stats::total(c.steps@.map_values(|s: StepCost| s.usd.num())),
            scale(0),
            c.steps@.len(),
        ),
        is_near(
            c.llm_usd,
            stats::total(
                c.steps@.map_values(
                    |s: StepCost|
                        if s.kind is LlmCall {
                            s.usd.num()
                        } else {
                            0
                        },
                ),
            ),
            scale(0),
            c.steps@.len(),
        ),
        is_near(
            c.tool_usd,
            stats::total(
                c.steps@.map_values(
                    |s: StepCost|
                        if s.kind is Tool {
                            s.usd.num()
                        } else {
                            0
                        },
                ),
            ),
            scale(0),
            c.steps@.len(),
        ),
{
    let costs = c.steps@;
    assert forall|i: int| 0 <= i < costs.len() implies (#[trigger] costs[i]).usd.within(1500) by {
        lemma_price_near(basis, quantity_of(basis, t.steps@[i]));
    }
    lemma_total_near(costs);
    assert(exact_costs(costs) =~= costs.map_values(|s: StepCost| s.usd.num()));
    let all = |s: StepCost|
        if s.kind is LlmCall {
            s.usd.num()
        } else {
            0
        };
    let others = |s: StepCost|
        if s.kind is Tool {
            s.usd.num()
        } else {
            0
        };
    lemma_kind_sum(costs, StepKind::LlmCall, all);
    lemma_kind_sum(costs, StepKind::Tool, others);
    let llm = of_kind(costs, StepKind::LlmCall);
    let tool = of_kind(costs, StepKind::Tool);
    lemma_total_near(llm);
    lemma_total_near(tool);
    let (x, y) = (total(llm), total(tool));
    lemma_near_widens(
        x.num(),
        x.den(),
        stats::total(exact_costs(llm)),
        scale(0),
        llm.len(),
        costs.len(),
    );
    lemma_near_widens(
        y.num(),
        y.den(),
        stats::total(exact_costs(tool)),
        scale(0),
        tool.len(),
        costs.len(),
    );
}

proof fn lemma_kind_sum(costs: Seq<StepCost>, kind: StepKind, counted: spec_fn(StepCost) -> nat)
    requires
        forall|i: int| 0 <= i < costs.len() ==> (#[trigger] costs[i]).usd.within(1500),
        forall|s: StepCost|
            #[trigger] counted(s) == if s.kind == kind {
                s.usd.num()
            } else {
                0
            },
    ensures
        of_kind(costs, kind).len() <= costs.len(),
        forall|i: int|
            0 <= i < of_kind(costs, kind).len() ==> (#[trigger] of_kind(
                costs,
                kind,
            )[i]).usd.within(1500),
        stats::total(exact_costs(of_kind(costs, kind))) == stats::total(costs.map_values(counted)),
    decreases costs.len(),
{
    if costs.len() > 0 {
        let rest = costs.drop_last();
        assert forall|i: int| 0 <= i < rest.len() implies (#[trigger] rest[i]).usd.within(
            1500,
        ) by {
            assert(rest[i] == costs[i]);
        }
        lemma_kind_sum(rest, kind, counted);
        assert(costs[costs.len() - 1].usd.within(1500));
        assert(costs.map_values(counted).drop_last() =~= rest.map_values(counted));
        let before = of_kind(rest, kind);
        let now = of_kind(costs, kind);
        if costs.last().kind == kind {
            assert(exact_costs(now).drop_last() =~= exact_costs(before));
        }
    }
}

} // verus!
