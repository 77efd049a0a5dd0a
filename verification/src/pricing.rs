//! Pricing an archived report: the declared rate, the derivation, and the
//! result as text.
use vstd::arithmetic::power2::{
    lemma2_to64, lemma2_to64_rest, lemma_pow2_adds, lemma_pow2_pos, pow2,
};
use vstd::prelude::*;
use vstd::string::*;

use crate::accuracy::{
    above, below, is_near, lemma_integer_near, lemma_near_equal, lemma_near_same, lemma_over_near,
    lemma_times_near,
};
use crate::binary64::{fixed_point, integer, lemma_scale_adds, scale, Binary64};
use crate::cost::{
    derive_cost, is_cost_of, is_priced, is_rate, run_quantity, CostBasis, StepCost,
    TrajectoryCost,
};
use crate::render::{
    align_left, align_right, decimal, fixed, left_aligned, lemma_shows_behind, lemma_shows_first,
    lemma_shows_itself, lemma_shows_last, lemma_shows_more, right_aligned, shows,
};
use crate::steps::StepKind;
use crate::text::digits;
use crate::trajectory::TrajectoryMetrics;

verus! {

/// A rate as declared: a double-precision number by its bits, and as it is
/// shown.
#[derive(Debug, Clone, PartialEq, Eq)]
pub struct DeclaredRate {
    /// The bits of the number: sign, eleven bits of exponent, 52 of fraction.
    pub bits: u64,
    /// The number in words.
    pub shown: String,
}

/// The exponent field of a double.
pub open spec fn exponent_field(bits: u64) -> int {
    (bits / 0x10_0000_0000_0000) as int % 2048
}

/// Whether a double is a number and not infinite.
pub open spec fn is_finite(bits: u64) -> bool {
    exponent_field(bits) != 2047
}

/// The significand of a double.
pub open spec fn significand(bits: u64) -> nat {
    let fraction = (bits % 0x10_0000_0000_0000) as nat;
    if exponent_field(bits) == 0 {
        fraction
    } else {
        fraction + 0x10_0000_0000_0000
    }
}

/// The power of two that scales the significand of a double.
pub open spec fn power(bits: u64) -> int {
    if exponent_field(bits) == 0 {
        -1074
    } else {
        exponent_field(bits) - 1075
    }
}

/// Whether a double is greater than zero.
pub open spec fn is_positive(bits: u64) -> bool {
    bits < 0x8000_0000_0000_0000 && significand(bits) > 0
}

/// Whether `value` is the double with these bits.
pub open spec fn is_value_of(value: Binary64, bits: u64) -> bool {
    value.within(1200) && value.num() == significand(bits) * scale(power(bits))
}

/// The value of a positive finite double.
fn value_of(bits: u64) -> (value: Binary64)
    requires
        is_finite(bits),
        is_positive(bits),
    ensures
        is_value_of(value, bits),
{
    let field: u64 = (bits / 0x10_0000_0000_0000) % 2048;
    let fraction: u64 = bits % 0x10_0000_0000_0000;
    if field > 0 {
        return Binary64 {
            mantissa: fraction + 0x10_0000_0000_0000,
            exponent: field as i32 - 1075,
        };
    }
    let mut mantissa: u64 = fraction;
    let mut exponent: i32 = -1074;
    proof {
        lemma2_to64();
    }
    while mantissa < 0x10_0000_0000_0000
        invariant
            0 < mantissa < 0x20_0000_0000_0000,
            -1126 <= exponent <= -1074,
            pow2((-1074 - exponent) as nat) <= mantissa,
            mantissa as nat * scale(exponent as int) == fraction as nat * scale(-1074),
        decreases 0x20_0000_0000_0000 - mantissa,
    {
        proof {
            let steps = (-1074 - exponent) as nat;
            lemma2_to64();
            lemma2_to64_rest();
            lemma_pow2_adds(steps, 1);
            if steps >= 52 {
                lemma_pow2_adds(52, (steps - 52) as nat);
                lemma_pow2_pos((steps - 52) as nat);
                assert(pow2(52) * pow2((steps - 52) as nat) >= pow2(52)) by (nonlinear_arith)
                    requires
                        pow2((steps - 52) as nat) >= 1,
                        pow2(52) >= 0,
                ;
            }
            lemma_scale_adds(exponent - 1, 1);
            let m = mantissa as nat;
            let low = scale(exponent - 1);
            assert((m * 2) * low == m * (low * 2)) by (nonlinear_arith);
        }
        mantissa = mantissa * 2;
        exponent = exponent - 1;
    }
    Binary64 { mantissa, exponent }
}

/// Checks a declared rate: it has to be finite and greater than zero.
pub fn checked_rate(rate: &DeclaredRate, flag: &str) -> (r: Result<Binary64, String>)
    ensures
        if !is_finite(rate.bits) {
            r matches Err(words) && words@ == flag@ + " must be a finite number, got "@
                + rate.shown@
        } else if !is_positive(rate.bits) {
            r matches Err(words) && words@ == flag@ + " must be greater than zero, got "@
                + rate.shown@
        } else {
            r matches Ok(value) && is_value_of(value, rate.bits)
        },
{
    let field: u64 = (rate.bits / 0x10_0000_0000_0000) % 2048;
    if field == 2047 {
        let mut words: String = String::from_str(flag);
        words.append(" must be a finite number, got ");
        words.append(&rate.shown);
        return Err(words);
    }
    if rate.bits >= 0x8000_0000_0000_0000 || rate.bits == 0 {
        let mut words: String = String::from_str(flag);
        words.append(" must be greater than zero, got ");
        words.append(&rate.shown);
        return Err(words);
    }
    assert(significand(rate.bits) > 0) by {
        if exponent_field(rate.bits) == 0 {
            assert(rate.bits / 0x10_0000_0000_0000 < 2048);
            assert(rate.bits < 0x10_0000_0000_0000);
        }
    }
    Ok(value_of(rate.bits))
}

/// The basis that the declared rates select: exactly one has to be given.
pub fn cost_basis(
    usd_per_hour: Option<DeclaredRate>,
    usd_per_kwh: Option<DeclaredRate>,
) -> (r: Result<CostBasis, String>)
    ensures
        r matches Ok(basis) ==> is_rate(basis),
        match (usd_per_hour, usd_per_kwh) {
            (Some(rate), None) => if is_finite(rate.bits) && is_positive(rate.bits) {
                r matches Ok(CostBasis::Occupancy { usd_per_hour: value }) && is_value_of(
                    value,
                    rate.bits,
                )
            } else {
                r matches Err(words) && words@ == if !is_finite(rate.bits) {
                    "--usd-per-hour"@ + " must be a finite number, got "@ + rate.shown@
                } else {
                    "--usd-per-hour"@ + " must be greater than zero, got "@ + rate.shown@
                }
            },
            (None, Some(rate)) => if is_finite(rate.bits) && is_positive(rate.bits) {
                r matches Ok(CostBasis::Energy { usd_per_kwh: value }) && is_value_of(
                    value,
                    rate.bits,
                )
            } else {
                r matches Err(words) && words@ == if !is_finite(rate.bits) {
                    "--usd-per-kwh"@ + " must be a finite number, got "@ + rate.shown@
                } else {
                    "--usd-per-kwh"@ + " must be greater than zero, got "@ + rate.shown@
                }
            },
            _ => r matches Err(words) && words@ == "exactly one rate must be given"@,
        },
{
    match (usd_per_hour, usd_per_kwh) {
        (Some(rate), None) => match checked_rate(&rate, "--usd-per-hour") {
            Ok(usd_per_hour) => Ok(CostBasis::Occupancy { usd_per_hour }),
            Err(words) => Err(words),
        },
        (None, Some(rate)) => match checked_rate(&rate, "--usd-per-kwh") {
            Ok(usd_per_kwh) => Ok(CostBasis::Energy { usd_per_kwh }),
            Err(words) => Err(words),
        },
        _ => Err(String::from_str("exactly one rate must be given")),
    }
}

// ---------------------------------------------------------------------------
// The result as text.
// ---------------------------------------------------------------------------

/// The rate of a basis in words.
pub open spec fn rate_text(basis: CostBasis) -> Seq<char> {
    match basis {
        CostBasis::Occupancy { usd_per_hour } => "$"@ + fixed_point(usd_per_hour, 4) + "/hour"@,
        CostBasis::Energy { usd_per_kwh } => "$"@ + fixed_point(usd_per_kwh, 4) + "/kWh"@,
    }
}

fn format_rate(basis: CostBasis) -> (s: String)
    ensures
        s@ == rate_text(basis),
{
    let mut s: String = String::from_str("$");
    match basis {
        CostBasis::Occupancy { usd_per_hour } => {
            s.append(&fixed(usd_per_hour, 4));
            s.append("/hour");
        },
        CostBasis::Energy { usd_per_kwh } => {
            s.append(&fixed(usd_per_kwh, 4));
            s.append("/kWh");
        },
    }
    s
}

/// A basis in words.
pub open spec fn basis_text(basis: CostBasis) -> Seq<char> {
    match basis {
        CostBasis::Occupancy {
            ..
        } => "occupancy (node rented by wall-clock time; energy already priced in)"@,
        CostBasis::Energy {
            ..
        } => "energy (hardware owned; electricity metered separately)"@,
    }
}

/// The share of a run that lies outside any kept step, in percent.
pub open spec fn residual_percent(cost: TrajectoryCost) -> Binary64 {
    if cost.run_usd.mantissa > 0 {
        integer(100).times(cost.unattributed_usd).over(cost.run_usd)
    } else {
        integer(0)
    }
}

/// What precedes the steps.
pub open spec fn cost_head(cost: TrajectoryCost) -> Seq<char> {
    let rate = rate_text(cost.basis);
    "=== cost attribution (derived, not measured) ===\nbasis:            "@ + basis_text(cost.basis)
        + "\ndeclared rate:    "@ + rate + "\n\nrun window:       $"@ + fixed_point(cost.run_usd, 6)
        + " at "@ + rate + "\n  attributed:     $"@ + fixed_point(cost.attributed_usd, 6)
        + "\n  unattributed:   $"@ + fixed_point(cost.unattributed_usd, 6) + " ("@ + fixed_point(
        residual_percent(cost),
        1,
    ) + "% of run)\nper M gen tokens: "@ + (match cost.trajectory_usd_per_million_tokens {
        Some(v) => "$"@ + fixed_point(v, 4) + " at "@ + rate + " (over the whole run window)"@,
        None => "withheld (no generation tokens in this run)"@,
    }) + "\n\nper-step ("@ + digits(cost.steps@.len()) + " steps, at "@ + rate + "):\n"@
}

fn render_head(cost: &TrajectoryCost) -> (out: String)
    requires
        is_priced(*cost),
    ensures
        out@ == cost_head(*cost),
{
    let rate: String = format_rate(cost.basis);
    let basis: &str = match cost.basis {
        CostBasis::Occupancy {
            ..
        } => "occupancy (node rented by wall-clock time; energy already priced in)",
        CostBasis::Energy { .. } => "energy (hardware owned; electricity metered separately)",
    };
    let share: Binary64 = if cost.run_usd.mantissa > 0 {
        Binary64::from_u64(100).product(cost.unattributed_usd).quotient(cost.run_usd)
    } else {
        Binary64::from_u64(0)
    };
    let per_token: String = match cost.trajectory_usd_per_million_tokens {
        Some(v) => {
            let mut s: String = String::from_str("$");
            s.append(&fixed(v, 4));
            s.append(" at ");
            s.append(&rate);
            s.append(" (over the whole run window)");
            s
        },
        None => String::from_str("withheld (no generation tokens in this run)"),
    };
    let mut out: String = String::from_str(
        "=== cost attribution (derived, not measured) ===\nbasis:            ",
    );
    out.append(basis);
    out.append("\ndeclared rate:    ");
    out.append(&rate);
    out.append("\n\nrun window:       $");
    out.append(&fixed(cost.run_usd, 6));
    out.append(" at ");
    out.append(&rate);
    out.append("\n  attributed:     $");
    out.append(&fixed(cost.attributed_usd, 6));
    out.append("\n  unattributed:   $");
    out.append(&fixed(cost.unattributed_usd, 6));
    out.append(" (");
    out.append(&fixed(share, 1));
    out.append("% of run)\nper M gen tokens: ");
    out.append(&per_token);
    out.append("\n\nper-step (");
    out.append(&decimal(cost.steps.len() as u64));
    out.append(" steps, at ");
    out.append(&rate);
    out.append("):\n");
    out
}

/// A kind of step in words.
pub open spec fn kind_text(kind: StepKind) -> Seq<char> {
    match kind {
        StepKind::LlmCall => "llmcall"@,
        StepKind::Tool => "tool"@,
    }
}

/// The line of one step.
pub open spec fn step_line(step: StepCost) -> Seq<char> {
    "  step "@ + right_aligned(digits(step.step_id as nat), 4) + "  "@ + left_aligned(
        kind_text(step.kind),
        8,
    ) + "  $"@ + fixed_point(step.usd, 6) + "  "@ + (match step.usd_per_million_tokens {
        Some(v) => "$"@ + fixed_point(v, 4) + "/Mtok"@,
        None => "-"@,
    }) + "\n"@
}

fn render_step(step: &StepCost) -> (out: String)
    ensures
        out@ == step_line(*step),
{
    let kind: &str = match step.kind {
        StepKind::LlmCall => "llmcall",
        StepKind::Tool => "tool",
    };
    let per_token: String = match step.usd_per_million_tokens {
        Some(v) => {
            let mut s: String = String::from_str("$");
            s.append(&fixed(v, 4));
            s.append("/Mtok");
            s
        },
        None => String::from_str("-"),
    };
    let mut out: String = String::from_str("  step ");
    out.append(&align_right(&decimal(step.step_id), 4));
    out.append("  ");
    out.append(&align_left(kind, 8));
    out.append("  $");
    out.append(&fixed(step.usd, 6));
    out.append("  ");
    out.append(&per_token);
    out.append("\n");
    out
}

/// The lines of the steps.
pub open spec fn step_lines(steps: Seq<StepCost>) -> Seq<char>
    decreases steps.len(),
{
    if steps.len() == 0 {
        Seq::empty()
    } else {
        step_lines(steps.drop_last()) + step_line(steps.last())
    }
}

/// The whole text of a cost.
pub open spec fn cost_text(cost: TrajectoryCost) -> Seq<char> {
    cost_head(cost) + step_lines(cost.steps@)
        + "\nSingle-tenant profiling run. The run window is not the invoice:\nprovisioning, model load and post-run idle are billed and are not\nin it (ADR-015 D7).\n"@
}

/// Renders a derived cost. The rate stands with the figures: a price without
/// the rate behind it says nothing.
pub fn render_cost(cost: &TrajectoryCost) -> (out: String)
    requires
        is_priced(*cost),
    ensures
        out@ == cost_text(*cost),
{
    let mut out: String = render_head(cost);
    let mut i: usize = 0;
    proof {
        assert(cost.steps@.take(0) =~= Seq::empty());
        assert(out@ =~= cost_head(*cost) + step_lines(cost.steps@.take(0)));
    }
    while i < cost.steps.len()
        invariant
            i <= cost.steps@.len(),
            out@ == cost_head(*cost) + step_lines(cost.steps@.take(i as int)),
        decreases cost.steps@.len() - i,
    {
        let ghost before = out@;
        out.append(&render_step(&cost.steps[i]));
        proof {
            let now = cost.steps@.take(i + 1);
            assert(now.drop_last() =~= cost.steps@.take(i as int));
            assert(out@ =~= cost_head(*cost) + step_lines(now));
        }
        i += 1;
    }
    assert(cost.steps@.take(i as int) =~= cost.steps@);
    out.append(
        "\nSingle-tenant profiling run. The run window is not the invoice:\nprovisioning, model load and post-run idle are billed and are not\nin it (ADR-015 D7).\n",
    );
    out
}

/// What is said of a report without a trajectory.
pub open spec fn nothing_to_price(path: Seq<char>) -> Seq<char> {
    "report "@ + path
        + " carries no trajectory section: cost is defined per trajectory step (ADR-015), so there is nothing to price. Re-run with --steps-file to produce one."@
}

/// What is said of a trajectory that a basis cannot price.
pub open spec fn not_priceable(path: Seq<char>) -> Seq<char> {
    "report "@ + path
        + " carries a trajectory but no quantity this basis can price: the run duration or the measured energy is zero. A report written before ADR-015 deserializes to a zero run duration and is withheld rather than priced at zero."@
}

/// Prices the trajectory of the report at `path` and renders the result. No
/// trajectory, a trajectory without a quantity to price, and a cost are three
/// outcomes; none of the first two is a cost of zero.
pub fn price_report(trajectory: Option<&TrajectoryMetrics>, basis: CostBasis, path: &str) -> (r:
    Result<String, String>)
    requires
        is_rate(basis),
        trajectory matches Some(t) ==> t.steps@.len() <= u32::MAX,
    ensures
        match trajectory {
            None => r matches Err(words) && words@ == nothing_to_price(path@),
            Some(t) => if run_quantity(basis, *t) == 0 {
                r matches Err(words) && words@ == not_priceable(path@)
            } else {
                r matches Ok(text) && exists|c: TrajectoryCost|
                    is_cost_of(c, *t, basis) && text@ == #[trigger] cost_text(c)
            },
        },
{
    match trajectory {
        None => {
            let mut words: String = String::from_str("report ");
            words.append(path);
            words.append(
                " carries no trajectory section: cost is defined per trajectory step (ADR-015), so there is nothing to price. Re-run with --steps-file to produce one.",
            );
            Err(words)
        },
        Some(t) => match derive_cost(t, basis) {
            None => {
                let mut words: String = String::from_str("report ");
                words.append(path);
                words.append(
                    " carries a trajectory but no quantity this basis can price: the run duration or the measured energy is zero. A report written before ADR-015 deserializes to a zero run duration and is withheld rather than priced at zero.",
                );
                Err(words)
            },
            Some(cost) => Ok(render_cost(&cost)),
        },
    }
}

/// The share outside any step times the cost of the run is a hundred times the
/// cost outside any step, up to a few roundings.
pub proof fn law_residual_is_a_share_of_the_run(cost: TrajectoryCost)
    requires
        is_priced(cost),
        cost.run_usd.mantissa > 0,
    ensures
        is_near(
            residual_percent(cost),
            100 * cost.unattributed_usd.num(),
            cost.run_usd.num(),
            3,
        ),
{
    let (a, b) = (cost.unattributed_usd, cost.run_usd);
    let s0 = scale(0);
    lemma_scale_adds(0, 0);
    lemma_near_equal(a.num(), s0, a.num(), s0);
    lemma_near_equal(b.num(), s0, b.num(), s0);
    lemma_integer_near(100);
    lemma_times_near(integer(100), 64, 100, 1, 1, a, 1500, a.num(), s0, 0);
    let x = integer(100).times(a);
    assert(1 * s0 == s0) by (nonlinear_arith);
    lemma_over_near(x, 1624, 100 * a.num(), s0, 2, b, 1500, b.num(), s0, 0);
    let r = residual_percent(cost);
    let (n, d) = (100 * a.num(), b.num());
    assert(n * s0 == s0 * n) by (nonlinear_arith);
    if a.num() > 0 {
        lemma_scale_adds(b.exponent as int, 0);
        let (m, t) = (b.mantissa as nat, scale(b.exponent as int));
        assert(m * t > 0) by (nonlinear_arith)
            requires
                m > 0,
                t > 0,
        ;
        assert(n * s0 > 0 && s0 * d > 0) by (nonlinear_arith)
            requires
                n > 0,
                d > 0,
                s0 > 0,
        ;
        assert((n * s0) * d == n * (s0 * d)) by (nonlinear_arith);
        lemma_near_same(r.num(), r.den(), n * s0, s0 * d, 3, n, d);
    } else {
        assert(n == 0);
        let (l, h) = (below(3), above(3));
        assert((0 * s0) * r.den() == 0) by (nonlinear_arith);
        let c = s0 * d;
        assert((r.num() * c) * l <= ((0 * s0) * r.den()) * h);
        assert(((0 * s0) * r.den()) * h == 0) by (nonlinear_arith);
        lemma_scale_adds(b.exponent as int, 0);
        let (m, t) = (b.mantissa as nat, scale(b.exponent as int));
        assert(d > 0) by (nonlinear_arith)
            requires
                d == m * t,
                m > 0,
                t > 0,
        ;
        assert(l > 0) by {
            reveal_with_fuel(below, 4);
        }
        assert(r.num() == 0) by (nonlinear_arith)
            requires
                (r.num() * c) * l <= 0,
                c == s0 * d,
                s0 > 0,
                d > 0,
                l > 0,
        ;
        assert((0 * d) * l == 0 && (0 * d) * h == 0) by (nonlinear_arith);
        assert((0 * r.den()) * h == 0 && (0 * r.den()) * l == 0) by (nonlinear_arith);
    }
}

/// Every figure of a cost stands in its text behind its own name, with the rate
/// that it rests on.
pub proof fn law_costs_are_shown_by_name(cost: TrajectoryCost)
    ensures
        shows(cost_head(cost), "\ndeclared rate:    "@ + rate_text(cost.basis)),
        shows(cost_head(cost), "\n\nrun window:       $"@ + fixed_point(cost.run_usd, 6)),
        shows(cost_head(cost), "\n  attributed:     $"@ + fixed_point(cost.attributed_usd, 6)),
        shows(cost_head(cost), "\n  unattributed:   $"@ + fixed_point(cost.unattributed_usd, 6)),
        shows(cost_head(cost), " ("@ + fixed_point(residual_percent(cost), 1)),
        cost.trajectory_usd_per_million_tokens matches Some(v) ==> shows(
            cost_head(cost),
            "% of run)\nper M gen tokens: "@ + ("$"@ + fixed_point(v, 4) + " at "@ + rate_text(
                cost.basis,
            ) + " (over the whole run window)"@),
        ),
        forall|i: int|
            0 <= i < cost.steps@.len() ==> shows(
                cost_text(cost),
                #[trigger] step_line(cost.steps@[i]),
            ),
{
    broadcast use {lemma_shows_last, lemma_shows_first, lemma_shows_more};

    assert forall|i: int| 0 <= i < cost.steps@.len() implies shows(
        cost_text(cost),
        #[trigger] step_line(cost.steps@[i]),
    ) by {
        lemma_step_is_shown(cost.steps@, i);
        lemma_shows_behind(cost_head(cost), step_lines(cost.steps@), step_line(cost.steps@[i]));
    }
}

proof fn lemma_step_is_shown(steps: Seq<StepCost>, i: int)
    requires
        0 <= i < steps.len(),
    ensures
        shows(step_lines(steps), step_line(steps[i])),
    decreases steps.len(),
{
    let rest = steps.drop_last();
    if i == steps.len() - 1 {
        lemma_shows_itself(step_line(steps[i]));
        lemma_shows_behind(step_lines(rest), step_line(steps.last()), step_line(steps[i]));
    } else {
        lemma_step_is_shown(rest, i);
        lemma_shows_more(step_lines(rest), step_line(steps.last()), step_line(steps[i]));
    }
}

/// The line of a step shows its id, its kind, its cost and, where it has one,
/// its price per million tokens.
pub proof fn law_step_lines_show_the_step(step: StepCost)
    ensures
        shows(step_line(step), "  step "@ + right_aligned(digits(step.step_id as nat), 4)),
        shows(step_line(step), "  "@ + left_aligned(kind_text(step.kind), 8)),
        shows(step_line(step), "  $"@ + fixed_point(step.usd, 6)),
        step.usd_per_million_tokens matches Some(v) ==> shows(
            step_line(step),
            "  "@ + ("$"@ + fixed_point(v, 4) + "/Mtok"@),
        ),
        step.usd_per_million_tokens is None ==> shows(step_line(step), "  "@ + "-"@),
{
    broadcast use {lemma_shows_last, lemma_shows_first, lemma_shows_more};

}

/// A double one binade up is twice as large, and one whose fraction is larger by
/// one is larger by one unit of its last place; one is one.
pub proof fn law_rates_follow_their_bits(bits: u64)
    requires
        bits < 0x7fe0_0000_0000_0000,
    ensures
        exponent_field(bits) > 0 ==> significand((bits + 0x10_0000_0000_0000) as u64)
            == significand(bits) && power((bits + 0x10_0000_0000_0000) as u64) == power(bits) + 1,
        (bits + 1) % 0x10_0000_0000_0000 != 0 ==> significand((bits + 1) as u64) == significand(
            bits,
        ) + 1 && power((bits + 1) as u64) == power(bits),
        significand(0x3ff0_0000_0000_0000) == 0x10_0000_0000_0000 && power(0x3ff0_0000_0000_0000)
            == -52,
        is_finite(bits),
        is_positive(bits) <==> bits > 0,
{
}

} // verus!
