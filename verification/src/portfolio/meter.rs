//! The budget meter's work currency, the settlement of an operator call's
//! charge, and the scoped arming of the flags a run needs.
//!
//! The meter never reads a counter or a clock itself: the caller hands it the
//! engine's global work reading, which keeps every decision here a function
//! of its arguments.
use vstd::prelude::*;
use crate::portfolio::kinds::{PlanCalibrationSource, PortfolioBudget, WorkCurrencyMode, WorkMeterArmingReport};
use crate::round_envelope_gate::KernelMode;

verus! {

/// The relative cost of one exact pair test in candidate-query units.
pub const WORK_UNITS_PER_EXACT_PAIR_TEST: u64 = 5;

/// `a + b`, or `u64::MAX` when the sum does not fit.
pub open spec fn saturating_sum(a: int, b: int) -> int {
    if a + b > u64::MAX { u64::MAX as int } else { a + b }
}

/// `a - b`, or zero when `b` is larger.
pub open spec fn saturating_difference(a: int, b: int) -> int {
    if a >= b { a - b } else { 0 }
}

/// The work a counter snapshot stands for: one unit per candidate query and
/// five per exact pair test, saturating at `u64::MAX`.
pub open spec fn work_units_of(candidate_queries: u64, exact_pair_tests: u64) -> int {
    saturating_sum(
        candidate_queries as int,
        if exact_pair_tests as int * WORK_UNITS_PER_EXACT_PAIR_TEST > u64::MAX {
            u64::MAX as int
        } else {
            exact_pair_tests as int * WORK_UNITS_PER_EXACT_PAIR_TEST
        },
    )
}

/// The work units of a snapshot of the candidate-query and exact-pair-test
/// counters.
pub fn work_units_from(candidate_queries: u64, exact_pair_tests: u64) -> (res: u64)
    ensures
        res as int == work_units_of(candidate_queries, exact_pair_tests),
{
    let pair_units = if exact_pair_tests > u64::MAX / WORK_UNITS_PER_EXACT_PAIR_TEST {
        u64::MAX
    } else {
        WORK_UNITS_PER_EXACT_PAIR_TEST * exact_pair_tests
    };
    candidate_queries.saturating_add(pair_units)
}

/// The budget meter's state: the budget it spends, the global work reading
/// it started from, the self-metered units debited on top of it, and the
/// wall the caller asked for, which outlives a plan's replacement by the
/// work budget it calibrated to.
#[derive(Clone, Copy, Debug, PartialEq, Eq, Structural)]
pub struct BudgetMeter {
    pub budget: PortfolioBudget,
    pub work_base: u64,
    pub self_metered_debit: u64,
    pub wall_target: Option<u64>,
}

/// The wall a budget names, in milliseconds: a wall budget's own, or a
/// plan's target. A bare work budget names none.
pub open spec fn named_wall(budget: PortfolioBudget) -> Option<u64> {
    match budget {
        PortfolioBudget::Wall { millis } => Some(millis),
        PortfolioBudget::Plan { target_millis } => Some(target_millis),
        PortfolioBudget::Work { .. } => None,
    }
}

/// What one operator call was charged, and out of what.
#[derive(Clone, Copy, Debug, Default, PartialEq, Eq, Structural)]
pub struct OperatorCharge {
    /// The coordinator's own counter delta across the call.
    pub global_units: u64,
    /// What the operator's own meter charged itself, when it carries one.
    pub self_metered_units: Option<u64>,
    /// What the call added to the meter beyond the global counter.
    pub debited_units: u64,
    /// `global_units + debited_units`: what the call is priced at.
    pub charged_units: u64,
}

impl BudgetMeter {
    /// A meter for `budget`, started at the global work reading `work_base`.
    pub fn new(budget: PortfolioBudget, work_base: u64) -> (res: BudgetMeter)
        ensures
            res.budget == budget,
            res.work_base == work_base,
            res.self_metered_debit == 0,
            res.wall_target == named_wall(budget),
    {
        let wall_target = match budget {
            PortfolioBudget::Wall { millis } => Some(millis),
            PortfolioBudget::Plan { target_millis } => Some(target_millis),
            PortfolioBudget::Work { .. } => None,
        };
        BudgetMeter { budget, work_base, self_metered_debit: 0, wall_target }
    }

    /// Replaces the budget with the work budget a plan calibrated to. The
    /// wall the caller asked for, the work base and the debits are kept.
    pub fn install_work_budget(&mut self, units: u64)
        ensures
            *final(self) == (BudgetMeter { budget: PortfolioBudget::Work { units }, ..*old(self) }),
    {
        self.budget = PortfolioBudget::Work { units };
    }

    /// Installs a re-plan tranche of `units`, if it raises a work budget:
    /// a tranche that would not raise it is refused, so the budget in force
    /// never goes down. Says whether it was installed.
    pub fn install_tranche(&mut self, units: u64) -> (res: bool)
        ensures
            res == match old(self).budget {
                PortfolioBudget::Work { units: current } => units > current,
                _ => false,
            },
            res ==> *final(self) == (BudgetMeter { budget: PortfolioBudget::Work { units }, ..*old(self) }),
            !res ==> *final(self) == *old(self),
    {
        match self.budget {
            PortfolioBudget::Work { units: current } => {
                if units > current {
                    self.budget = PortfolioBudget::Work { units };
                    true
                } else {
                    false
                }
            },
            _ => false,
        }
    }

    /// Whether the budget is a wall budget.
    pub fn is_wall(&self) -> (res: bool)
        ensures
            res == (self.budget is Wall),
    {
        matches!(self.budget, PortfolioBudget::Wall { .. })
    }

    /// The wall the caller named, in milliseconds, as the meter was built:
    /// a wall budget's own, or a plan's target, still after the plan was
    /// installed as a work budget. A bare work budget names none.
    pub fn wall_target_millis(&self) -> (res: Option<u64>)
        ensures
            res == self.wall_target,
    {
        self.wall_target
    }

    /// The self-metered units debited so far.
    pub fn self_metered_debit(&self) -> (res: u64)
        ensures
            res == self.self_metered_debit,
    {
        self.self_metered_debit
    }

    /// Work spent, given the engine's current global work reading: the global
    /// delta since the meter started, plus every self-metered debit, each
    /// step saturating.
    pub fn work_units(&self, global_now: u64) -> (res: u64)
        ensures
            res as int == saturating_sum(
                saturating_difference(global_now as int, self.work_base as int),
                self.self_metered_debit as int,
            ),
    {
        global_now.saturating_sub(self.work_base).saturating_add(self.self_metered_debit)
    }

    /// Debits what an operator's own meter charged beyond the global counter
    /// and returns that extra. Nothing is debited under a wall budget.
    pub fn debit_self_metered(&mut self, global_meter_delta: u64, operator_self_units: u64) -> (res: u64)
        ensures
            final(self).budget == old(self).budget,
            final(self).work_base == old(self).work_base,
            final(self).wall_target == old(self).wall_target,
            old(self).budget is Wall ==> res == 0 && final(self).self_metered_debit == old(self).self_metered_debit,
            !(old(self).budget is Wall) ==> {
                &&& res as int == saturating_difference(operator_self_units as int, global_meter_delta as int)
                &&& final(self).self_metered_debit as int
                    == saturating_sum(old(self).self_metered_debit as int, res as int)
            },
    {
        if self.is_wall() {
            return 0;
        }
        let extra = operator_self_units.saturating_sub(global_meter_delta);
        self.self_metered_debit = self.self_metered_debit.saturating_add(extra);
        extra
    }
}

/// Settles one operator call: the global delta, plus whatever the operator's
/// own meter charged beyond it, which the meter debits.
pub fn settle_operator_charge(
    meter: &mut BudgetMeter,
    global_units: u64,
    self_metered_units: Option<u64>,
) -> (res: OperatorCharge)
    ensures
        final(meter).budget == old(meter).budget,
        final(meter).work_base == old(meter).work_base,
        final(meter).wall_target == old(meter).wall_target,
        res.global_units == global_units,
        res.self_metered_units == self_metered_units,
        res.debited_units == match self_metered_units {
            Some(units) => if old(meter).budget is Wall {
                0
            } else {
                saturating_difference(units as int, global_units as int)
            },
            None => 0,
        },
        final(meter).self_metered_debit as int
            == saturating_sum(old(meter).self_metered_debit as int, res.debited_units as int),
        res.charged_units as int == saturating_sum(global_units as int, res.debited_units as int),
{
    let debited_units = match self_metered_units {
        Some(units) => meter.debit_self_metered(global_units, units),
        None => 0,
    };
    OperatorCharge {
        global_units,
        self_metered_units,
        debited_units,
        charged_units: global_units.saturating_add(debited_units),
    }
}

/// The self-metered reading a call settles at: the larger of the
/// operator's own meter and the class price, whichever of them exist.
pub open spec fn merged_self_units(operator_units: Option<u64>, class_units: Option<u64>) -> Option<u64> {
    match (operator_units, class_units) {
        (Some(operator), Some(class)) => Some(if operator >= class { operator } else { class }),
        (Some(operator), None) => Some(operator),
        (None, Some(class)) => Some(class),
        (None, None) => None,
    }
}

/// Joins the operator's own meter and the class price under one maximum;
/// a missing reading takes no part.
pub fn settled_self_units(operator_units: Option<u64>, class_units: Option<u64>) -> (res: Option<u64>)
    ensures
        res == merged_self_units(operator_units, class_units),
{
    match (operator_units, class_units) {
        (Some(operator), Some(class)) => Some(if operator >= class { operator } else { class }),
        (Some(operator), None) => Some(operator),
        (None, Some(class)) => Some(class),
        (None, None) => None,
    }
}

/// What the class price itself added to a call: zero unless the currency
/// charges, else how far the class price exceeds the larger of the global
/// delta and the operator's own meter.
pub fn charged_extra_units(charges: bool, class_units: u64, global_units: u64, operator_units: Option<u64>) -> (res: u64)
    ensures
        res as int == if charges {
            let own = match operator_units { Some(units) => units as int, None => 0 };
            saturating_difference(class_units as int, if global_units as int >= own { global_units as int } else { own })
        } else {
            0
        },
{
    if !charges {
        return 0;
    }
    let own = match operator_units {
        Some(units) => units,
        None => 0,
    };
    let floor = if global_units >= own { global_units } else { own };
    class_units.saturating_sub(floor)
}

/// Under a work or plan budget, and short of saturation, a settled call is
/// charged exactly the larger of its global delta and its own meter's
/// reading, and the meter moves by exactly the difference; under a wall
/// budget it is charged its global delta and the meter does not move.
pub proof fn lemma_settlement_is_the_maximum(
    before: BudgetMeter,
    after: BudgetMeter,
    global_units: u64,
    self_units: u64,
    charge: OperatorCharge,
)
    requires
        charge.global_units == global_units,
        charge.debited_units == (if before.budget is Wall {
            0
        } else {
            saturating_difference(self_units as int, global_units as int)
        }),
        after.self_metered_debit as int
            == saturating_sum(before.self_metered_debit as int, charge.debited_units as int),
        charge.charged_units as int == saturating_sum(global_units as int, charge.debited_units as int),
        before.self_metered_debit as int + self_units as int <= u64::MAX,
    ensures
        !(before.budget is Wall) ==> {
            &&& charge.charged_units == if self_units >= global_units { self_units } else { global_units }
            &&& after.self_metered_debit == before.self_metered_debit + (charge.charged_units - global_units)
        },
        before.budget is Wall ==> charge.charged_units == global_units
            && after.self_metered_debit == before.self_metered_debit,
{
}

/// What a named calibration file held for the probe's work units.
#[derive(Clone, Copy, Debug, PartialEq, Eq, Structural)]
pub enum CalibrationLookup {
    /// No entry for these units.
    Miss,
    /// An entry the live probe reading sits inside the band of.
    InBand,
    /// An entry the live probe reading sits outside the band of.
    OutOfBand,
}

/// Where a plan's probe wall comes from: a calibration entry inside the band
/// when a file was named and held one; otherwise the bucketed estimate when
/// the probe produced one, else the whole-phase reading, reported as a miss
/// or an out-of-band refusal when a file was named.
pub fn calibration_source(bucketed: bool, file: Option<CalibrationLookup>) -> (res: PlanCalibrationSource)
    ensures
        res == match file {
            None => if bucketed { PlanCalibrationSource::Probe } else { PlanCalibrationSource::Live },
            Some(CalibrationLookup::InBand) => PlanCalibrationSource::File,
            Some(CalibrationLookup::OutOfBand) => PlanCalibrationSource::FileOutOfBand,
            Some(CalibrationLookup::Miss) => PlanCalibrationSource::FileMiss,
        },
{
    match file {
        None => if bucketed { PlanCalibrationSource::Probe } else { PlanCalibrationSource::Live },
        Some(CalibrationLookup::InBand) => PlanCalibrationSource::File,
        Some(CalibrationLookup::OutOfBand) => PlanCalibrationSource::FileOutOfBand,
        Some(CalibrationLookup::Miss) => PlanCalibrationSource::FileMiss,
    }
}

/// The scoped arming of the two recording flags a work budget needs.
#[derive(Debug)]
pub struct WorkMeterArming {
    previous_profiler: bool,
    previous_metering: bool,
    report: WorkMeterArmingReport,
}

impl WorkMeterArming {
    /// Arms exactly the flag the run's counters need and remembers both
    /// flags as it found them.
    ///
    /// A work or plan budget needs counters. They come from the lane-local
    /// meter's own flag when the run asked for the lane-local debit and the
    /// parallel currency is off; otherwise from the profiler, and a debit the
    /// currency overrode is reported as deferred. A wall budget arms nothing.
    pub fn install(
        budget: PortfolioBudget,
        lane_local_debit: bool,
        work_currency: WorkCurrencyMode,
        profiler: &mut bool,
        metering: &mut bool,
    ) -> (res: WorkMeterArming)
        ensures
            ({
                let needed = !(budget is Wall);
                let currency = !(work_currency is Off);
                let arm_metering = needed && lane_local_debit && !currency;
                let arm_profiler = needed && !arm_metering;
                &&& *final(profiler) == (arm_profiler || *old(profiler))
                &&& *final(metering) == (arm_metering || *old(metering))
                &&& res.previous_flags() == (*old(profiler), *old(metering))
                &&& res.report_view() == WorkMeterArmingReport {
                    needed,
                    profiler_armed: arm_profiler || *old(profiler),
                    metering_armed: arm_metering || *old(metering),
                    deferred_to_profiler: needed && lane_local_debit && currency,
                }
            }),
    {
        let previous_profiler = *profiler;
        let previous_metering = *metering;
        let needed = matches!(budget, PortfolioBudget::Work { .. } | PortfolioBudget::Plan { .. });
        let currency_needs_profiler = work_currency.armed();
        let arm_metering = needed && lane_local_debit && !currency_needs_profiler;
        let arm_profiler = needed && !arm_metering;
        if arm_profiler {
            *profiler = true;
        }
        if arm_metering {
            *metering = true;
        }
        WorkMeterArming {
            previous_profiler,
            previous_metering,
            report: WorkMeterArmingReport {
                needed,
                profiler_armed: arm_profiler || previous_profiler,
                metering_armed: arm_metering || previous_metering,
                deferred_to_profiler: needed && lane_local_debit && currency_needs_profiler,
            },
        }
    }

    /// The two flags as the arming found them.
    pub closed spec fn previous_flags(&self) -> (bool, bool) {
        (self.previous_profiler, self.previous_metering)
    }

    /// What the arming did.
    pub closed spec fn report_view(&self) -> WorkMeterArmingReport {
        self.report
    }

    /// What the arming did.
    pub fn report(&self) -> (res: WorkMeterArmingReport)
        ensures
            res == self.report_view(),
    {
        self.report
    }

    /// Puts both flags back as the arming found them.
    pub fn restore(self, profiler: &mut bool, metering: &mut bool)
        ensures
            (*final(profiler), *final(metering)) == self.previous_flags(),
    {
        *profiler = self.previous_profiler;
        *metering = self.previous_metering;
    }
}

/// The scoped arming of the contract certificate.
#[derive(Debug)]
pub struct ContractCertificateArming {
    previous: bool,
}

impl ContractCertificateArming {
    /// The flag as the arming found it.
    pub closed spec fn previous_flag(&self) -> bool {
        self.previous
    }

    /// Sets the certificate flag to `armed` and remembers what it was.
    pub fn install(flag: &mut bool, armed: bool) -> (res: ContractCertificateArming)
        ensures
            *final(flag) == armed,
            res.previous_flag() == *old(flag),
    {
        let previous = *flag;
        *flag = armed;
        ContractCertificateArming { previous }
    }

    /// Puts the flag back as the arming found it.
    pub fn restore(self, flag: &mut bool)
        ensures
            *final(flag) == self.previous_flag(),
    {
        *flag = self.previous;
    }
}

/// Holds the round-envelope kernel at one mode for the length of one
/// coordinator run.
#[derive(Debug)]
pub struct RoundEnvelopeArming {
    previous: KernelMode,
}

impl RoundEnvelopeArming {
    /// The mode as the arming found it.
    pub closed spec fn previous_mode(&self) -> KernelMode {
        self.previous
    }

    /// Sets the kernel mode to `mode` and remembers what it was.
    pub fn install(current: &mut KernelMode, mode: KernelMode) -> (res: RoundEnvelopeArming)
        ensures
            *final(current) == mode,
            res.previous_mode() == *old(current),
    {
        let previous = *current;
        *current = mode;
        RoundEnvelopeArming { previous }
    }

    /// Puts the kernel mode back as the arming found it.
    pub fn restore(self, current: &mut KernelMode)
        ensures
            *final(current) == self.previous_mode(),
    {
        *current = self.previous;
    }
}

/// Arming and then restoring leaves both recording flags as they were,
/// whatever the settings asked for.
pub proof fn lemma_work_meter_arming_restores(
    profiler_before: bool,
    metering_before: bool,
    arming: WorkMeterArming,
    profiler_after: bool,
    metering_after: bool,
)
    requires
        arming.previous_flags() == (profiler_before, metering_before),
        (profiler_after, metering_after) == arming.previous_flags(),
    ensures
        profiler_after == profiler_before && metering_after == metering_before,
{
}

/// Nested certificate armings restore in turn: the inner one puts back what
/// the outer one set, and the outer one puts back what the run started with.
pub proof fn lemma_nested_certificate_armings_restore(
    start: bool,
    outer_armed: bool,
    outer: ContractCertificateArming,
    inner: ContractCertificateArming,
    after_inner: bool,
    after_outer: bool,
)
    requires
        outer.previous_flag() == start,
        inner.previous_flag() == outer_armed,
        after_inner == inner.previous_flag(),
        after_outer == outer.previous_flag(),
    ensures
        after_inner == outer_armed,
        after_outer == start,
{
}

} // verus!
