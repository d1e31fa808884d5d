//! The coordinator's vocabulary: operators, dispositions, budgets, exit
//! causes, action classes and probe arms, each with its stable reporting name.
use vstd::prelude::*;
use crate::text::{decimal, decimal_string};

verus! {

/// Which operator produced an archived basin.
#[derive(Clone, Copy, Debug, PartialEq, Eq, PartialOrd, Ord, Structural)]
pub enum BasinOperator {
    /// The short-side-first constructor's own complete layout.
    Constructor,
    /// The protected relaxed search's result (mode 0).
    RelaxedM0,
    /// One arm of the coupled dynamic separator.
    CoupledSeparator,
    /// A persistent-vacancy mode, by its dispatch number.
    Mode(usize),
}

impl BasinOperator {
    /// The reporting name: `constructor`, `m0`, `coupled`, or `mode` followed
    /// by the dispatch number in decimal.
    pub open spec fn reported_name(self) -> Seq<char> {
        match self {
            BasinOperator::Constructor => "constructor"@,
            BasinOperator::RelaxedM0 => "m0"@,
            BasinOperator::CoupledSeparator => "coupled"@,
            BasinOperator::Mode(mode) => "mode"@ + decimal(mode as nat),
        }
    }

    /// The reporting name, stable across runs.
    pub fn name(self) -> (res: String)
        ensures
            res@ == self.reported_name(),
    {
        match self {
            BasinOperator::Constructor => String::from_str("constructor"),
            BasinOperator::RelaxedM0 => String::from_str("m0"),
            BasinOperator::CoupledSeparator => String::from_str("coupled"),
            BasinOperator::Mode(mode) => {
                let mut name = String::from_str("mode");
                let digits = decimal_string(mode as u64);
                name.append(digits.as_str());
                name
            },
        }
    }
}

/// What the archive did with an offered layout.
#[derive(Clone, Copy, Debug, PartialEq, Eq, Structural)]
pub enum ArchiveDisposition {
    /// Admitted, with room to spare.
    Admitted,
    /// Admitted after evicting a basin that was both dominated and similar.
    AdmittedAfterEviction,
    /// The fingerprint was already in the archive.
    Duplicate,
    /// The layout was not complete, so it cannot be anyone's parent.
    IncompleteCardinality,
    /// The archive is full and no member is both dominated and similar to
    /// another, so nothing may be evicted and the candidate is refused.
    RefusedArchiveFullAllDistinct,
}

/// The budget a schedule spends.
#[derive(Clone, Copy, Debug, PartialEq, Eq, Structural)]
pub enum PortfolioBudget {
    /// Wall-clock milliseconds.
    Wall { millis: u64 },
    /// Work units: one proxy candidate query each, an exact pair test five.
    Work { units: u64 },
    /// A wall target, spent as a work plan sized to fit it.
    Plan { target_millis: u64 },
}

/// How a run treats the parallel work currency.
#[derive(Clone, Copy, Debug, Default, PartialEq, Eq, Structural)]
pub enum WorkCurrencyMode {
    /// Nothing is computed, nothing is reported, nothing is charged.
    #[default]
    Off,
    /// Priced and reported, never charged.
    Observe,
    /// Priced, reported and charged.
    Charge,
}

impl WorkCurrencyMode {
    /// Whether the currency is computed and reported at all.
    pub fn armed(self) -> (res: bool)
        ensures
            res == !(self is Off),
    {
        !matches!(self, WorkCurrencyMode::Off)
    }

    /// Whether a price this currency computed is settled into the meter.
    pub fn charges(self) -> (res: bool)
        ensures
            res == (self is Charge),
    {
        matches!(self, WorkCurrencyMode::Charge)
    }

    /// The stable reporting name.
    pub open spec fn reported_label(self) -> Seq<char> {
        match self {
            WorkCurrencyMode::Off => "off"@,
            WorkCurrencyMode::Observe => "observe"@,
            WorkCurrencyMode::Charge => "charge"@,
        }
    }

    /// The stable reporting name.
    pub fn label(self) -> (res: &'static str)
        ensures
            res@ == self.reported_label(),
    {
        match self {
            WorkCurrencyMode::Off => "off",
            WorkCurrencyMode::Observe => "observe",
            WorkCurrencyMode::Charge => "charge",
        }
    }
}

/// What the parallel currency priced one operator call at, and out of what.
#[derive(Clone, Copy, Debug, Default, PartialEq, Eq, Structural)]
pub struct WorkCurrencyCallReport {
    pub candidate_queries: u64,
    pub exact_pair_tests: u64,
    pub collision_builds: u64,
    pub neighbor_tests: u64,
    pub full_rescores: u64,
    pub position_source_attempts: u64,
    pub returned_positions: u64,
    pub pair_visits: u64,
    pub operator_collision_builds: u64,
    pub confirmations: u64,
    /// What the class price returned for this class and these counts.
    pub class_units: u64,
    /// What this call added to the meter because of the currency.
    pub charged_extra_units: u64,
}

/// Why a phase stopped issuing operator calls.
#[derive(Clone, Copy, Debug, PartialEq, Eq, Structural)]
pub enum PhaseExitCause {
    /// The phase's deadline had already passed when it was entered.
    SkippedDeadlinePassed,
    /// The phase ran its body to the end.
    Completed,
    /// The selection the phase draws from cannot supply an action at all.
    GeometricFixpoint,
    /// Every action the phase can name has already been attempted.
    KeysExhausted,
    /// The remaining budget no longer covers the operator's measured cost.
    Affordability,
    /// The phase deadline was reached mid-phase.
    Deadline,
    /// The run's wall deadline was reached mid-phase.
    WallStop,
    /// The patience rule fired.
    Patience,
    /// The diversify phase's trigger refused to draw at all.
    TriggerRefused,
    /// The compressing descent came back exact-valid: no residue to legalize.
    NoResidue,
    /// An operator produced no complete layout.
    NoCompleteLayout,
}

impl PhaseExitCause {
    /// The reporting name.
    pub open spec fn reported_name(self) -> Seq<char> {
        match self {
            PhaseExitCause::SkippedDeadlinePassed => "skippedDeadlinePassed"@,
            PhaseExitCause::Completed => "completed"@,
            PhaseExitCause::GeometricFixpoint => "geometricFixpoint"@,
            PhaseExitCause::KeysExhausted => "keysExhausted"@,
            PhaseExitCause::Affordability => "affordability"@,
            PhaseExitCause::Deadline => "deadline"@,
            PhaseExitCause::WallStop => "wallStop"@,
            PhaseExitCause::Patience => "patience"@,
            PhaseExitCause::TriggerRefused => "triggerRefused"@,
            PhaseExitCause::NoResidue => "noResidue"@,
            PhaseExitCause::NoCompleteLayout => "noCompleteLayout"@,
        }
    }

    /// The reporting name, stable across runs.
    pub fn name(self) -> (res: &'static str)
        ensures
            res@ == self.reported_name(),
    {
        match self {
            PhaseExitCause::SkippedDeadlinePassed => "skippedDeadlinePassed",
            PhaseExitCause::Completed => "completed",
            PhaseExitCause::GeometricFixpoint => "geometricFixpoint",
            PhaseExitCause::KeysExhausted => "keysExhausted",
            PhaseExitCause::Affordability => "affordability",
            PhaseExitCause::Deadline => "deadline",
            PhaseExitCause::WallStop => "wallStop",
            PhaseExitCause::Patience => "patience",
            PhaseExitCause::TriggerRefused => "triggerRefused",
            PhaseExitCause::NoResidue => "noResidue",
            PhaseExitCause::NoCompleteLayout => "noCompleteLayout",
        }
    }

    /// Whether the cause is one of the three that say the budget, and not
    /// the action space, stopped the phase. Only these let a re-plan buy
    /// another tranche.
    pub open spec fn is_budget_bound(self) -> bool {
        self is Deadline || self is Affordability || self is SkippedDeadlinePassed
    }
}

/// Where a plan's probe wall came from.
#[derive(Clone, Copy, Debug, PartialEq, Eq, Structural)]
pub enum PlanCalibrationSource {
    /// The whole-phase clock reading.
    Live,
    /// The max-of-k bucket estimate.
    Probe,
    /// A persisted calibration entry, inside the band.
    File,
    /// A calibration file was named but had no entry for this probe.
    FileMiss,
    /// A persisted entry was refused because the live probe sat outside the band.
    FileOutOfBand,
}

impl PlanCalibrationSource {
    /// The string the document carries.
    pub open spec fn reported_name(self) -> Seq<char> {
        match self {
            PlanCalibrationSource::Live => "live"@,
            PlanCalibrationSource::Probe => "probe"@,
            PlanCalibrationSource::File => "file"@,
            PlanCalibrationSource::FileMiss => "fileMiss"@,
            PlanCalibrationSource::FileOutOfBand => "fileOutOfBand"@,
        }
    }

    /// The string the document carries.
    pub fn name(self) -> (res: &'static str)
        ensures
            res@ == self.reported_name(),
    {
        match self {
            PlanCalibrationSource::Live => "live",
            PlanCalibrationSource::Probe => "probe",
            PlanCalibrationSource::File => "file",
            PlanCalibrationSource::FileMiss => "fileMiss",
            PlanCalibrationSource::FileOutOfBand => "fileOutOfBand",
        }
    }
}

/// What kind of action the ranked queue is offering. The declaration order
/// is the deterministic tie-break after the ranking value.
#[derive(Clone, Copy, Debug, PartialEq, Eq, PartialOrd, Ord, Structural)]
pub enum ActionClass {
    /// One compressing mode-22 quantum below the parent's own depth.
    Compression,
    /// One mode-22 alternation quantum at the parent's own rung.
    Descent,
    /// One mode-34 compression-schedule slice.
    Schedule,
    /// One ordered, cut-derived mode-23 recombination.
    Crossover,
    /// One short mode-26 clamped-sheet ladder.
    Ladder,
    /// One salted mode-20 constructor ticket and a quantum spent on it.
    Diversify,
}

impl ActionClass {
    /// The class's position in declaration order.
    pub open spec fn ordinal(self) -> int {
        match self {
            ActionClass::Compression => 0,
            ActionClass::Descent => 1,
            ActionClass::Schedule => 2,
            ActionClass::Crossover => 3,
            ActionClass::Ladder => 4,
            ActionClass::Diversify => 5,
        }
    }

    /// The reporting name.
    pub open spec fn reported_name(self) -> Seq<char> {
        match self {
            ActionClass::Compression => "compression"@,
            ActionClass::Descent => "descent"@,
            ActionClass::Schedule => "schedule"@,
            ActionClass::Crossover => "crossover"@,
            ActionClass::Ladder => "ladder"@,
            ActionClass::Diversify => "diversify"@,
        }
    }

    /// The reporting name, stable across runs.
    pub fn name(self) -> (res: &'static str)
        ensures
            res@ == self.reported_name(),
    {
        match self {
            ActionClass::Compression => "compression",
            ActionClass::Descent => "descent",
            ActionClass::Schedule => "schedule",
            ActionClass::Crossover => "crossover",
            ActionClass::Ladder => "ladder",
            ActionClass::Diversify => "diversify",
        }
    }

    /// Every class, in declaration order.
    pub fn all() -> (res: [ActionClass; 6])
        ensures
            forall|i: int| 0 <= i < 6 ==> (#[trigger] res@[i]).ordinal() == i,
    {
        [
            ActionClass::Compression,
            ActionClass::Descent,
            ActionClass::Schedule,
            ActionClass::Crossover,
            ActionClass::Ladder,
            ActionClass::Diversify,
        ]
    }
}

/// Which arm the probe phase runs from the saturated archive.
#[derive(Clone, Copy, Debug, PartialEq, Eq, Structural)]
pub enum ProbeArm {
    /// No probe: the shipping schedule and nothing after it.
    Disarmed,
    /// The next derived crossover action the ledger names.
    NextDerivedCrossover,
    /// One mode-20 ticket, a crossover with the incumbent, a short mode-22.
    ConstructorTicket,
    /// One short mode-26 ladder, then the global legalizer tier.
    LadderRung,
    /// The same target depth from the same parent, asked of mode 22.
    DescentControl,
}

impl ProbeArm {
    /// The reporting name.
    pub open spec fn reported_name(self) -> Seq<char> {
        match self {
            ProbeArm::Disarmed => "none"@,
            ProbeArm::NextDerivedCrossover => "A"@,
            ProbeArm::ConstructorTicket => "B"@,
            ProbeArm::LadderRung => "C"@,
            ProbeArm::DescentControl => "D"@,
        }
    }

    /// The reporting name, stable across runs.
    pub fn name(self) -> (res: &'static str)
        ensures
            res@ == self.reported_name(),
    {
        match self {
            ProbeArm::Disarmed => "none",
            ProbeArm::NextDerivedCrossover => "A",
            ProbeArm::ConstructorTicket => "B",
            ProbeArm::LadderRung => "C",
            ProbeArm::DescentControl => "D",
        }
    }
}

/// When the constructor slice is allowed to draw a basin.
#[derive(Clone, Copy, Debug, PartialEq, Eq, Structural)]
pub enum BasinTrigger {
    /// Never draw one.
    Never,
    /// Always draw one while the phase deadline allows.
    Always,
    /// Draw one only when the alternation phase reached a frontier fixpoint.
    OnStall,
    /// Draw one only when the remaining budget covers the draw and a descent.
    WhenDescendable,
}

/// Which flag a run armed to get its work counters.
#[derive(Clone, Copy, Debug, Default, PartialEq, Eq, Structural)]
pub struct WorkMeterArmingReport {
    pub needed: bool,
    pub profiler_armed: bool,
    pub metering_armed: bool,
    pub deferred_to_profiler: bool,
}

/// Charging implies reporting: a mode that settles a price has computed it.
pub proof fn lemma_charging_implies_armed(mode: WorkCurrencyMode)
    ensures
        (mode is Charge) ==> !(mode is Off),
{
}

/// Distinct action classes have distinct reporting names, so the operator
/// calls and publications a class pays for are attributed to it alone.
pub proof fn lemma_action_class_names_distinct(first: ActionClass, second: ActionClass)
    requires
        first != second,
    ensures
        first.reported_name() != second.reported_name(),
{
    reveal_strlit("compression");
    reveal_strlit("descent");
    reveal_strlit("schedule");
    reveal_strlit("crossover");
    reveal_strlit("ladder");
    reveal_strlit("diversify");
    let a = first.reported_name();
    let b = second.reported_name();
    if a == b {
        assert(a.len() == b.len() && a[0] == b[0]);
    }
}

/// Distinct exit causes have distinct reporting names, so a phase report
/// says which of them stopped it.
pub proof fn lemma_phase_exit_cause_names_distinct(first: PhaseExitCause, second: PhaseExitCause)
    requires
        first != second,
    ensures
        first.reported_name() != second.reported_name(),
{
    reveal_strlit("skippedDeadlinePassed");
    reveal_strlit("completed");
    reveal_strlit("geometricFixpoint");
    reveal_strlit("keysExhausted");
    reveal_strlit("affordability");
    reveal_strlit("deadline");
    reveal_strlit("wallStop");
    reveal_strlit("patience");
    reveal_strlit("triggerRefused");
    reveal_strlit("noResidue");
    reveal_strlit("noCompleteLayout");
    let a = first.reported_name();
    let b = second.reported_name();
    if a == b {
        assert(a.len() == b.len() && a[0] == b[0]);
    }
}

/// Distinct probe arms have distinct reporting names.
pub proof fn lemma_probe_arm_names_distinct(first: ProbeArm, second: ProbeArm)
    requires
        first != second,
    ensures
        first.reported_name() != second.reported_name(),
{
    reveal_strlit("none");
    reveal_strlit("A");
    reveal_strlit("B");
    reveal_strlit("C");
    reveal_strlit("D");
    let a = first.reported_name();
    let b = second.reported_name();
    if a == b {
        assert(a.len() == b.len() && a[0] == b[0]);
    }
}

} // verus!
