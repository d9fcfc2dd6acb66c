//! Shared identifiers, the closed event set, reject codes and process exits.
use vstd::prelude::*;

verus! {

#[derive(Copy, Clone, Debug, PartialEq, Eq, Structural, PartialOrd, Ord, Hash)]
pub struct NodeId(pub u32);

#[derive(Copy, Clone, Debug, PartialEq, Eq, Structural, PartialOrd, Ord, Hash)]
pub struct GpuId(pub u32);

#[derive(Copy, Clone, Debug, PartialEq, Eq, Structural, PartialOrd, Ord, Hash)]
pub struct NicId(pub u32);

#[derive(Copy, Clone, Debug, PartialEq, Eq, Structural, PartialOrd, Ord, Hash)]
pub struct LeafId(pub u32);

#[derive(Copy, Clone, Debug, PartialEq, Eq, Structural, PartialOrd, Ord, Hash)]
pub struct SpineId(pub u32);

#[derive(Copy, Clone, Debug, PartialEq, Eq, Structural, PartialOrd, Ord, Hash)]
pub struct LinkId(pub u32);

#[derive(Copy, Clone, Debug, PartialEq, Eq, Structural, PartialOrd, Ord, Hash)]
pub struct RailId(pub u8);

#[derive(Copy, Clone, Debug, PartialEq, Eq, Structural, PartialOrd, Ord, Hash)]
pub struct JobId(pub u32);

#[derive(Copy, Clone, Debug, PartialEq, Eq, Structural, PartialOrd, Ord, Hash)]
pub struct FlowId(pub u64);

#[derive(Copy, Clone, Debug, PartialEq, Eq, Structural, PartialOrd, Ord, Hash)]
pub struct EpochId(pub u32);

#[derive(Copy, Clone, Debug, PartialEq, Eq, Structural, PartialOrd, Ord, Hash)]
pub struct Rank(pub u32);

/// Assigned at a successful admit, dense from 0.
#[derive(Copy, Clone, Debug, PartialEq, Eq, Structural, PartialOrd, Ord, Hash)]
pub struct AdmitSeq(pub u64);

/// Simulated time in picoseconds, with the insertion counter that breaks ties.
#[derive(Copy, Clone, Debug, PartialEq, Eq, Structural, PartialOrd, Ord, Hash)]
pub struct SimTime {
    pub ps: i128,
    /// Monotonic insert counter; unique per `Fel::push`.
    pub seq: u64,
}

/// `(ps, seq)` lexicographic order on simulated time.
pub open spec fn time_lt(a: SimTime, b: SimTime) -> bool {
    a.ps < b.ps || (a.ps == b.ps && a.seq < b.seq)
}

#[derive(Copy, Clone, Debug, PartialEq, Eq, Structural)]
pub enum CollectiveKind {
    RingAllReduce,
    PairwiseAllToAll,
}

#[derive(Copy, Clone, Debug, PartialEq, Eq, Structural)]
pub enum Policy {
    Naive,
    Joint,
}

#[derive(Copy, Clone, Debug, PartialEq, Eq, Structural)]
pub enum BindingKind {
    NaiveFirstFit,
    FirstFitShift { skip_free_gpus: u8 },
    RailRotate { start_rail: u8 },
}

#[derive(Copy, Clone, Debug, PartialEq, Eq, Structural)]
pub enum RejectCode {
    NoFreeGpus,
    FragmentedGpus,
    ResidualExhausted,
    SloMiss,
    CrossRailUnsupported,
    DeadElementOnPath,
    EpochPrepareFailed,
    MixDoesNotFit,
    OddRingDegenerate,
    ZeroLeftover,
}

/// Process exit codes, in code order: `Success` is 0 through `IoAbort` at 5.
#[derive(Copy, Clone, Debug, PartialEq, Eq, Structural)]
pub enum ProcessExit {
    Success,
    Usage,
    BadInput,
    InvariantFail,
    MixDoesNotFit,
    IoAbort,
}

/// The closed set of fourteen future-event kinds. Admits, rejects and kills are
/// traces, not events.
#[derive(Copy, Clone, Debug, PartialEq, Eq, Structural)]
pub enum EventKind {
    JobArrive,
    StepBoundary,
    CollectiveStart,
    CollectiveEnd,
    FlowArrive,
    FlowDepart,
    RateRecompute,
    LinkFail,
    LeafFail,
    RailFail,
    SpineFail,
    DrainComplete,
    EpochAdvance,
    HorizonCut,
}

#[derive(Copy, Clone, Debug, PartialEq, Eq, Structural)]
pub enum EventPayload {
    JobArrive { job: JobId },
    StepBoundary { job: JobId, step: u32 },
    CollectiveStart { job: JobId, step: u32 },
    CollectiveEnd { job: JobId, step: u32 },
    FlowArrive { flow: FlowId },
    FlowDepart { flow: FlowId },
    RateRecompute { reason: RecomputeReason },
    LinkFail { link: LinkId },
    LeafFail { leaf: LeafId },
    RailFail { rail: RailId },
    SpineFail { spine: SpineId },
    DrainComplete { job: JobId },
    EpochAdvance { from: EpochId, to: EpochId },
    HorizonCut,
}

#[derive(Copy, Clone, Debug, PartialEq, Eq, Structural)]
pub enum RecomputeReason {
    Admit(JobId),
    JobExit(JobId),
    EpochCommit,
}

#[derive(Copy, Clone, Debug, PartialEq, Eq, Structural)]
pub enum Endpoint {
    Nic(NicId),
    Leaf(LeafId),
    Spine(SpineId),
}

#[derive(Copy, Clone, Debug, PartialEq, Eq, Structural)]
pub enum GpuAvail {
    Present,
    Unavailable(UnavailReason),
}

#[derive(Copy, Clone, Debug, PartialEq, Eq, Structural)]
pub enum UnavailReason {
    FailedNic,
    AbsentRow,
}

#[derive(Copy, Clone, Debug, PartialEq, Eq, Structural)]
pub enum JobState {
    Queued,
    Admitted,
    Computing,
    Collecting,
    Completed,
    Killed,
    Rejected,
}

/// The kinds that announce a failure.
pub open spec fn spec_is_fail(k: EventKind) -> bool {
    k is LinkFail || k is LeafFail || k is RailFail || k is SpineFail
}

/// Whether a payload is the one that belongs to a kind.
pub open spec fn spec_matches_payload(k: EventKind, p: EventPayload) -> bool {
    match k {
        EventKind::JobArrive => p is JobArrive,
        EventKind::StepBoundary => p is StepBoundary,
        EventKind::CollectiveStart => p is CollectiveStart,
        EventKind::CollectiveEnd => p is CollectiveEnd,
        EventKind::FlowArrive => p is FlowArrive,
        EventKind::FlowDepart => p is FlowDepart,
        EventKind::RateRecompute => p is RateRecompute,
        EventKind::LinkFail => p is LinkFail,
        EventKind::LeafFail => p is LeafFail,
        EventKind::RailFail => p is RailFail,
        EventKind::SpineFail => p is SpineFail,
        EventKind::DrainComplete => p is DrainComplete,
        EventKind::EpochAdvance => p is EpochAdvance,
        EventKind::HorizonCut => p is HorizonCut,
    }
}

/// The kind that a payload belongs to.
pub open spec fn spec_kind_of(p: EventPayload) -> EventKind {
    match p {
        EventPayload::JobArrive { .. } => EventKind::JobArrive,
        EventPayload::StepBoundary { .. } => EventKind::StepBoundary,
        EventPayload::CollectiveStart { .. } => EventKind::CollectiveStart,
        EventPayload::CollectiveEnd { .. } => EventKind::CollectiveEnd,
        EventPayload::FlowArrive { .. } => EventKind::FlowArrive,
        EventPayload::FlowDepart { .. } => EventKind::FlowDepart,
        EventPayload::RateRecompute { .. } => EventKind::RateRecompute,
        EventPayload::LinkFail { .. } => EventKind::LinkFail,
        EventPayload::LeafFail { .. } => EventKind::LeafFail,
        EventPayload::RailFail { .. } => EventKind::RailFail,
        EventPayload::SpineFail { .. } => EventKind::SpineFail,
        EventPayload::DrainComplete { .. } => EventKind::DrainComplete,
        EventPayload::EpochAdvance { .. } => EventKind::EpochAdvance,
        EventPayload::HorizonCut => EventKind::HorizonCut,
    }
}

/// The name of each kind, as it appears in traces.
pub open spec fn spec_event_kind_name(k: EventKind) -> Seq<char> {
    match k {
        EventKind::JobArrive => "JobArrive"@,
        EventKind::StepBoundary => "StepBoundary"@,
        EventKind::CollectiveStart => "CollectiveStart"@,
        EventKind::CollectiveEnd => "CollectiveEnd"@,
        EventKind::FlowArrive => "FlowArrive"@,
        EventKind::FlowDepart => "FlowDepart"@,
        EventKind::RateRecompute => "RateRecompute"@,
        EventKind::LinkFail => "LinkFail"@,
        EventKind::LeafFail => "LeafFail"@,
        EventKind::RailFail => "RailFail"@,
        EventKind::SpineFail => "SpineFail"@,
        EventKind::DrainComplete => "DrainComplete"@,
        EventKind::EpochAdvance => "EpochAdvance"@,
        EventKind::HorizonCut => "HorizonCut"@,
    }
}

/// The index of each kind in declaration order.
pub open spec fn spec_event_kind_index(k: EventKind) -> int {
    match k {
        EventKind::JobArrive => 0,
        EventKind::StepBoundary => 1,
        EventKind::CollectiveStart => 2,
        EventKind::CollectiveEnd => 3,
        EventKind::FlowArrive => 4,
        EventKind::FlowDepart => 5,
        EventKind::RateRecompute => 6,
        EventKind::LinkFail => 7,
        EventKind::LeafFail => 8,
        EventKind::RailFail => 9,
        EventKind::SpineFail => 10,
        EventKind::DrainComplete => 11,
        EventKind::EpochAdvance => 12,
        EventKind::HorizonCut => 13,
    }
}

/// The event set is closed: every kind has its own index below `EventKind::COUNT`,
/// so there are exactly fourteen of them.
pub proof fn event_kinds_are_fourteen(a: EventKind, b: EventKind)
    ensures
        0 <= spec_event_kind_index(a) < EventKind::COUNT,
        spec_event_kind_index(a) == spec_event_kind_index(b) ==> a == b,
{
}

/// Every payload matches exactly one kind: the kind it belongs to.
pub proof fn payload_has_one_kind(k: EventKind, p: EventPayload)
    ensures
        spec_matches_payload(k, p) <==> k == spec_kind_of(p),
{
}

impl EventKind {
    /// Number of kinds in the closed set.
    pub const COUNT: usize = 14;

    pub fn is_fail(self) -> (r: bool)
        ensures
            r == spec_is_fail(self),
    {
        match self {
            EventKind::LinkFail | EventKind::LeafFail | EventKind::RailFail
            | EventKind::SpineFail => true,
            _ => false,
        }
    }

    /// Position of the kind in declaration order.
    pub fn index(self) -> (r: usize)
        ensures
            r as int == spec_event_kind_index(self),
            r < Self::COUNT,
    {
        match self {
            EventKind::JobArrive => 0,
            EventKind::StepBoundary => 1,
            EventKind::CollectiveStart => 2,
            EventKind::CollectiveEnd => 3,
            EventKind::FlowArrive => 4,
            EventKind::FlowDepart => 5,
            EventKind::RateRecompute => 6,
            EventKind::LinkFail => 7,
            EventKind::LeafFail => 8,
            EventKind::RailFail => 9,
            EventKind::SpineFail => 10,
            EventKind::DrainComplete => 11,
            EventKind::EpochAdvance => 12,
            EventKind::HorizonCut => 13,
        }
    }

    pub fn as_str(self) -> (r: &'static str)
        ensures
            r@ == spec_event_kind_name(self),
    {
        match self {
            EventKind::JobArrive => "JobArrive",
            EventKind::StepBoundary => "StepBoundary",
            EventKind::CollectiveStart => "CollectiveStart",
            EventKind::CollectiveEnd => "CollectiveEnd",
            EventKind::FlowArrive => "FlowArrive",
            EventKind::FlowDepart => "FlowDepart",
            EventKind::RateRecompute => "RateRecompute",
            EventKind::LinkFail => "LinkFail",
            EventKind::LeafFail => "LeafFail",
            EventKind::RailFail => "RailFail",
            EventKind::SpineFail => "SpineFail",
            EventKind::DrainComplete => "DrainComplete",
            EventKind::EpochAdvance => "EpochAdvance",
            EventKind::HorizonCut => "HorizonCut",
        }
    }

    /// Kind and payload correspond one to one; a mismatch is an invariant breach.
    pub fn matches_payload(self, payload: &EventPayload) -> (r: bool)
        ensures
            r == spec_matches_payload(self, *payload),
    {
        match (self, payload) {
            (EventKind::JobArrive, EventPayload::JobArrive { .. }) => true,
            (EventKind::StepBoundary, EventPayload::StepBoundary { .. }) => true,
            (EventKind::CollectiveStart, EventPayload::CollectiveStart { .. }) => true,
            (EventKind::CollectiveEnd, EventPayload::CollectiveEnd { .. }) => true,
            (EventKind::FlowArrive, EventPayload::FlowArrive { .. }) => true,
            (EventKind::FlowDepart, EventPayload::FlowDepart { .. }) => true,
            (EventKind::RateRecompute, EventPayload::RateRecompute { .. }) => true,
            (EventKind::LinkFail, EventPayload::LinkFail { .. }) => true,
            (EventKind::LeafFail, EventPayload::LeafFail { .. }) => true,
            (EventKind::RailFail, EventPayload::RailFail { .. }) => true,
            (EventKind::SpineFail, EventPayload::SpineFail { .. }) => true,
            (EventKind::DrainComplete, EventPayload::DrainComplete { .. }) => true,
            (EventKind::EpochAdvance, EventPayload::EpochAdvance { .. }) => true,
            (EventKind::HorizonCut, EventPayload::HorizonCut) => true,
            _ => false,
        }
    }
}

/// The name of each reject code.
pub open spec fn spec_reject_name(c: RejectCode) -> Seq<char> {
    match c {
        RejectCode::NoFreeGpus => "NoFreeGpus"@,
        RejectCode::FragmentedGpus => "FragmentedGpus"@,
        RejectCode::ResidualExhausted => "ResidualExhausted"@,
        RejectCode::SloMiss => "SloMiss"@,
        RejectCode::CrossRailUnsupported => "CrossRailUnsupported"@,
        RejectCode::DeadElementOnPath => "DeadElementOnPath"@,
        RejectCode::EpochPrepareFailed => "EpochPrepareFailed"@,
        RejectCode::MixDoesNotFit => "MixDoesNotFit"@,
        RejectCode::OddRingDegenerate => "OddRingDegenerate"@,
        RejectCode::ZeroLeftover => "ZeroLeftover"@,
    }
}

/// All reject codes, in declaration order.
pub open spec fn spec_all_rejects() -> Seq<RejectCode> {
    seq![
        RejectCode::NoFreeGpus,
        RejectCode::FragmentedGpus,
        RejectCode::ResidualExhausted,
        RejectCode::SloMiss,
        RejectCode::CrossRailUnsupported,
        RejectCode::DeadElementOnPath,
        RejectCode::EpochPrepareFailed,
        RejectCode::MixDoesNotFit,
        RejectCode::OddRingDegenerate,
        RejectCode::ZeroLeftover,
    ]
}

impl RejectCode {
    /// Every reject code, once, in declaration order.
    pub fn all() -> (r: Vec<RejectCode>)
        ensures
            r@ == spec_all_rejects(),
    {
        vec![
            RejectCode::NoFreeGpus,
            RejectCode::FragmentedGpus,
            RejectCode::ResidualExhausted,
            RejectCode::SloMiss,
            RejectCode::CrossRailUnsupported,
            RejectCode::DeadElementOnPath,
            RejectCode::EpochPrepareFailed,
            RejectCode::MixDoesNotFit,
            RejectCode::OddRingDegenerate,
            RejectCode::ZeroLeftover,
        ]
    }

    pub fn as_str(self) -> (r: &'static str)
        ensures
            r@ == spec_reject_name(self),
    {
        match self {
            RejectCode::NoFreeGpus => "NoFreeGpus",
            RejectCode::FragmentedGpus => "FragmentedGpus",
            RejectCode::ResidualExhausted => "ResidualExhausted",
            RejectCode::SloMiss => "SloMiss",
            RejectCode::CrossRailUnsupported => "CrossRailUnsupported",
            RejectCode::DeadElementOnPath => "DeadElementOnPath",
            RejectCode::EpochPrepareFailed => "EpochPrepareFailed",
            RejectCode::MixDoesNotFit => "MixDoesNotFit",
            RejectCode::OddRingDegenerate => "OddRingDegenerate",
            RejectCode::ZeroLeftover => "ZeroLeftover",
        }
    }
}

/// The exit status of each outcome.
pub open spec fn spec_exit_code(e: ProcessExit) -> i32 {
    match e {
        ProcessExit::Success => 0,
        ProcessExit::Usage => 1,
        ProcessExit::BadInput => 2,
        ProcessExit::InvariantFail => 3,
        ProcessExit::MixDoesNotFit => 4,
        ProcessExit::IoAbort => 5,
    }
}

impl ProcessExit {
    pub fn code(self) -> (r: i32)
        ensures
            r == spec_exit_code(self),
    {
        match self {
            ProcessExit::Success => 0,
            ProcessExit::Usage => 1,
            ProcessExit::BadInput => 2,
            ProcessExit::InvariantFail => 3,
            ProcessExit::MixDoesNotFit => 4,
            ProcessExit::IoAbort => 5,
        }
    }
}

impl Policy {
    pub fn as_str(self) -> (r: &'static str)
        ensures
            r@ == (match self {
                Policy::Naive => "naive"@,
                Policy::Joint => "joint"@,
            }),
    {
        match self {
            Policy::Naive => "naive",
            Policy::Joint => "joint",
        }
    }
}

impl BindingKind {
    pub fn as_str(self) -> (r: &'static str)
        ensures
            r@ == (match self {
                BindingKind::NaiveFirstFit => "NaiveFirstFit"@,
                BindingKind::FirstFitShift { .. } => "FirstFitShift"@,
                BindingKind::RailRotate { .. } => "RailRotate"@,
            }),
    {
        match self {
            BindingKind::NaiveFirstFit => "NaiveFirstFit",
            BindingKind::FirstFitShift { .. } => "FirstFitShift",
            BindingKind::RailRotate { .. } => "RailRotate",
        }
    }
}

/// Whole microseconds in a picosecond count, rounded down (floor of
/// `ps / 10^6`, also for negative counts).
pub open spec fn spec_ps_to_us(ps: int) -> int {
    ps / 1_000_000
}

/// Integer microseconds: the floor of `ps / 1_000_000`. Never `/ 1000`.
pub fn ps_to_us(ps: i128) -> (r: i128)
    ensures
        r == spec_ps_to_us(ps as int),
        r * 1_000_000 <= ps < (r + 1) * 1_000_000,
{
    if ps >= 0 {
        let q = ps / 1_000_000;
        assert(q == ps as int / 1_000_000);
        q
    } else {
        let n = -(ps + 1);
        let q = n / 1_000_000;
        proof {
            let pi = ps as int;
            let ni = n as int;
            assert(ni == -pi - 1);
            assert(q == ni / 1_000_000);
            assert(q * 1_000_000 <= ni < (q + 1) * 1_000_000) by (nonlinear_arith)
                requires
                    q == ni / 1_000_000,
                    ni >= 0,
            ;
            assert((-q - 1) * 1_000_000 <= pi < (-q) * 1_000_000) by (nonlinear_arith)
                requires
                    q * 1_000_000 <= ni < (q + 1) * 1_000_000,
                    ni == -pi - 1,
            ;
            assert(pi / 1_000_000 == -q - 1) by (nonlinear_arith)
                requires
                    (-q - 1) * 1_000_000 <= pi < (-q) * 1_000_000,
            ;
        }
        -q - 1
    }
}

} // verus!
