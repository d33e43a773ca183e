//! The bookkeeping and the decisions of a running job.
//!
//! A running job alternates work on the machine (locating boards, changing
//! tips, picking, aligning, placing, waiting for the operator) with decisions.
//! `JobRunner::step` makes the decisions: it takes the outcome of the last piece
//! of work and returns the next piece to perform, updating the job's state.

use vstd::prelude::*;

use crate::job::types::AssignmentView;
use crate::job::types::JobStep;
use crate::job::types::NozzleAssignment;
use crate::job::types::NozzleId;
use crate::job::types::PlacementState;
use crate::job::types::PlacementView;
use crate::job::types::StepView;
use crate::job::types::TipChange;
use crate::job::types::TipChangeView;
use crate::job::types::opt_view;

verus! {

/// Why a job is paused.
#[derive(Debug, Clone)]
pub enum PauseReason {
    UserRequested,
    PickFailed { placement: String, attempts: u32 },
    VisionFailed { placement: String },
    FeederEmpty { feeder_id: String },
}

pub enum ReasonView {
    UserRequested,
    PickFailed { placement: Seq<char>, attempts: u32 },
    VisionFailed { placement: Seq<char> },
    FeederEmpty { feeder_id: Seq<char> },
}

impl View for PauseReason {
    type V = ReasonView;

    open spec fn view(&self) -> ReasonView {
        match self {
            PauseReason::UserRequested => ReasonView::UserRequested,
            PauseReason::PickFailed { placement, attempts } => ReasonView::PickFailed {
                placement: placement@,
                attempts: *attempts,
            },
            PauseReason::VisionFailed { placement } => ReasonView::VisionFailed {
                placement: placement@,
            },
            PauseReason::FeederEmpty { feeder_id } => ReasonView::FeederEmpty {
                feeder_id: feeder_id@,
            },
        }
    }
}

impl PauseReason {
    /// A copy of the reason.
    pub fn duplicate(&self) -> (r: PauseReason)
        ensures
            r@ == self@,
    {
        match self {
            PauseReason::UserRequested => PauseReason::UserRequested,
            PauseReason::PickFailed { placement, attempts } => PauseReason::PickFailed {
                placement: placement.clone(),
                attempts: *attempts,
            },
            PauseReason::VisionFailed { placement } => PauseReason::VisionFailed {
                placement: placement.clone(),
            },
            PauseReason::FeederEmpty { feeder_id } => PauseReason::FeederEmpty {
                feeder_id: feeder_id.clone(),
            },
        }
    }
}

/// Where a job stands.
#[derive(Debug, Clone)]
pub enum JobStatus {
    Idle,
    Running,
    Paused { reason: PauseReason },
    Complete,
    Error { message: String },
}

pub enum StatusView {
    Idle,
    Running,
    Paused(ReasonView),
    Complete,
    Error(Seq<char>),
}

impl View for JobStatus {
    type V = StatusView;

    open spec fn view(&self) -> StatusView {
        match self {
            JobStatus::Idle => StatusView::Idle,
            JobStatus::Running => StatusView::Running,
            JobStatus::Paused { reason } => StatusView::Paused(reason@),
            JobStatus::Complete => StatusView::Complete,
            JobStatus::Error { message } => StatusView::Error(message@),
        }
    }
}

impl JobStatus {
    /// A copy of the status.
    pub fn duplicate(&self) -> (r: JobStatus)
        ensures
            r@ == self@,
    {
        match self {
            JobStatus::Idle => JobStatus::Idle,
            JobStatus::Running => JobStatus::Running,
            JobStatus::Paused { reason } => JobStatus::Paused { reason: reason.duplicate() },
            JobStatus::Complete => JobStatus::Complete,
            JobStatus::Error { message } => JobStatus::Error { message: message.clone() },
        }
    }
}

/// Counters of a job.
#[derive(Debug, Clone, Copy, PartialEq, Eq, Structural)]
pub struct JobStats {
    pub total_placements: usize,
    pub completed: usize,
    pub failed: usize,
    pub skipped: usize,
    pub pick_retries: usize,
}

impl JobStats {
    /// Counters of a job that has `total_placements` placements to make and
    /// has made none yet.
    pub fn new(total_placements: usize) -> (s: JobStats)
        ensures
            s == (JobStats {
                total_placements,
                completed: 0,
                failed: 0,
                skipped: 0,
                pick_retries: 0,
            }),
    {
        JobStats { total_placements, completed: 0, failed: 0, skipped: 0, pick_retries: 0 }
    }
}

/// The placements of one board of a job.
pub struct BoardState {
    pub board_idx: usize,
    pub placements: Vec<PlacementState>,
}

/// The state of a job that others may watch.
pub struct JobState {
    pub status: JobStatus,
    pub boards: Vec<BoardState>,
    pub stats: JobStats,
}

pub struct JobStateView {
    pub status: StatusView,
    pub boards: Seq<Seq<PlacementView>>,
    /// The index that each board carries.
    pub board_ids: Seq<usize>,
    pub stats: JobStats,
}

pub open spec fn pviews(v: Seq<PlacementState>) -> Seq<PlacementView> {
    v.map_values(|p: PlacementState| p@)
}

pub open spec fn bviews(v: Seq<BoardState>) -> Seq<Seq<PlacementView>> {
    v.map_values(|b: BoardState| pviews(b.placements@))
}

impl View for JobState {
    type V = JobStateView;

    open spec fn view(&self) -> JobStateView {
        JobStateView {
            status: self.status@,
            boards: bviews(self.boards@),
            board_ids: self.boards@.map_values(|b: BoardState| b.board_idx),
            stats: self.stats,
        }
    }
}

/// The number of `true` entries in `v`.
pub open spec fn count_true(v: Seq<bool>) -> nat
    decreases v.len(),
{
    if v.len() == 0 {
        0
    } else {
        count_true(v.drop_last()) + if v.last() {
            1nat
        } else {
            0nat
        }
    }
}

/// The number of enabled placements over all boards.
pub open spec fn count_enabled(boards: Seq<Seq<bool>>) -> nat
    decreases boards.len(),
{
    if boards.len() == 0 {
        0
    } else {
        count_enabled(boards.drop_last()) + count_true(boards.last())
    }
}

/// The initial state of a placement: pending when it is enabled, else skipped.
pub open spec fn initial_state(enabled: bool) -> PlacementView {
    if enabled {
        PlacementView::Pending
    } else {
        PlacementView::Skipped
    }
}

impl JobState {
    /// The state of a job that starts on boards whose placements are enabled as
    /// `enabled` says: every enabled placement is pending, every other one is
    /// skipped, and the job has as many placements to make as are enabled.
    pub fn start(enabled: &Vec<Vec<bool>>) -> (s: JobState)
        requires
            count_enabled(enabled@.map_values(|b: Vec<bool>| b@)) <= usize::MAX,
        ensures
            s@.status == StatusView::Running,
            s@.stats == JobStats::new_spec(count_enabled(enabled@.map_values(|b: Vec<bool>| b@))
                as usize),
            s@.boards.len() == enabled@.len(),
            forall|b: int| 0 <= b < enabled@.len() ==> #[trigger] s@.boards[b].len() == enabled@[b]@.len(),
            forall|b: int, i: int|
                0 <= b < enabled@.len() && 0 <= i < enabled@[b]@.len() ==> s@.boards[b][i]
                    == initial_state(enabled@[b]@[i]),
            forall|b: int| 0 <= b < s.boards@.len() ==> #[trigger] s.boards@[b].board_idx == b,
            s@.board_ids == Seq::new(enabled@.len(), |b: int| b as usize),
    {
        let ghost ev = enabled@.map_values(|b: Vec<bool>| b@);
        let mut boards: Vec<BoardState> = Vec::new();
        let mut total: usize = 0;
        let mut b: usize = 0;
        while b < enabled.len()
            invariant
                ev == enabled@.map_values(|b: Vec<bool>| b@),
                count_enabled(ev) <= usize::MAX,
                b <= enabled@.len(),
                total == count_enabled(ev.subrange(0, b as int)),
                boards@.len() == b,
                forall|k: int| 0 <= k < b ==> #[trigger] boards@[k].placements@.len() == enabled@[k]@.len(),
                forall|k: int, i: int|
                    0 <= k < b && 0 <= i < enabled@[k]@.len() ==> boards@[k].placements@[i]@
                        == initial_state(enabled@[k]@[i]),
                forall|k: int| 0 <= k < b ==> #[trigger] boards@[k].board_idx == k,
            decreases enabled@.len() - b,
        {
            let row = &enabled[b];
            let mut states: Vec<PlacementState> = Vec::new();
            let mut n: usize = 0;
            let mut i: usize = 0;
            proof {
                lemma_count_enabled_prefix(ev, b as int + 1);
                assert(ev.subrange(0, b + 1).drop_last() =~= ev.subrange(0, b as int));
                assert(ev.subrange(0, b + 1).last() == row@);
            }
            while i < row.len()
                invariant
                    i <= row@.len(),
                    n == count_true(row@.subrange(0, i as int)),
                    n <= count_true(row@),
                    count_true(row@) <= usize::MAX,
                    states@.len() == i,
                    forall|k: int| 0 <= k < i ==> states@[k]@ == initial_state(row@[k]),
                decreases row@.len() - i,
            {
                proof {
                    assert(row@.subrange(0, i + 1).drop_last() =~= row@.subrange(0, i as int));
                    lemma_count_true_prefix(row@, i + 1);
                }
                if row[i] {
                    states.push(PlacementState::Pending);
                    n = n + 1;
                } else {
                    states.push(PlacementState::Skipped);
                }
                i += 1;
            }
            assert(row@.subrange(0, row@.len() as int) =~= row@);
            total = total + n;
            boards.push(BoardState { board_idx: b, placements: states });
            b += 1;
        }
        assert(ev.subrange(0, ev.len() as int) =~= ev);
        let s = JobState { status: JobStatus::Running, boards, stats: JobStats::new(total) };
        assert(s@.board_ids =~= Seq::new(enabled@.len(), |b: int| b as usize));
        assert forall|b: int| 0 <= b < enabled@.len() implies #[trigger] s@.boards[b].len()
            == enabled@[b]@.len() by {}
        s
    }
}

impl JobStats {
    pub open spec fn new_spec(total_placements: usize) -> JobStats {
        JobStats { total_placements, completed: 0, failed: 0, skipped: 0, pick_retries: 0 }
    }
}

proof fn lemma_count_true_prefix(v: Seq<bool>, n: int)
    requires
        0 <= n <= v.len(),
    ensures
        count_true(v.subrange(0, n)) <= count_true(v),
    decreases v.len(),
{
    if n < v.len() {
        assert(v.drop_last().subrange(0, n) =~= v.subrange(0, n));
        lemma_count_true_prefix(v.drop_last(), n);
    } else {
        assert(v.subrange(0, n) =~= v);
    }
}

proof fn lemma_count_enabled_prefix(v: Seq<Seq<bool>>, n: int)
    requires
        0 <= n <= v.len(),
    ensures
        count_enabled(v.subrange(0, n)) <= count_enabled(v),
    decreases v.len(),
{
    if n < v.len() {
        assert(v.drop_last().subrange(0, n) =~= v.subrange(0, n));
        lemma_count_enabled_prefix(v.drop_last(), n);
    } else {
        assert(v.subrange(0, n) =~= v);
    }
}


/// A command sent to a running job.
#[derive(Debug, Clone, Copy, PartialEq, Eq, Structural)]
pub enum JobControl {
    Pause,
    Resume,
    Abort,
    SkipPlacement { board_idx: usize, placement_idx: usize },
}

/// What the runner needs to know of a board of the job: whether the job uses
/// it, and how many fiducials its configuration lists.
#[derive(Debug, Clone, Copy, PartialEq, Eq, Structural)]
pub struct RunBoard {
    pub enabled: bool,
    pub fiducials: usize,
}

/// Where the runner stands in the job.
#[derive(Debug, Clone, Copy, PartialEq, Eq, Structural)]
pub enum Phase {
    /// Nothing done yet.
    Start,
    /// Reading the pending commands before board `b`.
    CheckBoard(usize),
    /// Locating board `b` (or taking its origin).
    AtBoard(usize),
    /// Waiting for the plan.
    Planning,
    /// Reading the pending commands before step `s` of the plan.
    CheckStep(usize),
    /// Working on item `i` of step `s` (a step of tip changes has one item).
    AtItem(usize, usize),
    /// Finished.
    Done,
}

/// The outcome of the last piece of work.
pub enum RunEvent {
    /// The job begins.
    Begin,
    /// A command was read.
    Control(JobControl),
    /// No command is pending.
    NoControl,
    /// The command channel was closed while waiting for a command.
    Closed,
    /// The work succeeded; a pick reports how many times it was retried.
    Succeeded { retries: u32 },
    /// The work failed with this error.
    Failed { error: String },
    /// The plan of the job's placements.
    Planned(Vec<JobStep>),
}

pub enum EventView {
    Begin,
    Control(JobControl),
    NoControl,
    Closed,
    Succeeded(u32),
    Failed(Seq<char>),
    Planned(Seq<StepView>),
}

pub open spec fn sviews(v: Seq<JobStep>) -> Seq<StepView> {
    v.map_values(|s: JobStep| s@)
}

impl View for RunEvent {
    type V = EventView;

    open spec fn view(&self) -> EventView {
        match self {
            RunEvent::Begin => EventView::Begin,
            RunEvent::Control(c) => EventView::Control(*c),
            RunEvent::NoControl => EventView::NoControl,
            RunEvent::Closed => EventView::Closed,
            RunEvent::Succeeded { retries } => EventView::Succeeded(*retries),
            RunEvent::Failed { error } => EventView::Failed(error@),
            RunEvent::Planned(v) => EventView::Planned(sviews(v@)),
        }
    }
}

/// The next piece of work.
pub enum RunAction {
    /// Read the next pending command without waiting.
    CheckControl,
    /// Announce that the job is paused for this reason, then wait for a command.
    Pause(PauseReason),
    /// Wait for the next command.
    AwaitControl,
    /// Announce that the job runs again.
    Resumed,
    /// Locate the board by its fiducials.
    LocateBoard { board_idx: usize },
    /// Take the board's origin as its position.
    UseOrigin { board_idx: usize },
    /// Plan the placements that are still pending.
    Plan,
    /// Swap nozzle tips.
    ChangeTips(Vec<TipChange>),
    /// Pick the assignment's part.
    Pick(NozzleAssignment),
    /// Align the part on the assignment's nozzle.
    Align(NozzleAssignment),
    /// Place the assignment's part.
    Place(NozzleAssignment),
    /// The job ended with this status.
    Finish(JobStatus),
    /// Nothing to do: the event did not fit where the job stands.
    Idle,
}

pub enum ActionView {
    CheckControl,
    Pause(ReasonView),
    AwaitControl,
    Resumed,
    LocateBoard(nat),
    UseOrigin(nat),
    Plan,
    ChangeTips(Seq<TipChangeView>),
    Pick(AssignmentView),
    Align(AssignmentView),
    Place(AssignmentView),
    Finish(StatusView),
    Idle,
}

pub open spec fn tviews(v: Seq<TipChange>) -> Seq<TipChangeView> {
    v.map_values(|c: TipChange| c@)
}

impl View for RunAction {
    type V = ActionView;

    open spec fn view(&self) -> ActionView {
        match self {
            RunAction::CheckControl => ActionView::CheckControl,
            RunAction::Pause(r) => ActionView::Pause(r@),
            RunAction::AwaitControl => ActionView::AwaitControl,
            RunAction::Resumed => ActionView::Resumed,
            RunAction::LocateBoard { board_idx } => ActionView::LocateBoard(*board_idx as nat),
            RunAction::UseOrigin { board_idx } => ActionView::UseOrigin(*board_idx as nat),
            RunAction::Plan => ActionView::Plan,
            RunAction::ChangeTips(v) => ActionView::ChangeTips(tviews(v@)),
            RunAction::Pick(a) => ActionView::Pick(a@),
            RunAction::Align(a) => ActionView::Align(a@),
            RunAction::Place(a) => ActionView::Place(a@),
            RunAction::Finish(s) => ActionView::Finish(s@),
            RunAction::Idle => ActionView::Idle,
        }
    }
}

/// The decisions of a running job, with the job's state.
pub struct JobRunner {
    pub job: JobState,
    pub boards: Vec<RunBoard>,
    pub plan: Vec<JobStep>,
    pub phase: Phase,
    pub paused: bool,
    pub n1_tip: Option<String>,
    pub n2_tip: Option<String>,
}

pub struct RunnerView {
    pub job: JobStateView,
    pub boards: Seq<RunBoard>,
    pub plan: Seq<StepView>,
    pub phase: Phase,
    pub paused: bool,
    pub n1: Option<Seq<char>>,
    pub n2: Option<Seq<char>>,
}

impl View for JobRunner {
    type V = RunnerView;

    open spec fn view(&self) -> RunnerView {
        RunnerView {
            job: self.job@,
            boards: self.boards@,
            plan: sviews(self.plan@),
            phase: self.phase,
            paused: self.paused,
            n1: opt_view(self.n1_tip),
            n2: opt_view(self.n2_tip),
        }
    }
}

/// The assignments of a batch step; none for other steps.
pub open spec fn batch_of(st: StepView) -> Seq<AssignmentView> {
    match st {
        StepView::PickBatch(a) => a,
        StepView::AlignBatch(a) => a,
        StepView::PlaceBatch(a) => a,
        _ => seq![],
    }
}

/// The phase points at a board, a step and an item that exist.
pub open spec fn runner_wf(r: RunnerView) -> bool {
    match r.phase {
        Phase::CheckBoard(b) => b < r.boards.len(),
        Phase::AtBoard(b) => b < r.boards.len(),
        Phase::CheckStep(s) => s < r.plan.len(),
        Phase::AtItem(s, i) => s < r.plan.len() && match r.plan[s as int] {
            StepView::FiducialCheck { .. } => false,
            StepView::ChangeTips(_) => true,
            _ => i < batch_of(r.plan[s as int]).len(),
        },
        _ => true,
    }
}

/// The counters have room for what the event may add.
pub open spec fn counts_fit(st: JobStats, e: EventView) -> bool {
    &&& st.completed < usize::MAX
    &&& st.failed < usize::MAX
    &&& st.skipped < usize::MAX
    &&& (e matches EventView::Succeeded(n) ==> st.pick_retries + n <= usize::MAX)
}

/// The first board at or after `b` that the job uses (the number of boards if
/// there is none).
pub open spec fn first_enabled(bs: Seq<RunBoard>, b: nat) -> nat
    decreases bs.len() - b,
{
    if b >= bs.len() {
        b
    } else if bs[b as int].enabled {
        b
    } else {
        first_enabled(bs, b + 1)
    }
}

pub open spec fn with_phase(r: RunnerView, p: Phase) -> RunnerView {
    RunnerView { phase: p, ..r }
}

pub open spec fn with_status(r: RunnerView, st: StatusView) -> RunnerView {
    RunnerView { job: JobStateView { status: st, ..r.job }, ..r }
}

/// The job ends with status `st`.
pub open spec fn finish(r: RunnerView, st: StatusView) -> (RunnerView, ActionView) {
    (RunnerView { phase: Phase::Done, paused: false, ..with_status(r, st) }, ActionView::Finish(st))
}

/// Go on with the first used board at or after `b`, or plan when none is left.
pub open spec fn enter_board(r: RunnerView, b: nat) -> (RunnerView, ActionView) {
    let n = first_enabled(r.boards, b);
    if n < r.boards.len() {
        (with_phase(r, Phase::CheckBoard(n as usize)), ActionView::CheckControl)
    } else {
        (with_phase(r, Phase::Planning), ActionView::Plan)
    }
}

/// Locate board `b` when it has two fiducials or more, else take its origin.
pub open spec fn at_board(r: RunnerView, b: usize) -> (RunnerView, ActionView) {
    (
        with_phase(r, Phase::AtBoard(b)),
        if r.boards[b as int].fiducials >= 2 {
            ActionView::LocateBoard(b as nat)
        } else {
            ActionView::UseOrigin(b as nat)
        },
    )
}

/// Go on with step `s` of the plan, or complete the job when none is left.
pub open spec fn enter_step(r: RunnerView, s: nat) -> (RunnerView, ActionView) {
    if s < r.plan.len() {
        (with_phase(r, Phase::CheckStep(s as usize)), ActionView::CheckControl)
    } else {
        finish(r, StatusView::Complete)
    }
}

pub open spec fn item_action(st: StepView, a: AssignmentView) -> ActionView {
    match st {
        StepView::PickBatch(_) => ActionView::Pick(a),
        StepView::AlignBatch(_) => ActionView::Align(a),
        _ => ActionView::Place(a),
    }
}

/// Go on with item `i` of batch step `s`, or with the next step after the
/// batch's last item.
pub open spec fn enter_item(r: RunnerView, s: usize, i: nat) -> (RunnerView, ActionView) {
    let a = batch_of(r.plan[s as int]);
    if i < a.len() {
        (with_phase(r, Phase::AtItem(s, i as usize)), item_action(r.plan[s as int], a[i as int]))
    } else {
        enter_step(r, (s + 1) as nat)
    }
}

/// Start step `s` once the pending commands are read.
pub open spec fn begin_step(r: RunnerView, s: usize) -> (RunnerView, ActionView) {
    match r.plan[s as int] {
        StepView::FiducialCheck { .. } => enter_step(r, (s + 1) as nat),
        StepView::ChangeTips(c) => (with_phase(r, Phase::AtItem(s, 0)), ActionView::ChangeTips(c)),
        _ => enter_item(r, s, 0),
    }
}

/// Placement `p` of board `b` exists.
pub open spec fn in_range(bs: Seq<Seq<PlacementView>>, b: int, p: int) -> bool {
    0 <= b < bs.len() && 0 <= p < bs[b].len()
}

pub open spec fn set_state(bs: Seq<Seq<PlacementView>>, b: int, p: int, v: PlacementView) -> Seq<
    Seq<PlacementView>,
> {
    bs.update(b, bs[b].update(p, v))
}

/// A skip: the placement, when it exists, becomes skipped and is counted.
pub open spec fn apply_skip(j: JobStateView, b: int, p: int) -> JobStateView {
    if in_range(j.boards, b, p) {
        JobStateView {
            boards: set_state(j.boards, b, p, PlacementView::Skipped),
            stats: JobStats { skipped: (j.stats.skipped + 1) as usize, ..j.stats },
            ..j
        }
    } else {
        j
    }
}

/// The outcome of a placement: the placement, when it exists, takes the state
/// `v` and is counted as completed or failed.
pub open spec fn record(j: JobStateView, a: AssignmentView, v: PlacementView) -> JobStateView {
    if in_range(j.boards, a.board_idx as int, a.placement_idx as int) {
        JobStateView {
            boards: set_state(j.boards, a.board_idx as int, a.placement_idx as int, v),
            stats: if v is Placed {
                JobStats { completed: (j.stats.completed + 1) as usize, ..j.stats }
            } else {
                JobStats { failed: (j.stats.failed + 1) as usize, ..j.stats }
            },
            ..j
        }
    } else {
        j
    }
}

/// The tips on the nozzles after the changes `c`, in order.
pub open spec fn apply_tips(n1: Option<Seq<char>>, n2: Option<Seq<char>>, c: Seq<TipChangeView>) -> (
    Option<Seq<char>>,
    Option<Seq<char>>,
)
    decreases c.len(),
{
    if c.len() == 0 {
        (n1, n2)
    } else {
        let (a, b) = apply_tips(n1, n2, c.drop_last());
        match c.last().nozzle {
            NozzleId::N1 => (Some(c.last().to_tip), b),
            NozzleId::N2 => (a, Some(c.last().to_tip)),
        }
    }
}

pub open spec fn aborted() -> Seq<char> {
    "Job aborted"@
}

pub open spec fn channel_closed() -> Seq<char> {
    "Job control channel closed"@
}

/// A command read while the job runs.
pub open spec fn on_control(r: RunnerView, c: JobControl) -> (RunnerView, ActionView) {
    match c {
        JobControl::Abort => finish(r, StatusView::Error(aborted())),
        JobControl::Pause => (
            RunnerView {
                paused: true,
                ..with_status(r, StatusView::Paused(ReasonView::UserRequested))
            },
            ActionView::Pause(ReasonView::UserRequested),
        ),
        JobControl::SkipPlacement { board_idx, placement_idx } => (
            RunnerView { job: apply_skip(r.job, board_idx as int, placement_idx as int), ..r },
            ActionView::CheckControl,
        ),
        JobControl::Resume => (r, ActionView::CheckControl),
    }
}

/// An event while the job is paused.
pub open spec fn on_wait(r: RunnerView, e: EventView) -> (RunnerView, ActionView) {
    match e {
        EventView::Control(JobControl::Resume) => (
            RunnerView { paused: false, ..with_status(r, StatusView::Running) },
            ActionView::Resumed,
        ),
        EventView::Control(JobControl::Abort) => finish(r, StatusView::Error(aborted())),
        EventView::Control(JobControl::SkipPlacement { board_idx, placement_idx }) => (
            RunnerView { job: apply_skip(r.job, board_idx as int, placement_idx as int), ..r },
            ActionView::AwaitControl,
        ),
        EventView::Closed => finish(r, StatusView::Error(channel_closed())),
        _ => (r, ActionView::AwaitControl),
    }
}

/// The outcome of the work on item `i` of step `s`.
pub open spec fn at_item(r: RunnerView, s: usize, i: usize, e: EventView) -> (
    RunnerView,
    ActionView,
) {
    match r.plan[s as int] {
        StepView::ChangeTips(c) => match e {
            EventView::Succeeded(_) => {
                let (n1, n2) = apply_tips(r.n1, r.n2, c);
                enter_step(RunnerView { n1, n2, ..r }, (s + 1) as nat)
            },
            EventView::Failed(m) => finish(r, StatusView::Error("Tip change failed: "@ + m)),
            _ => (r, ActionView::Idle),
        },
        StepView::PickBatch(a) => match e {
            EventView::Succeeded(n) => enter_item(
                RunnerView {
                    job: JobStateView {
                        stats: JobStats {
                            pick_retries: (r.job.stats.pick_retries + n) as usize,
                            ..r.job.stats
                        },
                        ..r.job
                    },
                    ..r
                },
                s,
                ((i + 1) as nat) as nat,
            ),
            EventView::Failed(_) => {
                let reason = ReasonView::PickFailed { placement: a[i as int].part_id, attempts: 0 };
                (
                    RunnerView { paused: true, ..with_status(r, StatusView::Paused(reason)) },
                    ActionView::Pause(reason),
                )
            },
            _ => (r, ActionView::Idle),
        },
        StepView::AlignBatch(_) => match e {
            EventView::Succeeded(_) => enter_item(r, s, (i + 1) as nat),
            EventView::Failed(_) => enter_item(r, s, (i + 1) as nat),
            _ => (r, ActionView::Idle),
        },
        StepView::PlaceBatch(a) => match e {
            EventView::Succeeded(_) => enter_item(
                RunnerView { job: record(r.job, a[i as int], PlacementView::Placed), ..r },
                s,
                ((i + 1) as nat) as nat,
            ),
            EventView::Failed(m) => enter_item(
                RunnerView { job: record(r.job, a[i as int], PlacementView::Failed(m)), ..r },
                s,
                ((i + 1) as nat) as nat,
            ),
            _ => (r, ActionView::Idle),
        },
        StepView::FiducialCheck { .. } => (r, ActionView::Idle),
    }
}

/// The runner's decision on an event: its next state and the next piece of work.
pub open spec fn next(r: RunnerView, e: EventView) -> (RunnerView, ActionView) {
    if r.paused {
        on_wait(r, e)
    } else {
        match r.phase {
            Phase::Start => match e {
                EventView::Begin => enter_board(r, 0),
                _ => (r, ActionView::Idle),
            },
            Phase::CheckBoard(b) => match e {
                EventView::Control(c) => on_control(r, c),
                EventView::NoControl => at_board(r, b),
                EventView::Succeeded(_) => (r, ActionView::CheckControl),
                _ => (r, ActionView::Idle),
            },
            Phase::AtBoard(b) => match e {
                EventView::Succeeded(_) => enter_board(r, (b + 1) as nat),
                EventView::Failed(m) => finish(r, StatusView::Error("Fiducial check failed: "@ + m)),
                _ => (r, ActionView::Idle),
            },
            Phase::Planning => match e {
                EventView::Planned(steps) => enter_step(RunnerView { plan: steps, ..r }, 0),
                _ => (r, ActionView::Idle),
            },
            Phase::CheckStep(s) => match e {
                EventView::Control(c) => on_control(r, c),
                EventView::NoControl => begin_step(r, s),
                EventView::Succeeded(_) => (r, ActionView::CheckControl),
                _ => (r, ActionView::Idle),
            },
            Phase::AtItem(s, i) => at_item(r, s, i, e),
            Phase::Done => (r, ActionView::Idle),
        }
    }
}

/// The number of placements and of boards never changes while a job runs.
pub open spec fn same_shape(a: Seq<Seq<PlacementView>>, b: Seq<Seq<PlacementView>>) -> bool {
    a.len() == b.len() && forall|k: int| 0 <= k < a.len() ==> #[trigger] a[k].len() == b[k].len()
}

/// Counters only grow, and the number of placements to make stays as it was.
pub open spec fn counters_grow(a: JobStats, b: JobStats) -> bool {
    &&& b.total_placements == a.total_placements
    &&& a.completed <= b.completed
    &&& a.failed <= b.failed
    &&& a.skipped <= b.skipped
    &&& a.pick_retries <= b.pick_retries
}

/// Whatever happens, a step keeps the boards and their placements, keeps the
/// number of placements to make, and never lowers a counter.
pub proof fn lemma_step_keeps_counts(r: RunnerView, e: EventView)
    requires
        runner_wf(r),
        counts_fit(r.job.stats, e),
    ensures
        same_shape(r.job.boards, next(r, e).0.job.boards),
        counters_grow(r.job.stats, next(r, e).0.job.stats),
        next(r, e).0.boards == r.boards,
        next(r, e).0.job.board_ids == r.job.board_ids,
{
}

/// A finished job stays finished and asks for nothing more.
pub proof fn lemma_done_is_final(r: RunnerView, e: EventView)
    requires
        r.phase == Phase::Done,
        !r.paused,
    ensures
        next(r, e) == (r, ActionView::Idle),
{
}

/// A command to abort, read while the job waits for commands or reads them,
/// ends the job with the error "Job aborted".
pub proof fn lemma_abort_ends_job(r: RunnerView)
    requires
        r.paused || r.phase is CheckBoard || r.phase is CheckStep,
    ensures
        next(r, EventView::Control(JobControl::Abort)).0.phase == Phase::Done,
        next(r, EventView::Control(JobControl::Abort)).0.job.status == StatusView::Error(aborted()),
        next(r, EventView::Control(JobControl::Abort)).1 == ActionView::Finish(
            StatusView::Error(aborted()),
        ),
{
}

/// A command to skip a placement, read while the job waits for commands or
/// reads them, marks that placement skipped and counts it when it exists, and
/// changes nothing else of the job; the job keeps reading commands.
pub proof fn lemma_skip_marks_placement(r: RunnerView, b: usize, p: usize)
    requires
        r.paused || r.phase is CheckBoard || r.phase is CheckStep,
        r.job.stats.skipped < usize::MAX,
    ensures
        ({
            let (r2, a) = next(
                r,
                EventView::Control(JobControl::SkipPlacement { board_idx: b, placement_idx: p }),
            );
            &&& r2.phase == r.phase
            &&& r2.paused == r.paused
            &&& r2.job.status == r.job.status
            &&& a == (if r.paused {
                ActionView::AwaitControl
            } else {
                ActionView::CheckControl
            })
            &&& if in_range(r.job.boards, b as int, p as int) {
                &&& r2.job.boards[b as int][p as int] == PlacementView::Skipped
                &&& r2.job.stats.skipped == r.job.stats.skipped + 1
                &&& forall|k: int, q: int|
                    in_range(r.job.boards, k, q) && (k != b || q != p) ==> r2.job.boards[k][q]
                        == r.job.boards[k][q]
            } else {
                r2.job == r.job
            }
        }),
{
}

/// A command to pause, read while the job runs and reads commands, pauses it
/// at the operator's request; a command to resume then lets it run on from
/// where it stood.
pub proof fn lemma_pause_then_resume(r: RunnerView)
    requires
        !r.paused,
        r.phase is CheckBoard || r.phase is CheckStep,
    ensures
        ({
            let (r2, a2) = next(r, EventView::Control(JobControl::Pause));
            let (r3, a3) = next(r2, EventView::Control(JobControl::Resume));
            &&& r2.paused
            &&& r2.job.status == StatusView::Paused(ReasonView::UserRequested)
            &&& a2 == ActionView::Pause(ReasonView::UserRequested)
            &&& !r3.paused
            &&& r3.job.status == StatusView::Running
            &&& a3 == ActionView::Resumed
            &&& r3.phase == r.phase
            &&& r3.job.boards == r.job.boards
            &&& r3.job.stats == r.job.stats
        }),
{
}

fn copy_changes(v: &Vec<TipChange>) -> (r: Vec<TipChange>)
    ensures
        tviews(r@) == tviews(v@),
{
    let mut r: Vec<TipChange> = Vec::new();
    let mut i: usize = 0;
    while i < v.len()
        invariant
            i <= v@.len(),
            tviews(r@) =~= tviews(v@.subrange(0, i as int)),
        decreases v@.len() - i,
    {
        let ghost r0 = r@;
        r.push(v[i].duplicate());
        proof {
            assert(tviews(r@) =~= tviews(r0).push(v@[i as int]@));
            assert(tviews(v@.subrange(0, i + 1)) =~= tviews(v@.subrange(0, i as int)).push(
                v@[i as int]@,
            ));
        }
        i += 1;
    }
    assert(v@.subrange(0, v@.len() as int) =~= v@);
    r
}

fn copy_opt(o: &Option<String>) -> (r: Option<String>)
    ensures
        opt_view(r) == opt_view(*o),
{
    match o {
        Some(t) => Some(t.clone()),
        None => None,
    }
}

fn batch_len(step: &JobStep) -> (n: usize)
    ensures
        n == batch_of(step@).len(),
{
    match step {
        JobStep::PickBatch(v) => v.len(),
        JobStep::AlignBatch(v) => v.len(),
        JobStep::PlaceBatch(v) => v.len(),
        _ => 0,
    }
}

fn message(prefix: &str, detail: &String) -> (m: String)
    ensures
        m@ == prefix@ + detail@,
{
    let mut m = prefix.to_string();
    m.append(detail.as_str());
    m
}

impl JobState {
    fn set_placement(&mut self, b: usize, p: usize, v: PlacementState)
        requires
            in_range(old(self)@.boards, b as int, p as int),
        ensures
            final(self)@ == (JobStateView {
                boards: set_state(old(self)@.boards, b as int, p as int, v@),
                ..old(self)@
            }),
            final(self).boards@.len() == old(self).boards@.len(),
            forall|k: int|
                0 <= k < old(self).boards@.len() ==> #[trigger] final(self).boards@[k].board_idx
                    == old(self).boards@[k].board_idx,
    {
        let ghost old_boards = self.boards@;
        let mut board = self.boards.remove(b);
        let ghost bp = board.placements@;
        board.placements.set(p, v);
        assert(pviews(board.placements@) =~= pviews(bp).update(p as int, v@));
        self.boards.insert(b, board);
        assert(bviews(self.boards@) =~= set_state(bviews(old_boards), b as int, p as int, v@));
        assert forall|k: int| 0 <= k < old_boards.len() implies #[trigger] self.boards@[k].board_idx
            == old_boards[k].board_idx by {
            if k != b {
                assert(self.boards@[k] == old_boards[k]);
            }
        }
        assert(self.boards@.map_values(|x: BoardState| x.board_idx) =~= old_boards.map_values(
            |x: BoardState| x.board_idx,
        ));
    }

    fn skip(&mut self, b: usize, p: usize)
        requires
            old(self).stats.skipped < usize::MAX,
        ensures
            final(self)@ == apply_skip(old(self)@, b as int, p as int),
    {
        if b < self.boards.len() && p < self.boards[b].placements.len() {
            self.set_placement(b, p, PlacementState::Skipped);
            self.stats.skipped = self.stats.skipped + 1;
        }
    }

    fn record(&mut self, a: &NozzleAssignment, v: PlacementState)
        requires
            old(self).stats.completed < usize::MAX,
            old(self).stats.failed < usize::MAX,
        ensures
            final(self)@ == record(old(self)@, a@, v@),
    {
        let b = a.board_idx;
        let p = a.placement_idx;
        if b < self.boards.len() && p < self.boards[b].placements.len() {
            let placed = match v {
                PlacementState::Placed => true,
                _ => false,
            };
            self.set_placement(b, p, v);
            if placed {
                self.stats.completed = self.stats.completed + 1;
            } else {
                self.stats.failed = self.stats.failed + 1;
            }
        }
    }
}

impl JobRunner {
    /// A runner for a job on `boards`, whose state is `job`, before any work.
    pub fn new(job: JobState, boards: Vec<RunBoard>) -> (r: JobRunner)
        ensures
            r@ == (RunnerView {
                job: job@,
                boards: boards@,
                plan: seq![],
                phase: Phase::Start,
                paused: false,
                n1: None,
                n2: None,
            }),
            runner_wf(r@),
    {
        let r = JobRunner {
            job,
            boards,
            plan: Vec::new(),
            phase: Phase::Start,
            paused: false,
            n1_tip: None,
            n2_tip: None,
        };
        assert(sviews(r.plan@) =~= seq![]);
        r
    }

    fn finish(&mut self, status: JobStatus) -> (a: RunAction)
        ensures
            (final(self)@, a@) == finish(old(self)@, status@),
    {
        let st = status.duplicate();
        self.job.status = status;
        self.phase = Phase::Done;
        self.paused = false;
        RunAction::Finish(st)
    }

    fn enter_board(&mut self, b: usize) -> (a: RunAction)
        requires
            b <= old(self).boards@.len(),
        ensures
            (final(self)@, a@) == enter_board(old(self)@, b as nat),
            runner_wf(final(self)@),
    {
        let mut n = b;
        while n < self.boards.len() && !self.boards[n].enabled
            invariant
                b <= n <= self.boards@.len(),
                first_enabled(self.boards@, b as nat) == first_enabled(self.boards@, n as nat),
            decreases self.boards@.len() - n,
        {
            n += 1;
        }
        if n < self.boards.len() {
            self.phase = Phase::CheckBoard(n);
            RunAction::CheckControl
        } else {
            self.phase = Phase::Planning;
            RunAction::Plan
        }
    }

    fn at_board(&mut self, b: usize) -> (a: RunAction)
        requires
            b < old(self).boards@.len(),
        ensures
            (final(self)@, a@) == at_board(old(self)@, b),
            runner_wf(final(self)@),
    {
        self.phase = Phase::AtBoard(b);
        if self.boards[b].fiducials >= 2 {
            RunAction::LocateBoard { board_idx: b }
        } else {
            RunAction::UseOrigin { board_idx: b }
        }
    }

    fn enter_step(&mut self, s: usize) -> (a: RunAction)
        requires
            s <= old(self).plan@.len(),
        ensures
            (final(self)@, a@) == enter_step(old(self)@, s as nat),
            runner_wf(final(self)@),
    {
        if s < self.plan.len() {
            self.phase = Phase::CheckStep(s);
            RunAction::CheckControl
        } else {
            self.finish(JobStatus::Complete)
        }
    }

    fn enter_item(&mut self, s: usize, i: usize) -> (a: RunAction)
        requires
            s < old(self).plan@.len(),
            i <= batch_of(old(self)@.plan[s as int]).len(),
        ensures
            (final(self)@, a@) == enter_item(old(self)@, s, i as nat),
            runner_wf(final(self)@),
    {
        let _n = self.plan.len();
        let item = match &self.plan[s] {
            JobStep::PickBatch(v) => if i < v.len() {
                Some(RunAction::Pick(v[i].duplicate()))
            } else {
                None
            },
            JobStep::AlignBatch(v) => if i < v.len() {
                Some(RunAction::Align(v[i].duplicate()))
            } else {
                None
            },
            JobStep::PlaceBatch(v) => if i < v.len() {
                Some(RunAction::Place(v[i].duplicate()))
            } else {
                None
            },
            _ => None,
        };
        match item {
            Some(act) => {
                self.phase = Phase::AtItem(s, i);
                act
            },
            None => self.enter_step(s + 1),
        }
    }

    fn begin_step(&mut self, s: usize) -> (a: RunAction)
        requires
            s < old(self).plan@.len(),
        ensures
            (final(self)@, a@) == begin_step(old(self)@, s),
            runner_wf(final(self)@),
    {
        let _n = self.plan.len();
        let changes = match &self.plan[s] {
            JobStep::FiducialCheck { .. } => {
                return self.enter_step(s + 1);
            },
            JobStep::ChangeTips(c) => Some(copy_changes(c)),
            _ => None,
        };
        match changes {
            Some(c) => {
                self.phase = Phase::AtItem(s, 0);
                RunAction::ChangeTips(c)
            },
            None => self.enter_item(s, 0),
        }
    }

    fn on_control(&mut self, c: JobControl) -> (a: RunAction)
        requires
            old(self).job.stats.skipped < usize::MAX,
            runner_wf(old(self)@),
        ensures
            (final(self)@, a@) == on_control(old(self)@, c),
            runner_wf(final(self)@),
    {
        match c {
            JobControl::Abort => self.finish(JobStatus::Error { message: "Job aborted".to_string() }),
            JobControl::Pause => {
                self.job.status = JobStatus::Paused { reason: PauseReason::UserRequested };
                self.paused = true;
                RunAction::Pause(PauseReason::UserRequested)
            },
            JobControl::SkipPlacement { board_idx, placement_idx } => {
                self.job.skip(board_idx, placement_idx);
                RunAction::CheckControl
            },
            JobControl::Resume => RunAction::CheckControl,
        }
    }

    fn on_wait(&mut self, e: RunEvent) -> (a: RunAction)
        requires
            old(self).job.stats.skipped < usize::MAX,
            runner_wf(old(self)@),
        ensures
            (final(self)@, a@) == on_wait(old(self)@, e@),
            runner_wf(final(self)@),
    {
        match e {
            RunEvent::Control(JobControl::Resume) => {
                self.job.status = JobStatus::Running;
                self.paused = false;
                RunAction::Resumed
            },
            RunEvent::Control(JobControl::Abort) => self.finish(
                JobStatus::Error { message: "Job aborted".to_string() },
            ),
            RunEvent::Control(JobControl::SkipPlacement { board_idx, placement_idx }) => {
                self.job.skip(board_idx, placement_idx);
                RunAction::AwaitControl
            },
            RunEvent::Closed => self.finish(
                JobStatus::Error { message: "Job control channel closed".to_string() },
            ),
            _ => RunAction::AwaitControl,
        }
    }

    fn apply_tips(&mut self, s: usize)
        requires
            s < old(self).plan@.len(),
            old(self)@.plan[s as int] is ChangeTips,
        ensures
            ({
                let c = old(self)@.plan[s as int]->ChangeTips_0;
                let (n1, n2) = apply_tips(old(self)@.n1, old(self)@.n2, c);
                final(self)@ == RunnerView { n1, n2, ..old(self)@ }
            }),
    {
        let ghost c = self@.plan[s as int]->ChangeTips_0;
        let ghost n10 = self@.n1;
        let ghost n20 = self@.n2;
        let changes = match &self.plan[s] {
            JobStep::ChangeTips(c) => copy_changes(c),
            _ => Vec::new(),
        };
        assert(tviews(changes@) == c);
        let mut n1 = copy_opt(&self.n1_tip);
        let mut n2 = copy_opt(&self.n2_tip);
        let mut k: usize = 0;
        while k < changes.len()
            invariant
                k <= changes@.len(),
                tviews(changes@) == c,
                (opt_view(n1), opt_view(n2)) == apply_tips(n10, n20, c.subrange(0, k as int)),
            decreases changes@.len() - k,
        {
            proof {
                assert(c.subrange(0, k + 1).drop_last() =~= c.subrange(0, k as int));
            }
            let tip = changes[k].to_tip.clone();
            match changes[k].nozzle {
                NozzleId::N1 => n1 = Some(tip),
                NozzleId::N2 => n2 = Some(tip),
            }
            k += 1;
        }
        self.n1_tip = n1;
        self.n2_tip = n2;
        assert(c.subrange(0, c.len() as int) =~= c);
    }

    fn at_item(&mut self, s: usize, i: usize, e: RunEvent) -> (a: RunAction)
        requires
            runner_wf(old(self)@),
            old(self).phase == Phase::AtItem(s, i),
            counts_fit(old(self).job.stats, e@),
        ensures
            (final(self)@, a@) == at_item(old(self)@, s, i, e@),
            runner_wf(final(self)@),
    {
        let _n = self.plan.len();
        let blen = batch_len(&self.plan[s]);
        let kind: u8 = match &self.plan[s] {
            JobStep::ChangeTips(_) => 0,
            JobStep::PickBatch(_) => 1,
            JobStep::AlignBatch(_) => 2,
            JobStep::PlaceBatch(_) => 3,
            JobStep::FiducialCheck { .. } => 4,
        };
        if kind == 0 {
            match e {
                RunEvent::Succeeded { .. } => {
                    self.apply_tips(s);
                    self.enter_step(s + 1)
                },
                RunEvent::Failed { error } => self.finish(
                    JobStatus::Error { message: message("Tip change failed: ", &error) },
                ),
                _ => RunAction::Idle,
            }
        } else if kind == 1 {
            match e {
                RunEvent::Succeeded { retries } => {
                    self.job.stats.pick_retries = self.job.stats.pick_retries + retries as usize;
                    self.enter_item(s, i + 1)
                },
                RunEvent::Failed { .. } => {
                    let part = match &self.plan[s] {
                        JobStep::PickBatch(v) => v[i].part_id.clone(),
                        _ => String::new(),
                    };
                    let part2 = part.clone();
                    self.job.status = JobStatus::Paused {
                        reason: PauseReason::PickFailed { placement: part, attempts: 0 },
                    };
                    self.paused = true;
                    RunAction::Pause(PauseReason::PickFailed { placement: part2, attempts: 0 })
                },
                _ => RunAction::Idle,
            }
        } else if kind == 2 {
            match e {
                RunEvent::Succeeded { .. } => self.enter_item(s, i + 1),
                RunEvent::Failed { .. } => self.enter_item(s, i + 1),
                _ => RunAction::Idle,
            }
        } else if kind == 3 {
            let assignment = match &self.plan[s] {
                JobStep::PlaceBatch(v) => v[i].duplicate(),
                _ => NozzleAssignment {
                    nozzle: NozzleId::N1,
                    tip_id: String::new(),
                    feeder_id: String::new(),
                    part_id: String::new(),
                    board_idx: 0,
                    placement_idx: 0,
                },
            };
            match e {
                RunEvent::Succeeded { .. } => {
                    self.job.record(&assignment, PlacementState::Placed);
                    self.enter_item(s, i + 1)
                },
                RunEvent::Failed { error } => {
                    self.job.record(&assignment, PlacementState::Failed { reason: error });
                    self.enter_item(s, i + 1)
                },
                _ => RunAction::Idle,
            }
        } else {
            RunAction::Idle
        }
    }

    /// Takes the outcome of the last piece of work and returns the next one.
    ///
    /// The job begins with `Begin`. Each board the job uses is taken in turn:
    /// the pending commands are read, then the board is located by its
    /// fiducials when it has two or more, else by its origin. Then the pending
    /// placements are planned, and each step of the plan is taken in turn: the
    /// pending commands are read, then the tips are changed, or each
    /// assignment of the batch is picked, aligned or placed. A command to abort
    /// ends the job with an error; a command to pause waits for a command to
    /// resume; a command to skip a placement marks it skipped. A failed fiducial
    /// check or tip change ends the job with an error; a failed pick pauses it;
    /// a failed alignment is passed over; a failed placement is recorded as
    /// failed. After the last step the job is complete.
    pub fn step(&mut self, e: RunEvent) -> (a: RunAction)
        requires
            runner_wf(old(self)@),
            counts_fit(old(self).job.stats, e@),
        ensures
            (final(self)@, a@) == next(old(self)@, e@),
            runner_wf(final(self)@),
            forall|k: int|
                0 <= k < old(self).job.boards@.len() ==> #[trigger] final(self).job.boards@[k].board_idx
                    == old(self).job.boards@[k].board_idx,
    {
        let ghost before = self.job.boards@;
        proof {
            lemma_step_keeps_counts(old(self)@, e@);
        }
        let a = self.decide(e);
        proof {
            let ids = |b: BoardState| b.board_idx;
            assert(self.job.boards@.map_values(ids) == before.map_values(ids));
            assert(self.job@.boards.len() == before.map_values(|b: BoardState| pviews(b.placements@)).len());
            assert forall|k: int| 0 <= k < before.len() implies #[trigger] self.job.boards@[k].board_idx
                == before[k].board_idx by {
                assert(self.job.boards@.map_values(ids)[k] == before.map_values(ids)[k]);
            }
        }
        a
    }

    fn decide(&mut self, e: RunEvent) -> (a: RunAction)
        requires
            runner_wf(old(self)@),
            counts_fit(old(self).job.stats, e@),
        ensures
            (final(self)@, a@) == next(old(self)@, e@),
            runner_wf(final(self)@),
    {
        if self.paused {
            return self.on_wait(e);
        }
        let _nb = self.boards.len();
        match self.phase {
            Phase::Start => match e {
                RunEvent::Begin => self.enter_board(0),
                _ => RunAction::Idle,
            },
            Phase::CheckBoard(b) => match e {
                RunEvent::Control(c) => self.on_control(c),
                RunEvent::NoControl => self.at_board(b),
                RunEvent::Succeeded { .. } => RunAction::CheckControl,
                _ => RunAction::Idle,
            },
            Phase::AtBoard(b) => match e {
                RunEvent::Succeeded { .. } => self.enter_board(b + 1),
                RunEvent::Failed { error } => self.finish(
                    JobStatus::Error { message: message("Fiducial check failed: ", &error) },
                ),
                _ => RunAction::Idle,
            },
            Phase::Planning => match e {
                RunEvent::Planned(steps) => {
                    self.plan = steps;
                    self.enter_step(0)
                },
                _ => RunAction::Idle,
            },
            Phase::CheckStep(s) => match e {
                RunEvent::Control(c) => self.on_control(c),
                RunEvent::NoControl => self.begin_step(s),
                RunEvent::Succeeded { .. } => RunAction::CheckControl,
                _ => RunAction::Idle,
            },
            Phase::AtItem(s, i) => self.at_item(s, i, e),
            Phase::Done => RunAction::Idle,
        }
    }
}

} // verus!
