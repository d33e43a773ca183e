//! Types that describe a job: nozzles, placement states, steps and assignments.

use vstd::prelude::*;

verus! {

/// One of the two nozzles of the head.
#[derive(Debug, Clone, Copy, PartialEq, Eq, Structural)]
pub enum NozzleId {
    N1,
    N2,
}

impl NozzleId {
    /// The key of the nozzle's section in the machine configuration.
    pub fn config_key(&self) -> (k: &'static str)
        ensures
            k@ == (match *self {
                NozzleId::N1 => "n1"@,
                NozzleId::N2 => "n2"@,
            }),
    {
        match self {
            NozzleId::N1 => "n1",
            NozzleId::N2 => "n2",
        }
    }

    /// The nozzle's display name.
    pub fn name(&self) -> (k: &'static str)
        ensures
            k@ == (match *self {
                NozzleId::N1 => "N1"@,
                NozzleId::N2 => "N2"@,
            }),
    {
        match self {
            NozzleId::N1 => "N1",
            NozzleId::N2 => "N2",
        }
    }
}

/// Runtime state of one placement of a board in a job.
#[derive(Debug, Clone)]
pub enum PlacementState {
    Pending,
    InProgress,
    Placed,
    Skipped,
    Failed { reason: String },
}

pub enum PlacementView {
    Pending,
    InProgress,
    Placed,
    Skipped,
    Failed(Seq<char>),
}

impl View for PlacementState {
    type V = PlacementView;

    open spec fn view(&self) -> PlacementView {
        match self {
            PlacementState::Pending => PlacementView::Pending,
            PlacementState::InProgress => PlacementView::InProgress,
            PlacementState::Placed => PlacementView::Placed,
            PlacementState::Skipped => PlacementView::Skipped,
            PlacementState::Failed { reason } => PlacementView::Failed(reason@),
        }
    }
}

/// A nozzle tip to swap before a batch.
#[derive(Debug, Clone)]
pub struct TipChange {
    pub nozzle: NozzleId,
    pub from_tip: Option<String>,
    pub to_tip: String,
}

impl TipChange {
    /// A copy of the change.
    pub fn duplicate(&self) -> (r: TipChange)
        ensures
            r@ == self@,
    {
        TipChange {
            nozzle: self.nozzle,
            from_tip: match &self.from_tip {
                Some(t) => Some(t.clone()),
                None => None,
            },
            to_tip: self.to_tip.clone(),
        }
    }
}

pub struct TipChangeView {
    pub nozzle: NozzleId,
    pub from_tip: Option<Seq<char>>,
    pub to_tip: Seq<char>,
}

pub open spec fn opt_view(o: Option<String>) -> Option<Seq<char>> {
    match o {
        Some(s) => Some(s@),
        None => None,
    }
}

impl View for TipChange {
    type V = TipChangeView;

    open spec fn view(&self) -> TipChangeView {
        TipChangeView { nozzle: self.nozzle, from_tip: opt_view(self.from_tip), to_tip: self.to_tip@ }
    }
}

/// Assignment of a nozzle to pick-align-place a specific component.
#[derive(Debug, Clone)]
pub struct NozzleAssignment {
    pub nozzle: NozzleId,
    pub tip_id: String,
    pub feeder_id: String,
    pub part_id: String,
    pub board_idx: usize,
    pub placement_idx: usize,
}

impl NozzleAssignment {
    /// A copy of the assignment.
    pub fn duplicate(&self) -> (r: NozzleAssignment)
        ensures
            r@ == self@,
    {
        NozzleAssignment {
            nozzle: self.nozzle,
            tip_id: self.tip_id.clone(),
            feeder_id: self.feeder_id.clone(),
            part_id: self.part_id.clone(),
            board_idx: self.board_idx,
            placement_idx: self.placement_idx,
        }
    }
}

pub struct AssignmentView {
    pub nozzle: NozzleId,
    pub tip_id: Seq<char>,
    pub feeder_id: Seq<char>,
    pub part_id: Seq<char>,
    pub board_idx: nat,
    pub placement_idx: nat,
}

impl View for NozzleAssignment {
    type V = AssignmentView;

    open spec fn view(&self) -> AssignmentView {
        AssignmentView {
            nozzle: self.nozzle,
            tip_id: self.tip_id@,
            feeder_id: self.feeder_id@,
            part_id: self.part_id@,
            board_idx: self.board_idx as nat,
            placement_idx: self.placement_idx as nat,
        }
    }
}

/// A planned step in the job execution.
#[derive(Debug)]
pub enum JobStep {
    FiducialCheck { board_idx: usize },
    ChangeTips(Vec<TipChange>),
    PickBatch(Vec<NozzleAssignment>),
    AlignBatch(Vec<NozzleAssignment>),
    PlaceBatch(Vec<NozzleAssignment>),
}

pub enum StepView {
    FiducialCheck { board_idx: nat },
    ChangeTips(Seq<TipChangeView>),
    PickBatch(Seq<AssignmentView>),
    AlignBatch(Seq<AssignmentView>),
    PlaceBatch(Seq<AssignmentView>),
}

impl View for JobStep {
    type V = StepView;

    open spec fn view(&self) -> StepView {
        match self {
            JobStep::FiducialCheck { board_idx } => StepView::FiducialCheck {
                board_idx: *board_idx as nat,
            },
            JobStep::ChangeTips(v) => StepView::ChangeTips(v@.map_values(|c: TipChange| c@)),
            JobStep::PickBatch(v) => StepView::PickBatch(v@.map_values(|a: NozzleAssignment| a@)),
            JobStep::AlignBatch(v) => StepView::AlignBatch(
                v@.map_values(|a: NozzleAssignment| a@),
            ),
            JobStep::PlaceBatch(v) => StepView::PlaceBatch(
                v@.map_values(|a: NozzleAssignment| a@),
            ),
        }
    }
}

} // verus!
