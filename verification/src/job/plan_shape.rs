//! The shape of a plan: tip changes, each followed by a pick, and cycles of a
//! pick, an alignment and a placement of the same assignments, each made with
//! the tips then on the nozzles.

use vstd::prelude::*;

use crate::job::planner::PlanBoard;
use crate::job::planner::PlanConfig;
use crate::job::planner::Resolved;
use crate::job::planner::assign;
use crate::job::planner::cycle_steps;
use crate::job::planner::cycles;
use crate::job::planner::lemma_nearest_bound;
use crate::job::planner::mark;
use crate::job::planner::nearest_upto;
use crate::job::planner::schedule;
use crate::job::planner::spec_plan;
use crate::job::planner::tip_changes;
use crate::job::planner::unplaced;
use crate::job::planner::groups_upto;
use crate::job::planner::pairs_upto;
use crate::job::planner::resolve_all;
use crate::job::planner::sort_groups;
use crate::job::planner::Group;
use crate::job::types::AssignmentView;
use crate::job::types::NozzleId;
use crate::job::types::StepView;
use crate::job::types::TipChangeView;

verus! {

/// The tip on nozzle `n` when `n1` and `n2` are on N1 and N2.
pub open spec fn tip_on(n: NozzleId, n1: Option<Seq<char>>, n2: Option<Seq<char>>) -> Option<Seq<char>> {
    match n {
        NozzleId::N1 => n1,
        NozzleId::N2 => n2,
    }
}

/// The tips on N1 and N2 after the change `x`.
pub open spec fn after_change(x: TipChangeView, n1: Option<Seq<char>>, n2: Option<Seq<char>>) -> (
    Option<Seq<char>>,
    Option<Seq<char>>,
) {
    match x.nozzle {
        NozzleId::N1 => (Some(x.to_tip), n2),
        NozzleId::N2 => (n1, Some(x.to_tip)),
    }
}

/// The tips on N1 and N2 after the changes `c`, in order.
pub open spec fn after_changes(c: Seq<TipChangeView>, n1: Option<Seq<char>>, n2: Option<Seq<char>>) -> (
    Option<Seq<char>>,
    Option<Seq<char>>,
)
    decreases c.len(),
{
    if c.len() == 0 {
        (n1, n2)
    } else {
        let t = after_change(c[0], n1, n2);
        after_changes(c.drop_first(), t.0, t.1)
    }
}

/// Each change, made in order, takes off the tip then on its nozzle and puts
/// on another one.
pub open spec fn changes_ok(c: Seq<TipChangeView>, n1: Option<Seq<char>>, n2: Option<Seq<char>>) -> bool
    decreases c.len(),
{
    if c.len() == 0 {
        true
    } else {
        let t = after_change(c[0], n1, n2);
        &&& c[0].from_tip == tip_on(c[0].nozzle, n1, n2)
        &&& c[0].from_tip != Some(c[0].to_tip)
        &&& changes_ok(c.drop_first(), t.0, t.1)
    }
}

/// Every assignment of the batch uses the tip on its nozzle.
pub open spec fn batch_tips_ok(a: Seq<AssignmentView>, n1: Option<Seq<char>>, n2: Option<Seq<char>>) -> bool {
    forall|i: int| 0 <= i < a.len() ==> tip_on((#[trigger] a[i]).nozzle, n1, n2) == Some(a[i].tip_id)
}

/// The steps, starting with `n1` and `n2` on the nozzles, are a sequence of
/// cycles `PickBatch(a)`, `AlignBatch(a)`, `PlaceBatch(a)` whose assignments use
/// the tips on their nozzles, and of non-empty tip changes that are made as
/// `changes_ok` says and are followed by a pick.
pub open spec fn plan_shape(s: Seq<StepView>, n1: Option<Seq<char>>, n2: Option<Seq<char>>) -> bool
    decreases s.len(),
{
    if s.len() == 0 {
        true
    } else {
        match s[0] {
            StepView::ChangeTips(c) => {
                let t = after_changes(c, n1, n2);
                &&& c.len() > 0
                &&& changes_ok(c, n1, n2)
                &&& s.len() > 1
                &&& s[1] is PickBatch
                &&& plan_shape(s.drop_first(), t.0, t.1)
            },
            StepView::PickBatch(a) => {
                &&& s.len() >= 3
                &&& s[1] == StepView::AlignBatch(a)
                &&& s[2] == StepView::PlaceBatch(a)
                &&& batch_tips_ok(a, n1, n2)
                &&& plan_shape(s.subrange(3, s.len() as int), n1, n2)
            },
            _ => false,
        }
    }
}

/// The cycles with a tip that is on both nozzles, followed by steps of the
/// right shape, have the right shape.
proof fn lemma_cycles_shape(rem: Seq<nat>, tip: Seq<char>, rs: Seq<Resolved>, d: Seq<Seq<u64>>, z: Seq<StepView>)
    requires
        plan_shape(z, Some(tip), Some(tip)),
    ensures
        plan_shape(cycles(rem, tip, rs, d) + z, Some(tip), Some(tip)),
        rem.len() > 0 ==> (cycles(rem, tip, rs, d) + z)[0] is PickBatch,
    decreases rem.len(),
{
    if rem.len() > 0 {
        let n1 = rem[0];
        let rest = rem.drop_first();
        let a = if rest.len() == 0 {
            seq![assign(NozzleId::N1, tip, rs[n1 as int])]
        } else {
            lemma_nearest_bound(rest, rest.len() as int, rs[n1 as int].key, rs, d);
            let p = nearest_upto(rest, rest.len() as int, rs[n1 as int].key, rs, d);
            seq![assign(NozzleId::N1, tip, rs[n1 as int]), assign(NozzleId::N2, tip, rs[rest[p] as int])]
        };
        let tail = if rest.len() == 0 {
            Seq::<StepView>::empty()
        } else {
            let p = nearest_upto(rest, rest.len() as int, rs[n1 as int].key, rs, d);
            cycles(rest.remove(p), tip, rs, d)
        };
        assert(cycles(rem, tip, rs, d) == cycle_steps(a) + tail);
        let s = cycles(rem, tip, rs, d) + z;
        if rest.len() == 0 {
            assert(tail + z =~= z);
        } else {
            let p = nearest_upto(rest, rest.len() as int, rs[n1 as int].key, rs, d);
            lemma_cycles_shape(rest.remove(p), tip, rs, d, z);
        }
        assert(s.subrange(3, s.len() as int) =~= tail + z);
        assert(s[0] == StepView::PickBatch(a));
        assert(s[1] == StepView::AlignBatch(a));
        assert(s[2] == StepView::PlaceBatch(a));
        assert(batch_tips_ok(a, Some(tip), Some(tip)));
    }
}

/// The tip changes that put a tip on both nozzles are made as `changes_ok`
/// says and leave that tip on both.
proof fn lemma_tip_changes(tip: Seq<char>, n1: Option<Seq<char>>, n2: Option<Seq<char>>)
    ensures
        changes_ok(tip_changes(tip, n1, n2), n1, n2),
        after_changes(tip_changes(tip, n1, n2), n1, n2) == (Some(tip), Some(tip)),
        tip_changes(tip, n1, n2).len() == 0 ==> n1 == Some(tip) && n2 == Some(tip),
{
    let c = tip_changes(tip, n1, n2);
    let x1 = TipChangeView { nozzle: NozzleId::N1, from_tip: n1, to_tip: tip };
    let x2 = TipChangeView { nozzle: NozzleId::N2, from_tip: n2, to_tip: tip };
    reveal_with_fuel(changes_ok, 3);
    reveal_with_fuel(after_changes, 3);
    if n1 != Some(tip) {
        if n2 != Some(tip) {
            assert(c =~= seq![x1, x2]);
            assert(c.drop_first() =~= seq![x2]);
            assert(c.drop_first().drop_first() =~= Seq::<TipChangeView>::empty());
        } else {
            assert(c =~= seq![x1]);
            assert(c.drop_first() =~= Seq::<TipChangeView>::empty());
        }
    } else {
        if n2 != Some(tip) {
            assert(c =~= seq![x2]);
            assert(c.drop_first() =~= Seq::<TipChangeView>::empty());
        } else {
            assert(c =~= Seq::<TipChangeView>::empty());
        }
    }
}

proof fn lemma_schedule_shape(
    sorted: Seq<Group>,
    k: int,
    placed: Seq<bool>,
    n1: Option<Seq<char>>,
    n2: Option<Seq<char>>,
    rs: Seq<Resolved>,
    d: Seq<Seq<u64>>,
)
    ensures
        plan_shape(schedule(sorted, k, placed, n1, n2, rs, d), n1, n2),
    decreases sorted.len() - k,
{
    if 0 <= k < sorted.len() {
        let g = sorted[k];
        let pending = unplaced(g.members, placed);
        if pending.len() == 0 {
            lemma_schedule_shape(sorted, k + 1, placed, n1, n2, rs, d);
        } else {
            let t = g.tip;
            let rest = schedule(sorted, k + 1, mark(placed, pending), Some(t), Some(t), rs, d);
            lemma_schedule_shape(sorted, k + 1, mark(placed, pending), Some(t), Some(t), rs, d);
            lemma_cycles_shape(pending, t, rs, d, rest);
            let body = cycles(pending, t, rs, d) + rest;
            let ch = tip_changes(t, n1, n2);
            lemma_tip_changes(t, n1, n2);
            if ch.len() > 0 {
                let s = seq![StepView::ChangeTips(ch)] + body;
                assert(schedule(sorted, k, placed, n1, n2, rs, d) == seq![StepView::ChangeTips(ch)]
                    + cycles(pending, t, rs, d) + rest);
                assert(seq![StepView::ChangeTips(ch)] + cycles(pending, t, rs, d) + rest =~= s);
                assert(s.drop_first() =~= body);
                assert(s[1] == body[0]);
            } else {
                assert(schedule(sorted, k, placed, n1, n2, rs, d) == Seq::<StepView>::empty()
                    + cycles(pending, t, rs, d) + rest);
                assert(Seq::<StepView>::empty() + cycles(pending, t, rs, d) + rest =~= body);
            }
        }
    }
}

/// Leaving out the tip changes, a plan is a sequence of cycles: a pick, an
/// alignment and a placement of the same assignments, each assignment made
/// with the tip then on its nozzle. Every tip change is non-empty and is
/// followed by a pick, and each of its changes takes off the tip then on its
/// nozzle and puts on a different one; `n1` and `n2` are the tips on the
/// nozzles when the plan starts.
pub proof fn lemma_plan_shape(
    boards: Seq<PlanBoard>,
    cfg: PlanConfig,
    n1: Option<Seq<char>>,
    n2: Option<Seq<char>>,
    d: Seq<Seq<u64>>,
)
    ensures
        plan_shape(spec_plan(boards, cfg, n1, n2, d), n1, n2),
{
    let rs = resolve_all(boards, cfg, boards.len() as int);
    let ps = pairs_upto(rs, rs.len() as int);
    let gs = groups_upto(ps, ps.len() as int);
    let sorted = sort_groups(rs, gs, gs.len() as int);
    lemma_schedule_shape(sorted, 0, Seq::new(rs.len(), |i: int| false), n1, n2, rs, d);
}

} // verus!
