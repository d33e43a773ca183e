//! What any run of a job leaves behind: whatever commands come and however
//! the work goes, a job that completes has every planned placement placed,
//! failed or skipped, and no other placement changed but by a skip; and the
//! counters of completed and failed placements count the placements placed and
//! failed.

use vstd::prelude::*;

use crate::job::plan_once::akey;
use crate::job::plan_once::batch_keys;
use crate::job::plan_once::lemma_place_keys_add;
use crate::job::plan_once::place_keys;
use crate::job::progress::EventView;
use crate::job::progress::JobControl;
use crate::job::progress::Phase;
use crate::job::progress::RunnerView;
use crate::job::progress::StatusView;
use crate::job::progress::batch_of;
use crate::job::progress::in_range;
use crate::job::progress::next;
use crate::job::progress::runner_wf;
use crate::job::progress::same_shape;
use crate::job::run_laws::current_item;
use crate::job::run_laws::placing;
use crate::job::run_laws::plan_fits;
use crate::job::run_laws::step_keys;
use crate::job::types::PlacementView;
use crate::job::types::StepView;

verus! {

/// The runner's state after the events `es`, one after the other.
pub open spec fn run_from(r: RunnerView, es: Seq<EventView>) -> RunnerView
    decreases es.len(),
{
    if es.len() == 0 {
        r
    } else {
        run_from(next(r, es[0]).0, es.drop_first())
    }
}

/// A placement that the job is done with: placed, failed or skipped.
pub open spec fn settled_state(v: PlacementView) -> bool {
    v is Placed || v is Failed || v is Skipped
}

/// The state of the placement `k`.
pub open spec fn state_at(bs: Seq<Seq<PlacementView>>, k: (nat, nat)) -> PlacementView {
    bs[k.0 as int][k.1 as int]
}

/// The placements of the plan that the runner has gone past: those of the
/// steps before the current one and of the items before the current one.
pub open spec fn done_keys(r: RunnerView) -> Seq<(nat, nat)> {
    match r.phase {
        Phase::CheckStep(s) => place_keys(r.plan.subrange(0, s as int)),
        Phase::AtItem(s, i) => place_keys(r.plan.subrange(0, s as int)) + if r.plan[s as int] is PlaceBatch {
            batch_keys(batch_of(r.plan[s as int])).subrange(0, i as int)
        } else {
            Seq::<(nat, nat)>::empty()
        },
        Phase::Done => place_keys(r.plan),
        _ => Seq::<(nat, nat)>::empty(),
    }
}

/// The runner has not planned yet.
pub open spec fn before_plan(r: RunnerView) -> bool {
    r.phase is Start || r.phase is CheckBoard || r.phase is AtBoard || r.phase is Planning
}

/// A decision changes a placement only by a skip, or by placing the current
/// item.
pub open spec fn changed_only_by(r: RunnerView, e: EventView, b: Seq<Seq<PlacementView>>) -> bool {
    forall|x: int, y: int|
        in_range(r.job.boards, x, y) ==> #[trigger] b[x][y] == r.job.boards[x][y] || b[x][y] is Skipped || (
        placing(r) && !r.paused && (e is Succeeded || e is Failed) && (x as nat, y as nat) == akey(current_item(r)) && (
        b[x][y] is Placed || b[x][y] is Failed))
}

proof fn lemma_changes(r: RunnerView, e: EventView)
    requires
        runner_wf(r),
    ensures
        changed_only_by(r, e, next(r, e).0.job.boards),
        same_shape(r.job.boards, next(r, e).0.job.boards),
        placing(r) && !r.paused && (e is Succeeded || e is Failed) ==> (in_range(
            r.job.boards,
            akey(current_item(r)).0 as int,
            akey(current_item(r)).1 as int,
        ) ==> settled_state(state_at(next(r, e).0.job.boards, akey(current_item(r))))),
{
}

/// The placements of a plan, split at step `s`.
proof fn lemma_split(plan: Seq<StepView>, s: int)
    requires
        0 <= s < plan.len(),
    ensures
        place_keys(plan.subrange(0, s + 1)) == place_keys(plan.subrange(0, s)) + step_keys(plan[s]),
        place_keys(plan) == place_keys(plan.subrange(0, s + 1)) + place_keys(plan.subrange(s + 1, plan.len() as int)),
{
    let one = seq![plan[s]];
    assert(plan.subrange(0, s + 1) =~= plan.subrange(0, s) + one);
    lemma_place_keys_add(plan.subrange(0, s), one);
    assert(one.drop_last() =~= Seq::<StepView>::empty());
    assert(place_keys(Seq::<StepView>::empty()) =~= Seq::<(nat, nat)>::empty());
    assert(one.last() == plan[s]);
    assert(place_keys(one) =~= Seq::<(nat, nat)>::empty() + step_keys(plan[s]));
    assert(place_keys(one) =~= step_keys(plan[s]));
    assert(plan =~= plan.subrange(0, s + 1) + plan.subrange(s + 1, plan.len() as int));
    lemma_place_keys_add(plan.subrange(0, s + 1), plan.subrange(s + 1, plan.len() as int));
}

proof fn lemma_prefix_all(plan: Seq<StepView>)
    ensures
        place_keys(plan.subrange(0, plan.len() as int)) == place_keys(plan),
        place_keys(plan.subrange(0, 0)) == Seq::<(nat, nat)>::empty(),
{
    assert(plan.subrange(0, plan.len() as int) =~= plan);
    assert(plan.subrange(0, 0) =~= Seq::<StepView>::empty());
}

/// The placements the runner has gone past come first among the plan's.
proof fn lemma_done_prefix(r: RunnerView)
    requires
        runner_wf(r),
    ensures
        done_keys(r).len() <= place_keys(r.plan).len(),
        forall|j: int| 0 <= j < done_keys(r).len() ==> #[trigger] done_keys(r)[j] == place_keys(r.plan)[j],
        placing(r) ==> done_keys(r).len() < place_keys(r.plan).len() && place_keys(r.plan)[done_keys(
            r,
        ).len() as int] == akey(current_item(r)),
{
    lemma_prefix_all(r.plan);
    match r.phase {
        Phase::CheckStep(s) => {
            lemma_split(r.plan, s as int);
            assert(place_keys(r.plan) == place_keys(r.plan.subrange(0, s as int)) + (step_keys(
                r.plan[s as int],
            ) + place_keys(r.plan.subrange(s + 1, r.plan.len() as int))));
        },
        Phase::AtItem(s, i) => {
            lemma_split(r.plan, s as int);
            let pre = place_keys(r.plan.subrange(0, s as int));
            let st = step_keys(r.plan[s as int]);
            let post = place_keys(r.plan.subrange(s + 1, r.plan.len() as int));
            assert(place_keys(r.plan) == pre + (st + post));
            if r.plan[s as int] is PlaceBatch {
                let a = batch_of(r.plan[s as int]);
                assert(st == batch_keys(a));
                assert(pre + (st + post) =~= (pre + batch_keys(a).subrange(0, i as int)) + (batch_keys(
                    a,
                ).subrange(i as int, a.len() as int) + post));
                assert(batch_keys(a)[i as int] == akey(a[i as int]));
            }
        },
        _ => {},
    }
}

/// A decision keeps the runner's state well formed and the plan empty until
/// it plans; what the runner has gone past only grows, and, unless the job
/// ends with an error, it grows only by the current item once it is placed.
proof fn lemma_done_next(r: RunnerView, e: EventView)
    requires
        runner_wf(r),
        plan_fits(r.plan),
        e matches EventView::Planned(p) ==> plan_fits(p),
        before_plan(r) ==> r.plan.len() == 0,
    ensures
        runner_wf(next(r, e).0),
        plan_fits(next(r, e).0.plan),
        before_plan(next(r, e).0) ==> next(r, e).0.plan.len() == 0,
        forall|k: (nat, nat)| done_keys(r).contains(k) ==> #[trigger] done_keys(next(r, e).0).contains(k),
        (!(next(r, e).0.phase is Done) || next(r, e).0.job.status == StatusView::Complete) ==> forall|
            k: (nat, nat),
        |
            #[trigger] done_keys(next(r, e).0).contains(k) && !done_keys(r).contains(k) ==> placing(r)
                && !r.paused && (e is Succeeded || e is Failed) && k == akey(current_item(r)),
        placing(r) && !r.paused && (e is Succeeded || e is Failed) ==> done_keys(next(r, e).0).contains(
            akey(current_item(r)),
        ),
{
    let r2 = next(r, e).0;
    lemma_prefix_all(r.plan);
    lemma_prefix_all(r2.plan);
    lemma_done_prefix(r);
    if r2.phase is Done && r2.plan == r.plan {
        assert forall|k: (nat, nat)| done_keys(r).contains(k) implies #[trigger] done_keys(r2).contains(k) by {
            let j = choose|j: int| 0 <= j < done_keys(r).len() && done_keys(r)[j] == k;
            assert(place_keys(r.plan)[j] == k);
        }
    }
    match r.phase {
        Phase::CheckStep(s) => {
            lemma_split(r.plan, s as int);
            assert(s + 1 <= usize::MAX);
            if s + 1 < r.plan.len() {
                lemma_split(r.plan, s + 1);
            }
            assert(batch_keys(Seq::<crate::job::types::AssignmentView>::empty()) =~= Seq::<(nat, nat)>::empty());
            if s + 1 == r.plan.len() {
                assert(r.plan.subrange(s + 1, r.plan.len() as int) =~= Seq::<StepView>::empty());
                assert(place_keys(Seq::<StepView>::empty()) =~= Seq::<(nat, nat)>::empty());
            }
            assert(r2.plan == r.plan);
            let st = r.plan[s as int];
            let pre = place_keys(r.plan.subrange(0, s as int));
            let nxt = place_keys(r.plan.subrange(0, s + 1));
            if st is FiducialCheck || (!(st is ChangeTips) && batch_of(st).len() == 0) {
                if !(st is FiducialCheck) {
                    assert(batch_of(st) =~= Seq::<crate::job::types::AssignmentView>::empty());
                }
                assert(step_keys(st) =~= Seq::<(nat, nat)>::empty());
                assert(nxt =~= pre);
            }
            if r2.phase == r.phase {
                assert(done_keys(r2) == done_keys(r));
            } else if r2.phase is AtItem {
                assert(r2.phase == Phase::AtItem(s, 0));
                assert(done_keys(r2) =~= pre);
            } else if r2.phase is CheckStep {
                assert(r2.phase == Phase::CheckStep((s + 1) as usize));
                assert(done_keys(r2) == nxt);
            }
        },
        Phase::AtItem(s, i) => {
            lemma_split(r.plan, s as int);
            let st = r.plan[s as int];
            let a = batch_of(st);
            assert(s + 1 <= usize::MAX);
            assert(a.len() <= usize::MAX);
            let pre = place_keys(r.plan.subrange(0, s as int));
            if !r.paused && (e is Succeeded || e is Failed) {
                if st is PlaceBatch {
                    assert(batch_keys(a).subrange(0, i + 1) =~= batch_keys(a).subrange(0, i as int).push(
                        akey(a[i as int]),
                    ));
                    assert(pre + batch_keys(a).subrange(0, i + 1) =~= done_keys(r).push(akey(a[i as int])));
                    let d1 = done_keys(r).push(akey(a[i as int]));
                    assert(next(r, e) == crate::job::progress::at_item(r, s, i, e));
                    let v = if e is Succeeded {
                        PlacementView::Placed
                    } else {
                        PlacementView::Failed(e->Failed_0)
                    };
                    let rr = RunnerView { job: crate::job::progress::record(r.job, a[i as int], v), ..r };
                    assert(r2 == crate::job::progress::enter_item(rr, s, (i + 1) as nat).0);
                    assert(r2.plan == r.plan);
                    if i + 1 < a.len() {
                        assert(r2.phase == Phase::AtItem(s, (i + 1) as usize));
                        assert(done_keys(r2) =~= d1);
                    } else {
                        assert(batch_keys(a).subrange(0, i + 1) =~= batch_keys(a));
                        assert(step_keys(st) == batch_keys(a));
                        if s + 1 < r.plan.len() {
                            assert(r2.phase == Phase::CheckStep((s + 1) as usize));
                            assert(done_keys(r2) =~= d1);
                        } else {
                            assert(r.plan.subrange(s + 1, r.plan.len() as int) =~= Seq::<StepView>::empty());
                            assert(place_keys(Seq::<StepView>::empty()) =~= Seq::<(nat, nat)>::empty());
                            assert(r2.phase == Phase::Done);
                            assert(done_keys(r2) =~= d1);
                        }
                    }
                    assert(d1[d1.len() - 1] == akey(a[i as int]));
                    assert forall|k: (nat, nat)| #[trigger] done_keys(r2).contains(k) && !done_keys(r).contains(k)
                        implies k == akey(a[i as int]) by {
                        let j = choose|j: int| 0 <= j < d1.len() && d1[j] == k;
                        if j < done_keys(r).len() {
                            assert(d1[j] == done_keys(r)[j]);
                        }
                    }
                    assert forall|k: (nat, nat)| done_keys(r).contains(k) implies #[trigger] done_keys(
                        r2,
                    ).contains(k) by {
                        let j = choose|j: int| 0 <= j < done_keys(r).len() && done_keys(r)[j] == k;
                        assert(d1[j] == k);
                    }
                } else {
                    assert(done_keys(r) =~= pre);
                    assert(step_keys(st) =~= Seq::<(nat, nat)>::empty());
                    assert(place_keys(r.plan.subrange(0, s + 1)) =~= pre);
                }
            }
        },
        _ => {},
    }
}

/// What holds all through a run that started at a fresh runner whose
/// placements were `init`.
pub open spec fn run_inv(r: RunnerView, init: Seq<Seq<PlacementView>>) -> bool {
    &&& runner_wf(r)
    &&& plan_fits(r.plan)
    &&& before_plan(r) ==> r.plan.len() == 0
    &&& r.phase is Done ==> !r.paused
    &&& same_shape(init, r.job.boards)
    &&& forall|x: int, y: int|
        in_range(init, x, y) ==> #[trigger] r.job.boards[x][y] == init[x][y] || r.job.boards[x][y] is Skipped
            || ((r.job.boards[x][y] is Placed || r.job.boards[x][y] is Failed) && done_keys(r).contains(
            (x as nat, y as nat),
        ))
    &&& (!(r.phase is Done) || r.job.status == StatusView::Complete) ==> forall|k: (nat, nat)|
        #[trigger] done_keys(r).contains(k) && in_range(init, k.0 as int, k.1 as int) ==> settled_state(
            state_at(r.job.boards, k),
        )
}

proof fn lemma_inv_next(r: RunnerView, e: EventView, init: Seq<Seq<PlacementView>>)
    requires
        run_inv(r, init),
        e matches EventView::Planned(p) ==> plan_fits(p),
    ensures
        run_inv(next(r, e).0, init),
{
    let r2 = next(r, e).0;
    lemma_changes(r, e);
    lemma_done_next(r, e);
    let b1 = r.job.boards;
    let b2 = r2.job.boards;
    assert forall|x: int, y: int| in_range(init, x, y) implies #[trigger] b2[x][y] == init[x][y] || b2[x][y] is Skipped
        || ((b2[x][y] is Placed || b2[x][y] is Failed) && done_keys(r2).contains((x as nat, y as nat))) by {
        assert(in_range(b1, x, y));
        if b2[x][y] == b1[x][y] {
            if (b1[x][y] is Placed || b1[x][y] is Failed) && b1[x][y] != init[x][y] && !(b1[x][y] is Skipped) {
                assert(done_keys(r).contains((x as nat, y as nat)));
            }
        }
    }
    if r.phase is Done {
        assert(r2 == r);
    }
    if !(r2.phase is Done) || r2.job.status == StatusView::Complete {
        assert forall|k: (nat, nat)| #[trigger] done_keys(r2).contains(k) && in_range(init, k.0 as int, k.1 as int)
            implies settled_state(state_at(b2, k)) by {
            let x = k.0 as int;
            let y = k.1 as int;
            assert(in_range(b1, x, y));
            assert(b2[x][y] == b1[x][y] || b2[x][y] is Skipped || (placing(r) && !r.paused && (e is Succeeded
                || e is Failed) && (x as nat, y as nat) == akey(current_item(r)) && (b2[x][y] is Placed
                || b2[x][y] is Failed)));
            if done_keys(r).contains(k) {
                assert(settled_state(state_at(b1, k)));
            }
        }
    }
}

proof fn lemma_inv_run(r: RunnerView, es: Seq<EventView>, init: Seq<Seq<PlacementView>>)
    requires
        run_inv(r, init),
        forall|j: int| 0 <= j < es.len() ==> (#[trigger] es[j] matches EventView::Planned(p) ==> plan_fits(p)),
    ensures
        run_inv(run_from(r, es), init),
    decreases es.len(),
{
    if es.len() > 0 {
        lemma_inv_next(r, es[0], init);
        assert forall|j: int| 0 <= j < es.drop_first().len() implies (#[trigger] es.drop_first()[j] matches EventView::Planned(p) ==> plan_fits(p)) by {
            assert(es.drop_first()[j] == es[j + 1]);
        }
        lemma_inv_run(next(r, es[0]).0, es.drop_first(), init);
    }
}

/// Whatever commands come (pauses, resumes, skips) and however the work goes
/// (failed picks, alignments and placements), a job that starts fresh and
/// completes leaves every placement of its plan placed, failed or skipped,
/// and every other placement as it was or skipped. The plans it is given fit
/// in memory.
pub proof fn lemma_completed_job(r0: RunnerView, es: Seq<EventView>)
    requires
        r0.phase == Phase::Start,
        !r0.paused,
        r0.plan.len() == 0,
        forall|j: int| 0 <= j < es.len() ==> (#[trigger] es[j] matches EventView::Planned(p) ==> plan_fits(p)),
        run_from(r0, es).phase == Phase::Done,
        run_from(r0, es).job.status == StatusView::Complete,
    ensures
        same_shape(r0.job.boards, run_from(r0, es).job.boards),
        forall|k: (nat, nat)|
            #[trigger] place_keys(run_from(r0, es).plan).contains(k) && in_range(r0.job.boards, k.0 as int, k.1 as int)
                ==> settled_state(state_at(run_from(r0, es).job.boards, k)),
        forall|x: int, y: int|
            in_range(r0.job.boards, x, y) && !place_keys(run_from(r0, es).plan).contains((x as nat, y as nat))
                ==> #[trigger] run_from(r0, es).job.boards[x][y] == r0.job.boards[x][y]
                || run_from(r0, es).job.boards[x][y] is Skipped,
{
    let init = r0.job.boards;
    assert(plan_fits(r0.plan));
    assert(run_inv(r0, init));
    lemma_inv_run(r0, es, init);
    let f = run_from(r0, es);
    assert(done_keys(f) == place_keys(f.plan));
    assert forall|k: (nat, nat)|
        #[trigger] place_keys(f.plan).contains(k) && in_range(init, k.0 as int, k.1 as int) implies settled_state(
        state_at(f.job.boards, k),
    ) by {
        assert(done_keys(f).contains(k));
    }
}

// --- Counting what was placed and failed ---

/// The number of placements of a board in a state that `f` picks.
pub open spec fn count_row(row: Seq<PlacementView>, f: spec_fn(PlacementView) -> bool) -> nat
    decreases row.len(),
{
    if row.len() == 0 {
        0
    } else {
        count_row(row.drop_last(), f) + if f(row.last()) {
            1nat
        } else {
            0nat
        }
    }
}

/// The number of placements of all boards in a state that `f` picks.
pub open spec fn count_boards(bs: Seq<Seq<PlacementView>>, f: spec_fn(PlacementView) -> bool) -> nat
    decreases bs.len(),
{
    if bs.len() == 0 {
        0
    } else {
        count_boards(bs.drop_last(), f) + count_row(bs.last(), f)
    }
}

pub open spec fn is_placed() -> spec_fn(PlacementView) -> bool {
    |v: PlacementView| v is Placed
}

pub open spec fn is_failed() -> spec_fn(PlacementView) -> bool {
    |v: PlacementView| v is Failed
}

pub open spec fn any_state() -> spec_fn(PlacementView) -> bool {
    |v: PlacementView| true
}

pub open spec fn one_if(b: bool) -> int {
    if b {
        1
    } else {
        0
    }
}

proof fn lemma_count_row_update(row: Seq<PlacementView>, y: int, v: PlacementView, f: spec_fn(PlacementView) -> bool)
    requires
        0 <= y < row.len(),
    ensures
        count_row(row.update(y, v), f) == count_row(row, f) - one_if(f(row[y])) + one_if(f(v)),
    decreases row.len(),
{
    let u = row.update(y, v);
    if y < row.len() - 1 {
        assert(u.drop_last() =~= row.drop_last().update(y, v));
        lemma_count_row_update(row.drop_last(), y, v, f);
    } else {
        assert(u.drop_last() =~= row.drop_last());
    }
}

proof fn lemma_count_boards_update(
    bs: Seq<Seq<PlacementView>>,
    x: int,
    y: int,
    v: PlacementView,
    f: spec_fn(PlacementView) -> bool,
)
    requires
        in_range(bs, x, y),
    ensures
        count_boards(crate::job::progress::set_state(bs, x, y, v), f) == count_boards(bs, f) - one_if(f(bs[x][y]))
            + one_if(f(v)),
    decreases bs.len(),
{
    let u = crate::job::progress::set_state(bs, x, y, v);
    lemma_count_row_update(bs[x], y, v, f);
    if x < bs.len() - 1 {
        assert(u.drop_last() =~= crate::job::progress::set_state(bs.drop_last(), x, y, v));
        lemma_count_boards_update(bs.drop_last(), x, y, v, f);
    } else {
        assert(u.drop_last() =~= bs.drop_last());
    }
}

proof fn lemma_count_row_le(row: Seq<PlacementView>, f: spec_fn(PlacementView) -> bool)
    ensures
        count_row(row, f) <= count_row(row, any_state()),
        count_row(row, any_state()) == row.len(),
    decreases row.len(),
{
    if row.len() > 0 {
        lemma_count_row_le(row.drop_last(), f);
    }
}

proof fn lemma_count_boards_le(bs: Seq<Seq<PlacementView>>, f: spec_fn(PlacementView) -> bool)
    ensures
        count_boards(bs, f) <= count_boards(bs, any_state()),
    decreases bs.len(),
{
    if bs.len() > 0 {
        lemma_count_boards_le(bs.drop_last(), f);
        lemma_count_row_le(bs.last(), f);
    }
}

proof fn lemma_count_shape(a: Seq<Seq<PlacementView>>, b: Seq<Seq<PlacementView>>)
    requires
        same_shape(a, b),
    ensures
        count_boards(a, any_state()) == count_boards(b, any_state()),
    decreases a.len(),
{
    if a.len() > 0 {
        lemma_count_shape(a.drop_last(), b.drop_last());
        lemma_count_row_le(a.last(), any_state());
        lemma_count_row_le(b.last(), any_state());
    }
}

/// No placement starts placed or failed.
pub open spec fn no_outcome(init: Seq<Seq<PlacementView>>) -> bool {
    forall|x: int, y: int| in_range(init, x, y) ==> !(#[trigger] init[x][y] is Placed || init[x][y] is Failed)
}

/// What the counting law asks of an event: a plan it brings fits in memory
/// and places no placement twice, and a skip it brings names no placement
/// that is already placed or failed.
pub open spec fn fair_event(r: RunnerView, e: EventView) -> bool {
    &&& e matches EventView::Planned(p) ==> plan_fits(p) && place_keys(p).no_duplicates()
    &&& e matches EventView::Control(JobControl::SkipPlacement { board_idx, placement_idx }) ==> !(in_range(
        r.job.boards,
        board_idx as int,
        placement_idx as int,
    ) && (r.job.boards[board_idx as int][placement_idx as int] is Placed
        || r.job.boards[board_idx as int][placement_idx as int] is Failed))
}

/// Every event of `es` is fair where it comes.
pub open spec fn fair_run(r: RunnerView, es: Seq<EventView>) -> bool
    decreases es.len(),
{
    if es.len() == 0 {
        true
    } else {
        fair_event(r, es[0]) && fair_run(next(r, es[0]).0, es.drop_first())
    }
}

pub open spec fn count_inv(r: RunnerView, init: Seq<Seq<PlacementView>>) -> bool {
    &&& run_inv(r, init)
    &&& place_keys(r.plan).no_duplicates()
    &&& r.job.stats.completed == count_boards(r.job.boards, is_placed())
    &&& r.job.stats.failed == count_boards(r.job.boards, is_failed())
}

proof fn lemma_skip_counts(r: RunnerView, b: usize, p: usize)
    requires
        in_range(r.job.boards, b as int, p as int),
        !(r.job.boards[b as int][p as int] is Placed || r.job.boards[b as int][p as int] is Failed),
    ensures
        count_boards(crate::job::progress::set_state(r.job.boards, b as int, p as int, PlacementView::Skipped), is_placed())
            == count_boards(r.job.boards, is_placed()),
        count_boards(crate::job::progress::set_state(r.job.boards, b as int, p as int, PlacementView::Skipped), is_failed())
            == count_boards(r.job.boards, is_failed()),
{
    lemma_count_boards_update(r.job.boards, b as int, p as int, PlacementView::Skipped, is_placed());
    lemma_count_boards_update(r.job.boards, b as int, p as int, PlacementView::Skipped, is_failed());
}

proof fn lemma_count_next(r: RunnerView, e: EventView, init: Seq<Seq<PlacementView>>)
    requires
        count_inv(r, init),
        no_outcome(init),
        count_boards(init, any_state()) < usize::MAX,
        fair_event(r, e),
    ensures
        count_inv(next(r, e).0, init),
{
    let r2 = next(r, e).0;
    lemma_inv_next(r, e, init);
    let b1 = r.job.boards;
    lemma_count_shape(init, b1);
    lemma_count_boards_le(b1, is_placed());
    lemma_count_boards_le(b1, is_failed());
    if let EventView::Control(JobControl::SkipPlacement { board_idx, placement_idx }) = e {
        if in_range(b1, board_idx as int, placement_idx as int) {
            lemma_skip_counts(r, board_idx, placement_idx);
        }
    }
    if placing(r) && !r.paused && (e is Succeeded || e is Failed) {
        let x = current_item(r);
        let k = akey(x);
        lemma_done_prefix(r);
        if done_keys(r).contains(k) {
            let j = choose|j: int| 0 <= j < done_keys(r).len() && done_keys(r)[j] == k;
            assert(place_keys(r.plan)[j] == place_keys(r.plan)[done_keys(r).len() as int]);
        }
        if in_range(b1, k.0 as int, k.1 as int) {
            assert(in_range(init, k.0 as int, k.1 as int));
            assert(b1[k.0 as int][k.1 as int] == init[k.0 as int][k.1 as int] || b1[k.0 as int][k.1 as int] is Skipped
                || ((b1[k.0 as int][k.1 as int] is Placed || b1[k.0 as int][k.1 as int] is Failed) && done_keys(r).contains(
                ((k.0 as int) as nat, (k.1 as int) as nat),
            )));
            let v = if e is Succeeded {
                PlacementView::Placed
            } else {
                PlacementView::Failed(e->Failed_0)
            };
            lemma_count_boards_update(b1, k.0 as int, k.1 as int, v, is_placed());
            lemma_count_boards_update(b1, k.0 as int, k.1 as int, v, is_failed());
            let j = crate::job::progress::record(r.job, x, v);
            assert(next(r, e) == crate::job::progress::at_item(r, r.phase->AtItem_0, r.phase->AtItem_1, e));
            assert(r2.job.boards == j.boards && r2.job.stats == j.stats);
        }
    }
}

proof fn lemma_count_run(r: RunnerView, es: Seq<EventView>, init: Seq<Seq<PlacementView>>)
    requires
        count_inv(r, init),
        no_outcome(init),
        count_boards(init, any_state()) < usize::MAX,
        fair_run(r, es),
    ensures
        count_inv(run_from(r, es), init),
    decreases es.len(),
{
    if es.len() > 0 {
        lemma_count_next(r, es[0], init);
        lemma_count_run(next(r, es[0]).0, es.drop_first(), init);
    }
}

/// Whatever commands come and however the work goes, a job that starts
/// fresh, with no placement placed or failed and its counters at zero, counts
/// as completed exactly the placements that stand placed, and as failed
/// exactly those that stand failed, at every point of its run, as long as each
/// plan it is given places no placement twice and no skip names a placement
/// that is already placed or failed. The number of placements fits in memory.
pub proof fn lemma_counts_match(r0: RunnerView, es: Seq<EventView>)
    requires
        r0.phase == Phase::Start,
        !r0.paused,
        r0.plan.len() == 0,
        no_outcome(r0.job.boards),
        r0.job.stats.completed == 0,
        r0.job.stats.failed == 0,
        count_boards(r0.job.boards, any_state()) < usize::MAX,
        fair_run(r0, es),
    ensures
        run_from(r0, es).job.stats.completed == count_boards(run_from(r0, es).job.boards, is_placed()),
        run_from(r0, es).job.stats.failed == count_boards(run_from(r0, es).job.boards, is_failed()),
{
    let init = r0.job.boards;
    lemma_count_zero(init, is_placed());
    lemma_count_zero(init, is_failed());
    assert(run_inv(r0, init));
    assert(place_keys(r0.plan) =~= Seq::<(nat, nat)>::empty());
    lemma_count_run(r0, es, init);
}

proof fn lemma_count_zero(bs: Seq<Seq<PlacementView>>, f: spec_fn(PlacementView) -> bool)
    requires
        no_outcome(bs),
        f == is_placed() || f == is_failed(),
    ensures
        count_boards(bs, f) == 0,
    decreases bs.len(),
{
    if bs.len() > 0 {
        let pre = bs.drop_last();
        assert forall|x: int, y: int| in_range(pre, x, y) implies !(#[trigger] pre[x][y] is Placed || pre[x][y] is Failed) by {
            assert(in_range(bs, x, y));
        }
        lemma_count_zero(pre, f);
        lemma_count_row_zero(bs.last(), f, bs, bs.len() - 1);
    }
}

proof fn lemma_count_row_zero(row: Seq<PlacementView>, f: spec_fn(PlacementView) -> bool, bs: Seq<Seq<PlacementView>>, x: int)
    requires
        0 <= x < bs.len(),
        row.len() <= bs[x].len(),
        forall|y: int| 0 <= y < row.len() ==> row[y] == bs[x][y],
        no_outcome(bs),
        f == is_placed() || f == is_failed(),
    ensures
        count_row(row, f) == 0,
    decreases row.len(),
{
    if row.len() > 0 {
        assert(in_range(bs, x, row.len() - 1));
        assert(!(bs[x][row.len() - 1] is Placed || bs[x][row.len() - 1] is Failed));
        lemma_count_row_zero(row.drop_last(), f, bs, x);
    }
}

} // verus!
