//! What a job does when every piece of work but some places succeeds and no
//! command comes: it places the plan's placements in the plan's order, each
//! ends placed or failed, the counters count them, and the job completes.

use vstd::prelude::*;

use crate::job::plan_once::akey;
use crate::job::plan_once::batch_keys;
use crate::job::plan_once::lemma_place_keys_add;
use crate::job::plan_once::place_keys;
use crate::job::progress::ActionView;
use crate::job::progress::EventView;
use crate::job::progress::JobStats;
use crate::job::progress::Phase;
use crate::job::progress::RunBoard;
use crate::job::progress::RunnerView;
use crate::job::progress::StatusView;
use crate::job::progress::batch_of;
use crate::job::progress::in_range;
use crate::job::progress::record;
use crate::job::progress::enter_board;
use crate::job::progress::first_enabled;
use crate::job::progress::next;
use crate::job::types::AssignmentView;
use crate::job::types::PlacementView;
use crate::job::types::StepView;

verus! {

/// What placing the placement `k` ends in on a machine whose places fail
/// exactly for the placements in `fails`, with the error that `fails` gives.
pub open spec fn outcome(k: (nat, nat), fails: Map<(nat, nat), Seq<char>>) -> PlacementView {
    if fails.dom().contains(k) {
        PlacementView::Failed(fails[k])
    } else {
        PlacementView::Placed
    }
}

/// The outcome that such a machine reports for a place.
pub open spec fn place_event(x: AssignmentView, fails: Map<(nat, nat), Seq<char>>) -> EventView {
    if fails.dom().contains(akey(x)) {
        EventView::Failed(fails[akey(x)])
    } else {
        EventView::Succeeded(0)
    }
}

/// What such a machine, on which every other piece of work succeeds and to
/// which no command comes, answers to an action; `plan` is the plan it makes.
pub open spec fn auto_event(a: ActionView, plan: Seq<StepView>, fails: Map<(nat, nat), Seq<char>>) -> EventView {
    match a {
        ActionView::CheckControl => EventView::NoControl,
        ActionView::Plan => EventView::Planned(plan),
        ActionView::Place(x) => place_event(x, fails),
        _ => EventView::Succeeded(0),
    }
}

/// The placement that an action places, if it is a place.
pub open spec fn emitted(a: ActionView) -> Seq<(nat, nat)> {
    match a {
        ActionView::Place(x) => seq![akey(x)],
        _ => seq![],
    }
}

/// Runs the runner from event `e` on such a machine, for at most `fuel + 1`
/// decisions, or until it finishes or asks for nothing: the runner's state
/// then, the placements it placed, and its last action.
pub open spec fn drive(
    r: RunnerView,
    e: EventView,
    plan: Seq<StepView>,
    fails: Map<(nat, nat), Seq<char>>,
    fuel: nat,
) -> (RunnerView, Seq<(nat, nat)>, ActionView)
    decreases fuel, 1nat,
{
    let (r2, a) = next(r, e);
    cont(r2, a, plan, fails, fuel)
}

/// Goes on after the runner asked for `a`.
pub open spec fn cont(
    r2: RunnerView,
    a: ActionView,
    plan: Seq<StepView>,
    fails: Map<(nat, nat), Seq<char>>,
    fuel: nat,
) -> (RunnerView, Seq<(nat, nat)>, ActionView)
    decreases fuel, 0nat,
{
    if fuel == 0 || a is Finish || a is Idle {
        (r2, emitted(a), a)
    } else {
        let (r3, ks, last) = drive(r2, auto_event(a, plan, fails), plan, fails, (fuel - 1) as nat);
        (r3, emitted(a) + ks, last)
    }
}

/// The plan and its batches have lengths that fit in `usize`.
pub open spec fn plan_fits(plan: Seq<StepView>) -> bool {
    &&& plan.len() <= usize::MAX
    &&& forall|t: int| 0 <= t < plan.len() ==> batch_of(#[trigger] plan[t]).len() <= usize::MAX
}

/// How many placements each board has.
pub open spec fn shape(bs: Seq<Seq<PlacementView>>) -> Seq<nat> {
    bs.map_values(|p: Seq<PlacementView>| p.len())
}

/// Placement `k` exists on boards of shape `sh`.
pub open spec fn in_shape(sh: Seq<nat>, k: (nat, nat)) -> bool {
    k.0 < sh.len() && k.1 < sh[k.0 as int]
}

/// An existing placement whose place succeeds.
pub open spec fn succeeds(sh: Seq<nat>, fails: Map<(nat, nat), Seq<char>>) -> spec_fn((nat, nat)) -> bool {
    |k: (nat, nat)| in_shape(sh, k) && !fails.dom().contains(k)
}

/// An existing placement whose place fails.
pub open spec fn breaks(sh: Seq<nat>, fails: Map<(nat, nat), Seq<char>>) -> spec_fn((nat, nat)) -> bool {
    |k: (nat, nat)| in_shape(sh, k) && fails.dom().contains(k)
}

/// The number of entries of `ks` that satisfy `p`.
pub open spec fn count_keys(ks: Seq<(nat, nat)>, p: spec_fn((nat, nat)) -> bool) -> nat
    decreases ks.len(),
{
    if ks.len() == 0 {
        0
    } else {
        count_keys(ks.drop_last(), p) + if p(ks.last()) {
            1nat
        } else {
            0nat
        }
    }
}

proof fn lemma_count_add(x: Seq<(nat, nat)>, y: Seq<(nat, nat)>, p: spec_fn((nat, nat)) -> bool)
    ensures
        count_keys(x + y, p) == count_keys(x, p) + count_keys(y, p),
    decreases y.len(),
{
    if y.len() == 0 {
        assert(x + y =~= x);
    } else {
        assert((x + y).drop_last() =~= x + y.drop_last());
        lemma_count_add(x, y.drop_last(), p);
    }
}

proof fn lemma_count_len(x: Seq<(nat, nat)>, p: spec_fn((nat, nat)) -> bool)
    ensures
        count_keys(x, p) <= x.len(),
    decreases x.len(),
{
    if x.len() > 0 {
        lemma_count_len(x.drop_last(), p);
    }
}

/// The boards keep their shape, and every placement either keeps its state
/// or takes the outcome of placing it.
pub open spec fn keeps(a: Seq<Seq<PlacementView>>, b: Seq<Seq<PlacementView>>, fails: Map<(nat, nat), Seq<char>>) -> bool {
    &&& a.len() == b.len()
    &&& forall|x: int| 0 <= x < a.len() ==> #[trigger] b[x].len() == a[x].len()
    &&& forall|x: int, y: int|
        in_range(a, x, y) ==> #[trigger] b[x][y] == a[x][y] || b[x][y] == outcome((x as nat, y as nat), fails)
}

/// Every placement of `ks` that exists is in the state that placing it ends in.
pub open spec fn settled(bs: Seq<Seq<PlacementView>>, ks: Seq<(nat, nat)>, fails: Map<(nat, nat), Seq<char>>) -> bool {
    forall|k: int|
        0 <= k < ks.len() && in_range(bs, ks[k].0 as int, ks[k].1 as int) ==> bs[ks[k].0 as int][ks[k].1 as int]
            == outcome(ks[k], fails)
}

/// The counters grew by the placements of `ks` that succeed and that fail, on
/// boards of shape `sh`; the other counters stayed.
pub open spec fn tallied(a: JobStats, b: JobStats, sh: Seq<nat>, ks: Seq<(nat, nat)>, fails: Map<(nat, nat), Seq<char>>) -> bool {
    &&& b.completed == a.completed + count_keys(ks, succeeds(sh, fails))
    &&& b.failed == a.failed + count_keys(ks, breaks(sh, fails))
    &&& b.total_placements == a.total_placements
    &&& b.skipped == a.skipped
    &&& b.pick_retries == a.pick_retries
}

/// The counters of placed and failed placements have room for `n` more.
pub open spec fn room(st: JobStats, n: nat) -> bool {
    st.completed + n <= usize::MAX && st.failed + n <= usize::MAX
}

proof fn lemma_keeps_refl(a: Seq<Seq<PlacementView>>, fails: Map<(nat, nat), Seq<char>>)
    ensures
        keeps(a, a, fails),
{
}

proof fn lemma_keeps_trans(
    a: Seq<Seq<PlacementView>>,
    b: Seq<Seq<PlacementView>>,
    c: Seq<Seq<PlacementView>>,
    fails: Map<(nat, nat), Seq<char>>,
)
    requires
        keeps(a, b, fails),
        keeps(b, c, fails),
    ensures
        keeps(a, c, fails),
        shape(a) == shape(c),
{
    assert forall|x: int, y: int| in_range(a, x, y) implies #[trigger] c[x][y] == a[x][y] || c[x][y]
        == outcome((x as nat, y as nat), fails) by {
        assert(in_range(b, x, y));
        assert(b[x][y] == a[x][y] || b[x][y] == outcome((x as nat, y as nat), fails));
        assert(c[x][y] == b[x][y] || c[x][y] == outcome((x as nat, y as nat), fails));
    }
    assert(shape(a) =~= shape(c));
}

proof fn lemma_keeps_shape(a: Seq<Seq<PlacementView>>, b: Seq<Seq<PlacementView>>, fails: Map<(nat, nat), Seq<char>>)
    requires
        keeps(a, b, fails),
    ensures
        shape(a) == shape(b),
{
    assert(shape(a) =~= shape(b));
}

proof fn lemma_settled_keep(
    a: Seq<Seq<PlacementView>>,
    b: Seq<Seq<PlacementView>>,
    ks: Seq<(nat, nat)>,
    fails: Map<(nat, nat), Seq<char>>,
)
    requires
        keeps(a, b, fails),
        settled(a, ks, fails),
    ensures
        settled(b, ks, fails),
{
    assert forall|k: int|
        0 <= k < ks.len() && in_range(b, ks[k].0 as int, ks[k].1 as int) implies b[ks[k].0 as int][ks[k].1 as int]
        == outcome(ks[k], fails) by {
        let x = ks[k].0 as int;
        let y = ks[k].1 as int;
        assert(in_range(a, x, y));
        assert(b[x][y] == a[x][y] || b[x][y] == outcome((x as nat, y as nat), fails));
        assert((x as nat, y as nat) == ks[k]);
    }
}

proof fn lemma_settled_add(
    bs: Seq<Seq<PlacementView>>,
    x: Seq<(nat, nat)>,
    y: Seq<(nat, nat)>,
    fails: Map<(nat, nat), Seq<char>>,
)
    requires
        settled(bs, x, fails),
        settled(bs, y, fails),
    ensures
        settled(bs, x + y, fails),
{
    assert forall|k: int|
        0 <= k < (x + y).len() && in_range(bs, (x + y)[k].0 as int, (x + y)[k].1 as int) implies bs[(x
        + y)[k].0 as int][(x + y)[k].1 as int] == outcome((x + y)[k], fails) by {
        if k < x.len() {
            assert((x + y)[k] == x[k]);
        } else {
            assert((x + y)[k] == y[k - x.len()]);
        }
    }
}

proof fn lemma_settled_empty(bs: Seq<Seq<PlacementView>>, fails: Map<(nat, nat), Seq<char>>)
    ensures
        settled(bs, Seq::<(nat, nat)>::empty(), fails),
{
}

proof fn lemma_tallied_trans(
    a: JobStats,
    b: JobStats,
    c: JobStats,
    sh: Seq<nat>,
    x: Seq<(nat, nat)>,
    y: Seq<(nat, nat)>,
    fails: Map<(nat, nat), Seq<char>>,
)
    requires
        tallied(a, b, sh, x, fails),
        tallied(b, c, sh, y, fails),
    ensures
        tallied(a, c, sh, x + y, fails),
{
    lemma_count_add(x, y, succeeds(sh, fails));
    lemma_count_add(x, y, breaks(sh, fails));
}

proof fn lemma_tallied_none(a: JobStats, sh: Seq<nat>, fails: Map<(nat, nat), Seq<char>>)
    ensures
        tallied(a, a, sh, Seq::<(nat, nat)>::empty(), fails),
{
}

/// The runner works on an item of a place step.
pub open spec fn placing(r: RunnerView) -> bool {
    r.phase matches Phase::AtItem(s, i) && r.plan[s as int] is PlaceBatch
}

/// The assignment of the item the runner works on.
pub open spec fn current_item(r: RunnerView) -> AssignmentView {
    batch_of(r.plan[r.phase->AtItem_0 as int])[r.phase->AtItem_1 as int]
}

proof fn lemma_count_one(k: (nat, nat), p: spec_fn((nat, nat)) -> bool)
    ensures
        count_keys(seq![k], p) == if p(k) {
            1nat
        } else {
            0nat
        },
{
    assert(seq![k].drop_last() =~= Seq::<(nat, nat)>::empty());
    assert(count_keys(Seq::<(nat, nat)>::empty(), p) == 0);
    assert(seq![k].last() == k);
}

/// On such a machine, a decision changes no placement but the one it places,
/// which takes the outcome of placing it and is counted.
proof fn lemma_auto_next(r: RunnerView, e: EventView, fails: Map<(nat, nat), Seq<char>>)
    requires
        !r.paused,
        placing(r) ==> r.phase->AtItem_1 < batch_of(r.plan[r.phase->AtItem_0 as int]).len(),
        placing(r) ==> e == place_event(current_item(r), fails),
        placing(r) ==> room(r.job.stats, 1),
        !placing(r) ==> (e is NoControl || e == EventView::Succeeded(0) || e is Planned || e is Begin),
    ensures
        keeps(r.job.boards, next(r, e).0.job.boards, fails),
        placing(r) ==> settled(next(r, e).0.job.boards, seq![akey(current_item(r))], fails)
            && tallied(
            r.job.stats,
            next(r, e).0.job.stats,
            shape(r.job.boards),
            seq![akey(current_item(r))],
            fails,
        ),
        !placing(r) ==> next(r, e).0.job.boards == r.job.boards && next(r, e).0.job.stats
            == r.job.stats,
{
    let r2 = next(r, e).0;
    if placing(r) {
        let x = current_item(r);
        let k = akey(x);
        let v = outcome(k, fails);
        let j = record(r.job, x, v);
        assert(r2.job.boards == j.boards && r2.job.stats == j.stats);
        let sh = shape(r.job.boards);
        lemma_count_one(k, succeeds(sh, fails));
        lemma_count_one(k, breaks(sh, fails));
        assert(in_range(r.job.boards, k.0 as int, k.1 as int) == in_shape(sh, k));
        let ks = seq![k];
        assert forall|q: int|
            0 <= q < ks.len() && in_range(j.boards, ks[q].0 as int, ks[q].1 as int) implies j.boards[ks[q].0 as int][ks[q].1 as int]
            == outcome(ks[q], fails) by {
            assert(ks[q] == k);
        }
        assert forall|x1: int, y1: int| in_range(r.job.boards, x1, y1) implies #[trigger] j.boards[x1][y1]
            == r.job.boards[x1][y1] || j.boards[x1][y1] == outcome((x1 as nat, y1 as nat), fails) by {
            if in_range(r.job.boards, k.0 as int, k.1 as int) && x1 == k.0 && y1 == k.1 {
                assert((x1 as nat, y1 as nat) == k);
            }
        }
    } else {
        if let Phase::AtItem(s, i) = r.phase {
            if let StepView::PickBatch(_) = r.plan[s as int] {
                assert(r2.job.stats == r.job.stats);
            }
        }
    }
}

/// The work items of a step: its assignments, one tip change, or none.
pub open spec fn item_count(st: StepView) -> nat {
    match st {
        StepView::FiducialCheck { .. } => 0,
        StepView::ChangeTips(_) => 1,
        _ => batch_of(st).len(),
    }
}

/// The decisions the steps `s..` take on such a machine.
pub open spec fn need(plan: Seq<StepView>, s: int) -> nat
    decreases plan.len() - s,
{
    if s < 0 || s >= plan.len() {
        0
    } else {
        1 + item_count(plan[s]) + need(plan, s + 1)
    }
}

pub open spec fn step_keys(st: StepView) -> Seq<(nat, nat)> {
    match st {
        StepView::PlaceBatch(a) => batch_keys(a),
        _ => seq![],
    }
}

proof fn lemma_place_keys_from(plan: Seq<StepView>, s: int)
    requires
        0 <= s < plan.len(),
    ensures
        place_keys(plan.subrange(s, plan.len() as int)) == step_keys(plan[s]) + place_keys(
            plan.subrange(s + 1, plan.len() as int),
        ),
{
    let one = seq![plan[s]];
    assert(plan.subrange(s, plan.len() as int) =~= one + plan.subrange(s + 1, plan.len() as int));
    lemma_place_keys_add(one, plan.subrange(s + 1, plan.len() as int));
    assert(one.drop_last() =~= Seq::<StepView>::empty());
    assert(place_keys(one) == place_keys(one.drop_last()) + step_keys(plan[s]));
}

/// The runner reads the pending commands before step `s`.
pub open spec fn at_step(r: RunnerView, plan: Seq<StepView>, s: int) -> bool {
    &&& !r.paused
    &&& r.plan == plan
    &&& 0 <= s < plan.len()
    &&& plan_fits(plan)
    &&& r.phase == Phase::CheckStep(s as usize)
}

/// A run from `r` ended in `res`: it placed `ks` in this order, completed,
/// and left the placements of `done` in their outcomes, counted.
pub open spec fn ran(
    r: RunnerView,
    res: (RunnerView, Seq<(nat, nat)>, ActionView),
    ks: Seq<(nat, nat)>,
    done: Seq<(nat, nat)>,
    fails: Map<(nat, nat), Seq<char>>,
) -> bool {
    &&& res.1 == ks
    &&& res.2 == ActionView::Finish(StatusView::Complete)
    &&& res.0.phase == Phase::Done
    &&& res.0.job.status == StatusView::Complete
    &&& keeps(r.job.boards, res.0.job.boards, fails)
    &&& settled(res.0.job.boards, done, fails)
    &&& tallied(r.job.stats, res.0.job.stats, shape(r.job.boards), done, fails)
}

/// The outcome such a machine reports for item `i` of a batch step.
pub open spec fn item_event(st: StepView, i: int, fails: Map<(nat, nat), Seq<char>>) -> EventView {
    if st is PlaceBatch {
        place_event(batch_of(st)[i], fails)
    } else {
        EventView::Succeeded(0)
    }
}

/// The placements of the items `i..` of a batch step.
pub open spec fn rest_keys(st: StepView, i: int) -> Seq<(nat, nat)> {
    if st is PlaceBatch {
        batch_keys(batch_of(st)).subrange(i, batch_of(st).len() as int)
    } else {
        Seq::<(nat, nat)>::empty()
    }
}

/// From step `s` on, such a machine places the placements of the remaining
/// place steps in order, each ends in its outcome and is counted, and the job
/// completes.
proof fn lemma_drive_steps(r: RunnerView, plan: Seq<StepView>, fails: Map<(nat, nat), Seq<char>>, s: int, fuel: nat)
    requires
        at_step(r, plan, s),
        fuel >= need(plan, s),
        room(r.job.stats, place_keys(plan.subrange(s, plan.len() as int)).len()),
    ensures
        ran(
            r,
            drive(r, EventView::NoControl, plan, fails, fuel),
            place_keys(plan.subrange(s, plan.len() as int)),
            place_keys(plan.subrange(s, plan.len() as int)),
            fails,
        ),
    decreases plan.len() - s, 2nat, 0nat,
{
    lemma_place_keys_from(plan, s);
    let k_all = place_keys(plan.subrange(s, plan.len() as int));
    let k_next = place_keys(plan.subrange(s + 1, plan.len() as int));
    let st = plan[s];
    let (r2, a) = next(r, EventView::NoControl);
    lemma_auto_next(r, EventView::NoControl, fails);
    assert(r2.job.boards == r.job.boards && r2.job.stats == r.job.stats);
    match st {
        StepView::FiducialCheck { .. } => {
            assert(step_keys(st) =~= Seq::<(nat, nat)>::empty());
            assert(k_all =~= k_next);
            lemma_after_step(r2, a, plan, fails, s, fuel);
        },
        StepView::ChangeTips(c) => {
            assert(a is ChangeTips);
            assert(!placing(r2));
            let (r3, a3) = next(r2, EventView::Succeeded(0));
            lemma_auto_next(r2, EventView::Succeeded(0), fails);
            assert(step_keys(st) =~= Seq::<(nat, nat)>::empty());
            assert(k_all =~= k_next);
            lemma_after_step(r3, a3, plan, fails, s, (fuel - 1) as nat);
            assert(emitted(a) =~= Seq::<(nat, nat)>::empty());
            assert(drive(r2, EventView::Succeeded(0), plan, fails, (fuel - 1) as nat) == cont(
                r3,
                a3,
                plan,
                fails,
                (fuel - 1) as nat,
            ));
            let res = cont(r3, a3, plan, fails, (fuel - 1) as nat);
            assert(emitted(a) + res.1 =~= res.1);
        },
        _ => {
            let b = batch_of(st);
            if b.len() == 0 {
                assert(batch_keys(b) =~= Seq::<(nat, nat)>::empty());
                assert(k_all =~= k_next);
                lemma_after_step(r2, a, plan, fails, s, fuel);
            } else {
                assert(r2.phase == Phase::AtItem(s as usize, 0));
                assert(auto_event(a, plan, fails) == item_event(st, 0, fails));
                assert(batch_keys(b).subrange(0, b.len() as int) =~= batch_keys(b));
                assert(rest_keys(st, 0) + k_next =~= k_all);
                lemma_drive_items(r2, plan, fails, s, 0, (fuel - 1) as nat);
                let res = drive(r2, auto_event(a, plan, fails), plan, fails, (fuel - 1) as nat);
                assert(emitted(a) + rest_keys(st, 1) =~= rest_keys(st, 0));
                assert(emitted(a) + res.1 =~= k_all);
            }
        },
    }
}

/// After the last item of step `s`: the runner goes on with step `s + 1`,
/// or completes.
proof fn lemma_after_step(
    r2: RunnerView,
    a: ActionView,
    plan: Seq<StepView>,
    fails: Map<(nat, nat), Seq<char>>,
    s: int,
    fuel: nat,
)
    requires
        0 <= s < plan.len(),
        plan_fits(plan),
        !r2.paused,
        r2.plan == plan,
        fuel >= need(plan, s + 1) + 1,
        room(r2.job.stats, place_keys(plan.subrange(s + 1, plan.len() as int)).len()),
        s + 1 < plan.len() ==> r2.phase == Phase::CheckStep((s + 1) as usize) && a
            == ActionView::CheckControl,
        s + 1 >= plan.len() ==> r2.phase == Phase::Done && r2.job.status == StatusView::Complete
            && a == ActionView::Finish(StatusView::Complete),
    ensures
        ran(
            r2,
            cont(r2, a, plan, fails, fuel),
            place_keys(plan.subrange(s + 1, plan.len() as int)),
            place_keys(plan.subrange(s + 1, plan.len() as int)),
            fails,
        ),
    decreases plan.len() - s, 0nat, 0nat,
{
    if s + 1 < plan.len() {
        assert(at_step(r2, plan, s + 1));
        lemma_drive_steps(r2, plan, fails, s + 1, (fuel - 1) as nat);
        assert(emitted(a) =~= Seq::<(nat, nat)>::empty());
        let res = drive(r2, auto_event(a, plan, fails), plan, fails, (fuel - 1) as nat);
        assert(emitted(a) + res.1 =~= res.1);
    } else {
        assert(plan.subrange(s + 1, plan.len() as int) =~= Seq::<StepView>::empty());
        assert(place_keys(Seq::<StepView>::empty()) == Seq::<(nat, nat)>::empty());
        assert(emitted(a) =~= Seq::<(nat, nat)>::empty());
        lemma_keeps_refl(r2.job.boards, fails);
        lemma_settled_empty(r2.job.boards, fails);
        lemma_tallied_none(r2.job.stats, shape(r2.job.boards), fails);
    }
}

/// While item `i` of batch step `s` is being worked on, such a machine
/// finishes the batch's remaining items in order and then the steps after.
proof fn lemma_drive_items(
    r: RunnerView,
    plan: Seq<StepView>,
    fails: Map<(nat, nat), Seq<char>>,
    s: int,
    i: int,
    fuel: nat,
)
    requires
        0 <= s < plan.len(),
        plan_fits(plan),
        !r.paused,
        r.plan == plan,
        r.phase == Phase::AtItem(s as usize, i as usize),
        plan[s] is PickBatch || plan[s] is AlignBatch || plan[s] is PlaceBatch,
        0 <= i < batch_of(plan[s]).len(),
        fuel >= batch_of(plan[s]).len() - i + need(plan, s + 1),
        room(r.job.stats, (rest_keys(plan[s], i) + place_keys(plan.subrange(s + 1, plan.len() as int))).len()),
    ensures
        ran(
            r,
            drive(r, item_event(plan[s], i, fails), plan, fails, fuel),
            rest_keys(plan[s], i + 1) + place_keys(plan.subrange(s + 1, plan.len() as int)),
            rest_keys(plan[s], i) + place_keys(plan.subrange(s + 1, plan.len() as int)),
            fails,
        ),
    decreases plan.len() - s, 1nat, batch_of(plan[s]).len() - i,
{
    let st = plan[s];
    let a = batch_of(st);
    assert(a.len() <= usize::MAX);
    let ev = item_event(st, i, fails);
    let (r2, a2) = next(r, ev);
    let tail = place_keys(plan.subrange(s + 1, plan.len() as int));
    let sh = shape(r.job.boards);
    if st is PlaceBatch {
        assert(placing(r));
        assert(current_item(r) == a[i]);
        assert(rest_keys(st, i) =~= seq![akey(a[i])] + rest_keys(st, i + 1));
    } else {
        assert(!placing(r));
        assert(rest_keys(st, i) =~= rest_keys(st, i + 1));
    }
    lemma_auto_next(r, ev, fails);
    let one = if st is PlaceBatch {
        seq![akey(a[i])]
    } else {
        Seq::<(nat, nat)>::empty()
    };
    assert(rest_keys(st, i) =~= one + rest_keys(st, i + 1));
    assert(settled(r2.job.boards, one, fails));
    assert(tallied(r.job.stats, r2.job.stats, sh, one, fails));
    lemma_keeps_shape(r.job.boards, r2.job.boards, fails);
    lemma_count_len(one, succeeds(sh, fails));
    lemma_count_len(one, breaks(sh, fails));
    let d2 = rest_keys(st, i + 1) + tail;
    assert(one + d2 =~= rest_keys(st, i) + tail);
    if i + 1 < a.len() {
        assert(r2.phase == Phase::AtItem(s as usize, (i + 1) as usize));
        assert(auto_event(a2, plan, fails) == item_event(st, i + 1, fails));
        lemma_drive_items(r2, plan, fails, s, i + 1, (fuel - 1) as nat);
        let res = drive(r2, auto_event(a2, plan, fails), plan, fails, (fuel - 1) as nat);
        let fin = res.0;
        lemma_keeps_trans(r.job.boards, r2.job.boards, fin.job.boards, fails);
        lemma_settled_keep(r2.job.boards, fin.job.boards, one, fails);
        lemma_settled_add(fin.job.boards, one, d2, fails);
        lemma_tallied_trans(r.job.stats, r2.job.stats, fin.job.stats, sh, one, d2, fails);
        if st is PlaceBatch {
            assert(a2 == ActionView::Place(a[i + 1]));
            assert(rest_keys(st, i + 1) =~= emitted(a2) + rest_keys(st, i + 2));
        } else {
            assert(emitted(a2) =~= Seq::<(nat, nat)>::empty());
        }
        assert(emitted(a2) + res.1 =~= rest_keys(st, i + 1) + tail);
    } else {
        assert(rest_keys(st, i + 1) =~= Seq::<(nat, nat)>::empty());
        assert(d2 =~= tail);
        lemma_after_step(r2, a2, plan, fails, s, fuel);
        let res = cont(r2, a2, plan, fails, fuel);
        let fin = res.0;
        lemma_keeps_trans(r.job.boards, r2.job.boards, fin.job.boards, fails);
        lemma_settled_keep(r2.job.boards, fin.job.boards, one, fails);
        lemma_settled_add(fin.job.boards, one, d2, fails);
        lemma_tallied_trans(r.job.stats, r2.job.stats, fin.job.stats, sh, one, d2, fails);
        assert(rest_keys(st, i + 1) + tail =~= tail);
    }
}

/// The boards at or after `b` that the job uses.
pub open spec fn enabled_after(bs: Seq<RunBoard>, b: nat) -> nat
    decreases bs.len() - b,
{
    if b >= bs.len() {
        0
    } else {
        (if bs[b as int].enabled {
            1nat
        } else {
            0nat
        }) + enabled_after(bs, b + 1)
    }
}

proof fn lemma_first_enabled(bs: Seq<RunBoard>, b: nat)
    ensures
        first_enabled(bs, b) >= b,
        first_enabled(bs, b) < bs.len() ==> bs[first_enabled(bs, b) as int].enabled && enabled_after(bs, b)
            == 1 + enabled_after(bs, first_enabled(bs, b) + 1),
        first_enabled(bs, b) >= bs.len() ==> enabled_after(bs, b) == 0,
    decreases bs.len() - b,
{
    if b < bs.len() && !bs[b as int].enabled {
        lemma_first_enabled(bs, b + 1);
    }
}

/// From the choice of the next board at or after `b`, such a machine locates
/// the remaining boards, plans, places the plan's placements in order, each
/// ends in its outcome and is counted, and the job completes.
proof fn lemma_drive_boards(
    r: RunnerView,
    b: nat,
    plan: Seq<StepView>,
    fails: Map<(nat, nat), Seq<char>>,
    fuel: nat,
)
    requires
        !r.paused,
        r.boards.len() <= usize::MAX,
        plan_fits(plan),
        fuel >= 2 * enabled_after(r.boards, b) + need(plan, 0) + 2,
        room(r.job.stats, place_keys(plan).len()),
    ensures
        ran(
            r,
            cont(enter_board(r, b).0, enter_board(r, b).1, plan, fails, fuel),
            place_keys(plan),
            place_keys(plan),
            fails,
        ),
    decreases r.boards.len() - b,
{
    lemma_first_enabled(r.boards, b);
    let n = first_enabled(r.boards, b);
    let (r2, a) = enter_board(r, b);
    assert(r2.job.boards == r.job.boards && r2.job.stats == r.job.stats);
    if n < r.boards.len() {
        let (r3, a3) = next(r2, EventView::NoControl);
        assert(a3 is LocateBoard || a3 is UseOrigin);
        let (r4, a4) = next(r3, EventView::Succeeded(0));
        assert((r4, a4) == enter_board(r3, n + 1));
        assert(r3.boards == r.boards);
        assert(r3.job.boards == r.job.boards && r3.job.stats == r.job.stats);
        lemma_drive_boards(r3, n + 1, plan, fails, (fuel - 2) as nat);
        assert(drive(r3, EventView::Succeeded(0), plan, fails, (fuel - 2) as nat) == cont(
            r4,
            a4,
            plan,
            fails,
            (fuel - 2) as nat,
        ));
        assert(drive(r2, EventView::NoControl, plan, fails, (fuel - 1) as nat) == cont(
            r3,
            a3,
            plan,
            fails,
            (fuel - 1) as nat,
        ));
        assert(emitted(a) =~= Seq::<(nat, nat)>::empty());
        assert(emitted(a3) =~= Seq::<(nat, nat)>::empty());
        assert(Seq::<(nat, nat)>::empty() + place_keys(plan) =~= place_keys(plan));
    } else {
        assert(a == ActionView::Plan);
        let (r3, a3) = next(r2, EventView::Planned(plan));
        assert(drive(r2, EventView::Planned(plan), plan, fails, (fuel - 1) as nat) == cont(
            r3,
            a3,
            plan,
            fails,
            (fuel - 1) as nat,
        ));
        assert(emitted(a) =~= Seq::<(nat, nat)>::empty());
        assert(r3.job.boards == r.job.boards && r3.job.stats == r.job.stats);
        if plan.len() == 0 {
            assert(place_keys(plan) == Seq::<(nat, nat)>::empty());
            assert(emitted(a3) =~= Seq::<(nat, nat)>::empty());
            lemma_keeps_refl(r.job.boards, fails);
            lemma_settled_empty(r.job.boards, fails);
            lemma_tallied_none(r.job.stats, shape(r.job.boards), fails);
        } else {
            assert(plan.subrange(0, plan.len() as int) =~= plan);
            assert(at_step(r3, plan, 0));
            lemma_drive_steps(r3, plan, fails, 0, (fuel - 2) as nat);
            assert(emitted(a3) =~= Seq::<(nat, nat)>::empty());
            assert(Seq::<(nat, nat)>::empty() + place_keys(plan) =~= place_keys(plan));
        }
    }
}

/// A job on a machine to which no command comes, and on which every piece of
/// work succeeds but the places of the placements in `fails`, which fail with
/// the error `fails` gives, locates its boards, plans, places the plan's
/// placements in the plan's order (the placements of its place steps, each as
/// often as the plan lists it), and completes. Every placement it placed then
/// stands placed, or failed with its error when it is in `fails`; no other
/// placement changed; and the counters of completed and failed placements grew
/// by the number of placed placements that exist and succeed, and that exist
/// and fail. With `fails` empty, every placement of the plan ends placed.
pub proof fn lemma_job_runs_plan(
    r: RunnerView,
    plan: Seq<StepView>,
    fails: Map<(nat, nat), Seq<char>>,
    fuel: nat,
)
    requires
        r.phase == Phase::Start,
        !r.paused,
        r.boards.len() <= usize::MAX,
        plan_fits(plan),
        fuel >= 2 * enabled_after(r.boards, 0) + need(plan, 0) + 2,
        room(r.job.stats, place_keys(plan).len()),
    ensures
        drive(r, EventView::Begin, plan, fails, fuel).1 == place_keys(plan),
        drive(r, EventView::Begin, plan, fails, fuel).2 == ActionView::Finish(StatusView::Complete),
        drive(r, EventView::Begin, plan, fails, fuel).0.phase == Phase::Done,
        drive(r, EventView::Begin, plan, fails, fuel).0.job.status == StatusView::Complete,
        keeps(r.job.boards, drive(r, EventView::Begin, plan, fails, fuel).0.job.boards, fails),
        settled(drive(r, EventView::Begin, plan, fails, fuel).0.job.boards, place_keys(plan), fails),
        tallied(
            r.job.stats,
            drive(r, EventView::Begin, plan, fails, fuel).0.job.stats,
            shape(r.job.boards),
            place_keys(plan),
            fails,
        ),
{
    lemma_drive_boards(r, 0, plan, fails, fuel);
    assert(next(r, EventView::Begin) == enter_board(r, 0));
}

} // verus!
