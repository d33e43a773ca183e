//! What every plan keeps: its batches pair the two nozzles, and each of its
//! assignments places a pending, enabled placement with a tip its package
//! accepts.

use vstd::prelude::*;

use crate::job::planner::Group;
use crate::job::planner::PlanBoard;
use crate::job::planner::PlanConfig;
use crate::job::planner::Resolved;
use crate::job::planner::add_pair;
use crate::job::planner::assign;
use crate::job::planner::cycle_steps;
use crate::job::planner::cycles;
use crate::job::planner::group_index;
use crate::job::planner::groups_upto;
use crate::job::planner::insert_group;
use crate::job::planner::lemma_nearest_bound;
use crate::job::planner::mark;
use crate::job::planner::nearest_upto;
use crate::job::planner::opt_seq;
use crate::job::planner::pairs_upto;
use crate::job::planner::resolve_all;
use crate::job::planner::resolve_at;
use crate::job::planner::resolve_board;
use crate::job::planner::schedule;
use crate::job::planner::sort_groups;
use crate::job::planner::spec_plan;
use crate::job::planner::unplaced;
use crate::job::planner::feeder_for;
use crate::job::planner::package_tips;
use crate::job::planner::part_package;
use crate::job::planner::strs;
use crate::job::plan_once::placeable;
use crate::job::types::AssignmentView;
use crate::job::types::NozzleId;
use crate::job::types::StepView;

verus! {

/// A batch holds one or two assignments: the first for N1, the second for N2.
pub open spec fn shape_ok(a: Seq<AssignmentView>) -> bool {
    &&& 1 <= a.len() <= 2
    &&& a[0].nozzle == NozzleId::N1
    &&& a.len() == 2 ==> a[1].nozzle == NozzleId::N2
}

/// The assignment places one of the resolved placements, with a tip that the
/// placement accepts.
pub open spec fn from_resolved(rs: Seq<Resolved>, a: AssignmentView) -> bool {
    exists|m: int|
        0 <= m < rs.len() && rs[m].tips.contains(a.tip_id) && a == #[trigger] assign(
            a.nozzle,
            a.tip_id,
            rs[m],
        )
}

pub open spec fn batch_ok(rs: Seq<Resolved>, a: Seq<AssignmentView>) -> bool {
    &&& shape_ok(a)
    &&& forall|j: int| 0 <= j < a.len() ==> from_resolved(rs, #[trigger] a[j])
}

pub open spec fn step_ok(rs: Seq<Resolved>, st: StepView) -> bool {
    match st {
        StepView::PickBatch(a) => batch_ok(rs, a),
        StepView::AlignBatch(a) => batch_ok(rs, a),
        StepView::PlaceBatch(a) => batch_ok(rs, a),
        _ => true,
    }
}

pub open spec fn steps_ok(rs: Seq<Resolved>, s: Seq<StepView>) -> bool {
    forall|k: int| 0 <= k < s.len() ==> step_ok(rs, #[trigger] s[k])
}

proof fn lemma_steps_add(rs: Seq<Resolved>, a: Seq<StepView>, b: Seq<StepView>)
    requires
        steps_ok(rs, a),
        steps_ok(rs, b),
    ensures
        steps_ok(rs, a + b),
{
    assert forall|k: int| 0 <= k < (a + b).len() implies step_ok(rs, #[trigger] (a + b)[k]) by {
        if k < a.len() {
            assert((a + b)[k] == a[k]);
        } else {
            assert((a + b)[k] == b[k - a.len()]);
        }
    }
}

/// Every placement in `rem` exists and accepts `tip`.
pub open spec fn members_accept(rs: Seq<Resolved>, rem: Seq<nat>, tip: Seq<char>) -> bool {
    forall|i: int|
        0 <= i < rem.len() ==> (#[trigger] rem[i]) < rs.len() && rs[rem[i] as int].tips.contains(tip)
}

proof fn lemma_cycle_ok(rs: Seq<Resolved>, a: Seq<AssignmentView>)
    requires
        batch_ok(rs, a),
    ensures
        steps_ok(rs, cycle_steps(a)),
{
    let c = cycle_steps(a);
    assert forall|k: int| 0 <= k < c.len() implies step_ok(rs, #[trigger] c[k]) by {
        if k == 0 {
        } else if k == 1 {
        } else {
        }
    }
}

proof fn lemma_cycles(rem: Seq<nat>, tip: Seq<char>, rs: Seq<Resolved>, d: Seq<Seq<u64>>)
    requires
        members_accept(rs, rem, tip),
    ensures
        steps_ok(rs, cycles(rem, tip, rs, d)),
    decreases rem.len(),
{
    if rem.len() == 0 {
    } else {
        let n1 = rem[0];
        let rest = rem.drop_first();
        let a1 = assign(NozzleId::N1, tip, rs[n1 as int]);
        assert(rem[0] < rs.len() && rs[rem[0] as int].tips.contains(tip));
        assert(from_resolved(rs, a1)) by {
            assert(a1 == assign(a1.nozzle, a1.tip_id, rs[n1 as int]));
        }
        if rest.len() == 0 {
            let a = seq![a1];
            assert forall|j: int| 0 <= j < a.len() implies from_resolved(rs, #[trigger] a[j]) by {}
            lemma_cycle_ok(rs, a);
        } else {
            let p = nearest_upto(rest, rest.len() as int, rs[n1 as int].key, rs, d);
            lemma_nearest_bound(rest, rest.len() as int, rs[n1 as int].key, rs, d);
            let n2 = rest[p];
            assert(rem[p + 1] == n2);
            let a2 = assign(NozzleId::N2, tip, rs[n2 as int]);
            assert(from_resolved(rs, a2)) by {
                assert(a2 == assign(a2.nozzle, a2.tip_id, rs[n2 as int]));
            }
            let a = seq![a1, a2];
            assert forall|j: int| 0 <= j < a.len() implies from_resolved(rs, #[trigger] a[j]) by {
                if j == 0 {
                } else {
                }
            }
            lemma_cycle_ok(rs, a);
            let r2 = rest.remove(p);
            assert forall|i: int| 0 <= i < r2.len() implies (#[trigger] r2[i]) < rs.len()
                && rs[r2[i] as int].tips.contains(tip) by {
                if i < p {
                    assert(r2[i] == rem[i + 1]);
                } else {
                    assert(r2[i] == rem[i + 2]);
                }
            }
            lemma_cycles(r2, tip, rs, d);
            lemma_steps_add(rs, cycle_steps(a), cycles(r2, tip, rs, d));
        }
    }
}

pub open spec fn pair_ok(rs: Seq<Resolved>, p: (nat, Seq<char>)) -> bool {
    p.0 < rs.len() && rs[p.0 as int].tips.contains(p.1)
}

pub open spec fn group_ok(rs: Seq<Resolved>, g: Group) -> bool {
    members_accept(rs, g.members, g.tip)
}

pub open spec fn groups_ok(rs: Seq<Resolved>, gs: Seq<Group>) -> bool {
    forall|k: int| 0 <= k < gs.len() ==> group_ok(rs, #[trigger] gs[k])
}

proof fn lemma_pairs(rs: Seq<Resolved>, n: int)
    requires
        0 <= n <= rs.len(),
    ensures
        forall|i: int|
            0 <= i < pairs_upto(rs, n).len() ==> pair_ok(rs, #[trigger] pairs_upto(rs, n)[i]),
    decreases n,
{
    if n > 0 {
        lemma_pairs(rs, n - 1);
        let a = pairs_upto(rs, n - 1);
        let b = Seq::new(rs[n - 1].tips.len(), |j: int| ((n - 1) as nat, rs[n - 1].tips[j]));
        assert(pairs_upto(rs, n) == a + b);
        assert forall|i: int| 0 <= i < (a + b).len() implies pair_ok(rs, #[trigger] (a + b)[i]) by {
            if i < a.len() {
                assert((a + b)[i] == a[i]);
            } else {
                let j = i - a.len();
                assert((a + b)[i] == b[j]);
                assert(rs[n - 1].tips[j] == b[j].1);
            }
        }
    }
}

proof fn lemma_group_index_some(gs: Seq<Group>, t: Seq<char>)
    ensures
        group_index(gs, t) matches Some(g) ==> 0 <= g < gs.len() && gs[g].tip == t,
    decreases gs.len(),
{
    if gs.len() > 0 && gs[0].tip != t {
        lemma_group_index_some(gs.drop_first(), t);
    }
}

proof fn lemma_add_pair(rs: Seq<Resolved>, gs: Seq<Group>, p: (nat, Seq<char>))
    requires
        groups_ok(rs, gs),
        pair_ok(rs, p),
    ensures
        groups_ok(rs, add_pair(gs, p)),
{
    lemma_group_index_some(gs, p.1);
    let r = add_pair(gs, p);
    match group_index(gs, p.1) {
        Some(g) => {
            let ng = Group { tip: p.1, members: gs[g].members.push(p.0) };
            assert(group_ok(rs, gs[g]));
            assert forall|i: int| 0 <= i < ng.members.len() implies (#[trigger] ng.members[i])
                < rs.len() && rs[ng.members[i] as int].tips.contains(ng.tip) by {
                if i < gs[g].members.len() {
                    assert(ng.members[i] == gs[g].members[i]);
                }
            }
            assert forall|k: int| 0 <= k < r.len() implies group_ok(rs, #[trigger] r[k]) by {
                if k != g {
                    assert(r[k] == gs[k]);
                }
            }
        },
        None => {
            let ng = Group { tip: p.1, members: seq![p.0] };
            assert forall|i: int| 0 <= i < ng.members.len() implies (#[trigger] ng.members[i])
                < rs.len() && rs[ng.members[i] as int].tips.contains(ng.tip) by {}
            assert forall|k: int| 0 <= k < r.len() implies group_ok(rs, #[trigger] r[k]) by {
                if k < gs.len() {
                    assert(r[k] == gs[k]);
                }
            }
        },
    }
}

proof fn lemma_groups(rs: Seq<Resolved>, ps: Seq<(nat, Seq<char>)>, m: int)
    requires
        0 <= m <= ps.len(),
        forall|i: int| 0 <= i < ps.len() ==> pair_ok(rs, #[trigger] ps[i]),
    ensures
        groups_ok(rs, groups_upto(ps, m)),
    decreases m,
{
    if m > 0 {
        lemma_groups(rs, ps, m - 1);
        lemma_add_pair(rs, groups_upto(ps, m - 1), ps[m - 1]);
    }
}

proof fn lemma_insert(rs: Seq<Resolved>, s: Seq<Group>, g: Group)
    requires
        groups_ok(rs, s),
        group_ok(rs, g),
    ensures
        groups_ok(rs, insert_group(rs, s, g)),
    decreases s.len(),
{
    if s.len() > 0 {
        let r = insert_group(rs, s, g);
        if !crate::job::planner::goes_before(rs, g, s[0]) {
            let t = s.drop_first();
            assert forall|k: int| 0 <= k < t.len() implies group_ok(rs, #[trigger] t[k]) by {
                assert(t[k] == s[k + 1]);
            }
            lemma_insert(rs, t, g);
            let u = insert_group(rs, t, g);
            assert(r == seq![s[0]] + u);
            assert forall|k: int| 0 <= k < r.len() implies group_ok(rs, #[trigger] r[k]) by {
                if k > 0 {
                    assert(r[k] == u[k - 1]);
                }
            }
        } else {
            assert(r == seq![g] + s);
            assert forall|k: int| 0 <= k < r.len() implies group_ok(rs, #[trigger] r[k]) by {
                if k > 0 {
                    assert(r[k] == s[k - 1]);
                }
            }
        }
    }
}

proof fn lemma_sort(rs: Seq<Resolved>, gs: Seq<Group>, n: int)
    requires
        0 <= n <= gs.len(),
        groups_ok(rs, gs),
    ensures
        groups_ok(rs, sort_groups(rs, gs, n)),
    decreases n,
{
    if n > 0 {
        lemma_sort(rs, gs, n - 1);
        lemma_insert(rs, sort_groups(rs, gs, n - 1), gs[n - 1]);
    }
}

proof fn lemma_unplaced(ms: Seq<nat>, placed: Seq<bool>)
    ensures
        forall|i: int|
            0 <= i < unplaced(ms, placed).len() ==> ms.contains(#[trigger] unplaced(ms, placed)[i]),
    decreases ms.len(),
{
    if ms.len() > 0 {
        lemma_unplaced(ms.drop_last(), placed);
        let u = unplaced(ms, placed);
        let u0 = unplaced(ms.drop_last(), placed);
        assert forall|i: int| 0 <= i < u.len() implies ms.contains(#[trigger] u[i]) by {
            if i < u0.len() {
                assert(u[i] == u0[i]);
                let j = choose|j: int| 0 <= j < ms.drop_last().len() && ms.drop_last()[j] == u0[i];
                assert(ms[j] == u[i]);
            } else {
                assert(u[i] == ms.last());
                assert(ms[ms.len() - 1] == u[i]);
            }
        }
    }
}

proof fn lemma_schedule(
    sorted: Seq<Group>,
    k: int,
    placed: Seq<bool>,
    n1: Option<Seq<char>>,
    n2: Option<Seq<char>>,
    rs: Seq<Resolved>,
    d: Seq<Seq<u64>>,
)
    requires
        groups_ok(rs, sorted),
    ensures
        steps_ok(rs, schedule(sorted, k, placed, n1, n2, rs, d)),
    decreases sorted.len() - k,
{
    if 0 <= k < sorted.len() {
        let g = sorted[k];
        let pending = unplaced(g.members, placed);
        if pending.len() == 0 {
            lemma_schedule(sorted, k + 1, placed, n1, n2, rs, d);
        } else {
            assert(group_ok(rs, g));
            lemma_unplaced(g.members, placed);
            assert forall|i: int| 0 <= i < pending.len() implies (#[trigger] pending[i]) < rs.len()
                && rs[pending[i] as int].tips.contains(g.tip) by {
                assert(g.members.contains(pending[i]));
                let j = choose|j: int| 0 <= j < g.members.len() && g.members[j] == pending[i];
                assert(g.members[j] < rs.len());
            }
            lemma_cycles(pending, g.tip, rs, d);
            let ch = crate::job::planner::tip_changes(g.tip, n1, n2);
            let pre = if ch.len() > 0 {
                seq![StepView::ChangeTips(ch)]
            } else {
                seq![]
            };
            assert(steps_ok(rs, pre)) by {
                assert forall|q: int| 0 <= q < pre.len() implies step_ok(rs, #[trigger] pre[q]) by {}
            }
            lemma_schedule(
                sorted,
                k + 1,
                mark(placed, pending),
                Some(g.tip),
                Some(g.tip),
                rs,
                d,
            );
            lemma_steps_add(rs, pre, cycles(pending, g.tip, rs, d));
            lemma_steps_add(
                rs,
                pre + cycles(pending, g.tip, rs, d),
                schedule(sorted, k + 1, mark(placed, pending), Some(g.tip), Some(g.tip), rs, d),
            );
        }
    }
}

/// Every batch of a plan holds one or two assignments, the first for N1 and
/// the second for N2, and every assignment places one of the job's resolved
/// placements with a tip that the placement's package accepts.
pub proof fn lemma_plan_batches(
    boards: Seq<PlanBoard>,
    cfg: PlanConfig,
    n1: Option<Seq<char>>,
    n2: Option<Seq<char>>,
    d: Seq<Seq<u64>>,
)
    ensures
        steps_ok(resolve_all(boards, cfg, boards.len() as int), spec_plan(boards, cfg, n1, n2, d)),
{
    let rs = resolve_all(boards, cfg, boards.len() as int);
    let ps = pairs_upto(rs, rs.len() as int);
    lemma_pairs(rs, rs.len() as int);
    lemma_groups(rs, ps, ps.len() as int);
    let gs = groups_upto(ps, ps.len() as int);
    lemma_sort(rs, gs, gs.len() as int);
    lemma_schedule(
        sort_groups(rs, gs, gs.len() as int),
        0,
        Seq::new(rs.len(), |i: int| false),
        n1,
        n2,
        rs,
        d,
    );
}

/// The resolved placement comes from an enabled, pending placement of one of
/// the boards.
pub open spec fn resolved_from(boards: Seq<PlanBoard>, cfg: PlanConfig, r: Resolved) -> bool {
    exists|b: int|
        0 <= b < boards.len() && r.placement_idx < boards[b].placements@.len() && #[trigger] resolve_at(
            boards[b],
            r.placement_idx as int,
            cfg,
        ) == Some(r)
}

proof fn lemma_resolve_board(bs: Seq<PlanBoard>, b: int, cfg: PlanConfig, n: int)
    requires
        0 <= b < bs.len(),
        0 <= n <= bs[b].placements@.len(),
    ensures
        forall|i: int|
            0 <= i < resolve_board(bs[b], cfg, n).len() ==> resolved_from(
                bs,
                cfg,
                #[trigger] resolve_board(bs[b], cfg, n)[i],
            ),
    decreases n,
{
    if n > 0 {
        lemma_resolve_board(bs, b, cfg, n - 1);
        let a = resolve_board(bs[b], cfg, n - 1);
        let o = opt_seq(resolve_at(bs[b], n - 1, cfg));
        assert forall|i: int| 0 <= i < (a + o).len() implies resolved_from(bs, cfg, #[trigger] (a
            + o)[i]) by {
            if i < a.len() {
                assert((a + o)[i] == a[i]);
            } else {
                let r = resolve_at(bs[b], n - 1, cfg)->0;
                assert((a + o)[i] == r);
                assert(r.placement_idx == n - 1);
            }
        }
        assert(resolve_board(bs[b], cfg, n) == a + o);
    }
}

proof fn lemma_resolve_all(bs: Seq<PlanBoard>, cfg: PlanConfig, m: int)
    requires
        0 <= m <= bs.len(),
    ensures
        forall|i: int|
            0 <= i < resolve_all(bs, cfg, m).len() ==> resolved_from(
                bs,
                cfg,
                #[trigger] resolve_all(bs, cfg, m)[i],
            ),
    decreases m,
{
    if m > 0 {
        lemma_resolve_all(bs, cfg, m - 1);
        lemma_resolve_board(bs, m - 1, cfg, bs[m - 1].placements@.len() as int);
        let a = resolve_all(bs, cfg, m - 1);
        let c = resolve_board(bs[m - 1], cfg, bs[m - 1].placements@.len() as int);
        assert forall|i: int| 0 <= i < (a + c).len() implies resolved_from(bs, cfg, #[trigger] (a
            + c)[i]) by {
            if i < a.len() {
                assert((a + c)[i] == a[i]);
            } else {
                assert((a + c)[i] == c[i - a.len()]);
            }
        }
        assert(resolve_all(bs, cfg, m) == a + c);
    }
}

/// Every placement that the plan places is enabled and pending on its board,
/// and the assignment carries that placement's part.
pub proof fn lemma_plan_places_pending(
    boards: Seq<PlanBoard>,
    cfg: PlanConfig,
    n1: Option<Seq<char>>,
    n2: Option<Seq<char>>,
    d: Seq<Seq<u64>>,
    k: int,
    j: int,
)
    requires
        0 <= k < spec_plan(boards, cfg, n1, n2, d).len(),
        spec_plan(boards, cfg, n1, n2, d)[k] is PlaceBatch,
        0 <= j < spec_plan(boards, cfg, n1, n2, d)[k]->PlaceBatch_0.len(),
    ensures
        ({
            let a = spec_plan(boards, cfg, n1, n2, d)[k]->PlaceBatch_0[j];
            exists|b: int|
                0 <= b < boards.len() && #[trigger] boards[b].board_idx == a.board_idx
                    && a.placement_idx < boards[b].placements@.len()
                    && boards[b].placements@[a.placement_idx as int].enabled
                    && boards[b].states@[a.placement_idx as int] is Pending
                    && boards[b].placements@[a.placement_idx as int].part_id@ == a.part_id
        }),
{
    let rs = resolve_all(boards, cfg, boards.len() as int);
    lemma_plan_batches(boards, cfg, n1, n2, d);
    lemma_resolve_all(boards, cfg, boards.len() as int);
    let plan = spec_plan(boards, cfg, n1, n2, d);
    assert(step_ok(rs, plan[k]));
    let a = plan[k]->PlaceBatch_0[j];
    assert(from_resolved(rs, a));
    let m = choose|m: int|
        0 <= m < rs.len() && rs[m].tips.contains(a.tip_id) && a == #[trigger] assign(
            a.nozzle,
            a.tip_id,
            rs[m],
        );
    assert(resolved_from(boards, cfg, rs[m]));
    let b = choose|b: int|
        0 <= b < boards.len() && rs[m].placement_idx < boards[b].placements@.len() && #[trigger] resolve_at(
            boards[b],
            rs[m].placement_idx as int,
            cfg,
        ) == Some(rs[m]);
    assert(boards[b].board_idx == a.board_idx);
}

/// The tip suits the part: its package lists the tip, or lists no tips and
/// the tip is configured.
pub open spec fn tip_suits(cfg: PlanConfig, part: Seq<char>, tip: Seq<char>) -> bool {
    part_package(cfg.parts@, part) matches Some(pkg) && (package_tips(cfg.packages@, pkg) matches Some(
        t,
    ) && (if t.len() > 0 {
        t.contains(tip)
    } else {
        strs(cfg.nozzle_tips@).contains(tip)
    }))
}

/// Every assignment that the plan places names a placement that can be
/// placed, on a board of the job, with that placement's part, the first
/// enabled feeder that holds the part, and a tip that suits the part.
pub proof fn lemma_plan_assignments_suit(
    boards: Seq<PlanBoard>,
    cfg: PlanConfig,
    n1: Option<Seq<char>>,
    n2: Option<Seq<char>>,
    d: Seq<Seq<u64>>,
    k: int,
    j: int,
)
    requires
        0 <= k < spec_plan(boards, cfg, n1, n2, d).len(),
        spec_plan(boards, cfg, n1, n2, d)[k] is PlaceBatch,
        0 <= j < spec_plan(boards, cfg, n1, n2, d)[k]->PlaceBatch_0.len(),
    ensures
        ({
            let a = spec_plan(boards, cfg, n1, n2, d)[k]->PlaceBatch_0[j];
            exists|b: int|
                0 <= b < boards.len() && #[trigger] boards[b].board_idx == a.board_idx
                    && a.placement_idx < boards[b].placements@.len() && placeable(
                    boards[b],
                    a.placement_idx as int,
                    cfg,
                ) && boards[b].placements@[a.placement_idx as int].part_id@ == a.part_id
                    && feeder_for(cfg.feeders@, a.part_id) == Some(a.feeder_id)
                    && tip_suits(cfg, a.part_id, a.tip_id)
        }),
{
    let rs = resolve_all(boards, cfg, boards.len() as int);
    lemma_plan_batches(boards, cfg, n1, n2, d);
    lemma_resolve_all(boards, cfg, boards.len() as int);
    let plan = spec_plan(boards, cfg, n1, n2, d);
    assert(step_ok(rs, plan[k]));
    let a = plan[k]->PlaceBatch_0[j];
    assert(from_resolved(rs, a));
    let m = choose|m: int|
        0 <= m < rs.len() && rs[m].tips.contains(a.tip_id) && a == #[trigger] assign(
            a.nozzle,
            a.tip_id,
            rs[m],
        );
    assert(resolved_from(boards, cfg, rs[m]));
    let b = choose|b: int|
        0 <= b < boards.len() && rs[m].placement_idx < boards[b].placements@.len() && #[trigger] resolve_at(
            boards[b],
            rs[m].placement_idx as int,
            cfg,
        ) == Some(rs[m]);
    assert(boards[b].board_idx == a.board_idx);
    let i = a.placement_idx as int;
    let p = boards[b].placements@[i];
    let pkg = part_package(cfg.parts@, p.part_id@)->0;
    let t = package_tips(cfg.packages@, pkg)->0;
    if t.len() == 0 {
        assert(strs(cfg.nozzle_tips@).contains(a.tip_id));
        assert(cfg.nozzle_tips@.len() > 0);
    }
    assert(placeable(boards[b], i, cfg));
    assert(tip_suits(cfg, a.part_id, a.tip_id));
}

} // verus!
