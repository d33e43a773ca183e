//! A plan places each placement at most once.

use vstd::prelude::*;

use crate::job::planner::Group;
use crate::job::planner::PackageRef;
use crate::job::planner::PlanBoard;
use crate::job::planner::PlanConfig;
use crate::job::planner::Resolved;
use crate::job::planner::add_pair;
use crate::job::planner::assign;
use crate::job::planner::cycle_steps;
use crate::job::planner::cycles;
use crate::job::planner::goes_before;
use crate::job::planner::group_index;
use crate::job::planner::groups_upto;
use crate::job::planner::insert_group;
use crate::job::planner::lemma_nearest_bound;
use crate::job::planner::mark;
use crate::job::planner::nearest_upto;
use crate::job::planner::opt_seq;
use crate::job::planner::package_tips;
use crate::job::planner::part_package;
use crate::job::planner::feeder_for;
use crate::job::planner::pairs_upto;
use crate::job::planner::resolve_all;
use crate::job::planner::resolve_at;
use crate::job::planner::resolve_board;
use crate::job::planner::schedule;
use crate::job::planner::sort_groups;
use crate::job::planner::spec_plan;
use crate::job::planner::strs;
use crate::job::planner::tip_changes;
use crate::job::planner::unplaced;
use crate::job::types::AssignmentView;
use crate::job::types::NozzleId;
use crate::job::types::StepView;

verus! {

/// The board and placement of an assignment.
pub open spec fn akey(a: AssignmentView) -> (nat, nat) {
    (a.board_idx, a.placement_idx)
}

/// The board and placement of a resolved placement.
pub open spec fn rkey(r: Resolved) -> (nat, nat) {
    (r.board_idx, r.placement_idx)
}

pub open spec fn batch_keys(a: Seq<AssignmentView>) -> Seq<(nat, nat)> {
    a.map_values(|x: AssignmentView| akey(x))
}

/// The placements that the place steps place, in order.
pub open spec fn place_keys(s: Seq<StepView>) -> Seq<(nat, nat)>
    decreases s.len(),
{
    if s.len() == 0 {
        seq![]
    } else {
        place_keys(s.drop_last()) + match s.last() {
            StepView::PlaceBatch(a) => batch_keys(a),
            _ => seq![],
        }
    }
}

pub open spec fn keys_of(rs: Seq<Resolved>, ms: Seq<nat>) -> Seq<(nat, nat)> {
    ms.map_values(|m: nat| rkey(rs[m as int]))
}

pub proof fn lemma_place_keys_add(a: Seq<StepView>, b: Seq<StepView>)
    ensures
        place_keys(a + b) == place_keys(a) + place_keys(b),
    decreases b.len(),
{
    if b.len() == 0 {
        assert(a + b =~= a);
        assert(place_keys(b) =~= Seq::<(nat, nat)>::empty());
        assert(place_keys(a) + place_keys(b) =~= place_keys(a));
    } else {
        lemma_place_keys_add(a, b.drop_last());
        assert((a + b).drop_last() =~= a + b.drop_last());
        assert(place_keys(a + b) =~= place_keys(a) + place_keys(b));
    }
}

/// The order in which the cycles of a tip place `rem`.
pub open spec fn cycle_order(rem: Seq<nat>, rs: Seq<Resolved>, d: Seq<Seq<u64>>) -> Seq<nat>
    decreases rem.len(),
{
    if rem.len() == 0 {
        seq![]
    } else {
        let n1 = rem[0];
        let rest = rem.drop_first();
        if rest.len() == 0 {
            seq![n1]
        } else {
            let p = nearest_upto(rest, rest.len() as int, rs[n1 as int].key, rs, d);
            proof {
                lemma_nearest_bound(rest, rest.len() as int, rs[n1 as int].key, rs, d);
            }
            seq![n1, rest[p]] + cycle_order(rest.remove(p), rs, d)
        }
    }
}

proof fn lemma_cycle_keys(rem: Seq<nat>, tip: Seq<char>, rs: Seq<Resolved>, d: Seq<Seq<u64>>)
    ensures
        place_keys(cycles(rem, tip, rs, d)) == keys_of(rs, cycle_order(rem, rs, d)),
    decreases rem.len(),
{
    if rem.len() == 0 {
        assert(keys_of(rs, cycle_order(rem, rs, d)) =~= Seq::<(nat, nat)>::empty());
    } else {
        let n1 = rem[0];
        let rest = rem.drop_first();
        let a1 = assign(NozzleId::N1, tip, rs[n1 as int]);
        if rest.len() == 0 {
            let a = seq![a1];
            let c = cycle_steps(a);
            assert(c.drop_last().drop_last().drop_last() =~= Seq::<StepView>::empty());
            reveal_with_fuel(place_keys, 4);
            assert(place_keys(c) =~= batch_keys(a));
            assert(keys_of(rs, seq![n1]) =~= batch_keys(a));
        } else {
            let p = nearest_upto(rest, rest.len() as int, rs[n1 as int].key, rs, d);
            lemma_nearest_bound(rest, rest.len() as int, rs[n1 as int].key, rs, d);
            let a2 = assign(NozzleId::N2, tip, rs[rest[p] as int]);
            let a = seq![a1, a2];
            let c = cycle_steps(a);
            assert(c.drop_last().drop_last().drop_last() =~= Seq::<StepView>::empty());
            reveal_with_fuel(place_keys, 4);
            assert(place_keys(c) =~= batch_keys(a));
            lemma_cycle_keys(rest.remove(p), tip, rs, d);
            lemma_place_keys_add(c, cycles(rest.remove(p), tip, rs, d));
            assert(keys_of(rs, seq![n1, rest[p]] + cycle_order(rest.remove(p), rs, d)) =~= batch_keys(
                a,
            ) + keys_of(rs, cycle_order(rest.remove(p), rs, d)));
        }
    }
}

proof fn lemma_cycle_order_members(rem: Seq<nat>, rs: Seq<Resolved>, d: Seq<Seq<u64>>)
    ensures
        forall|x: nat| #[trigger] cycle_order(rem, rs, d).contains(x) ==> rem.contains(x),
        rem.no_duplicates() ==> cycle_order(rem, rs, d).no_duplicates(),
    decreases rem.len(),
{
    if rem.len() > 0 {
        let n1 = rem[0];
        let rest = rem.drop_first();
        if rest.len() == 0 {
            assert forall|x: nat| cycle_order(rem, rs, d).contains(x) implies rem.contains(x) by {
                assert(rem[0] == x);
            }
        } else {
            let p = nearest_upto(rest, rest.len() as int, rs[n1 as int].key, rs, d);
            lemma_nearest_bound(rest, rest.len() as int, rs[n1 as int].key, rs, d);
            let r2 = rest.remove(p);
            lemma_cycle_order_members(r2, rs, d);
            let tail = cycle_order(r2, rs, d);
            let o = seq![n1, rest[p]] + tail;
            assert(o == cycle_order(rem, rs, d));
            assert forall|x: nat| r2.contains(x) implies rest.contains(x) && exists|q: int|
                0 <= q < rest.len() && q != p && rest[q] == x by {
                let i = choose|i: int| 0 <= i < r2.len() && r2[i] == x;
                if i < p {
                    assert(rest[i] == x);
                } else {
                    assert(rest[i + 1] == x);
                }
            }
            assert forall|x: nat| o.contains(x) implies rem.contains(x) by {
                let i = choose|i: int| 0 <= i < o.len() && o[i] == x;
                if i == 0 {
                    assert(rem[0] == x);
                } else if i == 1 {
                    assert(rem[p + 1] == x);
                } else {
                    assert(tail[i - 2] == x);
                    assert(tail.contains(x));
                    assert(r2.contains(x));
                    let q = choose|q: int| 0 <= q < rest.len() && q != p && rest[q] == x;
                    assert(rem[q + 1] == x);
                }
            }
            if rem.no_duplicates() {
                assert(r2.no_duplicates()) by {
                    assert forall|i: int, j: int|
                        0 <= i < r2.len() && 0 <= j < r2.len() && i != j implies r2[i] != r2[j] by {
                        let ii = if i < p {
                            i
                        } else {
                            i + 1
                        };
                        let jj = if j < p {
                            j
                        } else {
                            j + 1
                        };
                        assert(r2[i] == rem[ii + 1]);
                        assert(r2[j] == rem[jj + 1]);
                    }
                }
                assert forall|i: int, j: int|
                    0 <= i < o.len() && 0 <= j < o.len() && i != j implies o[i] != o[j] by {
                    if i >= 2 && j >= 2 {
                        assert(o[i] == tail[i - 2]);
                        assert(o[j] == tail[j - 2]);
                    } else {
                        let (lo, hi) = if i < j {
                            (i, j)
                        } else {
                            (j, i)
                        };
                        if lo == 0 && hi == 1 {
                            assert(rem[0] != rem[p + 1]);
                        } else {
                            assert(o[hi] == tail[hi - 2]);
                            assert(tail.contains(o[hi]));
                            assert(r2.contains(o[hi]));
                            let q = choose|q: int| 0 <= q < rest.len() && q != p && rest[q] == o[hi];
                            if lo == 0 {
                                assert(rem[0] != rem[q + 1]);
                            } else {
                                assert(rem[p + 1] != rem[q + 1]);
                            }
                        }
                    }
                }
            }
        }
    }
}


/// The order in which the groups `k..` place their pending placements.
pub open spec fn schedule_order(
    sorted: Seq<Group>,
    k: int,
    placed: Seq<bool>,
    rs: Seq<Resolved>,
    d: Seq<Seq<u64>>,
) -> Seq<nat>
    decreases sorted.len() - k,
{
    if k < 0 || k >= sorted.len() {
        seq![]
    } else {
        let pending = unplaced(sorted[k].members, placed);
        if pending.len() == 0 {
            schedule_order(sorted, k + 1, placed, rs, d)
        } else {
            cycle_order(pending, rs, d) + schedule_order(sorted, k + 1, mark(placed, pending), rs, d)
        }
    }
}

proof fn lemma_keys_of_add(rs: Seq<Resolved>, a: Seq<nat>, b: Seq<nat>)
    ensures
        keys_of(rs, a + b) == keys_of(rs, a) + keys_of(rs, b),
{
    assert(keys_of(rs, a + b) =~= keys_of(rs, a) + keys_of(rs, b));
}

proof fn lemma_schedule_keys(
    sorted: Seq<Group>,
    k: int,
    placed: Seq<bool>,
    n1: Option<Seq<char>>,
    n2: Option<Seq<char>>,
    rs: Seq<Resolved>,
    d: Seq<Seq<u64>>,
)
    ensures
        place_keys(schedule(sorted, k, placed, n1, n2, rs, d)) == keys_of(
            rs,
            schedule_order(sorted, k, placed, rs, d),
        ),
    decreases sorted.len() - k,
{
    if k < 0 || k >= sorted.len() {
        assert(keys_of(rs, Seq::<nat>::empty()) =~= Seq::<(nat, nat)>::empty());
    } else {
        let g = sorted[k];
        let pending = unplaced(g.members, placed);
        if pending.len() == 0 {
            lemma_schedule_keys(sorted, k + 1, placed, n1, n2, rs, d);
        } else {
            let ch = tip_changes(g.tip, n1, n2);
            let pre = if ch.len() > 0 {
                seq![StepView::ChangeTips(ch)]
            } else {
                seq![]
            };
            assert(place_keys(pre) =~= Seq::<(nat, nat)>::empty()) by {
                if pre.len() > 0 {
                    assert(pre.drop_last() =~= Seq::<StepView>::empty());
                    assert(place_keys(pre.drop_last()) == Seq::<(nat, nat)>::empty());
                    assert(pre.last() is ChangeTips);
                } else {
                    assert(pre =~= Seq::<StepView>::empty());
                }
            }
            let rest = schedule(sorted, k + 1, mark(placed, pending), Some(g.tip), Some(g.tip), rs, d);
            lemma_schedule_keys(sorted, k + 1, mark(placed, pending), Some(g.tip), Some(g.tip), rs, d);
            lemma_cycle_keys(pending, g.tip, rs, d);
            lemma_place_keys_add(pre, cycles(pending, g.tip, rs, d));
            lemma_place_keys_add(pre + cycles(pending, g.tip, rs, d), rest);
            lemma_keys_of_add(
                rs,
                cycle_order(pending, rs, d),
                schedule_order(sorted, k + 1, mark(placed, pending), rs, d),
            );
            assert(place_keys(pre) + place_keys(cycles(pending, g.tip, rs, d)) =~= place_keys(
                cycles(pending, g.tip, rs, d),
            ));
        }
    }
}

proof fn lemma_unplaced_facts(ms: Seq<nat>, placed: Seq<bool>)
    ensures
        forall|x: nat| #[trigger] unplaced(ms, placed).contains(x) ==> ms.contains(x) && !placed[x as int],
        ms.no_duplicates() ==> unplaced(ms, placed).no_duplicates(),
    decreases ms.len(),
{
    if ms.len() > 0 {
        let m0 = ms.drop_last();
        lemma_unplaced_facts(m0, placed);
        let u0 = unplaced(m0, placed);
        let u = unplaced(ms, placed);
        assert forall|x: nat| u.contains(x) implies ms.contains(x) && !placed[x as int] by {
            let i = choose|i: int| 0 <= i < u.len() && u[i] == x;
            if i < u0.len() {
                assert(u[i] == u0[i]);
                assert(u0.contains(x));
                let j = choose|j: int| 0 <= j < m0.len() && m0[j] == x;
                assert(ms[j] == x);
            } else {
                assert(ms[ms.len() - 1] == x);
            }
        }
        if ms.no_duplicates() {
            assert(m0.no_duplicates()) by {
                assert forall|i: int, j: int|
                    0 <= i < m0.len() && 0 <= j < m0.len() && i != j implies m0[i] != m0[j] by {
                    assert(m0[i] == ms[i] && m0[j] == ms[j]);
                }
            }
            if !placed[ms.last() as int] {
                assert forall|i: int, j: int|
                    0 <= i < u.len() && 0 <= j < u.len() && i != j implies u[i] != u[j] by {
                    if i < u0.len() && j < u0.len() {
                        assert(u[i] == u0[i] && u[j] == u0[j]);
                    } else {
                        let a = if i < u0.len() {
                            i
                        } else {
                            j
                        };
                        assert(u[a] == u0[a]);
                        assert(u0.contains(u0[a]));
                        let q = choose|q: int| 0 <= q < m0.len() && m0[q] == u0[a];
                        assert(ms[q] != ms[ms.len() - 1]);
                    }
                }
            }
        }
    }
}

proof fn lemma_mark(placed: Seq<bool>, ms: Seq<nat>)
    requires
        forall|i: int| 0 <= i < ms.len() ==> (#[trigger] ms[i]) < placed.len(),
    ensures
        mark(placed, ms).len() == placed.len(),
        forall|x: int|
            0 <= x < placed.len() ==> #[trigger] mark(placed, ms)[x] == (placed[x] || ms.contains(
                x as nat,
            )),
    decreases ms.len(),
{
    if ms.len() > 0 {
        let m0 = ms.drop_last();
        assert forall|i: int| 0 <= i < m0.len() implies (#[trigger] m0[i]) < placed.len() by {
            assert(m0[i] == ms[i]);
        }
        lemma_mark(placed, m0);
        assert(ms[ms.len() - 1] < placed.len());
        assert forall|x: int| 0 <= x < placed.len() implies #[trigger] mark(placed, ms)[x] == (
        placed[x] || ms.contains(x as nat)) by {
            if ms.contains(x as nat) && !placed[x] && x != ms.last() {
                let q = choose|q: int| 0 <= q < ms.len() && ms[q] == x as nat;
                assert(q < ms.len() - 1);
                assert(m0[q] == x as nat);
                assert(m0.contains(x as nat));
            }
            if m0.contains(x as nat) {
                let q = choose|q: int| 0 <= q < m0.len() && m0[q] == x as nat;
                assert(ms[q] == x as nat);
            }
        }
    }
}

/// Each group's members occur once and index the `n` resolved placements.
/// Every member of the groups indexes one of `n` resolved placements.
pub open spec fn groups_in_range(sorted: Seq<Group>, n: nat) -> bool {
    forall|k: int, i: int|
        0 <= k < sorted.len() && 0 <= i < sorted[k].members.len() ==> #[trigger] sorted[k].members[i] < n
}

pub open spec fn groups_distinct(sorted: Seq<Group>, n: nat) -> bool {
    forall|k: int|
        0 <= k < sorted.len() ==> (#[trigger] sorted[k]).members.no_duplicates() && forall|i: int|
            0 <= i < sorted[k].members.len() ==> #[trigger] sorted[k].members[i] < n
}

proof fn lemma_schedule_order_distinct(
    sorted: Seq<Group>,
    k: int,
    placed: Seq<bool>,
    rs: Seq<Resolved>,
    d: Seq<Seq<u64>>,
)
    requires
        groups_distinct(sorted, placed.len()),
    ensures
        schedule_order(sorted, k, placed, rs, d).no_duplicates(),
        forall|x: nat|
            #[trigger] schedule_order(sorted, k, placed, rs, d).contains(x) ==> x < placed.len()
                && !placed[x as int],
    decreases sorted.len() - k,
{
    if 0 <= k < sorted.len() {
        let g = sorted[k];
        assert(groups_distinct(sorted, placed.len()));
        assert(g.members.no_duplicates());
        let pending = unplaced(g.members, placed);
        lemma_unplaced_facts(g.members, placed);
        if pending.len() == 0 {
            lemma_schedule_order_distinct(sorted, k + 1, placed, rs, d);
        } else {
            assert forall|i: int| 0 <= i < pending.len() implies (#[trigger] pending[i]) < placed.len() by {
                assert(pending.contains(pending[i]));
                let q = choose|q: int| 0 <= q < g.members.len() && g.members[q] == pending[i];
            }
            lemma_mark(placed, pending);
            let placed2 = mark(placed, pending);
            lemma_schedule_order_distinct(sorted, k + 1, placed2, rs, d);
            lemma_cycle_order_members(pending, rs, d);
            let a = cycle_order(pending, rs, d);
            let b = schedule_order(sorted, k + 1, placed2, rs, d);
            assert forall|x: nat| a.contains(x) implies x < placed.len() && !placed[x as int] && pending.contains(x) by {
                assert(pending.contains(x));
                let q = choose|q: int| 0 <= q < g.members.len() && g.members[q] == x;
            }
            assert forall|x: nat| b.contains(x) implies x < placed.len() && !placed[x as int] && !pending.contains(x) by {
                assert(!placed2[x as int]);
            }
            let o = a + b;
            assert forall|i: int, j: int| 0 <= i < o.len() && 0 <= j < o.len() && i != j implies o[i] != o[j] by {
                if i < a.len() && j < a.len() {
                    assert(o[i] == a[i] && o[j] == a[j]);
                } else if i >= a.len() && j >= a.len() {
                    assert(o[i] == b[i - a.len()] && o[j] == b[j - a.len()]);
                } else {
                    let (ia, jb) = if i < a.len() {
                        (i, j)
                    } else {
                        (j, i)
                    };
                    assert(o[ia] == a[ia]);
                    assert(a.contains(a[ia]));
                    assert(o[jb] == b[jb - a.len()]);
                    assert(b.contains(b[jb - a.len()]));
                }
            }
            assert forall|x: nat| o.contains(x) implies x < placed.len() && !placed[x as int] by {
                let i = choose|i: int| 0 <= i < o.len() && o[i] == x;
                if i < a.len() {
                    assert(a[i] == x);
                    assert(a.contains(x));
                } else {
                    assert(b[i - a.len()] == x);
                    assert(b.contains(x));
                }
            }
        }
    }
}


/// The pairs come in order of placement, and no pair occurs twice.
pub open spec fn pairs_sorted(ps: Seq<(nat, Seq<char>)>, n: nat) -> bool {
    &&& forall|i: int| 0 <= i < ps.len() ==> (#[trigger] ps[i]).0 < n
    &&& forall|i: int, j: int|
        0 <= i < j < ps.len() ==> (#[trigger] ps[i]).0 <= (#[trigger] ps[j]).0 && ps[i] != ps[j]
}

proof fn lemma_pairs_sorted(rs: Seq<Resolved>, n: int)
    requires
        0 <= n <= rs.len(),
        forall|m: int| 0 <= m < rs.len() ==> (#[trigger] rs[m]).tips.no_duplicates(),
    ensures
        pairs_sorted(pairs_upto(rs, n), n as nat),
    decreases n,
{
    if n > 0 {
        lemma_pairs_sorted(rs, n - 1);
        let a = pairs_upto(rs, n - 1);
        let t = rs[n - 1].tips;
        assert(t.no_duplicates());
        let b = Seq::new(t.len(), |j: int| ((n - 1) as nat, t[j]));
        let ps = a + b;
        assert(pairs_upto(rs, n) == ps);
        assert forall|i: int| 0 <= i < ps.len() implies (#[trigger] ps[i]).0 < n by {
            if i < a.len() {
                assert(ps[i] == a[i]);
            } else {
                assert(ps[i] == b[i - a.len()]);
            }
        }
        assert forall|i: int, j: int| 0 <= i < j < ps.len() implies (#[trigger] ps[i]).0 <= (
        #[trigger] ps[j]).0 && ps[i] != ps[j] by {
            if j < a.len() {
                assert(ps[i] == a[i] && ps[j] == a[j]);
            } else if i >= a.len() {
                assert(ps[i] == b[i - a.len()] && ps[j] == b[j - a.len()]);
                assert(t[i - a.len()] != t[j - a.len()]);
            } else {
                assert(ps[i] == a[i] && ps[j] == b[j - a.len()]);
                assert(a[i].0 < n - 1);
            }
        }
    }
}

/// Each group's members increase, each a placement of a pair with the
/// group's tip among the first `j` pairs.
pub open spec fn groups_from(gs: Seq<Group>, ps: Seq<(nat, Seq<char>)>, j: int) -> bool {
    forall|k: int|
        0 <= k < gs.len() ==> {
            &&& forall|a: int, b: int|
                0 <= a < b < (#[trigger] gs[k]).members.len() ==> gs[k].members[a] < gs[k].members[b]
            &&& forall|a: int|
                #![trigger gs[k].members[a]]
                0 <= a < gs[k].members.len() ==> exists|i: int|
                    0 <= i < j && #[trigger] ps[i] == (gs[k].members[a], gs[k].tip)
        }
}

proof fn lemma_group_index_some2(gs: Seq<Group>, t: Seq<char>)
    ensures
        group_index(gs, t) matches Some(g) ==> 0 <= g < gs.len() && gs[g].tip == t,
    decreases gs.len(),
{
    if gs.len() > 0 && gs[0].tip != t {
        lemma_group_index_some2(gs.drop_first(), t);
    }
}

/// Every member of a group comes from a pair of the group's tip.
proof fn lemma_groups_origin(ps: Seq<(nat, Seq<char>)>, j: int)
    requires
        0 <= j <= ps.len(),
    ensures
        forall|k: int, a: int|
            0 <= k < groups_upto(ps, j).len() && 0 <= a < groups_upto(ps, j)[k].members.len() ==> exists|i: int|
                0 <= i < j && #[trigger] ps[i] == (#[trigger] groups_upto(ps, j)[k].members[a], groups_upto(ps, j)[k].tip),
    decreases j,
{
    if j > 0 {
        lemma_groups_origin(ps, j - 1);
        let gs = groups_upto(ps, j - 1);
        let p = ps[j - 1];
        let r = add_pair(gs, p);
        assert(groups_upto(ps, j) == r);
        lemma_group_index_some2(gs, p.1);
        assert forall|k: int, a: int| 0 <= k < r.len() && 0 <= a < r[k].members.len() implies exists|i: int|
            0 <= i < j && #[trigger] ps[i] == (#[trigger] r[k].members[a], r[k].tip) by {
            match group_index(gs, p.1) {
                Some(g) => {
                    if k == g {
                        if a < gs[g].members.len() {
                            let i = choose|i: int| 0 <= i < j - 1 && #[trigger] ps[i] == (gs[k].members[a], gs[k].tip);
                            assert(ps[i] == (r[k].members[a], r[k].tip));
                        } else {
                            assert(ps[j - 1] == (r[k].members[a], r[k].tip));
                        }
                    } else {
                        assert(r[k] == gs[k]);
                        let i = choose|i: int| 0 <= i < j - 1 && #[trigger] ps[i] == (gs[k].members[a], gs[k].tip);
                    }
                },
                None => {
                    if k < gs.len() {
                        assert(r[k] == gs[k]);
                        let i = choose|i: int| 0 <= i < j - 1 && #[trigger] ps[i] == (gs[k].members[a], gs[k].tip);
                    } else {
                        assert(ps[j - 1] == (r[k].members[a], r[k].tip));
                    }
                },
            }
        }
    }
}

/// Pairs name resolved placements that exist.
proof fn lemma_pairs_range(rs: Seq<Resolved>, n: int)
    requires
        0 <= n <= rs.len(),
    ensures
        forall|i: int| 0 <= i < pairs_upto(rs, n).len() ==> (#[trigger] pairs_upto(rs, n)[i]).0 < n,
    decreases n,
{
    if n > 0 {
        lemma_pairs_range(rs, n - 1);
        let a = pairs_upto(rs, n - 1);
        let b = Seq::new(rs[n - 1].tips.len(), |j: int| ((n - 1) as nat, rs[n - 1].tips[j]));
        assert(pairs_upto(rs, n) == a + b);
        assert forall|i: int| 0 <= i < (a + b).len() implies (#[trigger] (a + b)[i]).0 < n by {
            if i < a.len() {
                assert((a + b)[i] == a[i]);
            } else {
                assert((a + b)[i] == b[i - a.len()]);
            }
        }
    }
}

/// The sorted groups of the resolved placements name only resolved placements.
proof fn lemma_sorted_in_range(rs: Seq<Resolved>)
    ensures
        ({
            let ps = pairs_upto(rs, rs.len() as int);
            let gs = groups_upto(ps, ps.len() as int);
            groups_in_range(sort_groups(rs, gs, gs.len() as int), rs.len())
        }),
{
    let ps = pairs_upto(rs, rs.len() as int);
    lemma_pairs_range(rs, rs.len() as int);
    lemma_groups_origin(ps, ps.len() as int);
    let gs = groups_upto(ps, ps.len() as int);
    let sorted = sort_groups(rs, gs, gs.len() as int);
    lemma_sort_members(rs, gs, gs.len() as int);
    assert forall|k: int, i: int| 0 <= k < sorted.len() && 0 <= i < sorted[k].members.len() implies #[trigger] sorted[k].members[i]
        < rs.len() by {
        assert(gs.contains(sorted[k]));
        let g = choose|g: int| 0 <= g < gs.len() && gs[g] == sorted[k];
        assert(gs[g].members[i] == sorted[k].members[i]);
        let q = choose|q: int| 0 <= q < ps.len() && #[trigger] ps[q] == (gs[g].members[i], gs[g].tip);
    }
}

proof fn lemma_groups_from(ps: Seq<(nat, Seq<char>)>, n: nat, j: int)
    requires
        0 <= j <= ps.len(),
        pairs_sorted(ps, n),
    ensures
        groups_from(groups_upto(ps, j), ps, j),
    decreases j,
{
    if j > 0 {
        lemma_groups_from(ps, n, j - 1);
        let gs = groups_upto(ps, j - 1);
        let p = ps[j - 1];
        let r = add_pair(gs, p);
        lemma_group_index_some2(gs, p.1);
        match group_index(gs, p.1) {
            Some(g) => {
                let old_m = gs[g].members;
                let new_m = old_m.push(p.0);
                assert forall|a: int| 0 <= a < old_m.len() implies old_m[a] < p.0 by {
                    let i = choose|i: int| 0 <= i < j - 1 && #[trigger] ps[i] == (old_m[a], gs[g].tip);
                    assert(ps[i].0 <= ps[j - 1].0 && ps[i] != ps[j - 1]);
                }
                assert forall|k: int| 0 <= k < r.len() implies {
                    &&& forall|a: int, b: int|
                        0 <= a < b < (#[trigger] r[k]).members.len() ==> r[k].members[a] < r[k].members[b]
                    &&& forall|a: int|
                        #![trigger r[k].members[a]]
                        0 <= a < r[k].members.len() ==> exists|i: int|
                            0 <= i < j && #[trigger] ps[i] == (r[k].members[a], r[k].tip)
                } by {
                    if k == g {
                        assert(r[k].members == new_m);
                        assert forall|a: int| #![trigger new_m[a]] 0 <= a < new_m.len() implies exists|i: int|
                            0 <= i < j && #[trigger] ps[i] == (new_m[a], r[k].tip) by {
                            if a < old_m.len() {
                                let i = choose|i: int| 0 <= i < j - 1 && #[trigger] ps[i] == (old_m[a], gs[g].tip);
                                assert(ps[i] == (new_m[a], r[k].tip));
                            } else {
                                assert(ps[j - 1] == (new_m[a], r[k].tip));
                            }
                        }
                    } else {
                        assert(r[k] == gs[k]);
                        assert forall|a: int| #![trigger r[k].members[a]] 0 <= a < r[k].members.len() implies exists|i: int|
                            0 <= i < j && #[trigger] ps[i] == (r[k].members[a], r[k].tip) by {
                            let i = choose|i: int| 0 <= i < j - 1 && #[trigger] ps[i] == (gs[k].members[a], gs[k].tip);
                        }
                    }
                }
            },
            None => {
                assert forall|k: int| 0 <= k < r.len() implies {
                    &&& forall|a: int, b: int|
                        0 <= a < b < (#[trigger] r[k]).members.len() ==> r[k].members[a] < r[k].members[b]
                    &&& forall|a: int|
                        #![trigger r[k].members[a]]
                        0 <= a < r[k].members.len() ==> exists|i: int|
                            0 <= i < j && #[trigger] ps[i] == (r[k].members[a], r[k].tip)
                } by {
                    if k < gs.len() {
                        assert(r[k] == gs[k]);
                        assert forall|a: int| #![trigger r[k].members[a]] 0 <= a < r[k].members.len() implies exists|i: int|
                            0 <= i < j && #[trigger] ps[i] == (r[k].members[a], r[k].tip) by {
                            let i = choose|i: int| 0 <= i < j - 1 && #[trigger] ps[i] == (gs[k].members[a], gs[k].tip);
                        }
                    } else {
                        assert(r[k].members == seq![p.0]);
                        assert(ps[j - 1] == (r[k].members[0], r[k].tip));
                    }
                }
            },
        }
    }
}

proof fn lemma_insert_members(rs: Seq<Resolved>, s: Seq<Group>, g: Group)
    ensures
        forall|k: int|
            0 <= k < insert_group(rs, s, g).len() ==> #[trigger] insert_group(rs, s, g)[k] == g
                || s.contains(insert_group(rs, s, g)[k]),
    decreases s.len(),
{
    let r = insert_group(rs, s, g);
    if s.len() > 0 {
        if !goes_before(rs, g, s[0]) {
            let t = s.drop_first();
            lemma_insert_members(rs, t, g);
            let u = insert_group(rs, t, g);
            assert(r == seq![s[0]] + u);
            assert forall|k: int| 0 <= k < r.len() implies #[trigger] r[k] == g || s.contains(r[k]) by {
                if k == 0 {
                    assert(s[0] == r[k]);
                } else {
                    assert(r[k] == u[k - 1]);
                    if u[k - 1] != g {
                        let q = choose|q: int| 0 <= q < t.len() && t[q] == u[k - 1];
                        assert(s[q + 1] == r[k]);
                    }
                }
            }
        } else {
            assert(r == seq![g] + s);
            assert forall|k: int| 0 <= k < r.len() implies #[trigger] r[k] == g || s.contains(r[k]) by {
                if k > 0 {
                    assert(s[k - 1] == r[k]);
                }
            }
        }
    } else {
        assert(r == seq![g]);
    }
}

proof fn lemma_sort_members(rs: Seq<Resolved>, gs: Seq<Group>, n: int)
    requires
        0 <= n <= gs.len(),
    ensures
        forall|k: int|
            0 <= k < sort_groups(rs, gs, n).len() ==> gs.contains(#[trigger] sort_groups(rs, gs, n)[k]),
    decreases n,
{
    if n > 0 {
        lemma_sort_members(rs, gs, n - 1);
        let s = sort_groups(rs, gs, n - 1);
        lemma_insert_members(rs, s, gs[n - 1]);
        let r = insert_group(rs, s, gs[n - 1]);
        assert forall|k: int| 0 <= k < r.len() implies gs.contains(#[trigger] r[k]) by {
            if r[k] != gs[n - 1] {
                let q = choose|q: int| 0 <= q < s.len() && s[q] == r[k];
                assert(gs.contains(s[q]));
            }
        }
    }
}


/// No two boards of the job have the same index.
pub open spec fn board_ids_distinct(bs: Seq<PlanBoard>) -> bool {
    forall|a: int, b: int| 0 <= a < b < bs.len() ==> bs[a].board_idx != bs[b].board_idx
}

/// No placement that the plan resolves lists a tip twice among the tips it
/// may be picked with.
pub open spec fn resolved_tips_once(boards: Seq<PlanBoard>, cfg: PlanConfig) -> bool {
    forall|m: int|
        0 <= m < resolve_all(boards, cfg, boards.len() as int).len() ==> (#[trigger] resolve_all(
            boards,
            cfg,
            boards.len() as int,
        )[m]).tips.no_duplicates()
}

proof fn lemma_resolve_at(b: PlanBoard, i: int, cfg: PlanConfig)
    requires
        0 <= i,
    ensures
        resolve_at(b, i, cfg) matches Some(r) ==> r.board_idx == b.board_idx && r.placement_idx
            == i,
{
}

proof fn lemma_resolve_board_keys(b: PlanBoard, cfg: PlanConfig, n: int)
    requires
        0 <= n,
    ensures
        forall|i: int|
            0 <= i < resolve_board(b, cfg, n).len() ==> (#[trigger] resolve_board(b, cfg, n)[i]).board_idx
                == b.board_idx && resolve_board(b, cfg, n)[i].placement_idx < n,
        forall|i: int, j: int|
            0 <= i < j < resolve_board(b, cfg, n).len() ==> (#[trigger] resolve_board(b, cfg, n)[i]).placement_idx
                < (#[trigger] resolve_board(b, cfg, n)[j]).placement_idx,
    decreases n,
{
    if n > 0 {
        lemma_resolve_board_keys(b, cfg, n - 1);
        lemma_resolve_at(b, n - 1, cfg);
        let a = resolve_board(b, cfg, n - 1);
        let o = opt_seq(resolve_at(b, n - 1, cfg));
        let r = resolve_board(b, cfg, n);
        assert(r == a + o);
        assert forall|i: int| 0 <= i < r.len() implies (#[trigger] r[i]).board_idx == b.board_idx
            && r[i].placement_idx < n by {
            if i < a.len() {
                assert(r[i] == a[i]);
            } else {
                assert(r[i] == o[i - a.len()]);
            }
        }
        assert forall|i: int, j: int| 0 <= i < j < r.len() implies (#[trigger] r[i]).placement_idx
            < (#[trigger] r[j]).placement_idx by {
            if j < a.len() {
                assert(r[i] == a[i] && r[j] == a[j]);
            } else {
                assert(r[j] == o[j - a.len()]);
                if i < a.len() {
                    assert(r[i] == a[i]);
                } else {
                    assert(o.len() == 1);
                }
            }
        }
    }
}

proof fn lemma_resolve_all_keys(bs: Seq<PlanBoard>, cfg: PlanConfig, m: int)
    requires
        board_ids_distinct(bs),
        0 <= m <= bs.len(),
    ensures
        forall|i: int|
            0 <= i < resolve_all(bs, cfg, m).len() ==> exists|q: int|
                0 <= q < m && (#[trigger] resolve_all(bs, cfg, m)[i]).board_idx == #[trigger] bs[q].board_idx,
        forall|i: int, j: int|
            0 <= i < j < resolve_all(bs, cfg, m).len() ==> rkey(#[trigger] resolve_all(bs, cfg, m)[i]) != rkey(
                #[trigger] resolve_all(bs, cfg, m)[j],
            ),
    decreases m,
{
    if m > 0 {
        lemma_resolve_all_keys(bs, cfg, m - 1);
        let b = bs[m - 1];
        lemma_resolve_board_keys(b, cfg, b.placements@.len() as int);
        let a = resolve_all(bs, cfg, m - 1);
        let c = resolve_board(b, cfg, b.placements@.len() as int);
        let r = resolve_all(bs, cfg, m);
        assert(r == a + c);
        assert forall|i: int| 0 <= i < r.len() implies exists|q: int|
            0 <= q < m && (#[trigger] r[i]).board_idx == #[trigger] bs[q].board_idx by {
            if i < a.len() {
                assert(r[i] == a[i]);
                let q = choose|q: int| 0 <= q < m - 1 && a[i].board_idx == #[trigger] bs[q].board_idx;
                assert(r[i].board_idx == bs[q].board_idx);
            } else {
                assert(r[i] == c[i - a.len()]);
                assert(r[i].board_idx == bs[m - 1].board_idx);
            }
        }
        assert forall|i: int, j: int| 0 <= i < j < r.len() implies rkey(#[trigger] r[i]) != rkey(
            #[trigger] r[j],
        ) by {
            if j < a.len() {
                assert(r[i] == a[i] && r[j] == a[j]);
            } else if i >= a.len() {
                assert(r[i] == c[i - a.len()] && r[j] == c[j - a.len()]);
            } else {
                assert(r[i] == a[i] && r[j] == c[j - a.len()]);
                let q = choose|q: int| 0 <= q < m - 1 && a[i].board_idx == #[trigger] bs[q].board_idx;
                assert(bs[q].board_idx != bs[m - 1].board_idx);
            }
        }
    }
}

/// The sorted groups of resolved placements whose tips occur once each
/// hold distinct members that index the resolved placements.
proof fn lemma_sorted_distinct(rs: Seq<Resolved>)
    requires
        forall|m: int| 0 <= m < rs.len() ==> (#[trigger] rs[m]).tips.no_duplicates(),
    ensures
        ({
            let ps = pairs_upto(rs, rs.len() as int);
            let gs = groups_upto(ps, ps.len() as int);
            groups_distinct(sort_groups(rs, gs, gs.len() as int), rs.len())
        }),
{
    let ps = pairs_upto(rs, rs.len() as int);
    lemma_pairs_sorted(rs, rs.len() as int);
    lemma_groups_from(ps, rs.len() as nat, ps.len() as int);
    let gs = groups_upto(ps, ps.len() as int);
    let sorted = sort_groups(rs, gs, gs.len() as int);
    lemma_sort_members(rs, gs, gs.len() as int);
    assert forall|k: int| 0 <= k < sorted.len() implies (#[trigger] sorted[k]).members.no_duplicates()
        && forall|i: int| 0 <= i < sorted[k].members.len() ==> #[trigger] sorted[k].members[i] < rs.len() by {
        assert(gs.contains(sorted[k]));
        let g = choose|g: int| 0 <= g < gs.len() && gs[g] == sorted[k];
        let mem = gs[g].members;
        assert forall|i: int| 0 <= i < mem.len() implies #[trigger] mem[i] < rs.len() by {
            let q = choose|q: int| 0 <= q < ps.len() && #[trigger] ps[q] == (gs[g].members[i], gs[g].tip);
        }
        assert forall|a: int, b: int| 0 <= a < mem.len() && 0 <= b < mem.len() && a != b implies mem[a] != mem[b] by {
            if a < b {
                assert(mem[a] < mem[b]);
            } else {
                assert(mem[b] < mem[a]);
            }
        }
    }
}

/// When no two boards share an index and no placement that the plan resolves
/// lists a tip twice, a plan places each placement at most once.
pub proof fn lemma_plan_places_once(
    boards: Seq<PlanBoard>,
    cfg: PlanConfig,
    n1: Option<Seq<char>>,
    n2: Option<Seq<char>>,
    d: Seq<Seq<u64>>,
)
    requires
        board_ids_distinct(boards),
        resolved_tips_once(boards, cfg),
    ensures
        place_keys(spec_plan(boards, cfg, n1, n2, d)).no_duplicates(),
{
    let rs = resolve_all(boards, cfg, boards.len() as int);
    lemma_resolve_all_keys(boards, cfg, boards.len() as int);
    assert forall|m: int| 0 <= m < rs.len() implies (#[trigger] rs[m]).tips.no_duplicates() by {}
    let ps = pairs_upto(rs, rs.len() as int);
    lemma_pairs_sorted(rs, rs.len() as int);
    lemma_groups_from(ps, rs.len() as nat, ps.len() as int);
    let gs = groups_upto(ps, ps.len() as int);
    let sorted = sort_groups(rs, gs, gs.len() as int);
    lemma_sort_members(rs, gs, gs.len() as int);
    let placed = Seq::new(rs.len(), |i: int| false);
    lemma_sorted_distinct(rs);
    assert(groups_distinct(sorted, placed.len()));
    lemma_schedule_order_distinct(sorted, 0, placed, rs, d);
    lemma_schedule_keys(sorted, 0, placed, n1, n2, rs, d);
    let order = schedule_order(sorted, 0, placed, rs, d);
    let ks = keys_of(rs, order);
    assert forall|i: int, j: int| 0 <= i < ks.len() && 0 <= j < ks.len() && i != j implies ks[i] != ks[j] by {
        assert(order.contains(order[i]));
        assert(order.contains(order[j]));
        assert(order[i] != order[j]);
        let (x, y) = if order[i] < order[j] {
            (order[i] as int, order[j] as int)
        } else {
            (order[j] as int, order[i] as int)
        };
        assert(rkey(rs[x]) != rkey(rs[y]));
    }
}


// --- Every resolved placement is placed ---

proof fn lemma_cycle_order_covers(rem: Seq<nat>, rs: Seq<Resolved>, d: Seq<Seq<u64>>)
    ensures
        forall|x: nat| #[trigger] rem.contains(x) ==> cycle_order(rem, rs, d).contains(x),
    decreases rem.len(),
{
    if rem.len() > 0 {
        let n1 = rem[0];
        let rest = rem.drop_first();
        if rest.len() == 0 {
            assert forall|x: nat| #[trigger] rem.contains(x) implies cycle_order(rem, rs, d).contains(x) by {
                let i = choose|i: int| 0 <= i < rem.len() && rem[i] == x;
                assert(cycle_order(rem, rs, d)[0] == x);
            }
        } else {
            let p = nearest_upto(rest, rest.len() as int, rs[n1 as int].key, rs, d);
            lemma_nearest_bound(rest, rest.len() as int, rs[n1 as int].key, rs, d);
            let r2 = rest.remove(p);
            lemma_cycle_order_covers(r2, rs, d);
            let tail = cycle_order(r2, rs, d);
            let o = seq![n1, rest[p]] + tail;
            assert(o == cycle_order(rem, rs, d));
            assert forall|x: nat| #[trigger] rem.contains(x) implies o.contains(x) by {
                let i = choose|i: int| 0 <= i < rem.len() && rem[i] == x;
                if i == 0 {
                    assert(o[0] == x);
                } else if i - 1 == p {
                    assert(o[1] == x);
                } else {
                    let q = if i - 1 < p {
                        i - 1
                    } else {
                        i - 2
                    };
                    assert(r2[q] == x);
                    assert(r2.contains(x));
                    let w = choose|w: int| 0 <= w < tail.len() && tail[w] == x;
                    assert(o[w + 2] == x);
                }
            }
        }
    }
}

proof fn lemma_unplaced_covers(ms: Seq<nat>, placed: Seq<bool>)
    ensures
        forall|x: nat|
            #[trigger] ms.contains(x) && !placed[x as int] ==> unplaced(ms, placed).contains(x),
    decreases ms.len(),
{
    if ms.len() > 0 {
        let m0 = ms.drop_last();
        lemma_unplaced_covers(m0, placed);
        let u0 = unplaced(m0, placed);
        let u = unplaced(ms, placed);
        assert forall|x: nat| #[trigger] ms.contains(x) && !placed[x as int] implies u.contains(x) by {
            let i = choose|i: int| 0 <= i < ms.len() && ms[i] == x;
            if i == ms.len() - 1 {
                assert(u[u.len() - 1] == x);
            } else {
                assert(m0[i] == x);
                assert(m0.contains(x));
                let w = choose|w: int| 0 <= w < u0.len() && u0[w] == x;
                assert(u[w] == x);
            }
        }
    }
}

/// Every placement that is not yet placed and is a member of one of the
/// groups `k..` is in the order.
proof fn lemma_schedule_covers(
    sorted: Seq<Group>,
    k: int,
    placed: Seq<bool>,
    rs: Seq<Resolved>,
    d: Seq<Seq<u64>>,
    k0: int,
    x: nat,
)
    requires
        0 <= k <= k0 < sorted.len(),
        groups_in_range(sorted, placed.len()),
        sorted[k0].members.contains(x),
        !placed[x as int],
    ensures
        schedule_order(sorted, k, placed, rs, d).contains(x),
    decreases sorted.len() - k,
{
    let g = sorted[k];
    let pending = unplaced(g.members, placed);
    lemma_unplaced_covers(g.members, placed);
    lemma_unplaced_facts(g.members, placed);
    if k == k0 {
        assert(pending.contains(x));
        lemma_cycle_order_covers(pending, rs, d);
        let a = cycle_order(pending, rs, d);
        let w = choose|w: int| 0 <= w < a.len() && a[w] == x;
        let o = a + schedule_order(sorted, k + 1, mark(placed, pending), rs, d);
        assert(o[w] == x);
    } else if pending.len() == 0 {
        lemma_schedule_covers(sorted, k + 1, placed, rs, d, k0, x);
    } else {
        assert forall|i: int| 0 <= i < pending.len() implies (#[trigger] pending[i]) < placed.len() by {
            assert(pending.contains(pending[i]));
            let q = choose|q: int| 0 <= q < g.members.len() && g.members[q] == pending[i];
        }
        lemma_mark(placed, pending);
        let a = cycle_order(pending, rs, d);
        let b = schedule_order(sorted, k + 1, mark(placed, pending), rs, d);
        let q = choose|q: int| 0 <= q < sorted[k0].members.len() && sorted[k0].members[q] == x;
        assert(x < placed.len());
        if pending.contains(x) {
            lemma_cycle_order_covers(pending, rs, d);
            let w = choose|w: int| 0 <= w < a.len() && a[w] == x;
            assert((a + b)[w] == x);
        } else {
            assert(!mark(placed, pending)[x as int]);
            lemma_schedule_covers(sorted, k + 1, mark(placed, pending), rs, d, k0, x);
            let w = choose|w: int| 0 <= w < b.len() && b[w] == x;
            assert((a + b)[w + a.len()] == x);
        }
    }
}

/// The pair's placement is a member of a group of the pair's tip.
pub open spec fn in_group_of(gs: Seq<Group>, p: (nat, Seq<char>)) -> bool {
    exists|k: int| 0 <= k < gs.len() && (#[trigger] gs[k]).tip == p.1 && gs[k].members.contains(p.0)
}

/// Every pair's placement is a member of the group of the pair's tip.
proof fn lemma_groups_cover(ps: Seq<(nat, Seq<char>)>, j: int)
    requires
        0 <= j <= ps.len(),
    ensures
        forall|i: int| 0 <= i < j ==> #[trigger] in_group_of(groups_upto(ps, j), ps[i]),
    decreases j,
{
    if j > 0 {
        lemma_groups_cover(ps, j - 1);
        let gs = groups_upto(ps, j - 1);
        let p = ps[j - 1];
        let r = add_pair(gs, p);
        lemma_group_index_some2(gs, p.1);
        assert(r.len() >= gs.len());
        assert forall|i: int| 0 <= i < j implies #[trigger] in_group_of(r, ps[i]) by {
            if i < j - 1 {
                assert(in_group_of(gs, ps[i]));
                let k = choose|k: int|
                    0 <= k < gs.len() && (#[trigger] gs[k]).tip == ps[i].1 && gs[k].members.contains(ps[i].0);
                let w = choose|w: int| 0 <= w < gs[k].members.len() && gs[k].members[w] == ps[i].0;
                match group_index(gs, p.1) {
                    Some(g) => {
                        if k == g {
                            assert(r[k].members[w] == ps[i].0);
                        } else {
                            assert(r[k] == gs[k]);
                        }
                    },
                    None => {
                        assert(r[k] == gs[k]);
                    },
                }
                assert(r[k].members[w] == ps[i].0);
                assert(r[k].members.contains(ps[i].0));
            } else {
                match group_index(gs, p.1) {
                    Some(g) => {
                        assert(r[g].members[r[g].members.len() - 1] == p.0);
                        assert(r[g].members.contains(p.0));
                    },
                    None => {
                        assert(r[gs.len() as int].members[0] == p.0);
                        assert(r[gs.len() as int].members.contains(p.0));
                    },
                }
            }
        }
    }
}

proof fn lemma_insert_keeps(rs: Seq<Resolved>, s: Seq<Group>, g: Group)
    ensures
        insert_group(rs, s, g).contains(g),
        forall|x: Group| #[trigger] s.contains(x) ==> insert_group(rs, s, g).contains(x),
    decreases s.len(),
{
    let r = insert_group(rs, s, g);
    if s.len() == 0 {
        assert(r[0] == g);
    } else if goes_before(rs, g, s[0]) {
        assert(r == seq![g] + s);
        assert(r[0] == g);
        assert forall|x: Group| #[trigger] s.contains(x) implies r.contains(x) by {
            let i = choose|i: int| 0 <= i < s.len() && s[i] == x;
            assert(r[i + 1] == x);
        }
    } else {
        let t = s.drop_first();
        lemma_insert_keeps(rs, t, g);
        let u = insert_group(rs, t, g);
        assert(r == seq![s[0]] + u);
        let w = choose|w: int| 0 <= w < u.len() && u[w] == g;
        assert(r[w + 1] == g);
        assert forall|x: Group| #[trigger] s.contains(x) implies r.contains(x) by {
            let i = choose|i: int| 0 <= i < s.len() && s[i] == x;
            if i == 0 {
                assert(r[0] == x);
            } else {
                assert(t[i - 1] == x);
                assert(t.contains(x));
                let v = choose|v: int| 0 <= v < u.len() && u[v] == x;
                assert(r[v + 1] == x);
            }
        }
    }
}

proof fn lemma_sort_keeps(rs: Seq<Resolved>, gs: Seq<Group>, n: int)
    requires
        0 <= n <= gs.len(),
    ensures
        forall|i: int| 0 <= i < n ==> sort_groups(rs, gs, n).contains(#[trigger] gs[i]),
    decreases n,
{
    if n > 0 {
        lemma_sort_keeps(rs, gs, n - 1);
        let s = sort_groups(rs, gs, n - 1);
        lemma_insert_keeps(rs, s, gs[n - 1]);
        assert forall|i: int| 0 <= i < n implies sort_groups(rs, gs, n).contains(#[trigger] gs[i]) by {
            if i < n - 1 {
                assert(s.contains(gs[i]));
            }
        }
    }
}

/// A plan places every placement that it resolves and that has a tip to be
/// picked with.
pub proof fn lemma_plan_places_each(
    boards: Seq<PlanBoard>,
    cfg: PlanConfig,
    n1: Option<Seq<char>>,
    n2: Option<Seq<char>>,
    d: Seq<Seq<u64>>,
    m: int,
)
    requires
        0 <= m < resolve_all(boards, cfg, boards.len() as int).len(),
        resolve_all(boards, cfg, boards.len() as int)[m].tips.len() > 0,
    ensures
        place_keys(spec_plan(boards, cfg, n1, n2, d)).contains(
            rkey(resolve_all(boards, cfg, boards.len() as int)[m]),
        ),
{
    let rs = resolve_all(boards, cfg, boards.len() as int);
    let ps = pairs_upto(rs, rs.len() as int);
    lemma_groups_cover(ps, ps.len() as int);
    let gs = groups_upto(ps, ps.len() as int);
    let sorted = sort_groups(rs, gs, gs.len() as int);
    lemma_sort_keeps(rs, gs, gs.len() as int);
    let placed = Seq::new(rs.len(), |i: int| false);
    // The pair of the placement with its first tip.
    lemma_pairs_index(rs, rs.len() as int, m);
    let pi = choose|pi: int| 0 <= pi < ps.len() && #[trigger] ps[pi] == (m as nat, rs[m].tips[0]);
    assert(in_group_of(gs, ps[pi]));
    let k = choose|k: int|
        0 <= k < gs.len() && (#[trigger] gs[k]).tip == ps[pi].1 && gs[k].members.contains(ps[pi].0);
    assert(sorted.contains(gs[k]));
    let k0 = choose|k0: int| 0 <= k0 < sorted.len() && sorted[k0] == gs[k];
    lemma_sorted_in_range(rs);
    assert(groups_in_range(sorted, placed.len()));
    lemma_schedule_covers(sorted, 0, placed, rs, d, k0, m as nat);
    lemma_schedule_keys(sorted, 0, placed, n1, n2, rs, d);
    let order = schedule_order(sorted, 0, placed, rs, d);
    let w = choose|w: int| 0 <= w < order.len() && order[w] == m as nat;
    assert(keys_of(rs, order)[w] == rkey(rs[m]));
}

/// When no two boards share an index and no placement that the plan resolves
/// lists a tip twice, a plan places every placement that it resolves and that
/// has a tip to be picked with exactly once.
pub proof fn lemma_plan_places_exactly_once(
    boards: Seq<PlanBoard>,
    cfg: PlanConfig,
    n1: Option<Seq<char>>,
    n2: Option<Seq<char>>,
    d: Seq<Seq<u64>>,
    m: int,
)
    requires
        board_ids_distinct(boards),
        resolved_tips_once(boards, cfg),
        0 <= m < resolve_all(boards, cfg, boards.len() as int).len(),
        resolve_all(boards, cfg, boards.len() as int)[m].tips.len() > 0,
    ensures
        place_keys(spec_plan(boards, cfg, n1, n2, d)).contains(
            rkey(resolve_all(boards, cfg, boards.len() as int)[m]),
        ),
        place_keys(spec_plan(boards, cfg, n1, n2, d)).no_duplicates(),
{
    lemma_plan_places_each(boards, cfg, n1, n2, d, m);
    lemma_plan_places_once(boards, cfg, n1, n2, d);
}

proof fn lemma_pairs_index(rs: Seq<Resolved>, n: int, m: int)
    requires
        0 <= m < n <= rs.len(),
        rs[m].tips.len() > 0,
    ensures
        exists|pi: int| 0 <= pi < pairs_upto(rs, n).len() && #[trigger] pairs_upto(rs, n)[pi] == (m as nat, rs[m].tips[0]),
    decreases n,
{
    let a = pairs_upto(rs, n - 1);
    let b = Seq::new(rs[n - 1].tips.len(), |j: int| ((n - 1) as nat, rs[n - 1].tips[j]));
    assert(pairs_upto(rs, n) == a + b);
    if m < n - 1 {
        lemma_pairs_index(rs, n - 1, m);
        let pi = choose|pi: int| 0 <= pi < a.len() && #[trigger] a[pi] == (m as nat, rs[m].tips[0]);
        assert((a + b)[pi] == a[pi]);
    } else {
        assert((a + b)[a.len() as int] == b[0]);
    }
}


// --- Every placement that can be placed is placed ---

proof fn lemma_board_has(b: PlanBoard, cfg: PlanConfig, n: int, i: int)
    requires
        0 <= i < n,
        resolve_at(b, i, cfg) is Some,
    ensures
        exists|k: int|
            0 <= k < resolve_board(b, cfg, n).len() && resolve_board(b, cfg, n)[k] == resolve_at(b, i, cfg)->0,
    decreases n,
{
    let prev = resolve_board(b, cfg, n - 1);
    let cur = resolve_board(b, cfg, n);
    assert(cur == prev + opt_seq(resolve_at(b, n - 1, cfg)));
    if i == n - 1 {
        assert(cur[prev.len() as int] == resolve_at(b, i, cfg)->0);
    } else {
        lemma_board_has(b, cfg, n - 1, i);
        let k = choose|k: int| 0 <= k < prev.len() && prev[k] == resolve_at(b, i, cfg)->0;
        assert(cur[k] == prev[k]);
    }
}

proof fn lemma_all_has(bs: Seq<PlanBoard>, cfg: PlanConfig, m: int, q: int, i: int)
    requires
        0 <= q < m <= bs.len(),
        0 <= i < bs[q].placements@.len(),
        resolve_at(bs[q], i, cfg) is Some,
    ensures
        exists|k: int|
            0 <= k < resolve_all(bs, cfg, m).len() && resolve_all(bs, cfg, m)[k] == resolve_at(bs[q], i, cfg)->0,
    decreases m,
{
    let prev = resolve_all(bs, cfg, m - 1);
    let last = resolve_board(bs[m - 1], cfg, bs[m - 1].placements@.len() as int);
    let cur = resolve_all(bs, cfg, m);
    assert(cur == prev + last);
    if q == m - 1 {
        lemma_board_has(bs[q], cfg, bs[q].placements@.len() as int, i);
        let k = choose|k: int| 0 <= k < last.len() && last[k] == resolve_at(bs[q], i, cfg)->0;
        assert(cur[prev.len() + k] == last[k]);
    } else {
        lemma_all_has(bs, cfg, m - 1, q, i);
        let k = choose|k: int| 0 <= k < prev.len() && prev[k] == resolve_at(bs[q], i, cfg)->0;
        assert(cur[k] == prev[k]);
    }
}

/// The placement can be placed: it is enabled and pending, its part is
/// configured, the part's package is configured, an enabled feeder holds the
/// part, and some configured tip suits the package (a package that lists no
/// tips suits every configured tip).
pub open spec fn placeable(b: PlanBoard, i: int, cfg: PlanConfig) -> bool {
    let p = b.placements@[i];
    &&& p.enabled
    &&& b.states@[i] is Pending
    &&& feeder_for(cfg.feeders@, p.part_id@) is Some
    &&& part_package(cfg.parts@, p.part_id@) matches Some(pkg) && (package_tips(cfg.packages@, pkg) matches Some(
        t,
    ) && (t.len() > 0 || cfg.nozzle_tips@.len() > 0))
}

/// A plan places every placement that can be placed.
pub proof fn lemma_plan_places_placeable(
    boards: Seq<PlanBoard>,
    cfg: PlanConfig,
    n1: Option<Seq<char>>,
    n2: Option<Seq<char>>,
    d: Seq<Seq<u64>>,
    q: int,
    i: int,
)
    requires
        0 <= q < boards.len(),
        0 <= i < boards[q].placements@.len(),
        placeable(boards[q], i, cfg),
    ensures
        place_keys(spec_plan(boards, cfg, n1, n2, d)).contains((boards[q].board_idx as nat, i as nat)),
{
    let r = resolve_at(boards[q], i, cfg);
    assert(r is Some);
    assert(r->0.tips.len() > 0);
    lemma_all_has(boards, cfg, boards.len() as int, q, i);
    let rs = resolve_all(boards, cfg, boards.len() as int);
    let k = choose|k: int| 0 <= k < rs.len() && rs[k] == r->0;
    lemma_plan_places_each(boards, cfg, n1, n2, d, k);
    assert(rkey(rs[k]) == (boards[q].board_idx as nat, i as nat));
}

/// When no two boards share an index and no placement that the plan resolves
/// lists a tip twice, a plan places every placement that can be placed
/// exactly once.
pub proof fn lemma_plan_places_placeable_once(
    boards: Seq<PlanBoard>,
    cfg: PlanConfig,
    n1: Option<Seq<char>>,
    n2: Option<Seq<char>>,
    d: Seq<Seq<u64>>,
    q: int,
    i: int,
)
    requires
        board_ids_distinct(boards),
        resolved_tips_once(boards, cfg),
        0 <= q < boards.len(),
        0 <= i < boards[q].placements@.len(),
        placeable(boards[q], i, cfg),
    ensures
        place_keys(spec_plan(boards, cfg, n1, n2, d)).contains((boards[q].board_idx as nat, i as nat)),
        place_keys(spec_plan(boards, cfg, n1, n2, d)).no_duplicates(),
{
    lemma_plan_places_placeable(boards, cfg, n1, n2, d, q, i);
    lemma_plan_places_once(boards, cfg, n1, n2, d);
}

} // verus!
