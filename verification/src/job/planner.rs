//! Planning the order of a job's placements.
//!
//! Each pending placement is resolved to its part, package, feeder and the nozzle
//! tips it can be picked with. Placements are grouped by tip; groups with more
//! placements come first, and among equal sizes the group whose placements have
//! fewer alternative tips comes first. Within a group, placements are paired for
//! the two nozzles: the first one left goes on N1 and the one nearest to it on
//! N2. Tip changes are inserted where a group needs another tip.

use vstd::prelude::*;

use crate::job::types::AssignmentView;
use crate::job::types::JobStep;
use crate::job::types::NozzleAssignment;
use crate::job::types::NozzleId;
use crate::job::types::PlacementState;
use crate::job::types::StepView;
use crate::job::types::TipChange;
use crate::job::types::TipChangeView;
use crate::job::types::opt_view;

verus! {

/// A placement as the planner sees it: its part, whether it is enabled, and
/// the key of its position in the distance table.
pub struct PlanPlacement {
    pub part_id: String,
    pub enabled: bool,
    pub key: usize,
}

/// A board of the job: its placements and their current states.
pub struct PlanBoard {
    pub board_idx: usize,
    pub placements: Vec<PlanPlacement>,
    pub states: Vec<PlacementState>,
}

pub struct PartRef {
    pub id: String,
    pub package_id: String,
}

pub struct PackageRef {
    pub id: String,
    pub compatible_tips: Vec<String>,
}

pub struct FeederRef {
    pub id: String,
    pub enabled: bool,
    pub part_id: String,
}

/// The configuration a plan is made from, each table in the order the
/// configuration lists it.
pub struct PlanConfig {
    pub parts: Vec<PartRef>,
    pub packages: Vec<PackageRef>,
    pub feeders: Vec<FeederRef>,
    pub nozzle_tips: Vec<String>,
}

/// Order keys of the distances between placement positions: `table[a][b]`
/// orders the distance from the position with key `a` to the one with key `b`.
pub struct Distances {
    pub table: Vec<Vec<u64>>,
}

/// A planned job: ordered list of steps to execute.
pub struct JobPlan {
    pub steps: Vec<JobStep>,
}

pub open spec fn strs(v: Seq<String>) -> Seq<Seq<char>> {
    v.map_values(|s: String| s@)
}

pub open spec fn steps_view(v: Seq<JobStep>) -> Seq<StepView> {
    v.map_values(|s: JobStep| s@)
}

// --- Resolution ---
/// A placement resolved to everything the plan needs.
pub struct Resolved {
    pub board_idx: nat,
    pub placement_idx: nat,
    pub part_id: Seq<char>,
    pub feeder_id: Seq<char>,
    pub tips: Seq<Seq<char>>,
    pub key: nat,
}

/// Package of the first part entry with the id.
pub open spec fn part_package(parts: Seq<PartRef>, id: Seq<char>) -> Option<Seq<char>>
    decreases parts.len(),
{
    if parts.len() == 0 {
        None
    } else if parts[0].id@ == id {
        Some(parts[0].package_id@)
    } else {
        part_package(parts.drop_first(), id)
    }
}

/// Compatible tips of the first package entry with the id.
pub open spec fn package_tips(pkgs: Seq<PackageRef>, id: Seq<char>) -> Option<Seq<Seq<char>>>
    decreases pkgs.len(),
{
    if pkgs.len() == 0 {
        None
    } else if pkgs[0].id@ == id {
        Some(strs(pkgs[0].compatible_tips@))
    } else {
        package_tips(pkgs.drop_first(), id)
    }
}

/// The first enabled feeder that holds the part.
pub open spec fn feeder_for(fs: Seq<FeederRef>, part: Seq<char>) -> Option<Seq<char>>
    decreases fs.len(),
{
    if fs.len() == 0 {
        None
    } else if fs[0].enabled && fs[0].part_id@ == part {
        Some(fs[0].id@)
    } else {
        feeder_for(fs.drop_first(), part)
    }
}

/// Placement `i` of a board, resolved, when it is enabled, pending, and its
/// part, package and a feeder are found. A package that names no tips is
/// compatible with every tip.
pub open spec fn resolve_at(b: PlanBoard, i: int, cfg: PlanConfig) -> Option<Resolved> {
    let p = b.placements@[i];
    if !p.enabled {
        None
    } else if !(b.states@[i] is Pending) {
        None
    } else {
        match part_package(cfg.parts@, p.part_id@) {
            None => None,
            Some(pkg) => match package_tips(cfg.packages@, pkg) {
                None => None,
                Some(tips) => match feeder_for(cfg.feeders@, p.part_id@) {
                    None => None,
                    Some(fid) => Some(
                        Resolved {
                            board_idx: b.board_idx as nat,
                            placement_idx: i as nat,
                            part_id: p.part_id@,
                            feeder_id: fid,
                            tips: if tips.len() == 0 {
                                strs(cfg.nozzle_tips@)
                            } else {
                                tips
                            },
                            key: p.key as nat,
                        },
                    ),
                },
            },
        }
    }
}

pub open spec fn opt_seq<T>(o: Option<T>) -> Seq<T> {
    match o {
        Some(x) => seq![x],
        None => seq![],
    }
}

pub open spec fn resolve_board(b: PlanBoard, cfg: PlanConfig, n: int) -> Seq<Resolved>
    decreases n,
{
    if n <= 0 {
        seq![]
    } else {
        resolve_board(b, cfg, n - 1) + opt_seq(resolve_at(b, n - 1, cfg))
    }
}

/// The resolved placements of the first `m` boards, in board and placement order.
pub open spec fn resolve_all(bs: Seq<PlanBoard>, cfg: PlanConfig, m: int) -> Seq<Resolved>
    decreases m,
{
    if m <= 0 {
        seq![]
    } else {
        resolve_all(bs, cfg, m - 1) + resolve_board(bs[m - 1], cfg, bs[m - 1].placements@.len() as int)
    }
}

// --- Grouping by tip ---
/// Each (placement, tip) pair of the first `n` resolved placements, in order.
pub open spec fn pairs_upto(rs: Seq<Resolved>, n: int) -> Seq<(nat, Seq<char>)>
    decreases n,
{
    if n <= 0 {
        seq![]
    } else {
        pairs_upto(rs, n - 1) + Seq::new(
            rs[n - 1].tips.len(),
            |j: int| ((n - 1) as nat, rs[n - 1].tips[j]),
        )
    }
}

/// The placements that can use a tip.
pub struct Group {
    pub tip: Seq<char>,
    pub members: Seq<nat>,
}

pub open spec fn group_index(gs: Seq<Group>, t: Seq<char>) -> Option<int>
    decreases gs.len(),
{
    if gs.len() == 0 {
        None
    } else if gs[0].tip == t {
        Some(0)
    } else {
        match group_index(gs.drop_first(), t) {
            Some(i) => Some(i + 1),
            None => None,
        }
    }
}

pub open spec fn add_pair(gs: Seq<Group>, p: (nat, Seq<char>)) -> Seq<Group> {
    match group_index(gs, p.1) {
        Some(g) => gs.update(g, Group { tip: p.1, members: gs[g].members.push(p.0) }),
        None => gs.push(Group { tip: p.1, members: seq![p.0] }),
    }
}

/// Groups after the first `m` pairs, in order of first appearance of the tip.
pub open spec fn groups_upto(ps: Seq<(nat, Seq<char>)>, m: int) -> Seq<Group>
    decreases m,
{
    if m <= 0 {
        seq![]
    } else {
        add_pair(groups_upto(ps, m - 1), ps[m - 1])
    }
}

// --- Ordering the groups ---
/// Total number of alternative tips over the first `k` members of a group.
pub open spec fn weight_upto(rs: Seq<Resolved>, ms: Seq<nat>, k: int) -> nat
    decreases k,
{
    if k <= 0 {
        0
    } else {
        weight_upto(rs, ms, k - 1) + rs[ms[k - 1] as int].tips.len()
    }
}

pub open spec fn weight(rs: Seq<Resolved>, g: Group) -> nat {
    weight_upto(rs, g.members, g.members.len() as int)
}

/// `a` goes before `b`: more placements, or as many with fewer alternative
/// tips on average.
pub open spec fn goes_before(rs: Seq<Resolved>, a: Group, b: Group) -> bool {
    a.members.len() > b.members.len() || (a.members.len() == b.members.len() && weight(rs, a)
        < weight(rs, b))
}

/// Inserts `g` after every group that does not go after it.
pub open spec fn insert_group(rs: Seq<Resolved>, s: Seq<Group>, g: Group) -> Seq<Group>
    decreases s.len(),
{
    if s.len() == 0 {
        seq![g]
    } else if goes_before(rs, g, s[0]) {
        seq![g] + s
    } else {
        seq![s[0]] + insert_group(rs, s.drop_first(), g)
    }
}

/// Stable sort of the first `n` groups.
pub open spec fn sort_groups(rs: Seq<Resolved>, gs: Seq<Group>, n: int) -> Seq<Group>
    decreases n,
{
    if n <= 0 {
        seq![]
    } else {
        insert_group(rs, sort_groups(rs, gs, n - 1), gs[n - 1])
    }
}

// --- Scheduling ---
/// Members not yet placed.
pub open spec fn unplaced(ms: Seq<nat>, placed: Seq<bool>) -> Seq<nat>
    decreases ms.len(),
{
    if ms.len() == 0 {
        seq![]
    } else if placed[ms.last() as int] {
        unplaced(ms.drop_last(), placed)
    } else {
        unplaced(ms.drop_last(), placed).push(ms.last())
    }
}

/// `placed` with the members marked.
pub open spec fn mark(placed: Seq<bool>, ms: Seq<nat>) -> Seq<bool>
    decreases ms.len(),
{
    if ms.len() == 0 {
        placed
    } else {
        mark(placed, ms.drop_last()).update(ms.last() as int, true)
    }
}

pub open spec fn dist(d: Seq<Seq<u64>>, a: nat, b: nat) -> u64 {
    d[a as int][b as int]
}

/// Index, among the first `n` of `rest`, of the placement nearest to the
/// position with key `k1`; the first one among equals.
pub open spec fn nearest_upto(rest: Seq<nat>, n: int, k1: nat, rs: Seq<Resolved>, d: Seq<Seq<u64>>) -> int
    decreases n,
{
    if n <= 1 {
        0
    } else {
        let b = nearest_upto(rest, n - 1, k1, rs, d);
        if dist(d, k1, rs[rest[n - 1] as int].key) < dist(d, k1, rs[rest[b] as int].key) {
            n - 1
        } else {
            b
        }
    }
}

pub proof fn lemma_nearest_bound(rest: Seq<nat>, n: int, k1: nat, rs: Seq<Resolved>, d: Seq<Seq<u64>>)
    requires
        1 <= n,
    ensures
        0 <= nearest_upto(rest, n, k1, rs, d) < n,
    decreases n,
{
    if n > 1 {
        lemma_nearest_bound(rest, n - 1, k1, rs, d);
    }
}

pub open spec fn assign(nozzle: NozzleId, tip: Seq<char>, r: Resolved) -> AssignmentView {
    AssignmentView {
        nozzle,
        tip_id: tip,
        feeder_id: r.feeder_id,
        part_id: r.part_id,
        board_idx: r.board_idx,
        placement_idx: r.placement_idx,
    }
}

/// Pick, align and place of one cycle.
pub open spec fn cycle_steps(a: Seq<AssignmentView>) -> Seq<StepView> {
    seq![StepView::PickBatch(a), StepView::AlignBatch(a), StepView::PlaceBatch(a)]
}

/// The cycles that place `rem` with a tip: the first left on N1, the nearest
/// to it on N2.
pub open spec fn cycles(rem: Seq<nat>, tip: Seq<char>, rs: Seq<Resolved>, d: Seq<Seq<u64>>) -> Seq<StepView>
    decreases rem.len(),
{
    if rem.len() == 0 {
        seq![]
    } else {
        let n1 = rem[0];
        let rest = rem.drop_first();
        if rest.len() == 0 {
            cycle_steps(seq![assign(NozzleId::N1, tip, rs[n1 as int])])
        } else {
            let p = nearest_upto(rest, rest.len() as int, rs[n1 as int].key, rs, d);
            proof {
                lemma_nearest_bound(rest, rest.len() as int, rs[n1 as int].key, rs, d);
            }
            cycle_steps(
                seq![
                    assign(NozzleId::N1, tip, rs[n1 as int]),
                    assign(NozzleId::N2, tip, rs[rest[p] as int]),
                ],
            ) + cycles(rest.remove(p), tip, rs, d)
        }
    }
}

/// The tip changes that put `tip` on both nozzles.
pub open spec fn tip_changes(tip: Seq<char>, n1: Option<Seq<char>>, n2: Option<Seq<char>>) -> Seq<
    TipChangeView,
> {
    let c1 = if n1 != Some(tip) {
        seq![TipChangeView { nozzle: NozzleId::N1, from_tip: n1, to_tip: tip }]
    } else {
        seq![]
    };
    let c2 = if n2 != Some(tip) {
        seq![TipChangeView { nozzle: NozzleId::N2, from_tip: n2, to_tip: tip }]
    } else {
        seq![]
    };
    c1 + c2
}

/// The steps for groups `k..`, with `placed` and the tips on the nozzles.
pub open spec fn schedule(
    sorted: Seq<Group>,
    k: int,
    placed: Seq<bool>,
    n1: Option<Seq<char>>,
    n2: Option<Seq<char>>,
    rs: Seq<Resolved>,
    d: Seq<Seq<u64>>,
) -> Seq<StepView>
    decreases sorted.len() - k,
{
    if k < 0 || k >= sorted.len() {
        seq![]
    } else {
        let g = sorted[k];
        let pending = unplaced(g.members, placed);
        if pending.len() == 0 {
            schedule(sorted, k + 1, placed, n1, n2, rs, d)
        } else {
            let ch = tip_changes(g.tip, n1, n2);
            let pre = if ch.len() > 0 {
                seq![StepView::ChangeTips(ch)]
            } else {
                seq![]
            };
            pre + cycles(pending, g.tip, rs, d) + schedule(
                sorted,
                k + 1,
                mark(placed, pending),
                Some(g.tip),
                Some(g.tip),
                rs,
                d,
            )
        }
    }
}

/// The plan for a job.
pub open spec fn spec_plan(
    boards: Seq<PlanBoard>,
    cfg: PlanConfig,
    n1: Option<Seq<char>>,
    n2: Option<Seq<char>>,
    d: Seq<Seq<u64>>,
) -> Seq<StepView> {
    let rs = resolve_all(boards, cfg, boards.len() as int);
    let ps = pairs_upto(rs, rs.len() as int);
    let gs = groups_upto(ps, ps.len() as int);
    let sorted = sort_groups(rs, gs, gs.len() as int);
    schedule(sorted, 0, Seq::new(rs.len(), |i: int| false), n1, n2, rs, d)
}


// --- Execution ---
/// A placement resolved to everything the plan needs.
struct ResolvedPlacement {
    board_idx: usize,
    placement_idx: usize,
    part_id: String,
    feeder_id: String,
    tips: Vec<String>,
    key: usize,
}

impl View for ResolvedPlacement {
    type V = Resolved;

    closed spec fn view(&self) -> Resolved {
        Resolved {
            board_idx: self.board_idx as nat,
            placement_idx: self.placement_idx as nat,
            part_id: self.part_id@,
            feeder_id: self.feeder_id@,
            tips: strs(self.tips@),
            key: self.key as nat,
        }
    }
}

spec fn rviews(v: Seq<ResolvedPlacement>) -> Seq<Resolved> {
    v.map_values(|r: ResolvedPlacement| r@)
}

fn copy_strings(v: &Vec<String>) -> (r: Vec<String>)
    ensures
        strs(r@) == strs(v@),
{
    let mut r: Vec<String> = Vec::new();
    let mut i: usize = 0;
    while i < v.len()
        invariant
            i <= v@.len(),
            strs(r@) =~= strs(v@.subrange(0, i as int)),
        decreases v@.len() - i,
    {
        let ghost r0 = r@;
        r.push(v[i].clone());
        proof {
            assert(strs(r@) =~= strs(r0).push(v@[i as int]@));
            assert(strs(v@.subrange(0, i + 1)) =~= strs(v@.subrange(0, i as int)).push(
                v@[i as int]@,
            ));
        }
        i += 1;
    }
    assert(v@.subrange(0, v@.len() as int) =~= v@);
    r
}

fn find_package(parts: &Vec<PartRef>, id: &String) -> (r: Option<String>)
    ensures
        match r {
            Some(p) => part_package(parts@, id@) == Some(p@),
            None => part_package(parts@, id@) is None,
        },
{
    let mut i: usize = 0;
    assert(parts@.subrange(0, parts@.len() as int) =~= parts@);
    while i < parts.len()
        invariant
            i <= parts@.len(),
            part_package(parts@, id@) == part_package(
                parts@.subrange(i as int, parts@.len() as int),
                id@,
            ),
        decreases parts@.len() - i,
    {
        let ghost rest = parts@.subrange(i as int, parts@.len() as int);
        assert(rest.drop_first() =~= parts@.subrange(i + 1, parts@.len() as int));
        if parts[i].id == *id {
            return Some(parts[i].package_id.clone());
        }
        i += 1;
    }
    None
}

fn find_tips(pkgs: &Vec<PackageRef>, id: &String) -> (r: Option<Vec<String>>)
    ensures
        match r {
            Some(t) => package_tips(pkgs@, id@) == Some(strs(t@)),
            None => package_tips(pkgs@, id@) is None,
        },
{
    let mut i: usize = 0;
    assert(pkgs@.subrange(0, pkgs@.len() as int) =~= pkgs@);
    while i < pkgs.len()
        invariant
            i <= pkgs@.len(),
            package_tips(pkgs@, id@) == package_tips(
                pkgs@.subrange(i as int, pkgs@.len() as int),
                id@,
            ),
        decreases pkgs@.len() - i,
    {
        let ghost rest = pkgs@.subrange(i as int, pkgs@.len() as int);
        assert(rest.drop_first() =~= pkgs@.subrange(i + 1, pkgs@.len() as int));
        if pkgs[i].id == *id {
            return Some(copy_strings(&pkgs[i].compatible_tips));
        }
        i += 1;
    }
    None
}

fn find_feeder(fs: &Vec<FeederRef>, part: &String) -> (r: Option<String>)
    ensures
        match r {
            Some(f) => feeder_for(fs@, part@) == Some(f@),
            None => feeder_for(fs@, part@) is None,
        },
{
    let mut i: usize = 0;
    assert(fs@.subrange(0, fs@.len() as int) =~= fs@);
    while i < fs.len()
        invariant
            i <= fs@.len(),
            feeder_for(fs@, part@) == feeder_for(fs@.subrange(i as int, fs@.len() as int), part@),
        decreases fs@.len() - i,
    {
        let ghost rest = fs@.subrange(i as int, fs@.len() as int);
        assert(rest.drop_first() =~= fs@.subrange(i + 1, fs@.len() as int));
        if fs[i].enabled && fs[i].part_id == *part {
            return Some(fs[i].id.clone());
        }
        i += 1;
    }
    None
}

fn resolve_one(b: &PlanBoard, i: usize, cfg: &PlanConfig) -> (r: Option<ResolvedPlacement>)
    requires
        i < b.placements@.len(),
        b.placements@[i as int].enabled ==> i < b.states@.len(),
    ensures
        match r {
            Some(x) => resolve_at(*b, i as int, *cfg) == Some(x@),
            None => resolve_at(*b, i as int, *cfg) is None,
        },
{
    let p = &b.placements[i];
    if !p.enabled {
        return None;
    }
    match &b.states[i] {
        PlacementState::Pending => {},
        _ => {
            return None;
        },
    }
    let pkg = match find_package(&cfg.parts, &p.part_id) {
        Some(x) => x,
        None => return None,
    };
    let tips = match find_tips(&cfg.packages, &pkg) {
        Some(x) => x,
        None => return None,
    };
    let feeder = match find_feeder(&cfg.feeders, &p.part_id) {
        Some(x) => x,
        None => return None,
    };
    let tips = if tips.len() == 0 {
        copy_strings(&cfg.nozzle_tips)
    } else {
        tips
    };
    Some(
        ResolvedPlacement {
            board_idx: b.board_idx,
            placement_idx: i,
            part_id: p.part_id.clone(),
            feeder_id: feeder,
            tips,
            key: p.key,
        },
    )
}

/// Placement states cover every enabled placement.
pub open spec fn states_cover(boards: Seq<PlanBoard>) -> bool {
    forall|b: int, i: int|
        0 <= b < boards.len() && 0 <= i < boards[b].placements@.len()
            && boards[b].placements@[i].enabled ==> i < boards[b].states@.len()
}

/// Every placement's position key has a row and a column in the table.
pub open spec fn keys_covered(boards: Seq<PlanBoard>, d: Seq<Seq<u64>>) -> bool {
    &&& forall|b: int, i: int|
        0 <= b < boards.len() && 0 <= i < boards[b].placements@.len() ==> boards[b].placements@[i].key
            < d.len()
    &&& forall|r: int| 0 <= r < d.len() ==> #[trigger] d[r].len() == d.len()
}

fn resolve_placements(boards: &[PlanBoard], cfg: &PlanConfig, Ghost(dlen): Ghost<nat>) -> (r: Vec<ResolvedPlacement>)
    requires
        states_cover(boards@),
        forall|b: int, i: int|
            0 <= b < boards@.len() && 0 <= i < boards@[b].placements@.len() ==> boards@[b].placements@[i].key
                < dlen,
    ensures
        rviews(r@) == resolve_all(boards@, *cfg, boards@.len() as int),
        forall|k: int| 0 <= k < r@.len() ==> (#[trigger] r@[k]).key < dlen,
{
    let mut out: Vec<ResolvedPlacement> = Vec::new();
    let mut bi: usize = 0;
    assert(rviews(out@) =~= Seq::<Resolved>::empty());
    while bi < boards.len()
        invariant
            bi <= boards@.len(),
            states_cover(boards@),
            forall|b: int, i: int|
                0 <= b < boards@.len() && 0 <= i < boards@[b].placements@.len() ==> boards@[b].placements@[i].key
                    < dlen,
            rviews(out@) == resolve_all(boards@, *cfg, bi as int),
            forall|k: int| 0 <= k < out@.len() ==> (#[trigger] out@[k]).key < dlen,
        decreases boards@.len() - bi,
    {
        let b = &boards[bi];
        let mut pi: usize = 0;
        while pi < b.placements.len()
            invariant
                bi < boards@.len(),
                *b == boards@[bi as int],
                pi <= b.placements@.len(),
                states_cover(boards@),
                forall|b: int, i: int|
                    0 <= b < boards@.len() && 0 <= i < boards@[b].placements@.len() ==> boards@[b].placements@[i].key
                        < dlen,
                forall|k: int| 0 <= k < out@.len() ==> (#[trigger] out@[k]).key < dlen,
                rviews(out@) == resolve_all(boards@, *cfg, bi as int) + resolve_board(
                    *b,
                    *cfg,
                    pi as int,
                ),
            decreases b.placements@.len() - pi,
        {
            let ghost o0 = out@;
            match resolve_one(b, pi, cfg) {
                Some(x) => {
                    let ghost xv = x@;
                    assert(x.key == b.placements@[pi as int].key);
                    out.push(x);
                    assert(rviews(out@) =~= rviews(o0).push(xv));
                },
                None => {},
            }
            pi += 1;
            assert(rviews(out@) =~= resolve_all(boards@, *cfg, bi as int) + resolve_board(
                *b,
                *cfg,
                pi as int,
            ));
        }
        bi += 1;
    }
    out
}


spec fn pviews(v: Seq<(usize, String)>) -> Seq<(nat, Seq<char>)> {
    v.map_values(|p: (usize, String)| (p.0 as nat, p.1@))
}

fn tip_pairs(rs: &Vec<ResolvedPlacement>) -> (r: Vec<(usize, String)>)
    ensures
        pviews(r@) == pairs_upto(rviews(rs@), rs@.len() as int),
        forall|k: int| 0 <= k < r@.len() ==> (#[trigger] r@[k]).0 < rs@.len(),
{
    let mut out: Vec<(usize, String)> = Vec::new();
    let mut i: usize = 0;
    assert(pviews(out@) =~= Seq::<(nat, Seq<char>)>::empty());
    while i < rs.len()
        invariant
            i <= rs@.len(),
            pviews(out@) == pairs_upto(rviews(rs@), i as int),
            forall|k: int| 0 <= k < out@.len() ==> (#[trigger] out@[k]).0 < rs@.len(),
        decreases rs@.len() - i,
    {
        let r = &rs[i];
        let ghost base = pviews(out@);
        let ghost rv = rviews(rs@);
        assert(rv[i as int] == r@);
        let mut j: usize = 0;
        while j < r.tips.len()
            invariant
                i < rs@.len(),
                *r == rs@[i as int],
                rv == rviews(rs@),
                rv[i as int] == r@,
                j <= r.tips@.len(),
                base == pairs_upto(rv, i as int),
                pviews(out@) =~= base + Seq::new(j as nat, |q: int| (i as nat, rv[i as int].tips[q])),
                forall|k: int| 0 <= k < out@.len() ==> (#[trigger] out@[k]).0 < rs@.len(),
            decreases r.tips@.len() - j,
        {
            let ghost o0 = out@;
            out.push((i, r.tips[j].clone()));
            proof {
                assert(pviews(out@) =~= pviews(o0).push((i as nat, r.tips@[j as int]@)));
                assert(strs(r.tips@)[j as int] == r.tips@[j as int]@);
            }
            j += 1;
        }
        proof {
            assert(pviews(out@) =~= pairs_upto(rv, i + 1));
        }
        i += 1;
    }
    out
}

/// Tip groups as they are built.
struct TipGroup {
    tip: String,
    members: Vec<usize>,
}

spec fn nats(v: Seq<usize>) -> Seq<nat> {
    v.map_values(|u: usize| u as nat)
}

impl View for TipGroup {
    type V = Group;

    closed spec fn view(&self) -> Group {
        Group { tip: self.tip@, members: nats(self.members@) }
    }
}

spec fn gviews(v: Seq<TipGroup>) -> Seq<Group> {
    v.map_values(|g: TipGroup| g@)
}

pub proof fn lemma_group_index(gs: Seq<Group>, t: Seq<char>, i: int)
    requires
        0 <= i <= gs.len(),
        i < gs.len() ==> gs[i].tip == t,
        forall|k: int| 0 <= k < i ==> (#[trigger] gs[k]).tip != t,
    ensures
        group_index(gs, t) == if i < gs.len() {
            Some(i)
        } else {
            None::<int>
        },
    decreases gs.len(),
{
    if gs.len() > 0 && i > 0 {
        assert forall|k: int| 0 <= k < i - 1 implies (#[trigger] gs.drop_first()[k]).tip != t by {
            assert(gs.drop_first()[k] == gs[k + 1]);
        }
        lemma_group_index(gs.drop_first(), t, i - 1);
    }
}

/// Groups whose members are all indices of resolved placements.
spec fn members_below(gs: Seq<TipGroup>, n: nat) -> bool {
    forall|g: int, k: int|
        0 <= g < gs.len() && 0 <= k < gs[g].members@.len() ==> #[trigger] gs[g].members@[k] < n
}

fn add_pair_exec(groups: &mut Vec<TipGroup>, idx: usize, tip: &String, Ghost(n): Ghost<nat>)
    requires
        idx < n,
        members_below(old(groups)@, n),
    ensures
        gviews(final(groups)@) == add_pair(gviews(old(groups)@), (idx as nat, tip@)),
        members_below(final(groups)@, n),
{
    let ghost g0 = gviews(groups@);
    let mut j: usize = 0;
    while j < groups.len()
        invariant
            j <= groups@.len(),
            groups@ == old(groups)@,
            g0 == gviews(groups@),
            forall|k: int| 0 <= k < j ==> (#[trigger] g0[k]).tip != tip@,
        ensures
            j <= groups@.len(),
            groups@ == old(groups)@,
            g0 == gviews(groups@),
            forall|k: int| 0 <= k < j ==> (#[trigger] g0[k]).tip != tip@,
            j < groups@.len() ==> groups@[j as int].tip@ == tip@,
        decreases groups@.len() - j,
    {
        if groups[j].tip == *tip {
            break;
        }
        assert(g0[j as int] == groups@[j as int]@);
        j += 1;
    }
    proof {
        if j < groups@.len() {
            assert(g0[j as int] == groups@[j as int]@);
        }
        lemma_group_index(g0, tip@, j as int);
    }
    if j < groups.len() {
        let mut g = groups.remove(j);
        let ghost gm = g.members@;
        assert(g@ == g0[j as int]);
        g.members.push(idx);
        let ghost gv = g@;
        assert(nats(g.members@) =~= nats(gm).push(idx as nat));
        groups.insert(j, g);
        proof {
            assert(groups@ =~= old(groups)@.update(j as int, groups@[j as int]));
            assert(gviews(groups@) =~= g0.update(
                j as int,
                Group { tip: tip@, members: g0[j as int].members.push(idx as nat) },
            ));
            assert forall|a: int, k: int|
                0 <= a < groups@.len() && 0 <= k < groups@[a].members@.len() implies #[trigger] groups@[a].members@[k]
                < n by {
                if a == j {
                    if k < gm.len() {
                        assert(groups@[a].members@[k] == old(groups)@[a].members@[k]);
                    }
                } else {
                    assert(groups@[a] == old(groups)@[a]);
                }
            }
        }
    } else {
        let mut m: Vec<usize> = Vec::new();
        m.push(idx);
        let g = TipGroup { tip: tip.clone(), members: m };
        assert(nats(g.members@) =~= seq![idx as nat]);
        groups.push(g);
        proof {
            assert(gviews(groups@) =~= g0.push(Group { tip: tip@, members: seq![idx as nat] }));
            assert forall|a: int, k: int|
                0 <= a < groups@.len() && 0 <= k < groups@[a].members@.len() implies #[trigger] groups@[a].members@[k]
                < n by {
                if a < old(groups)@.len() {
                    assert(groups@[a] == old(groups)@[a]);
                }
            }
        }
    }
}

fn build_groups(pairs: &Vec<(usize, String)>, Ghost(n): Ghost<nat>) -> (gs: Vec<TipGroup>)
    requires
        forall|k: int| 0 <= k < pairs@.len() ==> (#[trigger] pairs@[k]).0 < n,
    ensures
        gviews(gs@) == groups_upto(pviews(pairs@), pairs@.len() as int),
        members_below(gs@, n),
{
    let mut gs: Vec<TipGroup> = Vec::new();
    let mut k: usize = 0;
    assert(gviews(gs@) =~= Seq::<Group>::empty());
    while k < pairs.len()
        invariant
            k <= pairs@.len(),
            forall|q: int| 0 <= q < pairs@.len() ==> (#[trigger] pairs@[q]).0 < n,
            gviews(gs@) == groups_upto(pviews(pairs@), k as int),
            members_below(gs@, n),
        decreases pairs@.len() - k,
    {
        assert(pviews(pairs@)[k as int] == (pairs@[k as int].0 as nat, pairs@[k as int].1@));
        add_pair_exec(&mut gs, pairs[k].0, &pairs[k].1, Ghost(n));
        k += 1;
    }
    gs
}


fn group_weight(rs: &Vec<ResolvedPlacement>, g: &TipGroup) -> (w: u128)
    requires
        forall|k: int| 0 <= k < g.members@.len() ==> #[trigger] g.members@[k] < rs@.len(),
    ensures
        w == weight(rviews(rs@), g@),
{
    let ghost rv = rviews(rs@);
    let ghost ms = nats(g.members@);
    let mut w: u128 = 0;
    let mut k: usize = 0;
    while k < g.members.len()
        invariant
            k <= g.members@.len(),
            rv == rviews(rs@),
            ms == nats(g.members@),
            forall|q: int| 0 <= q < g.members@.len() ==> #[trigger] g.members@[q] < rs@.len(),
            w == weight_upto(rv, ms, k as int),
            w <= k * 0xFFFF_FFFF_FFFF_FFFFu128,
        decreases g.members@.len() - k,
    {
        let m = g.members[k];
        let t = rs[m].tips.len();
        assert(rv[m as int].tips.len() == t);
        assert(ms[k as int] == m);
        w = w + t as u128;
        k += 1;
    }
    w
}

/// Position at which `g` is inserted among the sorted groups.
pub proof fn lemma_insert_group(rs: Seq<Resolved>, s: Seq<Group>, g: Group, p: int)
    requires
        0 <= p <= s.len(),
        p < s.len() ==> goes_before(rs, g, s[p]),
        forall|k: int| 0 <= k < p ==> !goes_before(rs, g, #[trigger] s[k]),
    ensures
        insert_group(rs, s, g) == s.insert(p, g),
    decreases s.len(),
{
    if s.len() == 0 {
        assert(s.insert(p, g) =~= seq![g]);
    } else if p == 0 {
        assert(s.insert(0, g) =~= seq![g] + s);
    } else {
        assert(!goes_before(rs, g, s[0]));
        assert forall|k: int| 0 <= k < p - 1 implies !goes_before(rs, g, #[trigger] s.drop_first()[k]) by {
            assert(s.drop_first()[k] == s[k + 1]);
        }
        lemma_insert_group(rs, s.drop_first(), g, p - 1);
        assert(seq![s[0]] + s.drop_first().insert(p - 1, g) =~= s.insert(p, g));
    }
}

spec fn ordered(order: Seq<usize>, gs: Seq<Group>) -> Seq<Group> {
    order.map_values(|i: usize| gs[i as int])
}

fn sort_order(rs: &Vec<ResolvedPlacement>, groups: &Vec<TipGroup>, weights: &Vec<u128>) -> (order: Vec<usize>)
    requires
        weights@.len() == groups@.len(),
        forall|i: int| 0 <= i < groups@.len() ==> #[trigger] weights@[i] == weight(rviews(rs@), groups@[i]@),
    ensures
        ordered(order@, gviews(groups@)) == sort_groups(rviews(rs@), gviews(groups@), groups@.len() as int),
        forall|k: int| 0 <= k < order@.len() ==> #[trigger] order@[k] < groups@.len(),
{
    let ghost rv = rviews(rs@);
    let ghost gs = gviews(groups@);
    let mut order: Vec<usize> = Vec::new();
    let mut gi: usize = 0;
    assert(ordered(order@, gs) =~= Seq::<Group>::empty());
    while gi < groups.len()
        invariant
            gi <= groups@.len(),
            rv == rviews(rs@),
            gs == gviews(groups@),
            weights@.len() == groups@.len(),
            forall|i: int| 0 <= i < groups@.len() ==> #[trigger] weights@[i] == weight(rv, groups@[i]@),
            ordered(order@, gs) == sort_groups(rv, gs, gi as int),
            forall|k: int| 0 <= k < order@.len() ==> #[trigger] order@[k] < groups@.len(),
        decreases groups@.len() - gi,
    {
        let ghost s = ordered(order@, gs);
        let g_len = groups[gi].members.len();
        let g_w = weights[gi];
        assert(gs[gi as int] == groups@[gi as int]@);
        assert(gs[gi as int].members.len() == g_len);
        let mut p: usize = 0;
        while p < order.len()
            invariant
                p <= order@.len(),
                s == ordered(order@, gs),
                rv == rviews(rs@),
                gs == gviews(groups@),
                gi < groups@.len(),
                weights@.len() == groups@.len(),
                forall|i: int| 0 <= i < groups@.len() ==> #[trigger] weights@[i] == weight(rv, groups@[i]@),
                forall|k: int| 0 <= k < order@.len() ==> #[trigger] order@[k] < groups@.len(),
                g_len == gs[gi as int].members.len(),
                g_w == weight(rv, gs[gi as int]),
                forall|k: int| 0 <= k < p ==> !goes_before(rv, gs[gi as int], #[trigger] s[k]),
            ensures
                p <= order@.len(),
                forall|k: int| 0 <= k < p ==> !goes_before(rv, gs[gi as int], #[trigger] s[k]),
                p < order@.len() ==> goes_before(rv, gs[gi as int], s[p as int]),
            decreases order@.len() - p,
        {
            let o = order[p];
            let o_len = groups[o].members.len();
            let o_w = weights[o];
            assert(gs[o as int] == groups@[o as int]@);
            assert(s[p as int] == gs[o as int]);
            if g_len > o_len || (g_len == o_len && g_w < o_w) {
                break;
            }
            p += 1;
        }
        proof {
            lemma_insert_group(rv, s, gs[gi as int], p as int);
        }
        order.insert(p, gi);
        proof {
            assert(ordered(order@, gs) =~= s.insert(p as int, gs[gi as int]));
        }
        gi += 1;
    }
    order
}


fn unplaced_exec(members: &Vec<usize>, placed: &Vec<bool>) -> (r: Vec<usize>)
    requires
        forall|k: int| 0 <= k < members@.len() ==> #[trigger] members@[k] < placed@.len(),
    ensures
        nats(r@) == unplaced(nats(members@), placed@),
        forall|k: int| 0 <= k < r@.len() ==> #[trigger] r@[k] < placed@.len(),
{
    let mut r: Vec<usize> = Vec::new();
    let mut i: usize = 0;
    assert(nats(r@) =~= Seq::<nat>::empty());
    assert(nats(members@).subrange(0, 0) =~= Seq::<nat>::empty());
    while i < members.len()
        invariant
            i <= members@.len(),
            forall|k: int| 0 <= k < members@.len() ==> #[trigger] members@[k] < placed@.len(),
            nats(r@) == unplaced(nats(members@).subrange(0, i as int), placed@),
            forall|k: int| 0 <= k < r@.len() ==> #[trigger] r@[k] < placed@.len(),
        decreases members@.len() - i,
    {
        let m = members[i];
        let ghost pre = nats(members@).subrange(0, i + 1);
        assert(pre.drop_last() =~= nats(members@).subrange(0, i as int));
        assert(pre.last() == m as nat);
        if !placed[m] {
            let ghost r0 = r@;
            r.push(m);
            assert(nats(r@) =~= nats(r0).push(m as nat));
        }
        i += 1;
    }
    assert(nats(members@).subrange(0, members@.len() as int) =~= nats(members@));
    r
}

fn mark_exec(placed: &mut Vec<bool>, ms: &Vec<usize>)
    requires
        forall|k: int| 0 <= k < ms@.len() ==> #[trigger] ms@[k] < old(placed)@.len(),
    ensures
        final(placed)@ == mark(old(placed)@, nats(ms@)),
        final(placed)@.len() == old(placed)@.len(),
{
    let mut i: usize = 0;
    assert(nats(ms@).subrange(0, 0) =~= Seq::<nat>::empty());
    while i < ms.len()
        invariant
            i <= ms@.len(),
            placed@.len() == old(placed)@.len(),
            forall|k: int| 0 <= k < ms@.len() ==> #[trigger] ms@[k] < old(placed)@.len(),
            placed@ == mark(old(placed)@, nats(ms@).subrange(0, i as int)),
        decreases ms@.len() - i,
    {
        let m = ms[i];
        let ghost pre = nats(ms@).subrange(0, i + 1);
        assert(pre.drop_last() =~= nats(ms@).subrange(0, i as int));
        assert(pre.last() == m as nat);
        placed.set(m, true);
        i += 1;
    }
    assert(nats(ms@).subrange(0, ms@.len() as int) =~= nats(ms@));
}

/// The distance table as spec values.
pub open spec fn table(d: &Distances) -> Seq<Seq<u64>> {
    d.table.deep_view()
}

pub open spec fn table_ok(d: Seq<Seq<u64>>) -> bool {
    forall|r: int| 0 <= r < d.len() ==> #[trigger] d[r].len() == d.len()
}

fn nearest_exec(rest: &Vec<usize>, k1: usize, rs: &Vec<ResolvedPlacement>, d: &Distances) -> (p: usize)
    requires
        rest@.len() >= 1,
        k1 < table(d).len(),
        table_ok(table(d)),
        forall|k: int| 0 <= k < rest@.len() ==> #[trigger] rest@[k] < rs@.len(),
        forall|k: int| 0 <= k < rs@.len() ==> (#[trigger] rs@[k]).key < table(d).len(),
    ensures
        p == nearest_upto(nats(rest@), rest@.len() as int, k1 as nat, rviews(rs@), table(d)),
        p < rest@.len(),
{
    let ghost rv = rviews(rs@);
    let ghost dv = table(d);
    let mut best: usize = 0;
    let mut i: usize = 1;
    assert(d.table@[k1 as int]@.len() == dv[k1 as int].len());
    while i < rest.len()
        invariant
            1 <= i <= rest@.len(),
            best < i,
            rv == rviews(rs@),
            dv == table(d),
            k1 < dv.len(),
            table_ok(dv),
            forall|k: int| 0 <= k < rest@.len() ==> #[trigger] rest@[k] < rs@.len(),
            forall|k: int| 0 <= k < rs@.len() ==> (#[trigger] rs@[k]).key < dv.len(),
            best == nearest_upto(nats(rest@), i as int, k1 as nat, rv, dv),
        decreases rest@.len() - i,
    {
        let row = &d.table[k1];
        assert(row@ == dv[k1 as int]);
        let ki = rs[rest[i]].key;
        let kb = rs[rest[best]].key;
        assert(rv[rest@[i as int] as int].key == ki);
        assert(rv[rest@[best as int] as int].key == kb);
        assert(nats(rest@)[i as int] == rest@[i as int] as nat);
        assert(nats(rest@)[best as int] == rest@[best as int] as nat);
        if row[ki] < row[kb] {
            best = i;
        }
        i += 1;
    }
    best
}

fn make_assignment(nozzle: NozzleId, tip: &String, r: &ResolvedPlacement) -> (a: NozzleAssignment)
    ensures
        a@ == assign(nozzle, tip@, r@),
{
    NozzleAssignment {
        nozzle,
        tip_id: tip.clone(),
        feeder_id: r.feeder_id.clone(),
        part_id: r.part_id.clone(),
        board_idx: r.board_idx,
        placement_idx: r.placement_idx,
    }
}

spec fn aviews(v: Seq<NozzleAssignment>) -> Seq<AssignmentView> {
    v.map_values(|a: NozzleAssignment| a@)
}

fn copy_assignments(v: &Vec<NozzleAssignment>) -> (r: Vec<NozzleAssignment>)
    ensures
        aviews(r@) == aviews(v@),
{
    let mut r: Vec<NozzleAssignment> = Vec::new();
    let mut i: usize = 0;
    while i < v.len()
        invariant
            i <= v@.len(),
            aviews(r@) =~= aviews(v@.subrange(0, i as int)),
        decreases v@.len() - i,
    {
        let a = &v[i];
        let c = NozzleAssignment {
            nozzle: a.nozzle,
            tip_id: a.tip_id.clone(),
            feeder_id: a.feeder_id.clone(),
            part_id: a.part_id.clone(),
            board_idx: a.board_idx,
            placement_idx: a.placement_idx,
        };
        let ghost r0 = r@;
        r.push(c);
        proof {
            assert(aviews(r@) =~= aviews(r0).push(v@[i as int]@));
            assert(aviews(v@.subrange(0, i + 1)) =~= aviews(v@.subrange(0, i as int)).push(
                v@[i as int]@,
            ));
        }
        i += 1;
    }
    assert(v@.subrange(0, v@.len() as int) =~= v@);
    r
}

fn push_cycle(steps: &mut Vec<JobStep>, batch: Vec<NozzleAssignment>)
    ensures
        steps_view(final(steps)@) == steps_view(old(steps)@) + cycle_steps(aviews(batch@)),
{
    let pick = copy_assignments(&batch);
    let align = copy_assignments(&batch);
    let ghost s0 = steps@;
    steps.push(JobStep::PickBatch(pick));
    steps.push(JobStep::AlignBatch(align));
    steps.push(JobStep::PlaceBatch(batch));
    assert(steps_view(steps@) =~= steps_view(s0) + cycle_steps(aviews(batch@)));
}

fn push_cycles(
    steps: &mut Vec<JobStep>,
    pending: Vec<usize>,
    tip: &String,
    rs: &Vec<ResolvedPlacement>,
    d: &Distances,
)
    requires
        table_ok(table(d)),
        forall|k: int| 0 <= k < pending@.len() ==> #[trigger] pending@[k] < rs@.len(),
        forall|k: int| 0 <= k < rs@.len() ==> (#[trigger] rs@[k]).key < table(d).len(),
    ensures
        steps_view(final(steps)@) == steps_view(old(steps)@) + cycles(
            nats(pending@),
            tip@,
            rviews(rs@),
            table(d),
        ),
{
    let ghost rv = rviews(rs@);
    let ghost dv = table(d);
    let ghost target = steps_view(steps@) + cycles(nats(pending@), tip@, rv, dv);
    let mut rem = pending;
    while rem.len() > 0
        invariant
            rv == rviews(rs@),
            dv == table(d),
            table_ok(dv),
            forall|k: int| 0 <= k < rem@.len() ==> #[trigger] rem@[k] < rs@.len(),
            forall|k: int| 0 <= k < rs@.len() ==> (#[trigger] rs@[k]).key < dv.len(),
            target == steps_view(steps@) + cycles(nats(rem@), tip@, rv, dv),
        decreases rem@.len(),
    {
        let ghost r0 = rem@;
        let n1 = rem.remove(0);
        assert(nats(r0)[0] == n1 as nat);
        assert(nats(rem@) =~= nats(r0).drop_first());
        assert(rv[n1 as int] == rs@[n1 as int]@);
        let mut batch: Vec<NozzleAssignment> = Vec::new();
        batch.push(make_assignment(NozzleId::N1, tip, &rs[n1]));
        if rem.len() > 0 {
            let k1 = rs[n1].key;
            let p = nearest_exec(&rem, k1, rs, d);
            let ghost r1 = rem@;
            let n2 = rem.remove(p);
            assert(nats(r1)[p as int] == n2 as nat);
            assert(nats(rem@) =~= nats(r1).remove(p as int));
            assert(rv[n2 as int] == rs@[n2 as int]@);
            batch.push(make_assignment(NozzleId::N2, tip, &rs[n2]));
            let ghost bv = aviews(batch@);
            assert(bv =~= seq![
                assign(NozzleId::N1, tip@, rv[n1 as int]),
                assign(NozzleId::N2, tip@, rv[n2 as int]),
            ]);
            push_cycle(steps, batch);
        } else {
            let ghost bv = aviews(batch@);
            assert(bv =~= seq![assign(NozzleId::N1, tip@, rv[n1 as int])]);
            push_cycle(steps, batch);
        }
    }
    assert(cycles(nats(rem@), tip@, rv, dv) =~= Seq::<StepView>::empty());
    assert(steps_view(steps@) + Seq::<StepView>::empty() =~= steps_view(steps@));
}


spec fn tcviews(v: Seq<TipChange>) -> Seq<TipChangeView> {
    v.map_values(|c: TipChange| c@)
}

fn copy_opt(o: &Option<String>) -> (r: Option<String>)
    ensures
        opt_view(r) == opt_view(*o),
{
    match o {
        Some(s) => Some(s.clone()),
        None => None,
    }
}

fn tip_change_steps(tip: &String, n1: &Option<String>, n2: &Option<String>) -> (v: Vec<TipChange>)
    ensures
        tcviews(v@) == tip_changes(tip@, opt_view(*n1), opt_view(*n2)),
{
    let need1 = match n1 {
        Some(t) => *t != *tip,
        None => true,
    };
    let need2 = match n2 {
        Some(t) => *t != *tip,
        None => true,
    };
    let mut v: Vec<TipChange> = Vec::new();
    if need1 {
        v.push(TipChange { nozzle: NozzleId::N1, from_tip: copy_opt(n1), to_tip: tip.clone() });
    }
    let ghost v1 = v@;
    if need2 {
        v.push(TipChange { nozzle: NozzleId::N2, from_tip: copy_opt(n2), to_tip: tip.clone() });
    }
    assert(tcviews(v@) =~= tip_changes(tip@, opt_view(*n1), opt_view(*n2)));
    v
}

pub open spec fn str_opt(o: Option<&str>) -> Option<Seq<char>> {
    match o {
        Some(s) => Some(s@),
        None => None,
    }
}

/// Plan the execution order for all pending placements.
pub fn plan_job(
    boards: &[PlanBoard],
    config: &PlanConfig,
    current_n1_tip: Option<&str>,
    current_n2_tip: Option<&str>,
    dist: &Distances,
) -> (plan: JobPlan)
    requires
        states_cover(boards@),
        keys_covered(boards@, table(dist)),
    ensures
        steps_view(plan.steps@) == spec_plan(
            boards@,
            *config,
            str_opt(current_n1_tip),
            str_opt(current_n2_tip),
            table(dist),
        ),
{
    let ghost dv = table(dist);
    let rs = resolve_placements(boards, config, Ghost(dv.len()));
    let ghost rv = rviews(rs@);
    let pairs = tip_pairs(&rs);
    let groups = build_groups(&pairs, Ghost(rs@.len() as nat));
    let ghost gs = gviews(groups@);
    let mut weights: Vec<u128> = Vec::new();
    let mut w: usize = 0;
    while w < groups.len()
        invariant
            w <= groups@.len(),
            members_below(groups@, rs@.len() as nat),
            weights@.len() == w,
            forall|i: int| 0 <= i < w ==> #[trigger] weights@[i] == weight(rviews(rs@), groups@[i]@),
        decreases groups@.len() - w,
    {
        weights.push(group_weight(&rs, &groups[w]));
        w += 1;
    }
    let order = sort_order(&rs, &groups, &weights);
    let ghost sorted = ordered(order@, gs);
    let mut placed: Vec<bool> = vec![false; rs.len()];
    assert(placed@ =~= Seq::new(rs@.len(), |i: int| false));
    let mut n1: Option<String> = match current_n1_tip {
        Some(t) => Some(t.to_string()),
        None => None,
    };
    let mut n2: Option<String> = match current_n2_tip {
        Some(t) => Some(t.to_string()),
        None => None,
    };
    let mut steps: Vec<JobStep> = Vec::new();
    let ghost target = spec_plan(
        boards@,
        *config,
        str_opt(current_n1_tip),
        str_opt(current_n2_tip),
        dv,
    );
    assert(steps_view(steps@) =~= Seq::<StepView>::empty());
    assert(target == Seq::<StepView>::empty() + schedule(
        sorted,
        0,
        placed@,
        opt_view(n1),
        opt_view(n2),
        rv,
        dv,
    ));
    let mut pos: usize = 0;
    while pos < order.len()
        invariant
            pos <= order@.len(),
            dv == table(dist),
            table_ok(dv),
            rv == rviews(rs@),
            gs == gviews(groups@),
            sorted == ordered(order@, gs),
            sorted.len() == order@.len(),
            members_below(groups@, rs@.len() as nat),
            forall|k: int| 0 <= k < order@.len() ==> #[trigger] order@[k] < groups@.len(),
            forall|k: int| 0 <= k < rs@.len() ==> (#[trigger] rs@[k]).key < dv.len(),
            placed@.len() == rs@.len(),
            target == steps_view(steps@) + schedule(
                sorted,
                pos as int,
                placed@,
                opt_view(n1),
                opt_view(n2),
                rv,
                dv,
            ),
        decreases order@.len() - pos,
    {
        let g = &groups[order[pos]];
        assert(sorted[pos as int] == g@);
        assert forall|k: int| 0 <= k < g.members@.len() implies #[trigger] g.members@[k] < placed@.len() by {
            assert(groups@[order@[pos as int] as int].members@[k] < rs@.len());
        }
        let pending = unplaced_exec(&g.members, &placed);
        if pending.len() == 0 {
            pos += 1;
            continue;
        }
        let changes = tip_change_steps(&g.tip, &n1, &n2);
        let ghost s0 = steps_view(steps@);
        if changes.len() > 0 {
            let ghost cv = tcviews(changes@);
            steps.push(JobStep::ChangeTips(changes));
            assert(steps_view(steps@) =~= s0.push(StepView::ChangeTips(cv)));
        }
        let marks = pending.clone();
        assert(marks@ =~= pending@);
        let ghost pv = nats(pending@);
        push_cycles(&mut steps, pending, &g.tip, &rs, dist);
        mark_exec(&mut placed, &marks);
        n1 = Some(g.tip.clone());
        n2 = Some(g.tip.clone());
        pos += 1;
    }
    assert(steps_view(steps@) + Seq::<StepView>::empty() =~= steps_view(steps@));
    JobPlan { steps }
}

} // verus!
