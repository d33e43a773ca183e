//! The moves that load and unload a nozzle tip at its changer slot.
//!
//! A slot has four waypoints. Loading goes down at the first, then through the
//! second, third and last; unloading goes down at the last and back to the
//! first. Each stretch between two neighbouring waypoints has a speed of its
//! own, and a command may follow the arrival at each of the first three
//! waypoints.

use vstd::prelude::*;

use crate::job::types::opt_view;

verus! {

/// A waypoint of a changer slot.
#[derive(Debug, Clone, Copy, PartialEq, Eq, Structural)]
pub enum Waypoint {
    First,
    Second,
    Third,
    Last,
}

/// The feed rate of a move: the full feed rate, or the full feed rate scaled
/// by the factor of a stretch.
#[derive(Debug, Clone, Copy, PartialEq, Eq, Structural)]
pub enum Speed {
    Full,
    OneToTwo,
    TwoToThree,
    ThreeToFour,
}

/// One move of a tip change, or a command to send.
#[derive(Debug, Clone)]
pub enum ChangerMove {
    /// Raise Z to the safe height at full speed.
    SafeZ,
    /// Move X and Y to the waypoint at full speed.
    Xy(Waypoint),
    /// Move Z to the waypoint's height at full speed.
    Z(Waypoint),
    /// Move X, Y and Z to the waypoint at the speed.
    Xyz(Waypoint, Speed),
    /// Send the command.
    Send(String),
}

pub enum MoveView {
    SafeZ,
    Xy(Waypoint),
    Z(Waypoint),
    Xyz(Waypoint, Speed),
    Send(Seq<char>),
}

impl View for ChangerMove {
    type V = MoveView;

    open spec fn view(&self) -> MoveView {
        match self {
            ChangerMove::SafeZ => MoveView::SafeZ,
            ChangerMove::Xy(w) => MoveView::Xy(*w),
            ChangerMove::Z(w) => MoveView::Z(*w),
            ChangerMove::Xyz(w, s) => MoveView::Xyz(*w, *s),
            ChangerMove::Send(c) => MoveView::Send(c@),
        }
    }
}

pub open spec fn mviews(v: Seq<ChangerMove>) -> Seq<MoveView> {
    v.map_values(|m: ChangerMove| m@)
}

/// The command that follows a waypoint, when it is set and not empty.
pub open spec fn post_step(p: Option<Seq<char>>) -> Seq<MoveView> {
    match p {
        Some(c) => if c.len() > 0 {
            seq![MoveView::Send(c)]
        } else {
            seq![]
        },
        None => seq![],
    }
}

/// Loading a tip: safe Z, over the first waypoint, down to it, then through
/// the second, third and last waypoints, and back to safe Z.
pub open spec fn spec_load(p1: Option<Seq<char>>, p2: Option<Seq<char>>, p3: Option<Seq<char>>) -> Seq<
    MoveView,
> {
    seq![MoveView::SafeZ, MoveView::Xy(Waypoint::First), MoveView::Z(Waypoint::First)] + post_step(
        p1,
    ) + seq![MoveView::Xyz(Waypoint::Second, Speed::OneToTwo)] + post_step(p2) + seq![
        MoveView::Xyz(Waypoint::Third, Speed::TwoToThree),
    ] + post_step(p3) + seq![MoveView::Xyz(Waypoint::Last, Speed::ThreeToFour), MoveView::SafeZ]
}

/// Unloading a tip: safe Z, over the last waypoint, down to it, then through
/// the third, second and first waypoints, and back to safe Z.
pub open spec fn spec_unload(p1: Option<Seq<char>>, p2: Option<Seq<char>>, p3: Option<Seq<char>>) -> Seq<
    MoveView,
> {
    seq![
        MoveView::SafeZ,
        MoveView::Xy(Waypoint::Last),
        MoveView::Z(Waypoint::Last),
        MoveView::Xyz(Waypoint::Third, Speed::ThreeToFour),
    ] + post_step(p3) + seq![MoveView::Xyz(Waypoint::Second, Speed::TwoToThree)] + post_step(p2)
        + seq![MoveView::Xyz(Waypoint::First, Speed::OneToTwo)] + post_step(p1) + seq![
        MoveView::SafeZ,
    ]
}

pub open spec fn opt_str(p: Option<&str>) -> Option<Seq<char>> {
    match p {
        Some(s) => Some(s@),
        None => None,
    }
}

fn push_post_step(v: &mut Vec<ChangerMove>, p: Option<&str>)
    ensures
        mviews(final(v)@) == mviews(old(v)@) + post_step(opt_str(p)),
{
    let ghost v0 = v@;
    match p {
        Some(c) => {
            if c.unicode_len() > 0 {
                v.push(ChangerMove::Send(c.to_string()));
                assert(mviews(v@) =~= mviews(v0) + post_step(opt_str(p)));
            } else {
                assert(mviews(v@) =~= mviews(v0) + post_step(opt_str(p)));
            }
        },
        None => {
            assert(mviews(v@) =~= mviews(v0) + post_step(opt_str(p)));
        },
    }
}

fn push_move(v: &mut Vec<ChangerMove>, m: ChangerMove)
    ensures
        mviews(final(v)@) == mviews(old(v)@).push(m@),
{
    let ghost v0 = v@;
    v.push(m);
    assert(mviews(v@) =~= mviews(v0).push(v@.last()@));
}

/// The moves that load a tip whose slot has the commands `post1`, `post2`
/// and `post3` after its first three waypoints.
pub fn load_sequence(post1: Option<&str>, post2: Option<&str>, post3: Option<&str>) -> (r: Vec<
    ChangerMove,
>)
    ensures
        mviews(r@) == spec_load(opt_str(post1), opt_str(post2), opt_str(post3)),
{
    let mut v: Vec<ChangerMove> = Vec::new();
    push_move(&mut v, ChangerMove::SafeZ);
    push_move(&mut v, ChangerMove::Xy(Waypoint::First));
    push_move(&mut v, ChangerMove::Z(Waypoint::First));
    push_post_step(&mut v, post1);
    push_move(&mut v, ChangerMove::Xyz(Waypoint::Second, Speed::OneToTwo));
    push_post_step(&mut v, post2);
    push_move(&mut v, ChangerMove::Xyz(Waypoint::Third, Speed::TwoToThree));
    push_post_step(&mut v, post3);
    push_move(&mut v, ChangerMove::Xyz(Waypoint::Last, Speed::ThreeToFour));
    push_move(&mut v, ChangerMove::SafeZ);
    assert(mviews(v@) =~= spec_load(opt_str(post1), opt_str(post2), opt_str(post3)));
    v
}

/// The moves that unload a tip whose slot has the commands `post1`, `post2`
/// and `post3` after its first three waypoints.
pub fn unload_sequence(post1: Option<&str>, post2: Option<&str>, post3: Option<&str>) -> (r: Vec<
    ChangerMove,
>)
    ensures
        mviews(r@) == spec_unload(opt_str(post1), opt_str(post2), opt_str(post3)),
{
    let mut v: Vec<ChangerMove> = Vec::new();
    push_move(&mut v, ChangerMove::SafeZ);
    push_move(&mut v, ChangerMove::Xy(Waypoint::Last));
    push_move(&mut v, ChangerMove::Z(Waypoint::Last));
    push_move(&mut v, ChangerMove::Xyz(Waypoint::Third, Speed::ThreeToFour));
    push_post_step(&mut v, post3);
    push_move(&mut v, ChangerMove::Xyz(Waypoint::Second, Speed::TwoToThree));
    push_post_step(&mut v, post2);
    push_move(&mut v, ChangerMove::Xyz(Waypoint::First, Speed::OneToTwo));
    push_post_step(&mut v, post1);
    push_move(&mut v, ChangerMove::SafeZ);
    assert(mviews(v@) =~= spec_unload(opt_str(post1), opt_str(post2), opt_str(post3)));
    v
}

/// The commands that a tip's changer slot sends after its first three
/// waypoints.
pub struct SlotCommands {
    pub post_step_1: Option<String>,
    pub post_step_2: Option<String>,
    pub post_step_3: Option<String>,
}

/// A nozzle tip of the configuration: its name and, when it has a changer
/// slot, the slot's commands.
pub struct TipSlot {
    pub name: String,
    pub changer: Option<SlotCommands>,
}

pub struct SlotView {
    pub name: Seq<char>,
    pub changer: Option<(Option<Seq<char>>, Option<Seq<char>>, Option<Seq<char>>)>,
}

impl View for TipSlot {
    type V = SlotView;

    open spec fn view(&self) -> SlotView {
        SlotView {
            name: self.name@,
            changer: match self.changer {
                Some(c) => Some((opt_view(c.post_step_1), opt_view(c.post_step_2), opt_view(c.post_step_3))),
                None => None,
            },
        }
    }
}

pub open spec fn slot_views(v: Seq<TipSlot>) -> Seq<SlotView> {
    v.map_values(|t: TipSlot| t@)
}

/// Why a tip cannot be changed.
#[derive(Debug, Clone, PartialEq, Eq)]
pub enum TipLookupError {
    /// No tip of that name is configured.
    TipNotFound(String),
    /// The tip has no changer slot.
    NoChangerConfig(String),
}

/// The first tip named `name` at or after `k`.
pub open spec fn named_from(tips: Seq<SlotView>, name: Seq<char>, k: int) -> Option<int>
    decreases tips.len() - k,
{
    if k < 0 || k >= tips.len() {
        None
    } else if tips[k].name == name {
        Some(k)
    } else {
        named_from(tips, name, k + 1)
    }
}

/// The moves that load (or unload) the tip `p`'s slot.
pub open spec fn slot_moves(c: (Option<Seq<char>>, Option<Seq<char>>, Option<Seq<char>>), load: bool) -> Seq<MoveView> {
    if load {
        spec_load(c.0, c.1, c.2)
    } else {
        spec_unload(c.0, c.1, c.2)
    }
}

fn text_of(p: &Option<String>) -> (r: Option<&str>)
    ensures
        opt_str(r) == opt_view(*p),
{
    match p {
        Some(s) => Some(s.as_str()),
        None => None,
    }
}

/// Looks up the tip `tip_name` and gives the index of its entry with the moves
/// that load it (`load`) or unload it: `TipNotFound` when no tip has that name,
/// `NoChangerConfig` when the first tip of that name has no changer slot.
pub fn tip_moves(tips: &Vec<TipSlot>, tip_name: &str, load: bool) -> (r: Result<
    (usize, Vec<ChangerMove>),
    TipLookupError,
>)
    ensures
        match r {
            Ok((k, m)) => named_from(slot_views(tips@), tip_name@, 0) == Some(k as int) && (
            slot_views(tips@)[k as int].changer matches Some(c) && mviews(m@) == slot_moves(c, load)),
            Err(TipLookupError::TipNotFound(n)) => n@ == tip_name@ && named_from(
                slot_views(tips@),
                tip_name@,
                0,
            ) is None,
            Err(TipLookupError::NoChangerConfig(n)) => n@ == tip_name@ && (named_from(
                slot_views(tips@),
                tip_name@,
                0,
            ) matches Some(k) && slot_views(tips@)[k].changer is None),
        },
{
    let name = tip_name.to_string();
    let ghost tv = slot_views(tips@);
    let mut k: usize = 0;
    while k < tips.len()
        invariant
            tv == slot_views(tips@),
            name@ == tip_name@,
            k <= tips@.len(),
            named_from(tv, tip_name@, 0) == named_from(tv, tip_name@, k as int),
        decreases tips@.len() - k,
    {
        if tips[k].name == name {
            assert(tv[k as int].name == tip_name@);
            return match &tips[k].changer {
                Some(c) => {
                    let p1 = text_of(&c.post_step_1);
                    let p2 = text_of(&c.post_step_2);
                    let p3 = text_of(&c.post_step_3);
                    let m = if load {
                        load_sequence(p1, p2, p3)
                    } else {
                        unload_sequence(p1, p2, p3)
                    };
                    Ok((k, m))
                },
                None => Err(TipLookupError::NoChangerConfig(name)),
            };
        }
        assert(tv[k as int].name != tip_name@);
        k += 1;
    }
    Err(TipLookupError::TipNotFound(name))
}

// --- Laws ---
/// The waypoints that the moves reach, in order; a move over a waypoint at
/// the safe height does not reach it.
pub open spec fn waypoints(s: Seq<MoveView>) -> Seq<Waypoint>
    decreases s.len(),
{
    if s.len() == 0 {
        seq![]
    } else {
        waypoints(s.drop_last()) + match s.last() {
            MoveView::Z(w) => seq![w],
            MoveView::Xyz(w, _) => seq![w],
            _ => seq![],
        }
    }
}

/// The commands that the moves send, in order.
pub open spec fn sends(s: Seq<MoveView>) -> Seq<Seq<char>>
    decreases s.len(),
{
    if s.len() == 0 {
        seq![]
    } else {
        sends(s.drop_last()) + match s.last() {
            MoveView::Send(c) => seq![c],
            _ => seq![],
        }
    }
}

/// The speed of the stretch between two neighbouring waypoints, either way.
pub open spec fn stretch_speed(a: Waypoint, b: Waypoint) -> Option<Speed> {
    match (a, b) {
        (Waypoint::First, Waypoint::Second) => Some(Speed::OneToTwo),
        (Waypoint::Second, Waypoint::First) => Some(Speed::OneToTwo),
        (Waypoint::Second, Waypoint::Third) => Some(Speed::TwoToThree),
        (Waypoint::Third, Waypoint::Second) => Some(Speed::TwoToThree),
        (Waypoint::Third, Waypoint::Last) => Some(Speed::ThreeToFour),
        (Waypoint::Last, Waypoint::Third) => Some(Speed::ThreeToFour),
        _ => None,
    }
}

pub open spec fn waypoint_of(m: MoveView) -> Option<Waypoint> {
    match m {
        MoveView::Z(w) => Some(w),
        MoveView::Xyz(w, _) => Some(w),
        _ => None,
    }
}

proof fn lemma_waypoints_add(a: Seq<MoveView>, b: Seq<MoveView>)
    ensures
        waypoints(a + b) == waypoints(a) + waypoints(b),
        sends(a + b) == sends(a) + sends(b),
    decreases b.len(),
{
    if b.len() == 0 {
        assert(a + b =~= a);
        assert(waypoints(a) + waypoints(b) =~= waypoints(a));
        assert(sends(a) + sends(b) =~= sends(a));
    } else {
        lemma_waypoints_add(a, b.drop_last());
        assert((a + b).drop_last() =~= a + b.drop_last());
        assert(waypoints(a + b) =~= waypoints(a) + waypoints(b));
        assert(sends(a + b) =~= sends(a) + sends(b));
    }
}

proof fn lemma_one(m: MoveView)
    ensures
        waypoints(seq![m]) == (match waypoint_of(m) {
            Some(w) => seq![w],
            None => Seq::<Waypoint>::empty(),
        }),
        sends(seq![m]) == (match m {
            MoveView::Send(c) => seq![c],
            _ => Seq::<Seq<char>>::empty(),
        }),
{
    assert(seq![m].drop_last() =~= Seq::<MoveView>::empty());
    assert(seq![m].last() == m);
    assert(waypoints(Seq::<MoveView>::empty()) == Seq::<Waypoint>::empty());
    assert(sends(Seq::<MoveView>::empty()) == Seq::<Seq<char>>::empty());
    match waypoint_of(m) {
        Some(w) => {
            assert(waypoints(seq![m]) =~= seq![w]);
        },
        None => {
            assert(waypoints(seq![m]) =~= Seq::<Waypoint>::empty());
        },
    }
    match m {
        MoveView::Send(c) => {
            assert(sends(seq![m]) =~= seq![c]);
        },
        _ => {
            assert(sends(seq![m]) =~= Seq::<Seq<char>>::empty());
        },
    }
}

proof fn lemma_post_step(p: Option<Seq<char>>)
    ensures
        waypoints(post_step(p)) == Seq::<Waypoint>::empty(),
        sends(post_step(p)) == (match p {
            Some(c) => if c.len() > 0 {
                seq![c]
            } else {
                Seq::<Seq<char>>::empty()
            },
            None => Seq::<Seq<char>>::empty(),
        }),
{
    match p {
        Some(c) => {
            if c.len() > 0 {
                lemma_one(MoveView::Send(c));
            } else {
                assert(post_step(p).len() == 0);
            }
        },
        None => {
            assert(post_step(p).len() == 0);
        },
    }
}

/// The commands after the first three waypoints that are set and not empty,
/// in the order of the waypoints.
pub open spec fn set_posts(p1: Option<Seq<char>>, p2: Option<Seq<char>>, p3: Option<Seq<char>>) -> Seq<
    Seq<char>,
> {
    sends(post_step(p1)) + sends(post_step(p2)) + sends(post_step(p3))
}

/// Unloading visits the waypoints of loading in reverse order, and sends the
/// slot's commands in reverse order: each one after its own waypoint.
pub proof fn lemma_unload_reverses_load(
    p1: Option<Seq<char>>,
    p2: Option<Seq<char>>,
    p3: Option<Seq<char>>,
)
    ensures
        waypoints(spec_unload(p1, p2, p3)) == waypoints(spec_load(p1, p2, p3)).reverse(),
        waypoints(spec_load(p1, p2, p3)) == seq![
            Waypoint::First,
            Waypoint::Second,
            Waypoint::Third,
            Waypoint::Last,
        ],
        sends(spec_load(p1, p2, p3)) == set_posts(p1, p2, p3),
        sends(spec_unload(p1, p2, p3)) == sends(post_step(p3)) + sends(post_step(p2)) + sends(
            post_step(p1),
        ),
{
    lemma_post_step(p1);
    lemma_post_step(p2);
    lemma_post_step(p3);
    let q1 = post_step(p1);
    let q2 = post_step(p2);
    let q3 = post_step(p3);
    let safe = seq![MoveView::SafeZ];
    let xy1 = seq![MoveView::Xy(Waypoint::First)];
    let z1 = seq![MoveView::Z(Waypoint::First)];
    let m2 = seq![MoveView::Xyz(Waypoint::Second, Speed::OneToTwo)];
    let m3 = seq![MoveView::Xyz(Waypoint::Third, Speed::TwoToThree)];
    let m4 = seq![MoveView::Xyz(Waypoint::Last, Speed::ThreeToFour)];
    lemma_one(MoveView::SafeZ);
    lemma_one(MoveView::Xy(Waypoint::First));
    lemma_one(MoveView::Z(Waypoint::First));
    lemma_one(MoveView::Xyz(Waypoint::Second, Speed::OneToTwo));
    lemma_one(MoveView::Xyz(Waypoint::Third, Speed::TwoToThree));
    lemma_one(MoveView::Xyz(Waypoint::Last, Speed::ThreeToFour));
    let load = safe + xy1 + z1 + q1 + m2 + q2 + m3 + q3 + m4 + safe;
    assert(load =~= spec_load(p1, p2, p3));
    lemma_waypoints_add(safe, xy1);
    lemma_waypoints_add(safe + xy1, z1);
    lemma_waypoints_add(safe + xy1 + z1, q1);
    lemma_waypoints_add(safe + xy1 + z1 + q1, m2);
    lemma_waypoints_add(safe + xy1 + z1 + q1 + m2, q2);
    lemma_waypoints_add(safe + xy1 + z1 + q1 + m2 + q2, m3);
    lemma_waypoints_add(safe + xy1 + z1 + q1 + m2 + q2 + m3, q3);
    lemma_waypoints_add(safe + xy1 + z1 + q1 + m2 + q2 + m3 + q3, m4);
    lemma_waypoints_add(safe + xy1 + z1 + q1 + m2 + q2 + m3 + q3 + m4, safe);
    let xy4 = seq![MoveView::Xy(Waypoint::Last)];
    let z4 = seq![MoveView::Z(Waypoint::Last)];
    let u3 = seq![MoveView::Xyz(Waypoint::Third, Speed::ThreeToFour)];
    let u2 = seq![MoveView::Xyz(Waypoint::Second, Speed::TwoToThree)];
    let u1 = seq![MoveView::Xyz(Waypoint::First, Speed::OneToTwo)];
    lemma_one(MoveView::Xy(Waypoint::Last));
    lemma_one(MoveView::Z(Waypoint::Last));
    lemma_one(MoveView::Xyz(Waypoint::Third, Speed::ThreeToFour));
    lemma_one(MoveView::Xyz(Waypoint::Second, Speed::TwoToThree));
    lemma_one(MoveView::Xyz(Waypoint::First, Speed::OneToTwo));
    let unload = safe + xy4 + z4 + u3 + q3 + u2 + q2 + u1 + q1 + safe;
    assert(unload =~= spec_unload(p1, p2, p3));
    lemma_waypoints_add(safe, xy4);
    lemma_waypoints_add(safe + xy4, z4);
    lemma_waypoints_add(safe + xy4 + z4, u3);
    lemma_waypoints_add(safe + xy4 + z4 + u3, q3);
    lemma_waypoints_add(safe + xy4 + z4 + u3 + q3, u2);
    lemma_waypoints_add(safe + xy4 + z4 + u3 + q3 + u2, q2);
    lemma_waypoints_add(safe + xy4 + z4 + u3 + q3 + u2 + q2, u1);
    lemma_waypoints_add(safe + xy4 + z4 + u3 + q3 + u2 + q2 + u1, q1);
    lemma_waypoints_add(safe + xy4 + z4 + u3 + q3 + u2 + q2 + u1 + q1, safe);
    let wl = seq![Waypoint::First, Waypoint::Second, Waypoint::Third, Waypoint::Last];
    let wu = seq![Waypoint::Last, Waypoint::Third, Waypoint::Second, Waypoint::First];
    assert(waypoints(load) =~= wl);
    assert(waypoints(unload) =~= wu);
    assert(wl.reverse() == Seq::new(4, |i: int| wl[3 - i]));
    assert forall|i: int| 0 <= i < 4 implies #[trigger] wu[i] == wl[3 - i] by {
        if i == 0 {
        } else if i == 1 {
        } else if i == 2 {
        } else {
        }
    }
    assert(wl.reverse() =~= wu);
    assert(waypoints(unload) == waypoints(load).reverse());
    assert(sends(load) =~= set_posts(p1, p2, p3));
    assert(sends(unload) =~= sends(q3) + sends(q2) + sends(q1));
}


/// The waypoint reached last by the moves.
pub open spec fn last_reached(s: Seq<MoveView>) -> Option<Waypoint>
    decreases s.len(),
{
    if s.len() == 0 {
        None
    } else {
        match waypoint_of(s.last()) {
            Some(w) => Some(w),
            None => last_reached(s.drop_last()),
        }
    }
}

/// Every move through the slot goes from the waypoint reached before it at the
/// speed of the stretch between the two.
pub open spec fn speeds_ok(s: Seq<MoveView>) -> bool
    decreases s.len(),
{
    if s.len() == 0 {
        true
    } else {
        speeds_ok(s.drop_last()) && match s.last() {
            MoveView::Xyz(w, sp) => match last_reached(s.drop_last()) {
                Some(v) => stretch_speed(v, w) == Some(sp),
                None => false,
            },
            _ => true,
        }
    }
}

proof fn lemma_push_move(s: Seq<MoveView>, m: MoveView)
    ensures
        speeds_ok(s.push(m)) == (speeds_ok(s) && match m {
            MoveView::Xyz(w, sp) => match last_reached(s) {
                Some(v) => stretch_speed(v, w) == Some(sp),
                None => false,
            },
            _ => true,
        }),
        last_reached(s.push(m)) == match waypoint_of(m) {
            Some(w) => Some(w),
            None => last_reached(s),
        },
{
    assert(s.push(m).drop_last() =~= s);
    assert(s.push(m).last() == m);
}

proof fn lemma_push_post(s: Seq<MoveView>, p: Option<Seq<char>>)
    ensures
        speeds_ok(s + post_step(p)) == speeds_ok(s),
        last_reached(s + post_step(p)) == last_reached(s),
{
    match p {
        Some(c) => {
            if c.len() > 0 {
                assert(s + post_step(p) =~= s.push(MoveView::Send(c)));
                lemma_push_move(s, MoveView::Send(c));
            } else {
                assert(s + post_step(p) =~= s);
            }
        },
        None => {
            assert(s + post_step(p) =~= s);
        },
    }
}

/// Loading and unloading cross each stretch between two waypoints at that
/// stretch's speed.
pub proof fn lemma_stretch_speeds(p1: Option<Seq<char>>, p2: Option<Seq<char>>, p3: Option<Seq<char>>)
    ensures
        speeds_ok(spec_load(p1, p2, p3)),
        speeds_ok(spec_unload(p1, p2, p3)),
{
    let e = Seq::<MoveView>::empty();
    let l0 = e.push(MoveView::SafeZ);
    let l1 = l0.push(MoveView::Xy(Waypoint::First));
    let l2 = l1.push(MoveView::Z(Waypoint::First));
    let l3 = l2 + post_step(p1);
    let l4 = l3.push(MoveView::Xyz(Waypoint::Second, Speed::OneToTwo));
    let l5 = l4 + post_step(p2);
    let l6 = l5.push(MoveView::Xyz(Waypoint::Third, Speed::TwoToThree));
    let l7 = l6 + post_step(p3);
    let l8 = l7.push(MoveView::Xyz(Waypoint::Last, Speed::ThreeToFour));
    let l9 = l8.push(MoveView::SafeZ);
    lemma_push_move(e, MoveView::SafeZ);
    lemma_push_move(l0, MoveView::Xy(Waypoint::First));
    lemma_push_move(l1, MoveView::Z(Waypoint::First));
    lemma_push_post(l2, p1);
    lemma_push_move(l3, MoveView::Xyz(Waypoint::Second, Speed::OneToTwo));
    lemma_push_post(l4, p2);
    lemma_push_move(l5, MoveView::Xyz(Waypoint::Third, Speed::TwoToThree));
    lemma_push_post(l6, p3);
    lemma_push_move(l7, MoveView::Xyz(Waypoint::Last, Speed::ThreeToFour));
    lemma_push_move(l8, MoveView::SafeZ);
    assert(l9 =~= spec_load(p1, p2, p3));
    let u0 = e.push(MoveView::SafeZ);
    let u1 = u0.push(MoveView::Xy(Waypoint::Last));
    let u2 = u1.push(MoveView::Z(Waypoint::Last));
    let u3 = u2.push(MoveView::Xyz(Waypoint::Third, Speed::ThreeToFour));
    let u4 = u3 + post_step(p3);
    let u5 = u4.push(MoveView::Xyz(Waypoint::Second, Speed::TwoToThree));
    let u6 = u5 + post_step(p2);
    let u7 = u6.push(MoveView::Xyz(Waypoint::First, Speed::OneToTwo));
    let u8 = u7 + post_step(p1);
    let u9 = u8.push(MoveView::SafeZ);
    lemma_push_move(e, MoveView::SafeZ);
    lemma_push_move(u0, MoveView::Xy(Waypoint::Last));
    lemma_push_move(u1, MoveView::Z(Waypoint::Last));
    lemma_push_move(u2, MoveView::Xyz(Waypoint::Third, Speed::ThreeToFour));
    lemma_push_post(u3, p3);
    lemma_push_move(u4, MoveView::Xyz(Waypoint::Second, Speed::TwoToThree));
    lemma_push_post(u5, p2);
    lemma_push_move(u6, MoveView::Xyz(Waypoint::First, Speed::OneToTwo));
    lemma_push_post(u7, p1);
    lemma_push_move(u8, MoveView::SafeZ);
    assert(u9 =~= spec_unload(p1, p2, p3));
}

/// Loading and unloading a tip find the same entry or fail alike, and where
/// they find its slot, unloading goes through the slot's waypoints in the
/// reverse order of loading, each stretch at its own speed.
pub proof fn lemma_unload_tip_reverses_load(tips: Seq<SlotView>, name: Seq<char>)
    ensures
        named_from(tips, name, 0) matches Some(k) ==> (tips[k].changer matches Some(c) ==> (waypoints(
            slot_moves(c, false),
        ) == waypoints(slot_moves(c, true)).reverse() && speeds_ok(slot_moves(c, true))
            && speeds_ok(slot_moves(c, false)))),
{
    if let Some(k) = named_from(tips, name, 0) {
        if let Some(c) = tips[k].changer {
            lemma_unload_reverses_load(c.0, c.1, c.2);
            lemma_stretch_speeds(c.0, c.1, c.2);
        }
    }
}

} // verus!
