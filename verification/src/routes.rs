//! The order in which a search tries routes: by the places that their actions have among
//! the actions that the search tries at each pose.

use crate::action::Action;
use crate::geometry::{Angle, PosAngle};
use crate::grid::Grid;
use crate::search::{route_end, tried, tried_move, Quest};
use vstd::prelude::*;

verus! {

/// The place of a move among the moves that a search for a cell tries.
pub open spec fn move_rank(a: Action) -> int {
    match a {
        Action::MoveUp => 0,
        Action::MoveDown => 1,
        Action::MoveLeft => 2,
        Action::MoveRight => 3,
        _ => 4,
    }
}

/// The place of an action among the actions that a search for a pose to paint from tries
/// at a pose that faces `angle`.
pub open spec fn paint_rank(angle: Angle, a: Action) -> int {
    match a {
        Action::TurnClockWise => 4,
        Action::TurnCounterClockWise => 5,
        Action::MoveUp => match angle {
            Angle::A0 => 0,
            Angle::A90 => 3,
            Angle::A180 => 1,
            Angle::A270 => 2,
        },
        Action::MoveDown => match angle {
            Angle::A0 => 1,
            Angle::A90 => 2,
            Angle::A180 => 0,
            Angle::A270 => 3,
        },
        Action::MoveRight => match angle {
            Angle::A0 => 2,
            Angle::A90 => 0,
            Angle::A180 => 3,
            Angle::A270 => 1,
        },
        Action::MoveLeft => match angle {
            Angle::A0 => 3,
            Angle::A90 => 1,
            Angle::A180 => 2,
            Angle::A270 => 0,
        },
        _ => 6,
    }
}

/// The place of the action `a` among the actions that a search for `quest` tries at `pose`.
pub open spec fn rank(quest: Quest, pose: PosAngle, a: Action) -> int {
    if quest is Paint {
        paint_rank(pose.angle, a)
    } else {
        move_rank(a)
    }
}

/// The places are the places in which the actions are tried.
pub proof fn lemma_rank_tried(angle: Angle, j: int)
    ensures
        0 <= j < 4 ==> move_rank(tried_move(j)) == j,
        0 <= j < 6 ==> paint_rank(angle, tried(angle, j)) == j,
{
}

/// An action that a search tries is tried at its place.
pub proof fn lemma_tried_rank(angle: Angle, a: Action)
    ensures
        a.moves() ==> 0 <= move_rank(a) < 4 && tried_move(move_rank(a)) == a,
        a.moves() || a.turns() ==> 0 <= paint_rank(angle, a) < 6 && tried(angle, paint_rank(angle, a)) == a,
{
}

/// Actions that a search tries have different places.
pub proof fn lemma_rank_apart(quest: Quest, pose: PosAngle, a: Action, b: Action)
    requires
        quest.allows(a),
        quest.allows(b),
        rank(quest, pose, a) == rank(quest, pose, b),
    ensures
        a == b,
{
}

/// The routes `r1` and `r2` part at step `k`, where `r1` takes the action that is tried
/// first.
pub open spec fn differ_at(
    grid: &Grid,
    drill: nat,
    fast: nat,
    start: PosAngle,
    quest: Quest,
    r1: Seq<Action>,
    r2: Seq<Action>,
    k: int,
) -> bool {
    &&& 0 <= k < r1.len()
    &&& k < r2.len()
    &&& r1.take(k) == r2.take(k)
    &&& route_end(grid, drill, fast, start, r1.take(k)) matches Some(p) && rank(quest, p, r1[k]) < rank(
        quest,
        p,
        r2[k],
    )
}

/// A search for `quest` by an agent with `drill` turns of drilling and `fast` turns of speed
/// left tries the route `r1` before the route `r2`.
pub open spec fn route_before(grid: &Grid, drill: nat, fast: nat, start: PosAngle, quest: Quest, r1: Seq<Action>, r2: Seq<Action>) -> bool {
    exists|k: int| #[trigger] differ_at(grid, drill, fast, start, quest, r1, r2, k)
}

/// The route `r1` is the route `r2`, or is tried before it.
pub open spec fn route_not_after(
    grid: &Grid,
    drill: nat,
    fast: nat,
    start: PosAngle,
    quest: Quest,
    r1: Seq<Action>,
    r2: Seq<Action>,
) -> bool {
    r1 == r2 || route_before(grid, drill, fast, start, quest, r1, r2)
}

/// Routes that have parted stay parted when they go on.
pub proof fn lemma_before_goes_on(
    grid: &Grid,
    drill: nat,
    fast: nat,
    start: PosAngle,
    quest: Quest,
    r1: Seq<Action>,
    r2: Seq<Action>,
    a: Action,
    b: Action,
)
    requires
        route_before(grid, drill, fast, start, quest, r1, r2),
    ensures
        route_before(grid, drill, fast, start, quest, r1.push(a), r2.push(b)),
{
    let k = choose|k: int| #[trigger] differ_at(grid, drill, fast, start, quest, r1, r2, k);
    assert(r1.push(a).take(k) =~= r1.take(k));
    assert(r2.push(b).take(k) =~= r2.take(k));
    assert(differ_at(grid, drill, fast, start, quest, r1.push(a), r2.push(b), k));
}

/// A route that goes on with the action that is tried first is tried before the same
/// route that goes on with another action.
pub proof fn lemma_before_at_end(
    grid: &Grid,
    drill: nat,
    fast: nat,
    start: PosAngle,
    quest: Quest,
    r: Seq<Action>,
    a: Action,
    b: Action,
)
    requires
        route_end(grid, drill, fast, start, r) matches Some(p) && rank(quest, p, a) < rank(quest, p, b),
    ensures
        route_before(grid, drill, fast, start, quest, r.push(a), r.push(b)),
{
    let k = r.len() as int;
    assert(r.push(a).take(k) =~= r);
    assert(r.push(b).take(k) =~= r);
    assert(differ_at(grid, drill, fast, start, quest, r.push(a), r.push(b), k));
}

/// The order of routes is transitive.
pub proof fn lemma_before_chain(
    grid: &Grid,
    drill: nat,
    fast: nat,
    start: PosAngle,
    quest: Quest,
    r1: Seq<Action>,
    r2: Seq<Action>,
    r3: Seq<Action>,
)
    requires
        route_before(grid, drill, fast, start, quest, r1, r2),
        route_not_after(grid, drill, fast, start, quest, r2, r3),
    ensures
        route_before(grid, drill, fast, start, quest, r1, r3),
{
    if r2 != r3 {
        let i = choose|k: int| #[trigger] differ_at(grid, drill, fast, start, quest, r1, r2, k);
        let j = choose|k: int| #[trigger] differ_at(grid, drill, fast, start, quest, r2, r3, k);
        if i <= j {
            assert(r2.take(j).take(i) =~= r2.take(i));
            assert(r3.take(j).take(i) =~= r3.take(i));
            if i < j {
                assert(r2.take(j)[i] == r2[i]);
                assert(r3.take(j)[i] == r3[i]);
            }
            assert(differ_at(grid, drill, fast, start, quest, r1, r3, i));
        } else {
            assert(r1.take(i).take(j) =~= r1.take(j));
            assert(r2.take(i).take(j) =~= r2.take(j));
            assert(r1.take(i)[j] == r1[j]);
            assert(r2.take(i)[j] == r2[j]);
            assert(differ_at(grid, drill, fast, start, quest, r1, r3, j));
        }
    }
}

/// A route is not tried before itself, and of two routes at most one is tried before the
/// other.
pub proof fn lemma_before_one_way(
    grid: &Grid,
    drill: nat,
    fast: nat,
    start: PosAngle,
    quest: Quest,
    r1: Seq<Action>,
    r2: Seq<Action>,
)
    requires
        route_before(grid, drill, fast, start, quest, r1, r2),
    ensures
        r1 != r2,
        !route_before(grid, drill, fast, start, quest, r2, r1),
{
    let i = choose|k: int| #[trigger] differ_at(grid, drill, fast, start, quest, r1, r2, k);
    if route_before(grid, drill, fast, start, quest, r2, r1) {
        let j = choose|k: int| #[trigger] differ_at(grid, drill, fast, start, quest, r2, r1, k);
        if i < j {
            assert(r2.take(j)[i] == r2[i]);
            assert(r1.take(j)[i] == r1[i]);
        } else if j < i {
            assert(r1.take(i)[j] == r1[j]);
            assert(r2.take(i)[j] == r2[j]);
        }
    }
}

} // verus!
