//! Breadth-first searches of an agent over the poses it can reach: to a goal cell, and to the
//! nearest pose from which it can paint.
//!
//! A search numbers the poses it discovers in a flat list of steps. Each step but the first
//! names the step it was reached from and the action that led there.

use crate::action::Action;
use crate::bot::{fringe, mark_count, Bot, BotView};
use crate::flags::Flags;
use crate::geometry::{Angle, Pos, PosAngle, PosDiff};
use crate::grid::Grid;
use crate::pickups::Pool;
use crate::routes::{
    lemma_before_at_end, lemma_before_chain, lemma_before_goes_on, lemma_before_one_way,
    lemma_rank_apart, lemma_rank_tried, lemma_tried_rank, rank, route_before, route_not_after,
};
use crate::task::BoosterKind;
use vstd::prelude::*;

verus! {

/// What a search looks for.
pub enum Goal {
    /// The cell itself.
    At(Pos),
    /// A cell with a pickup of one of these kinds.
    Pickup(Vec<BoosterKind>),
    /// A mystery cell.
    Mystery,
}

/// What a search looks for, as plain values, together with what it is looked for in.
pub enum Quest {
    At(Pos),
    Pickup(Seq<BoosterKind>, Map<Pos, BoosterKind>),
    Mystery(Seq<Pos>),
    /// A pose from which one of these arms can paint.
    Paint(Seq<PosDiff>),
}

impl Quest {
    /// The pose `q` is what the search looks for.
    pub open spec fn met(self, grid: &Grid, q: PosAngle) -> bool {
        match self {
            Quest::At(t) => q.pos == t,
            Quest::Pickup(kinds, pool) => pool.contains_key(q.pos) && kinds.contains(pool[q.pos]),
            Quest::Mystery(cells) => cells.contains(q.pos),
            Quest::Paint(arms) => mark_count(arms, arms.len() as int, q, grid) > 0,
        }
    }

    /// The search tries `a`: a search for a cell moves only, a search for a pose to paint
    /// from also turns.
    pub open spec fn allows(self, a: Action) -> bool {
        a.moves() || (self is Paint && a.turns())
    }
}

impl Goal {
    /// The goal as plain values, looked for among the pickups `pool` and the mystery cells
    /// `mysteries`.
    pub open spec fn quest(&self, pool: Map<Pos, BoosterKind>, mysteries: Seq<Pos>) -> Quest {
        match self {
            Goal::At(t) => Quest::At(*t),
            Goal::Pickup(kinds) => Quest::Pickup(kinds@, pool),
            Goal::Mystery => Quest::Mystery(mysteries),
        }
    }
}

/// Where `action` takes an agent that stands at `pose` after `len` turns of a plan, if the
/// agent has `drill` turns of drilling and `fast` turns of speed left at the start of the
/// plan. The cell that the action leads to, which for a turn is the cell of the agent, must
/// be a cell of the grid that is free or can be drilled; under speed a move goes on to the
/// cell behind where that one is free or can be drilled too. `None` where the action cannot
/// be taken.
pub open spec fn hop(grid: &Grid, drill: nat, fast: nat, pose: PosAngle, len: nat, action: Action) -> Option<
    PosAngle,
> {
    let next = pose.after(action);
    let far = next.after(action);
    if !(action.moves() || action.turns()) {
        None
    } else if !grid.in_range(next.pos.x as int, next.pos.y as int) {
        None
    } else if !(drill > len) && !grid.free_at(next.pos.x as int, next.pos.y as int) {
        None
    } else if action.moves() && fast > len && grid.in_range(far.pos.x as int, far.pos.y as int) && (
    grid.free_at(far.pos.x as int, far.pos.y as int) || drill > len) {
        Some(far)
    } else {
        Some(next)
    }
}

/// Where the actions of `route`, taken in order from `start`, lead; `None` where one of them
/// cannot be taken.
pub open spec fn route_end(grid: &Grid, drill: nat, fast: nat, start: PosAngle, route: Seq<Action>) -> Option<
    PosAngle,
>
    decreases route.len(),
{
    if route.len() == 0 {
        Some(start)
    } else {
        match route_end(grid, drill, fast, start, route.drop_last()) {
            Some(p) => hop(grid, drill, fast, p, (route.len() - 1) as nat, route.last()),
            None => None,
        }
    }
}

/// Every action of the route is one that the search tries.
pub open spec fn route_allowed(quest: Quest, route: Seq<Action>) -> bool {
    forall|i: int| 0 <= i < route.len() ==> quest.allows(#[trigger] route[i])
}

/// The result of a search.
#[derive(Debug, Clone, Copy, PartialEq, Eq, Structural)]
pub struct Plan {
    /// The pose that was found.
    pub pos_angle: PosAngle,
    /// The number of actions that lead there.
    pub len: usize,
    /// How many arms can paint at that pose; kept by the search for a pose to paint from.
    pub mark_number: usize,
    /// How many unpainted cells touch the arms at that pose; kept by the same search.
    pub adj_empty_number: usize,
    /// The first of the actions that lead there.
    pub first_action: Action,
}

/// The route has `len` actions, begins with `first`, is made of actions that the search
/// tries, and leads from `start` to `found`.
pub open spec fn route_to(
    grid: &Grid,
    drill: nat,
    fast: nat,
    start: PosAngle,
    quest: Quest,
    route: Seq<Action>,
    found: PosAngle,
    len: nat,
    first: Action,
) -> bool {
    &&& route.len() == len
    &&& len >= 1
    &&& route[0] == first
    &&& route_allowed(quest, route)
    &&& route_end(grid, drill, fast, start, route) == Some(found)
}

/// Some route of `len` actions that begins with `first` leads from `start` to `found`, and
/// `found` is what the search looks for.
pub open spec fn reaches(
    grid: &Grid,
    drill: nat,
    fast: nat,
    start: PosAngle,
    quest: Quest,
    found: PosAngle,
    len: nat,
    first: Action,
) -> bool {
    &&& quest.met(grid, found)
    &&& exists|route: Seq<Action>| #[trigger] route_to(grid, drill, fast, start, quest, route, found, len, first)
}

/// Of the routes of its length that lead to what the search looks for, the route is the
/// one that the search tries first.
pub open spec fn tried_first(grid: &Grid, drill: nat, fast: nat, start: PosAngle, quest: Quest, route: Seq<Action>) -> bool {
    forall|other: Seq<Action>|
        #![trigger route_end(grid, drill, fast, start, other)]
        route_allowed(quest, other) && other.len() == route.len() && (route_end(grid, drill, fast, start, other)
            matches Some(g) && quest.met(grid, g)) ==> route_not_after(grid, drill, fast, start, quest, route, other)
}

/// Of the routes of `len` actions that lead to what the search looks for, the one that the
/// search tries first begins with `first` and leads to `found`.
pub open spec fn reaches_first(
    grid: &Grid,
    drill: nat,
    fast: nat,
    start: PosAngle,
    quest: Quest,
    found: PosAngle,
    len: nat,
    first: Action,
) -> bool {
    &&& quest.met(grid, found)
    &&& exists|route: Seq<Action>| #[trigger]
        route_to(grid, drill, fast, start, quest, route, found, len, first) && tried_first(grid, drill, fast, start, quest, route)
}

/// What a search for a cell hands back is determined where the agent has no speed, or
/// speed and drill outlast the plan: two plans that are the nearest and the first tried
/// are the same pose, length and first action.
pub proof fn lemma_plan_determined(
    grid: &Grid,
    drill: nat,
    fast: nat,
    start: PosAngle,
    quest: Quest,
    found1: PosAngle,
    len1: nat,
    first1: Action,
    found2: PosAngle,
    len2: nat,
    first2: Action,
)
    requires
        nothing_nearer(grid, drill, fast, start, quest, len1),
        nothing_nearer(grid, drill, fast, start, quest, len2),
        reaches_first(grid, drill, fast, start, quest, found1, len1, first1),
        reaches_first(grid, drill, fast, start, quest, found2, len2, first2),
    ensures
        found1 == found2,
        len1 == len2,
        first1 == first2,
{
    let r1 = choose|route: Seq<Action>| #[trigger]
        route_to(grid, drill, fast, start, quest, route, found1, len1, first1) && tried_first(grid, drill, fast, start, quest, route);
    let r2 = choose|route: Seq<Action>| #[trigger]
        route_to(grid, drill, fast, start, quest, route, found2, len2, first2) && tried_first(grid, drill, fast, start, quest, route);
    assert(route_end(grid, drill, fast, start, r1) == Some(found1));
    assert(route_end(grid, drill, fast, start, r2) == Some(found2));
    assert(len1 == len2);
    assert(route_not_after(grid, drill, fast, start, quest, r1, r2));
    assert(route_not_after(grid, drill, fast, start, quest, r2, r1));
    if r1 != r2 {
        lemma_before_one_way(grid, drill, fast, start, quest, r1, r2);
    }
}


/// `a` leads from `p`, at the depth that `depth` gives it, to nothing new and nothing looked
/// for: to a pose of `depth` that is at most one action deeper.
pub open spec fn hop_settled(
    grid: &Grid,
    drill: nat,
    fast: nat,
    quest: Quest,
    depth: Map<PosAngle, nat>,
    p: PosAngle,
    a: Action,
) -> bool {
    match hop(grid, drill, fast, p, depth[p], a) {
        Some(q) => depth.contains_key(q) && !quest.met(grid, q) && depth[q] <= depth[p] + 1,
        None => true,
    }
}

/// The poses of `depth` are layers around the start, which has depth 0: they are closed
/// under the actions that the search tries, each taken at the depth of the pose it starts
/// from; an action leads at most one layer down, and none leads to what the search looks
/// for.
pub open spec fn sealed(
    grid: &Grid,
    drill: nat,
    fast: nat,
    start: PosAngle,
    quest: Quest,
    depth: Map<PosAngle, nat>,
) -> bool {
    &&& depth.contains_key(start)
    &&& depth[start] == 0
    &&& forall|p: PosAngle, a: Action|
        depth.contains_key(p) && quest.allows(a) ==> #[trigger] hop_settled(
            grid,
            drill,
            fast,
            quest,
            depth,
            p,
            a,
        )
}

/// The search has failed: it has closed layers of poses around the start.
pub open spec fn exhausted(grid: &Grid, drill: nat, fast: nat, start: PosAngle, quest: Quest) -> bool {
    exists|depth: Map<PosAngle, nat>| #[trigger] sealed(grid, drill, fast, start, quest, depth)
}

/// The drill narrows what an agent may do as the turns go by, and without speed it does
/// nothing else: what an action leads to at a later turn, it leads to at an earlier turn.
/// Where speed runs, this holds as long as speed and drill both outlast the turns.
pub proof fn lemma_hop_earlier(
    grid: &Grid,
    drill: nat,
    fast: nat,
    p: PosAngle,
    early: nat,
    late: nat,
    a: Action,
    bound: nat,
)
    requires
        steady(drill, fast, bound),
        early <= late < bound,
        hop(grid, drill, fast, p, late, a) is Some,
    ensures
        hop(grid, drill, fast, p, early, a) == hop(grid, drill, fast, p, late, a),
{
}

/// Layers that are sealed hold every pose that a route reaches, no deeper than the route
/// is long, and no such route leads to what the search looks for. This holds of every
/// route of an agent without speed, and of an agent with speed of the routes that its
/// speed and its drill outlast.
pub proof fn lemma_sealed_routes(
    grid: &Grid,
    drill: nat,
    fast: nat,
    start: PosAngle,
    quest: Quest,
    depth: Map<PosAngle, nat>,
    route: Seq<Action>,
)
    requires
        sealed(grid, drill, fast, start, quest, depth),
        route_allowed(quest, route),
        steady(drill, fast, route.len()),
    ensures
        route_end(grid, drill, fast, start, route) matches Some(q) ==> depth.contains_key(q) && depth[q]
            <= route.len() && (route.len() >= 1 ==> !quest.met(grid, q)),
    decreases route.len(),
{
    if route.len() > 0 {
        let shorter = route.drop_last();
        assert forall|i: int| 0 <= i < shorter.len() implies quest.allows(#[trigger] shorter[i]) by {
            assert(shorter[i] == route[i]);
        }
        lemma_sealed_routes(grid, drill, fast, start, quest, depth, shorter);
        match route_end(grid, drill, fast, start, shorter) {
            Some(p) => {
                let a = route.last();
                assert(quest.allows(a));
                assert(hop_settled(grid, drill, fast, quest, depth, p, a));
                if hop(grid, drill, fast, p, (route.len() - 1) as nat, a) is Some {
                    lemma_hop_earlier(grid, drill, fast, p, depth[p], (route.len() - 1) as nat, a, route.len());
                }
            },
            None => {},
        }
    }
}

/// No route leads to what the search looks for: none at all for an agent without speed,
/// and for an agent with speed none that its speed and its drill outlast.
pub open spec fn unreachable(grid: &Grid, drill: nat, fast: nat, start: PosAngle, quest: Quest) -> bool {
    forall|route: Seq<Action>|
        #![trigger route_end(grid, drill, fast, start, route)]
        route_allowed(quest, route) && route.len() >= 1 && steady(drill, fast, route.len()) ==> !(route_end(
            grid,
            drill,
            fast,
            start,
            route,
        ) matches Some(q) && quest.met(grid, q))
}

/// What a failed search says: it has closed layers of poses around the start, and no route
/// leads to what it looks for; for an agent with speed, no route that its speed and its
/// drill outlast.
pub open spec fn no_way(grid: &Grid, drill: nat, fast: nat, start: PosAngle, quest: Quest) -> bool {
    &&& exhausted(grid, drill, fast, start, quest)
    &&& unreachable(grid, drill, fast, start, quest)
}

/// A search fails only where no route leads to what it looks for, however long the drill
/// of an agent without speed runs; and where a route leads there, no plan is out of reach.
/// For an agent with speed this holds of the routes that its speed and its drill outlast.
pub proof fn lemma_exhausted_means_unreachable(
    grid: &Grid,
    drill: nat,
    fast: nat,
    start: PosAngle,
    quest: Quest,
)
    requires
        exhausted(grid, drill, fast, start, quest),
    ensures
        unreachable(grid, drill, fast, start, quest),
        forall|found: PosAngle, len: nat, first: Action|
            steady(drill, fast, len) ==> !reaches(grid, drill, fast, start, quest, found, len, first),
{
    let depth = choose|depth: Map<PosAngle, nat>| #[trigger] sealed(grid, drill, fast, start, quest, depth);
    assert forall|route: Seq<Action>|
        #![trigger route_end(grid, drill, fast, start, route)]
        route_allowed(quest, route) && route.len() >= 1 && steady(drill, fast, route.len()) implies !(
        route_end(grid, drill, fast, start, route) matches Some(q) && quest.met(grid, q)) by {
        lemma_sealed_routes(grid, drill, fast, start, quest, depth, route);
    }
    assert forall|found: PosAngle, len: nat, first: Action| steady(drill, fast, len) implies !reaches(
        grid,
        drill,
        fast,
        start,
        quest,
        found,
        len,
        first,
    ) by {
        if reaches(grid, drill, fast, start, quest, found, len, first) {
            let route = choose|route: Seq<Action>| #[trigger]
                route_to(grid, drill, fast, start, quest, route, found, len, first);
            assert(route.len() == len);
            assert(route_end(grid, drill, fast, start, route) == Some(found));
        }
    }
}

/// The first action of a route that can be taken can be taken from the start.
pub proof fn lemma_first_hop(grid: &Grid, drill: nat, fast: nat, start: PosAngle, route: Seq<Action>)
    requires
        route.len() >= 1,
        route_end(grid, drill, fast, start, route) is Some,
    ensures
        hop(grid, drill, fast, start, 0, route[0]) is Some,
    decreases route.len(),
{
    let shorter = route.drop_last();
    if route.len() == 1 {
        assert(shorter.len() == 0);
        assert(route_end(grid, drill, fast, start, shorter) == Some(start));
    } else {
        assert(shorter[0] == route[0]);
        lemma_first_hop(grid, drill, fast, start, shorter);
    }
}

/// During a plan of `len` actions the agent moves by rules that do not widen: it has no
/// speed, so that only its drill can run out; or its speed and its drill both outlast the
/// plan, as far as they run at all.
pub open spec fn steady(drill: nat, fast: nat, len: nat) -> bool {
    fast == 0 || (fast >= len && (drill == 0 || drill >= len))
}

/// No route of fewer than `len` actions leads to what the search looks for.
pub open spec fn nothing_nearer(grid: &Grid, drill: nat, fast: nat, start: PosAngle, quest: Quest, len: nat) -> bool {
    forall|route: Seq<Action>|
        #![trigger route_end(grid, drill, fast, start, route)]
        route_allowed(quest, route) && 1 <= route.len() < len ==> !(route_end(grid, drill, fast, start, route)
            matches Some(q) && quest.met(grid, q))
}

/// A pose with `m1` arms that can paint and `a1` unpainted cells around them is no better
/// than one with `m2` and `a2`: the arms count first.
pub open spec fn no_better(m1: int, a1: int, m2: int, a2: int) -> bool {
    m1 < m2 || (m1 == m2 && a1 <= a2)
}

/// Among the poses that a route of as many actions as the plan's reaches and from which
/// an arm can paint, none is better than the plan's.
pub open spec fn best_at_len(grid: &Grid, drill: nat, fast: nat, start: PosAngle, arms: Seq<PosDiff>, plan: Plan) -> bool {
    forall|route: Seq<Action>|
        #![trigger route_end(grid, drill, fast, start, route)]
        route_allowed(Quest::Paint(arms), route) && route.len() == plan.len ==> (route_end(
            grid,
            drill,
            fast,
            start,
            route,
        ) matches Some(q) ==> mark_count(arms, arms.len() as int, q, grid) > 0 ==> no_better(
            mark_count(arms, arms.len() as int, q, grid) as int,
            fringe(arms, q, grid).len() as int,
            plan.mark_number as int,
            plan.adj_empty_number as int,
        ))
}

/// Of the routes of its length that lead to a pose as good as the plan's, the route is the
/// one that the search tries first.
pub open spec fn tried_first_of_best(
    grid: &Grid,
    drill: nat,
    fast: nat,
    start: PosAngle,
    arms: Seq<PosDiff>,
    route: Seq<Action>,
    plan: Plan,
) -> bool {
    forall|other: Seq<Action>|
        #![trigger route_end(grid, drill, fast, start, other)]
        route_allowed(Quest::Paint(arms), other) && other.len() == route.len() && (route_end(
            grid,
            drill,
            fast,
            start,
            other,
        ) matches Some(q) && mark_count(arms, arms.len() as int, q, grid) == plan.mark_number && fringe(
            arms,
            q,
            grid,
        ).len() == plan.adj_empty_number) ==> route_not_after(grid, drill, fast, start, Quest::Paint(arms), route, other)
}

/// Of the routes of the plan's length that lead to a pose as good as the plan's, the one
/// that the search tries first begins with the plan's first action and leads to the plan's
/// pose.
pub open spec fn first_of_best(grid: &Grid, drill: nat, fast: nat, start: PosAngle, arms: Seq<PosDiff>, plan: Plan) -> bool {
    exists|route: Seq<Action>| #[trigger]
        route_to(
            grid,
            drill,
            fast,
            start,
            Quest::Paint(arms),
            route,
            plan.pos_angle,
            plan.len as nat,
            plan.first_action,
        ) && tried_first_of_best(grid, drill, fast, start, arms, route, plan)
}

/// One step of a search.
#[derive(Debug, Clone, Copy, PartialEq, Eq, Structural)]
pub struct MoveStep {
    pub pos_angle: PosAngle,
    pub len: usize,
    pub mark_number: usize,
    pub adj_empty_number: usize,
    pub prev_action: Option<Action>,
    pub prev: Option<usize>,
}

/// The actions that lead from the first step to step `k`.
pub open spec fn route_of(nodes: Seq<MoveStep>, k: int) -> Seq<Action>
    decreases k,
{
    if 0 < k < nodes.len() {
        match (nodes[k].prev, nodes[k].prev_action) {
            (Some(p), Some(a)) => if p < k {
                route_of(nodes, p as int).push(a)
            } else {
                Seq::empty()
            },
            _ => Seq::empty(),
        }
    } else {
        Seq::empty()
    }
}

/// Step `k` was reached from an earlier step by an action that can be taken there.
pub open spec fn step_linked(grid: &Grid, drill: nat, fast: nat, nodes: Seq<MoveStep>, k: int) -> bool {
    let n = nodes[k];
    match (n.prev, n.prev_action) {
        (Some(p), Some(a)) => {
            &&& p < k
            &&& n.len == nodes[p as int].len + 1
            &&& hop(grid, drill, fast, nodes[p as int].pos_angle, nodes[p as int].len as nat, a) == Some(
                n.pos_angle,
            )
        },
        _ => false,
    }
}

/// The steps form a tree that is rooted in the start.
pub open spec fn linked(grid: &Grid, drill: nat, fast: nat, start: PosAngle, nodes: Seq<MoveStep>) -> bool {
    &&& nodes.len() >= 1
    &&& nodes[0].pos_angle == start
    &&& nodes[0].len == 0
    &&& nodes[0].prev is None
    &&& forall|k: int| 1 <= k < nodes.len() ==> #[trigger] step_linked(grid, drill, fast, nodes, k)
}

/// The route of a step has the step's length and leads to the step's pose.
pub proof fn lemma_route_of(grid: &Grid, drill: nat, fast: nat, start: PosAngle, nodes: Seq<MoveStep>, k: int)
    requires
        linked(grid, drill, fast, start, nodes),
        0 <= k < nodes.len(),
    ensures
        route_of(nodes, k).len() == nodes[k].len,
        route_end(grid, drill, fast, start, route_of(nodes, k)) == Some(nodes[k].pos_angle),
        k >= 1 ==> nodes[k].len >= 1,
        forall|i: int| 0 <= i < route_of(nodes, k).len() ==> ((#[trigger] route_of(nodes, k)[i]).moves()
            || route_of(nodes, k)[i].turns()),
    decreases k,
{
    if k >= 1 {
        assert(step_linked(grid, drill, fast, nodes, k));
        let p = nodes[k].prev->0 as int;
        let a = nodes[k].prev_action->0;
        lemma_route_of(grid, drill, fast, start, nodes, p);
        let r = route_of(nodes, k);
        assert(r == route_of(nodes, p).push(a));
        assert(r.drop_last() =~= route_of(nodes, p));
        assert(r.last() == a);
        assert forall|i: int| 0 <= i < r.len() implies ((#[trigger] r[i]).moves() || r[i].turns()) by {
            if i < r.len() - 1 {
                assert(r[i] == route_of(nodes, p)[i]);
            }
        }
    }
}

/// Extending the route of a step by an action.
pub proof fn lemma_route_extended(
    grid: &Grid,
    drill: nat,
    fast: nat,
    start: PosAngle,
    quest: Quest,
    nodes: Seq<MoveStep>,
    k: int,
    a: Action,
    q: PosAngle,
)
    requires
        linked(grid, drill, fast, start, nodes),
        0 <= k < nodes.len(),
        quest.allows(a),
        route_allowed(quest, route_of(nodes, k)),
        hop(grid, drill, fast, nodes[k].pos_angle, nodes[k].len as nat, a) == Some(q),
        quest.met(grid, q),
    ensures
        route_to(
            grid,
            drill,
            fast,
            start,
            quest,
            route_of(nodes, k).push(a),
            q,
            (nodes[k].len + 1) as nat,
            route_of(nodes, k).push(a)[0],
        ),
        reaches(
            grid,
            drill,
            fast,
            start,
            quest,
            q,
            (nodes[k].len + 1) as nat,
            route_of(nodes, k).push(a)[0],
        ),
        hop(grid, drill, fast, start, 0, route_of(nodes, k).push(a)[0]) is Some,
{
    lemma_route_of(grid, drill, fast, start, nodes, k);
    let route = route_of(nodes, k).push(a);
    assert(route.drop_last() =~= route_of(nodes, k));
    assert(route_end(grid, drill, fast, start, route) == Some(q));
    assert forall|i: int| 0 <= i < route.len() implies quest.allows(#[trigger] route[i]) by {
        if i < route.len() - 1 {
            assert(route[i] == route_of(nodes, k)[i]);
        }
    }
    lemma_first_hop(grid, drill, fast, start, route);
    assert(route_to(grid, drill, fast, start, quest, route, q, (nodes[k].len + 1) as nat, route[0]));
}

/// Step `k` names an earlier step and the action that led from it.
pub open spec fn step_chained(nodes: Seq<MoveStep>, k: int) -> bool {
    match nodes[k].prev {
        Some(p) => p < k && nodes[k].prev_action is Some,
        None => false,
    }
}

/// The steps form a tree: every step but the first names an earlier step.
pub open spec fn chained(nodes: Seq<MoveStep>) -> bool {
    &&& nodes.len() >= 1
    &&& nodes[0].prev is None
    &&& forall|k: int| 1 <= k < nodes.len() ==> #[trigger] step_chained(nodes, k)
}

/// The route of a step begins as the route of the step it was reached from, or with its
/// own action where it was reached from the first step.
proof fn lemma_route_first(nodes: Seq<MoveStep>, k: int)
    requires
        chained(nodes),
        1 <= k < nodes.len(),
    ensures
        route_of(nodes, k).len() >= 1,
        route_of(nodes, k)[0] == if nodes[k].prev->0 == 0 {
            nodes[k].prev_action->0
        } else {
            route_of(nodes, nodes[k].prev->0 as int)[0]
        },
    decreases k,
{
    assert(step_chained(nodes, k));
    let p = nodes[k].prev->0 as int;
    if p >= 1 {
        lemma_route_first(nodes, p);
    }
}

/// Steps that are linked form a tree.
proof fn lemma_linked_chained(grid: &Grid, drill: nat, fast: nat, start: PosAngle, nodes: Seq<MoveStep>)
    requires
        linked(grid, drill, fast, start, nodes),
    ensures
        chained(nodes),
{
    assert forall|k: int| 1 <= k < nodes.len() implies #[trigger] step_chained(nodes, k) by {
        assert(step_linked(grid, drill, fast, nodes, k));
    }
}

impl MoveStep {
    /// The first action on the way from the first step to step `at`.
    pub fn first_action(nodes: &Vec<MoveStep>, at: usize) -> (r: Action)
        requires
            chained(nodes@),
            1 <= at < nodes@.len(),
        ensures
            r == route_of(nodes@, at as int)[0],
    {
        let mut k: usize = at;
        let mut action: Option<Action> = None;
        while k != 0
            invariant
                chained(nodes@),
                k < nodes@.len(),
                1 <= at < nodes@.len(),
                k == 0 ==> action == Some(route_of(nodes@, at as int)[0]),
                k >= 1 ==> route_of(nodes@, k as int)[0] == route_of(nodes@, at as int)[0],
            decreases k,
        {
            assert(step_chained(nodes@, k as int));
            proof {
                lemma_route_first(nodes@, k as int);
            }
            let node = nodes[k];
            action = node.prev_action;
            match node.prev {
                Some(p) => {
                    k = p;
                },
                None => {
                    k = 0;
                },
            }
        }
        match action {
            Some(a) => a,
            None => Action::DoNothing,
        }
    }
}

/// One flag for each pose of a grid.
pub struct PoseFlags {
    a0: Flags,
    a90: Flags,
    a180: Flags,
    a270: Flags,
}

impl PoseFlags {
    /// The four tables are full rectangles of the same extent.
    pub closed spec fn wf(&self) -> bool {
        &&& self.a0.wf()
        &&& self.a90.wf()
        &&& self.a180.wf()
        &&& self.a270.wf()
        &&& self.a0.width() == self.a90.width() == self.a180.width() == self.a270.width()
        &&& self.a0.height() == self.a90.height() == self.a180.height() == self.a270.height()
    }

    /// The number of columns of the grid.
    pub closed spec fn width(&self) -> int {
        self.a0.width()
    }

    /// The number of cells in a column of the grid.
    pub closed spec fn height(&self) -> int {
        self.a0.height()
    }

    /// Whether the flag of pose `p` is set; `false` off the grid.
    pub closed spec fn has(&self, p: PosAngle) -> bool {
        match p.angle {
            Angle::A0 => self.a0.has(p.pos.x as int, p.pos.y as int),
            Angle::A90 => self.a90.has(p.pos.x as int, p.pos.y as int),
            Angle::A180 => self.a180.has(p.pos.x as int, p.pos.y as int),
            Angle::A270 => self.a270.has(p.pos.x as int, p.pos.y as int),
        }
    }

    /// How many flags are not set.
    pub closed spec fn unset(&self) -> nat {
        self.a0.unset() + self.a90.unset() + self.a180.unset() + self.a270.unset()
    }

    /// Flags for a grid of `width` by `height` cells, none set.
    pub fn new(width: usize, height: usize) -> (r: PoseFlags)
        ensures
            r.wf(),
            r.width() == width,
            r.height() == height,
            forall|p: PosAngle| !#[trigger] r.has(p),
    {
        PoseFlags {
            a0: Flags::new(width, height),
            a90: Flags::new(width, height),
            a180: Flags::new(width, height),
            a270: Flags::new(width, height),
        }
    }

    /// Whether the flag of pose `p` is set.
    pub fn get(&self, p: PosAngle) -> (r: bool)
        requires
            self.wf(),
            0 <= p.pos.x < self.width(),
            0 <= p.pos.y < self.height(),
        ensures
            r == self.has(p),
    {
        let x = p.pos.x as usize;
        let y = p.pos.y as usize;
        match p.angle {
            Angle::A0 => self.a0.get(x, y),
            Angle::A90 => self.a90.get(x, y),
            Angle::A180 => self.a180.get(x, y),
            Angle::A270 => self.a270.get(x, y),
        }
    }

    /// Sets the flag of pose `p`.
    pub fn set(&mut self, p: PosAngle)
        requires
            old(self).wf(),
            0 <= p.pos.x < old(self).width(),
            0 <= p.pos.y < old(self).height(),
        ensures
            final(self).wf(),
            final(self).width() == old(self).width(),
            final(self).height() == old(self).height(),
            forall|q: PosAngle| #[trigger] final(self).has(q) == (old(self).has(q) || q == p),
            final(self).unset() + (if old(self).has(p) {
                0int
            } else {
                1int
            }) == old(self).unset(),
    {
        let x = p.pos.x as usize;
        let y = p.pos.y as usize;
        match p.angle {
            Angle::A0 => self.a0.set(x, y),
            Angle::A90 => self.a90.set(x, y),
            Angle::A180 => self.a180.set(x, y),
            Angle::A270 => self.a270.set(x, y),
        }
    }
}

/// Where `action` takes an agent, as `hop` defines it.
pub fn try_hop(grid: &Grid, drill: usize, fast: usize, pose: PosAngle, len: usize, action: Action) -> (r:
    Option<PosAngle>)
    requires
        grid.wf(),
        grid.in_range(pose.pos.x as int, pose.pos.y as int),
        action.moves() || action.turns(),
    ensures
        r == hop(grid, drill as nat, fast as nat, pose, len as nat, action),
        r matches Some(q) ==> grid.in_range(q.pos.x as int, q.pos.y as int),
{
    let next = pose.apply_action(action);
    if !grid.is_in_range(next.pos) {
        return None;
    }
    let can_use_drill = drill > len;
    if !can_use_drill && !grid.is_free(next.pos) {
        return None;
    }
    if fast > len && action.is_move() {
        let far = next.apply_action(action);
        if grid.is_in_range(far.pos) && (grid.is_free(far.pos) || can_use_drill) {
            Some(far)
        } else {
            Some(next)
        }
    } else {
        Some(next)
    }
}

/// The `j`-th move that a search for a cell tries from a step.
pub open spec fn tried_move(j: int) -> Action {
    if j == 0 {
        Action::MoveUp
    } else if j == 1 {
        Action::MoveDown
    } else if j == 2 {
        Action::MoveLeft
    } else {
        Action::MoveRight
    }
}

/// The `j`-th action that a search for a pose to paint from tries from a step that faces
/// `angle`: the four moves, with the body's left and right hand first, then the two turns.
pub open spec fn tried(angle: Angle, j: int) -> Action {
    if j == 4 {
        Action::TurnClockWise
    } else if j == 5 {
        Action::TurnCounterClockWise
    } else {
        match angle {
            Angle::A0 => if j == 0 {
                Action::MoveUp
            } else if j == 1 {
                Action::MoveDown
            } else if j == 2 {
                Action::MoveRight
            } else {
                Action::MoveLeft
            },
            Angle::A90 => if j == 0 {
                Action::MoveRight
            } else if j == 1 {
                Action::MoveLeft
            } else if j == 2 {
                Action::MoveDown
            } else {
                Action::MoveUp
            },
            Angle::A180 => if j == 0 {
                Action::MoveDown
            } else if j == 1 {
                Action::MoveUp
            } else if j == 2 {
                Action::MoveLeft
            } else {
                Action::MoveRight
            },
            Angle::A270 => if j == 0 {
                Action::MoveLeft
            } else if j == 1 {
                Action::MoveRight
            } else if j == 2 {
                Action::MoveUp
            } else {
                Action::MoveDown
            },
        }
    }
}

fn move_in_order(j: usize) -> (r: Action)
    requires
        j < 4,
    ensures
        r == tried_move(j as int),
        r.moves(),
{
    if j == 0 {
        Action::MoveUp
    } else if j == 1 {
        Action::MoveDown
    } else if j == 2 {
        Action::MoveLeft
    } else {
        Action::MoveRight
    }
}

fn action_in_order(angle: Angle, j: usize) -> (r: Action)
    requires
        j < 6,
    ensures
        r == tried(angle, j as int),
        r.moves() || r.turns(),
{
    if j == 4 {
        Action::TurnClockWise
    } else if j == 5 {
        Action::TurnCounterClockWise
    } else {
        match angle {
            Angle::A0 => if j == 0 {
                Action::MoveUp
            } else if j == 1 {
                Action::MoveDown
            } else if j == 2 {
                Action::MoveRight
            } else {
                Action::MoveLeft
            },
            Angle::A90 => if j == 0 {
                Action::MoveRight
            } else if j == 1 {
                Action::MoveLeft
            } else if j == 2 {
                Action::MoveDown
            } else {
                Action::MoveUp
            },
            Angle::A180 => if j == 0 {
                Action::MoveDown
            } else if j == 1 {
                Action::MoveUp
            } else if j == 2 {
                Action::MoveLeft
            } else {
                Action::MoveRight
            },
            Angle::A270 => if j == 0 {
                Action::MoveLeft
            } else if j == 1 {
                Action::MoveRight
            } else if j == 2 {
                Action::MoveUp
            } else {
                Action::MoveDown
            },
        }
    }
}

/// Every move is tried by a search for a cell, and every move and turn by a search for a
/// pose to paint from, whatever the step faces.
pub proof fn lemma_tried_all(angle: Angle, a: Action)
    ensures
        a.moves() ==> exists|j: int| 0 <= j < 4 && #[trigger] tried_move(j) == a,
        a.moves() || a.turns() ==> exists|j: int| 0 <= j < 6 && #[trigger] tried(angle, j) == a,
{
    if a.moves() {
        assert(tried_move(0) == Action::MoveUp);
        assert(tried_move(1) == Action::MoveDown);
        assert(tried_move(2) == Action::MoveLeft);
        assert(tried_move(3) == Action::MoveRight);
    }
    if a.moves() || a.turns() {
        assert(tried(angle, 0).moves());
        assert(tried(angle, 1).moves());
        assert(tried(angle, 2).moves());
        assert(tried(angle, 3).moves());
        assert(tried(angle, 4) == Action::TurnClockWise);
        assert(tried(angle, 5) == Action::TurnCounterClockWise);
        assert(tried(angle, 0) != tried(angle, 1) && tried(angle, 0) != tried(angle, 2) && tried(angle, 0)
            != tried(angle, 3) && tried(angle, 1) != tried(angle, 2) && tried(angle, 1) != tried(angle, 3)
            && tried(angle, 2) != tried(angle, 3));
    }
}

/// Step `j` was found before step `k`: from an earlier step, or from the same step by an
/// action that is tried earlier.
spec fn in_order(nodes: Seq<MoveStep>, quest: Quest, j: int, k: int) -> bool {
    let pj = nodes[j].prev->0 as int;
    let pk = nodes[k].prev->0 as int;
    pj < pk || (pj == pk && rank(quest, nodes[pj].pos_angle, nodes[j].prev_action->0) < rank(
        quest,
        nodes[pk].pos_angle,
        nodes[k].prev_action->0,
    ))
}

/// Step `j` was found before the action of place `place` was tried from step `head`.
spec fn not_later(nodes: Seq<MoveStep>, quest: Quest, j: int, head: int, place: int) -> bool {
    let pj = nodes[j].prev->0 as int;
    pj < head || (pj == head && rank(quest, nodes[head].pos_angle, nodes[j].prev_action->0) < place)
}

/// Every step but the first was found before the action of place `place` was tried from
/// step `head`.
spec fn latest(nodes: Seq<MoveStep>, quest: Quest, head: int, place: int) -> bool {
    forall|j: int| 1 <= j < nodes.len() ==> #[trigger] not_later(nodes, quest, j, head, place)
}

/// Step `s` is the first step, or was found no later than by the action `a` from step `k`.
spec fn first_hit(nodes: Seq<MoveStep>, quest: Quest, s: int, k: int, a: Action) -> bool {
    let ps = nodes[s].prev->0 as int;
    s == 0 || ps < k || (ps == k && rank(quest, nodes[k].pos_angle, nodes[s].prev_action->0) <= rank(
        quest,
        nodes[k].pos_angle,
        a,
    ))
}

/// What a running search holds: the steps form a tree of poses of the grid, in the order
/// in which they were found, which is the order of their length; every pose that is
/// flagged has a step, and no two steps have the same pose.
spec fn searching(
    grid: &Grid,
    drill: nat,
    fast: nat,
    start: PosAngle,
    quest: Quest,
    nodes: Seq<MoveStep>,
    visited: PoseFlags,
    slot: Map<PosAngle, int>,
) -> bool {
    &&& grid.wf()
    &&& linked(grid, drill, fast, start, nodes)
    &&& visited.wf()
    &&& visited.width() == grid.max_x
    &&& visited.height() == grid.max_y
    &&& visited.has(start)
    &&& slot[start] == 0
    &&& forall|k: int|
        0 <= k < nodes.len() ==> {
            &&& grid.in_range((#[trigger] nodes[k]).pos_angle.pos.x as int, nodes[k].pos_angle.pos.y as int)
            &&& nodes[k].len <= k
            &&& k >= 1 ==> (nodes[k].prev_action matches Some(a) && quest.allows(a))
            &&& visited.has(nodes[k].pos_angle)
            &&& slot[nodes[k].pos_angle] == k
        }
    &&& forall|j: int, k: int|
        0 <= j <= k < nodes.len() ==> (#[trigger] nodes[j]).len <= (#[trigger] nodes[k]).len
    &&& forall|j: int, k: int| 1 <= j < k < nodes.len() ==> #[trigger] in_order(nodes, quest, j, k)
    &&& forall|p: PosAngle| #[trigger]
        visited.has(p) ==> slot.contains_key(p) && 0 <= slot[p] < nodes.len() && nodes[slot[p]].pos_angle
            == p
}

/// No step is more than one action longer than step `head`.
spec fn layered(nodes: Seq<MoveStep>, head: int) -> bool {
    0 <= head < nodes.len() ==> forall|k: int|
        0 <= k < nodes.len() ==> (#[trigger] nodes[k]).len <= nodes[head].len + 1
}

/// `a` leads from step `k` to a pose that is flagged and is not looked for; its step is at
/// most one action longer and was found no later than by `a` from step `k`.
spec fn node_settled(
    grid: &Grid,
    drill: nat,
    fast: nat,
    quest: Quest,
    visited: PoseFlags,
    nodes: Seq<MoveStep>,
    slot: Map<PosAngle, int>,
    k: int,
    a: Action,
) -> bool {
    match hop(grid, drill, fast, nodes[k].pos_angle, nodes[k].len as nat, a) {
        Some(q) => visited.has(q) && !quest.met(grid, q) && nodes[slot[q]].len <= nodes[k].len + 1
            && first_hit(nodes, quest, slot[q], k, a),
        None => true,
    }
}

/// The first `head` steps are settled for every action that the search tries.
spec fn processed(
    grid: &Grid,
    drill: nat,
    fast: nat,
    quest: Quest,
    visited: PoseFlags,
    nodes: Seq<MoveStep>,
    slot: Map<PosAngle, int>,
    head: int,
) -> bool {
    forall|k: int, a: Action|
        0 <= k < head && quest.allows(a) ==> #[trigger] node_settled(
            grid,
            drill,
            fast,
            quest,
            visited,
            nodes,
            slot,
            k,
            a,
        )
}

/// Where `a` leads from step `k` to a pose as far as the plan's and an arm can paint
/// there, the pose is no better than the plan's.
spec fn node_dominated(
    grid: &Grid,
    drill: nat,
    fast: nat,
    arms: Seq<PosDiff>,
    nodes: Seq<MoveStep>,
    k: int,
    a: Action,
    best: Plan,
) -> bool {
    match hop(grid, drill, fast, nodes[k].pos_angle, nodes[k].len as nat, a) {
        Some(q) => nodes[k].len + 1 == best.len && mark_count(arms, arms.len() as int, q, grid) > 0
            ==> no_better(
            mark_count(arms, arms.len() as int, q, grid) as int,
            fringe(arms, q, grid).len() as int,
            best.mark_number as int,
            best.adj_empty_number as int,
        ),
        None => true,
    }
}

/// The first `head` steps are dominated by the plan for every action.
spec fn dominated(
    grid: &Grid,
    drill: nat,
    fast: nat,
    arms: Seq<PosDiff>,
    nodes: Seq<MoveStep>,
    head: int,
    best: Plan,
) -> bool {
    forall|k: int, a: Action|
        0 <= k < head && (a.moves() || a.turns()) ==> #[trigger] node_dominated(
            grid,
            drill,
            fast,
            arms,
            nodes,
            k,
            a,
            best,
        )
}

proof fn lemma_route_allowed(
    grid: &Grid,
    drill: nat,
    fast: nat,
    start: PosAngle,
    quest: Quest,
    nodes: Seq<MoveStep>,
    visited: PoseFlags,
    slot: Map<PosAngle, int>,
    k: int,
)
    requires
        searching(grid, drill, fast, start, quest, nodes, visited, slot),
        0 <= k < nodes.len(),
    ensures
        route_allowed(quest, route_of(nodes, k)),
    decreases k,
{
    if k >= 1 {
        assert(step_linked(grid, drill, fast, nodes, k));
        let p = nodes[k].prev->0 as int;
        let a = nodes[k].prev_action->0;
        lemma_route_allowed(grid, drill, fast, start, quest, nodes, visited, slot, p);
        let r = route_of(nodes, k);
        assert(r == route_of(nodes, p).push(a));
        assert forall|i: int| 0 <= i < r.len() implies quest.allows(#[trigger] r[i]) by {
            if i < r.len() - 1 {
                assert(r[i] == route_of(nodes, p)[i]);
            }
        }
    }
}

/// A search whose steps are all settled has sealed the poses it has flagged.
proof fn lemma_search_sealed(
    grid: &Grid,
    drill: nat,
    fast: nat,
    start: PosAngle,
    quest: Quest,
    nodes: Seq<MoveStep>,
    visited: PoseFlags,
    slot: Map<PosAngle, int>,
)
    requires
        searching(grid, drill, fast, start, quest, nodes, visited, slot),
        processed(grid, drill, fast, quest, visited, nodes, slot, nodes.len() as int),
    ensures
        exhausted(grid, drill, fast, start, quest),
{
    let depth = Map::new(|p: PosAngle| visited.has(p), |p: PosAngle| nodes[slot[p]].len as nat);
    assert forall|p: PosAngle, a: Action| depth.contains_key(p) && quest.allows(a) implies #[trigger] hop_settled(
        grid,
        drill,
        fast,
        quest,
        depth,
        p,
        a,
    ) by {
        let k = slot[p];
        assert(node_settled(grid, drill, fast, quest, visited, nodes, slot, k, a));
    }
    assert(sealed(grid, drill, fast, start, quest, depth));
}

/// Without drill and speed, a route that is no longer than step `head`, before which all
/// steps are settled, ends on a flagged pose whose step is no longer than the route, and
/// not on what the search looks for.
proof fn lemma_short_routes(
    grid: &Grid,
    drill: nat,
    fast: nat,
    start: PosAngle,
    quest: Quest,
    nodes: Seq<MoveStep>,
    visited: PoseFlags,
    slot: Map<PosAngle, int>,
    head: int,
    route: Seq<Action>,
)
    requires
        searching(grid, drill, fast, start, quest, nodes, visited, slot),
        steady(drill, fast, (nodes[head].len + 1) as nat),
        processed(grid, drill, fast, quest, visited, nodes, slot, head),
        0 <= head < nodes.len(),
        route_allowed(quest, route),
        route.len() <= nodes[head].len,
    ensures
        route_end(grid, drill, fast, start, route) matches Some(q) ==> {
            &&& visited.has(q)
            &&& nodes[slot[q]].len <= route.len()
            &&& route.len() >= 1 ==> !quest.met(grid, q)
        },
    decreases route.len(),
{
    if route.len() > 0 {
        let shorter = route.drop_last();
        assert forall|i: int| 0 <= i < shorter.len() implies quest.allows(#[trigger] shorter[i]) by {
            assert(shorter[i] == route[i]);
        }
        lemma_short_routes(grid, drill, fast, start, quest, nodes, visited, slot, head, shorter);
        match route_end(grid, drill, fast, start, shorter) {
            Some(p) => {
                let k = slot[p];
                let a = route.last();
                assert(quest.allows(a));
                assert(nodes[k].len < nodes[head].len);
                if k >= head {
                    assert(nodes[head].len <= nodes[k].len);
                }
                assert(node_settled(grid, drill, fast, quest, visited, nodes, slot, k, a));
                if hop(grid, drill, fast, p, (route.len() - 1) as nat, a) is Some {
                    lemma_hop_earlier(
                        grid,
                        drill,
                        fast,
                        p,
                        nodes[k].len as nat,
                        (route.len() - 1) as nat,
                        a,
                        (nodes[head].len + 1) as nat,
                    );
                }
            },
            None => {},
        }
    }
}

/// Without drill and speed, nothing that the search looks for is nearer than one action
/// more than step `head`, before which all steps are settled.
proof fn lemma_nothing_nearer(
    grid: &Grid,
    drill: nat,
    fast: nat,
    start: PosAngle,
    quest: Quest,
    nodes: Seq<MoveStep>,
    visited: PoseFlags,
    slot: Map<PosAngle, int>,
    head: int,
)
    requires
        searching(grid, drill, fast, start, quest, nodes, visited, slot),
        steady(drill, fast, (nodes[head].len + 1) as nat),
        processed(grid, drill, fast, quest, visited, nodes, slot, head),
        0 <= head < nodes.len(),
    ensures
        nothing_nearer(grid, drill, fast, start, quest, (nodes[head].len + 1) as nat),
{
    assert forall|route: Seq<Action>|
        #![trigger route_end(grid, drill, fast, start, route)]
        route_allowed(quest, route) && 1 <= route.len() < nodes[head].len + 1 implies !(route_end(
        grid,
        drill,
        fast,
        start,
        route,
    ) matches Some(q) && quest.met(grid, q)) by {
        lemma_short_routes(grid, drill, fast, start, quest, nodes, visited, slot, head, route);
    }
}

/// Of two steps of the same length, the one that was found first has the route that is
/// tried first.
proof fn lemma_found_in_order(
    grid: &Grid,
    drill: nat,
    fast: nat,
    start: PosAngle,
    quest: Quest,
    nodes: Seq<MoveStep>,
    visited: PoseFlags,
    slot: Map<PosAngle, int>,
    j: int,
    k: int,
)
    requires
        searching(grid, drill, fast, start, quest, nodes, visited, slot),
        1 <= j < k < nodes.len(),
        nodes[j].len == nodes[k].len,
    ensures
        route_before(grid, drill, fast, start, quest, route_of(nodes, j), route_of(nodes, k)),
    decreases k,
{
    assert(in_order(nodes, quest, j, k));
    assert(step_linked(grid, drill, fast, nodes, j));
    assert(step_linked(grid, drill, fast, nodes, k));
    let pj = nodes[j].prev->0 as int;
    let pk = nodes[k].prev->0 as int;
    let aj = nodes[j].prev_action->0;
    let ak = nodes[k].prev_action->0;
    lemma_route_of(grid, drill, fast, start, nodes, pj);
    lemma_route_of(grid, drill, fast, start, nodes, pk);
    assert(route_of(nodes, j) == route_of(nodes, pj).push(aj));
    assert(route_of(nodes, k) == route_of(nodes, pk).push(ak));
    if pj == pk {
        lemma_before_at_end(grid, drill, fast, start, quest, route_of(nodes, pj), aj, ak);
    } else {
        assert(nodes[pj].len == nodes[pk].len);
        lemma_found_in_order(grid, drill, fast, start, quest, nodes, visited, slot, pj, pk);
        lemma_before_goes_on(grid, drill, fast, start, quest, route_of(nodes, pj), route_of(nodes, pk), aj, ak);
    }
}

/// Without drill and speed, the route of a step is the first that is tried of the routes of
/// its length to its pose, as long as the steps that are shorter are settled.
proof fn lemma_first_route(
    grid: &Grid,
    drill: nat,
    fast: nat,
    start: PosAngle,
    quest: Quest,
    nodes: Seq<MoveStep>,
    visited: PoseFlags,
    slot: Map<PosAngle, int>,
    head: int,
    k: int,
    r: Seq<Action>,
)
    requires
        searching(grid, drill, fast, start, quest, nodes, visited, slot),
        steady(drill, fast, (nodes[head].len + 1) as nat),
        processed(grid, drill, fast, quest, visited, nodes, slot, head),
        0 <= head < nodes.len(),
        0 <= k < nodes.len(),
        nodes[k].len <= nodes[head].len,
        route_allowed(quest, r),
        r.len() == nodes[k].len,
        route_end(grid, drill, fast, start, r) == Some(nodes[k].pos_angle),
    ensures
        route_not_after(grid, drill, fast, start, quest, route_of(nodes, k), r),
    decreases r.len(),
{
    lemma_route_of(grid, drill, fast, start, nodes, k);
    if r.len() == 0 {
        assert(route_of(nodes, k) =~= r);
    } else {
        let shorter = r.drop_last();
        let b = r.last();
        assert(r =~= shorter.push(b));
        assert forall|i: int| 0 <= i < shorter.len() implies quest.allows(#[trigger] shorter[i]) by {
            assert(shorter[i] == r[i]);
        }
        assert(quest.allows(b));
        lemma_short_routes(grid, drill, fast, start, quest, nodes, visited, slot, head, shorter);
        let p = route_end(grid, drill, fast, start, shorter)->0;
        let m = slot[p];
        lemma_hop_earlier(
            grid,
            drill,
            fast,
            p,
            nodes[m].len as nat,
            (r.len() - 1) as nat,
            b,
            (nodes[head].len + 1) as nat,
        );
        // The step of `p` is settled: it is shorter than step `k`.
        assert(m < head) by {
            if m >= head {
                assert(nodes[head].len <= nodes[m].len);
            }
        }
        assert(node_settled(grid, drill, fast, quest, visited, nodes, slot, m, b));
        assert(slot[nodes[k].pos_angle] == k);
        assert(nodes[m].len == r.len() - 1);
        assert(first_hit(nodes, quest, k, m, b));
        lemma_first_route(grid, drill, fast, start, quest, nodes, visited, slot, head, m, shorter);
        assert(k >= 1);
        assert(step_linked(grid, drill, fast, nodes, k));
        let pk = nodes[k].prev->0 as int;
        let ak = nodes[k].prev_action->0;
        assert(route_of(nodes, k) == route_of(nodes, pk).push(ak));
        lemma_route_of(grid, drill, fast, start, nodes, pk);
        lemma_route_of(grid, drill, fast, start, nodes, m);
        if pk == m {
            lemma_goes_on_not_after(grid, drill, fast, start, quest, route_of(nodes, m), shorter, ak, b, p);
        } else {
            assert(pk < m);
            assert(nodes[pk].len == nodes[m].len);
            assert(pk >= 1);
            lemma_found_in_order(grid, drill, fast, start, quest, nodes, visited, slot, pk, m);
            lemma_before_chain(grid, drill, fast, start, quest, route_of(nodes, pk), route_of(nodes, m), shorter);
            lemma_before_goes_on(grid, drill, fast, start, quest, route_of(nodes, pk), shorter, ak, b);
        }
    }
}

/// A route that is not tried after another, and goes on with an action that is not tried
/// after the action with which the other goes on, is not tried after the other.
proof fn lemma_goes_on_not_after(
    grid: &Grid,
    drill: nat,
    fast: nat,
    start: PosAngle,
    quest: Quest,
    r1: Seq<Action>,
    r2: Seq<Action>,
    a: Action,
    b: Action,
    p: PosAngle,
)
    requires
        route_not_after(grid, drill, fast, start, quest, r1, r2),
        route_end(grid, drill, fast, start, r1) == Some(p),
        quest.allows(a),
        quest.allows(b),
        rank(quest, p, a) <= rank(quest, p, b),
    ensures
        route_not_after(grid, drill, fast, start, quest, r1.push(a), r2.push(b)),
{
    if r1 == r2 {
        if rank(quest, p, a) == rank(quest, p, b) {
            lemma_rank_apart(quest, p, a, b);
        } else {
            lemma_before_at_end(grid, drill, fast, start, quest, r1, a, b);
        }
    } else {
        lemma_before_goes_on(grid, drill, fast, start, quest, r1, r2, a, b);
    }
}

/// Without drill and speed, the route to what the action `a` of place `place` hits from
/// step `head` is the first that is tried of the routes of its length to what the search
/// looks for, when all steps before `head` and all actions before `place` are settled.
proof fn lemma_first_goal(
    grid: &Grid,
    drill: nat,
    fast: nat,
    start: PosAngle,
    quest: Quest,
    nodes: Seq<MoveStep>,
    visited: PoseFlags,
    slot: Map<PosAngle, int>,
    head: int,
    a: Action,
    other: Seq<Action>,
)
    requires
        searching(grid, drill, fast, start, quest, nodes, visited, slot),
        steady(drill, fast, (nodes[head].len + 1) as nat),
        processed(grid, drill, fast, quest, visited, nodes, slot, head),
        0 <= head < nodes.len(),
        quest.allows(a),
        forall|b: Action|
            quest.allows(b) && rank(quest, nodes[head].pos_angle, b) < rank(quest, nodes[head].pos_angle, a)
                ==> #[trigger] node_settled(grid, drill, fast, quest, visited, nodes, slot, head, b),
        route_allowed(quest, other),
        other.len() == nodes[head].len + 1,
        route_end(grid, drill, fast, start, other) matches Some(g) && quest.met(grid, g),
    ensures
        route_not_after(grid, drill, fast, start, quest, route_of(nodes, head).push(a), other),
{
    let shorter = other.drop_last();
    let b = other.last();
    assert(other =~= shorter.push(b));
    assert forall|i: int| 0 <= i < shorter.len() implies quest.allows(#[trigger] shorter[i]) by {
        assert(shorter[i] == other[i]);
    }
    assert(quest.allows(b));
    lemma_short_routes(grid, drill, fast, start, quest, nodes, visited, slot, head, shorter);
    let p = route_end(grid, drill, fast, start, shorter)->0;
    let m = slot[p];
    lemma_hop_earlier(
        grid,
        drill,
        fast,
        p,
        nodes[m].len as nat,
        (other.len() - 1) as nat,
        b,
        (nodes[head].len + 1) as nat,
    );
    if m < head {
        assert(node_settled(grid, drill, fast, quest, visited, nodes, slot, m, b));
    } else {
        assert(nodes[head].len <= nodes[m].len);
        lemma_first_route(grid, drill, fast, start, quest, nodes, visited, slot, head, m, shorter);
        lemma_route_of(grid, drill, fast, start, nodes, head);
        lemma_route_of(grid, drill, fast, start, nodes, m);
        if m == head {
            if rank(quest, p, b) < rank(quest, p, a) {
                assert(node_settled(grid, drill, fast, quest, visited, nodes, slot, head, b));
            }
            lemma_goes_on_not_after(grid, drill, fast, start, quest, route_of(nodes, head), shorter, a, b, p);
        } else {
            assert(head >= 1) by {
                if head == 0 {
                    assert(nodes[m].len >= 1);
                }
            }
            lemma_found_in_order(grid, drill, fast, start, quest, nodes, visited, slot, head, m);
            lemma_before_chain(grid, drill, fast, start, quest, route_of(nodes, head), route_of(nodes, m), shorter);
            lemma_before_goes_on(grid, drill, fast, start, quest, route_of(nodes, head), shorter, a, b);
        }
    }
}

/// Without drill and speed, a plan that dominates every step of a search that has run to
/// its end is the best at its length.
proof fn lemma_best_at_len(
    grid: &Grid,
    drill: nat,
    fast: nat,
    start: PosAngle,
    arms: Seq<PosDiff>,
    nodes: Seq<MoveStep>,
    visited: PoseFlags,
    slot: Map<PosAngle, int>,
    first: int,
    best: Plan,
)
    requires
        searching(grid, drill, fast, start, Quest::Paint(arms), nodes, visited, slot),
        steady(drill, fast, (nodes[first].len + 1) as nat),
        processed(grid, drill, fast, Quest::Paint(arms), visited, nodes, slot, first),
        dominated(grid, drill, fast, arms, nodes, nodes.len() as int, best),
        0 <= first < nodes.len(),
        nodes[first].len + 1 == best.len,
    ensures
        best_at_len(grid, drill, fast, start, arms, best),
{
    let quest = Quest::Paint(arms);
    assert forall|route: Seq<Action>|
        #![trigger route_end(grid, drill, fast, start, route)]
        route_allowed(quest, route) && route.len() == best.len implies (route_end(grid, drill, fast, start, route)
        matches Some(q) ==> mark_count(arms, arms.len() as int, q, grid) > 0 ==> no_better(
        mark_count(arms, arms.len() as int, q, grid) as int,
        fringe(arms, q, grid).len() as int,
        best.mark_number as int,
        best.adj_empty_number as int,
    )) by {
        let shorter = route.drop_last();
        assert forall|i: int| 0 <= i < shorter.len() implies quest.allows(#[trigger] shorter[i]) by {
            assert(shorter[i] == route[i]);
        }
        lemma_short_routes(grid, drill, fast, start, quest, nodes, visited, slot, first, shorter);
        match route_end(grid, drill, fast, start, shorter) {
            Some(p) => {
                let k = slot[p];
                let a = route.last();
                assert(quest.allows(a));
                if hop(grid, drill, fast, p, (route.len() - 1) as nat, a) is Some {
                    lemma_hop_earlier(
                        grid,
                        drill,
                        fast,
                        p,
                        nodes[k].len as nat,
                        (route.len() - 1) as nat,
                        a,
                        (nodes[first].len + 1) as nat,
                    );
                }
                if k < first {
                    assert(node_settled(grid, drill, fast, quest, visited, nodes, slot, k, a));
                } else {
                    assert(nodes[first].len <= nodes[k].len);
                    assert(node_dominated(grid, drill, fast, arms, nodes, k, a, best));
                }
            },
            None => {},
        }
    }
}

/// Adds the pose `q`, found new from step `parent` by `action`, to the steps.
fn enqueue(
    grid: &Grid,
    drill: usize,
    fast: usize,
    Ghost(start): Ghost<PosAngle>,
    Ghost(quest): Ghost<Quest>,
    nodes: &mut Vec<MoveStep>,
    visited: &mut PoseFlags,
    Ghost(slot): Ghost<Map<PosAngle, int>>,
    parent: usize,
    action: Action,
    q: PosAngle,
) -> (r: Ghost<Map<PosAngle, int>>)
    requires
        searching(grid, drill as nat, fast as nat, start, quest, old(nodes)@, *old(visited), slot),
        layered(old(nodes)@, parent as int),
        latest(
            old(nodes)@,
            quest,
            parent as int,
            rank(quest, old(nodes)@[parent as int].pos_angle, action),
        ),
        parent < old(nodes)@.len(),
        quest.allows(action),
        hop(
            grid,
            drill as nat,
            fast as nat,
            old(nodes)@[parent as int].pos_angle,
            old(nodes)@[parent as int].len as nat,
            action,
        ) == Some(q),
        grid.in_range(q.pos.x as int, q.pos.y as int),
        !old(visited).has(q),
    ensures
        searching(grid, drill as nat, fast as nat, start, quest, final(nodes)@, *final(visited), r@),
        layered(final(nodes)@, parent as int),
        latest(
            final(nodes)@,
            quest,
            parent as int,
            rank(quest, old(nodes)@[parent as int].pos_angle, action) + 1,
        ),
        r@[q] == old(nodes)@.len(),
        final(nodes)@[old(nodes)@.len() as int].prev == Some(parent),
        final(nodes)@[old(nodes)@.len() as int].prev_action == Some(action),
        final(nodes)@.len() == old(nodes)@.len() + 1,
        forall|k: int| 0 <= k < old(nodes)@.len() ==> final(nodes)@[k] == old(nodes)@[k],
        forall|p: PosAngle| #[trigger] final(visited).has(p) == (old(visited).has(p) || p == q),
        forall|p: PosAngle| old(visited).has(p) ==> #[trigger] r@[p] == slot[p],
        final(nodes)@[r@[q]].len == old(nodes)@[parent as int].len + 1,
        final(visited).unset() + 1 == old(visited).unset(),
{
    let ghost before = nodes@;
    let ghost seen = *visited;
    let from = nodes[parent];
    let at = nodes.len();
    assert(from.len <= parent);
    visited.set(q);
    nodes.push(
        MoveStep {
            pos_angle: q,
            len: from.len + 1,
            mark_number: 0,
            adj_empty_number: 0,
            prev_action: Some(action),
            prev: Some(parent),
        },
    );
    let ghost slot2 = slot.insert(q, at as int);
    proof {
        let after = nodes@;
        assert forall|k: int| 1 <= k < after.len() implies #[trigger] step_linked(
            grid,
            drill as nat,
            fast as nat,
            after,
            k,
        ) by {
            if k < before.len() {
                assert(step_linked(grid, drill as nat, fast as nat, before, k));
                assert(after[k] == before[k]);
            }
        }
        assert forall|k: int| 0 <= k < after.len() implies {
            &&& grid.in_range((#[trigger] after[k]).pos_angle.pos.x as int, after[k].pos_angle.pos.y as int)
            &&& after[k].len <= k
            &&& k >= 1 ==> (after[k].prev_action matches Some(a) && quest.allows(a))
            &&& visited.has(after[k].pos_angle)
            &&& slot2[after[k].pos_angle] == k
        } by {
            if k < before.len() {
                assert(after[k] == before[k]);
                assert(seen.has(before[k].pos_angle));
            }
        }
        assert forall|j: int, k: int| 1 <= j < k < after.len() implies #[trigger] in_order(
            after,
            quest,
            j,
            k,
        ) by {
            assert(after[j] == before[j]);
            assert(step_linked(grid, drill as nat, fast as nat, before, j));
            assert(after[before[j].prev->0 as int] == before[before[j].prev->0 as int]);
            if k < before.len() {
                assert(after[k] == before[k]);
                assert(step_linked(grid, drill as nat, fast as nat, before, k));
                assert(after[before[k].prev->0 as int] == before[before[k].prev->0 as int]);
                assert(in_order(before, quest, j, k));
            } else {
                assert(not_later(
                    before,
                    quest,
                    j,
                    parent as int,
                    rank(quest, before[parent as int].pos_angle, action),
                ));
                assert(after[parent as int] == before[parent as int]);
            }
        }
        assert forall|j: int| 1 <= j < after.len() implies #[trigger] not_later(
            after,
            quest,
            j,
            parent as int,
            rank(quest, before[parent as int].pos_angle, action) + 1,
        ) by {
            assert(after[parent as int] == before[parent as int]);
            if j < before.len() {
                assert(after[j] == before[j]);
                assert(not_later(
                    before,
                    quest,
                    j,
                    parent as int,
                    rank(quest, before[parent as int].pos_angle, action),
                ));
            }
        }
        assert forall|j: int, k: int| 0 <= j <= k < after.len() implies (#[trigger] after[j]).len <= (
        #[trigger] after[k]).len by {
            if k < before.len() {
                assert(after[j] == before[j]);
                assert(after[k] == before[k]);
            } else if j < before.len() {
                assert(after[j] == before[j]);
                assert(before[j].len <= before[parent as int].len + 1);
            }
        }
        assert forall|k: int| 0 <= k < after.len() implies (#[trigger] after[k]).len <= after[parent as int].len
            + 1 by {
            if k < before.len() {
                assert(after[k] == before[k]);
                assert(before[k].len <= before[parent as int].len + 1);
            }
        }
        assert forall|p: PosAngle| #[trigger] visited.has(p) implies slot2.contains_key(p) && 0 <= slot2[p]
            < after.len() && after[slot2[p]].pos_angle == p by {
            if p != q {
                assert(seen.has(p));
                assert(after[slot[p]] == before[slot[p]]);
            }
        }
        assert(seen.has(start));
    }
    Ghost(slot2)
}

/// Settled steps stay settled when a pose is added to the steps.
proof fn lemma_processed_stays(
    grid: &Grid,
    drill: nat,
    fast: nat,
    quest: Quest,
    seen: PoseFlags,
    visited: PoseFlags,
    before: Seq<MoveStep>,
    after: Seq<MoveStep>,
    slot: Map<PosAngle, int>,
    slot2: Map<PosAngle, int>,
    head: int,
)
    requires
        processed(grid, drill, fast, quest, seen, before, slot, head),
        head <= before.len() <= after.len(),
        forall|k: int| 0 <= k < before.len() ==> after[k] == before[k],
        forall|p: PosAngle| #[trigger] seen.has(p) ==> visited.has(p),
        forall|p: PosAngle| seen.has(p) ==> #[trigger] slot2[p] == slot[p],
        forall|p: PosAngle| #[trigger]
            seen.has(p) ==> slot.contains_key(p) && 0 <= slot[p] < before.len(),
    ensures
        processed(grid, drill, fast, quest, visited, after, slot2, head),
{
    assert forall|k: int, a: Action| 0 <= k < head && quest.allows(a) implies #[trigger] node_settled(
        grid,
        drill,
        fast,
        quest,
        visited,
        after,
        slot2,
        k,
        a,
    ) by {
        assert(node_settled(grid, drill, fast, quest, seen, before, slot, k, a));
        assert(after[k] == before[k]);
        match hop(grid, drill, fast, before[k].pos_angle, before[k].len as nat, a) {
            Some(q) => {
                assert(seen.has(q));
                assert(slot2[q] == slot[q]);
                assert(after[slot[q]] == before[slot[q]]);
            },
            None => {},
        }
    }
}

fn kind_listed(kinds: &Vec<BoosterKind>, kind: BoosterKind) -> (r: bool)
    ensures
        r == kinds@.contains(kind),
{
    let n = kinds.len();
    let mut i: usize = 0;
    while i < n
        invariant
            i <= n,
            n == kinds@.len(),
            forall|j: int| 0 <= j < i ==> kinds@[j] != kind,
        decreases n - i,
    {
        if kinds[i] == kind {
            return true;
        }
        i += 1;
    }
    false
}

fn pos_listed(cells: &Vec<Pos>, pos: Pos) -> (r: bool)
    ensures
        r == cells@.contains(pos),
{
    let n = cells.len();
    let mut i: usize = 0;
    while i < n
        invariant
            i <= n,
            n == cells@.len(),
            forall|j: int| 0 <= j < i ==> cells@[j] != pos,
        decreases n - i,
    {
        if cells[i] == pos {
            return true;
        }
        i += 1;
    }
    false
}

/// Whether `q` is what `goal` looks for.
pub fn goal_reached(goal: &Goal, pool: &Pool, mysteries: &Vec<Pos>, grid: &Grid, q: PosAngle) -> (r: bool)
    requires
        pool.wf(),
    ensures
        r == goal.quest(pool@, mysteries@).met(grid, q),
{
    match goal {
        Goal::At(t) => q.pos == *t,
        Goal::Pickup(kinds) => match pool.get(q.pos) {
            Some(kind) => kind_listed(kinds, kind),
            None => false,
        },
        Goal::Mystery => pos_listed(mysteries, q.pos),
    }
}

/// The first action of the route to step `at`, extended by `action`.
fn first_of(nodes: &Vec<MoveStep>, at: usize, action: Action) -> (r: Action)
    requires
        chained(nodes@),
        at < nodes@.len(),
    ensures
        r == route_of(nodes@, at as int).push(action)[0],
{
    if at == 0 {
        action
    } else {
        proof {
            lemma_route_first(nodes@, at as int);
        }
        MoveStep::first_action(nodes, at)
    }
}

/// Searches, breadth first and by moves alone, for the nearest pose that `goal` looks for,
/// for an agent at `start` with `drill` turns of drilling and `fast` turns of speed left.
///
/// The start itself is not looked at: an agent that stands on its goal is sent away and
/// back. `None` when the search has run dry: no route leads to what `goal` looks for, as
/// far as the agent is without speed or its speed and its drill outlast the route.
pub fn find_move_to(
    grid: &Grid,
    pool: &Pool,
    mysteries: &Vec<Pos>,
    start: PosAngle,
    drill: usize,
    fast: usize,
    goal: &Goal,
) -> (r: Option<Plan>)
    requires
        grid.wf(),
        pool.wf(),
        grid.in_range(start.pos.x as int, start.pos.y as int),
    ensures
        match r {
            Some(plan) => {
                &&& reaches(
                    grid,
                    drill as nat,
                    fast as nat,
                    start,
                    goal.quest(pool@, mysteries@),
                    plan.pos_angle,
                    plan.len as nat,
                    plan.first_action,
                )
                &&& hop(grid, drill as nat, fast as nat, start, 0, plan.first_action) is Some
                &&& plan.first_action.moves()
                &&& steady(drill as nat, fast as nat, plan.len as nat) ==> nothing_nearer(
                    grid,
                    drill as nat,
                    fast as nat,
                    start,
                    goal.quest(pool@, mysteries@),
                    plan.len as nat,
                ) && reaches_first(
                    grid,
                    drill as nat,
                    fast as nat,
                    start,
                    goal.quest(pool@, mysteries@),
                    plan.pos_angle,
                    plan.len as nat,
                    plan.first_action,
                )
            },
            None => no_way(grid, drill as nat, fast as nat, start, goal.quest(pool@, mysteries@)),
        },
{
    let ghost quest = goal.quest(pool@, mysteries@);
    let mut nodes: Vec<MoveStep> = Vec::new();
    nodes.push(
        MoveStep {
            pos_angle: start,
            len: 0,
            mark_number: 0,
            adj_empty_number: 0,
            prev_action: None,
            prev: None,
        },
    );
    let mut visited = PoseFlags::new(grid.max_x as usize, grid.max_y as usize);
    visited.set(start);
    let ghost mut slot: Map<PosAngle, int> = Map::empty().insert(start, 0int);
    let mut head: usize = 0;
    while head < nodes.len()
        invariant
            pool.wf(),
            quest == goal.quest(pool@, mysteries@),
            !(quest is Paint),
            head <= nodes@.len(),
            searching(grid, drill as nat, fast as nat, start, quest, nodes@, visited, slot),
            layered(nodes@, head as int),
            latest(nodes@, quest, head as int, 0),
            processed(grid, drill as nat, fast as nat, quest, visited, nodes@, slot, head as int),
        decreases visited.unset() + nodes@.len() - head,
    {
        let cur = nodes[head];
        let ghost measure = visited.unset() + nodes@.len();
        let mut j: usize = 0;
        while j < 4
            invariant
                pool.wf(),
                quest == goal.quest(pool@, mysteries@),
                !(quest is Paint),
                j <= 4,
                head < nodes@.len(),
                nodes@[head as int] == cur,
                searching(grid, drill as nat, fast as nat, start, quest, nodes@, visited, slot),
                layered(nodes@, head as int),
                latest(nodes@, quest, head as int, j as int),
                processed(grid, drill as nat, fast as nat, quest, visited, nodes@, slot, head as int),
                forall|i: int|
                    0 <= i < j ==> node_settled(
                        grid,
                        drill as nat,
                        fast as nat,
                        quest,
                        visited,
                        nodes@,
                        slot,
                        head as int,
                        #[trigger] tried_move(i),
                    ),
                visited.unset() + nodes@.len() == measure,
            decreases 4 - j,
        {
            let action = move_in_order(j);
            let ghost seen = visited;
            let ghost before = nodes@;
            let ghost slot0 = slot;
            proof {
                lemma_rank_tried(Angle::A0, j as int);
                assert(rank(quest, cur.pos_angle, action) == j);
                lemma_latest_later(before, quest, head as int, j as int);
            }
            match try_hop(grid, drill, fast, cur.pos_angle, cur.len, action) {
                None => {},
                Some(q) => {
                    if goal_reached(goal, pool, mysteries, grid, q) {
                        proof {
                            lemma_linked_chained(grid, drill as nat, fast as nat, start, nodes@);
                        }
                        let first = first_of(&nodes, head, action);
                        let total = nodes.len();
                        assert(cur.len <= head < total);
                        proof {
                            lemma_route_allowed(
                                grid,
                                drill as nat,
                                fast as nat,
                                start,
                                quest,
                                nodes@,
                                visited,
                                slot,
                                head as int,
                            );
                            lemma_route_extended(
                                grid,
                                drill as nat,
                                fast as nat,
                                start,
                                quest,
                                nodes@,
                                head as int,
                                action,
                                q,
                            );
                            lemma_first_moves(quest, route_of(nodes@, head as int).push(action));
                            if steady(drill as nat, fast as nat, (cur.len + 1) as nat) {
                                let d = drill as nat;
                                let f = fast as nat;
                                lemma_nothing_nearer(grid, d, f, start, quest, nodes@, visited, slot, head as int);
                                let route = route_of(nodes@, head as int).push(action);
                                assert forall|b: Action|
                                    quest.allows(b) && rank(quest, cur.pos_angle, b) < rank(
                                        quest,
                                        cur.pos_angle,
                                        action,
                                    ) implies #[trigger] node_settled(
                                    grid,
                                    d,
                                    f,
                                    quest,
                                    visited,
                                    nodes@,
                                    slot,
                                    head as int,
                                    b,
                                ) by {
                                    lemma_tried_rank(Angle::A0, b);
                                    assert(b == tried_move(rank(quest, cur.pos_angle, b)));
                                }
                                assert forall|other: Seq<Action>|
                                    #![trigger route_end(grid, d, f, start, other)]
                                    route_allowed(quest, other) && other.len() == route.len() && (route_end(
                                        grid,
                                        d,
                                        f,
                                        start,
                                        other,
                                    ) matches Some(g) && quest.met(grid, g)) implies route_not_after(
                                    grid,
                                    d,
                                    f,
                                    start,
                                    quest,
                                    route,
                                    other,
                                ) by {
                                    lemma_route_of(grid, d, f, start, nodes@, head as int);
                                    lemma_first_goal(
                                        grid,
                                        d,
                                        f,
                                        start,
                                        quest,
                                        nodes@,
                                        visited,
                                        slot,
                                        head as int,
                                        action,
                                        other,
                                    );
                                }
                                assert(tried_first(grid, d, f, start, quest, route));
                                assert(route_to(grid, d, f, start, quest, route, q, (cur.len + 1) as nat, first));
                            }
                        }
                        return Some(
                            Plan {
                                pos_angle: q,
                                len: cur.len + 1,
                                mark_number: 0,
                                adj_empty_number: 0,
                                first_action: first,
                            },
                        );
                    }
                    if !visited.get(q) {
                        let next_slot = enqueue(
                            grid,
                            drill,
                            fast,
                            Ghost(start),
                            Ghost(quest),
                            &mut nodes,
                            &mut visited,
                            Ghost(slot),
                            head,
                            action,
                            q,
                        );
                        proof {
                            slot = next_slot@;
                        }
                    } else {
                        proof {
                            if slot[q] >= 1 {
                                assert(not_later(nodes@, quest, slot[q], head as int, j as int));
                            }
                        }
                    }
                },
            }
            proof {
                lemma_processed_stays(
                    grid,
                    drill as nat,
                    fast as nat,
                    quest,
                    seen,
                    visited,
                    before,
                    nodes@,
                    slot0,
                    slot,
                    head as int,
                );
                assert forall|i: int| 0 <= i < j + 1 implies node_settled(
                    grid,
                    drill as nat,
                    fast as nat,
                    quest,
                    visited,
                    nodes@,
                    slot,
                    head as int,
                    #[trigger] tried_move(i),
                ) by {
                    if i < j {
                        lemma_settled_stays(
                            grid,
                            drill as nat,
                            fast as nat,
                            quest,
                            seen,
                            visited,
                            before,
                            nodes@,
                            slot0,
                            slot,
                            head as int,
                            tried_move(i),
                        );
                    }
                }
            }
            j += 1;
        }
        proof {
            assert forall|k: int, a: Action| 0 <= k < head + 1 && quest.allows(a) implies #[trigger] node_settled(
                grid,
                drill as nat,
                fast as nat,
                quest,
                visited,
                nodes@,
                slot,
                k,
                a,
            ) by {
                if k == head {
                    lemma_tried_all(Angle::A0, a);
                    let i = choose|i: int| 0 <= i < 4 && #[trigger] tried_move(i) == a;
                    assert(node_settled(
                        grid,
                        drill as nat,
                        fast as nat,
                        quest,
                        visited,
                        nodes@,
                        slot,
                        head as int,
                        tried_move(i),
                    ));
                }
            }
            if head + 1 < nodes@.len() {
                assert(nodes@[head as int].len <= nodes@[head + 1].len);
            }
            lemma_latest_next(nodes@, quest, head as int, 4);
        }
        head += 1;
    }
    proof {
        lemma_search_sealed(grid, drill as nat, fast as nat, start, quest, nodes@, visited, slot);
        lemma_exhausted_means_unreachable(grid, drill as nat, fast as nat, start, quest);
    }
    None
}

/// What was found before an action was tried was found before the next action was tried.
proof fn lemma_latest_later(nodes: Seq<MoveStep>, quest: Quest, head: int, place: int)
    requires
        latest(nodes, quest, head, place),
    ensures
        latest(nodes, quest, head, place + 1),
{
    assert forall|j: int| 1 <= j < nodes.len() implies #[trigger] not_later(nodes, quest, j, head, place + 1) by {
        assert(not_later(nodes, quest, j, head, place));
    }
}

/// What was found from a step was found before anything is tried from the next step.
proof fn lemma_latest_next(nodes: Seq<MoveStep>, quest: Quest, head: int, place: int)
    requires
        latest(nodes, quest, head, place),
    ensures
        latest(nodes, quest, head + 1, 0),
{
    assert forall|j: int| 1 <= j < nodes.len() implies #[trigger] not_later(nodes, quest, j, head + 1, 0) by {
        assert(not_later(nodes, quest, j, head, place));
    }
}

/// A settled step stays settled when a pose is added to the steps.
proof fn lemma_settled_stays(
    grid: &Grid,
    drill: nat,
    fast: nat,
    quest: Quest,
    seen: PoseFlags,
    visited: PoseFlags,
    before: Seq<MoveStep>,
    after: Seq<MoveStep>,
    slot: Map<PosAngle, int>,
    slot2: Map<PosAngle, int>,
    k: int,
    a: Action,
)
    requires
        node_settled(grid, drill, fast, quest, seen, before, slot, k, a),
        0 <= k < before.len() <= after.len(),
        forall|k: int| 0 <= k < before.len() ==> after[k] == before[k],
        forall|p: PosAngle| #[trigger] seen.has(p) ==> visited.has(p),
        forall|p: PosAngle| seen.has(p) ==> #[trigger] slot2[p] == slot[p],
        forall|p: PosAngle| #[trigger]
            seen.has(p) ==> slot.contains_key(p) && 0 <= slot[p] < before.len(),
    ensures
        node_settled(grid, drill, fast, quest, visited, after, slot2, k, a),
{
    assert(after[k] == before[k]);
    match hop(grid, drill, fast, before[k].pos_angle, before[k].len as nat, a) {
        Some(q) => {
            assert(seen.has(q));
            assert(slot2[q] == slot[q]);
            assert(after[slot[q]] == before[slot[q]]);
        },
        None => {},
    }
}

/// What the search for a pose to paint from hands back: a pose that a route reaches, with
/// the number of arms that can paint there and the number of unpainted cells around them.
/// Where the agent has no speed, or speed and drill outlast the plan, no such pose is
/// nearer, none at the same distance is better, and of those that are as good it is the
/// one that is tried first.
pub open spec fn paint_plan(grid: &Grid, bot: BotView, plan: Plan) -> bool {
    &&& reaches(
        grid,
        bot.drill,
        bot.fast,
        bot.pose,
        Quest::Paint(bot.arms),
        plan.pos_angle,
        plan.len as nat,
        plan.first_action,
    )
    &&& hop(grid, bot.drill, bot.fast, bot.pose, 0, plan.first_action) is Some
    &&& plan.mark_number == mark_count(bot.arms, bot.arms.len() as int, plan.pos_angle, grid)
    &&& plan.mark_number > 0
    &&& plan.adj_empty_number == fringe(bot.arms, plan.pos_angle, grid).len()
    &&& steady(bot.drill, bot.fast, plan.len as nat) ==> {
        &&& nothing_nearer(grid, bot.drill, bot.fast, bot.pose, Quest::Paint(bot.arms), plan.len as nat)
        &&& best_at_len(grid, bot.drill, bot.fast, bot.pose, bot.arms, plan)
        &&& first_of_best(grid, bot.drill, bot.fast, bot.pose, bot.arms, plan)
    }
}

/// What the search for a pose to paint from hands back is determined where the agent has
/// no speed, or speed and drill outlast the plan: two plans that are the nearest, the best
/// and the first tried are the same.
pub proof fn lemma_paint_plan_determined(grid: &Grid, bot: BotView, plan1: Plan, plan2: Plan)
    requires
        steady(bot.drill, bot.fast, plan1.len as nat),
        steady(bot.drill, bot.fast, plan2.len as nat),
        paint_plan(grid, bot, plan1),
        paint_plan(grid, bot, plan2),
    ensures
        plan1 == plan2,
{
    let quest = Quest::Paint(bot.arms);
    let r1 = choose|route: Seq<Action>| #[trigger]
        route_to(grid, bot.drill, bot.fast, bot.pose, quest, route, plan1.pos_angle, plan1.len as nat, plan1.first_action)
            && tried_first_of_best(grid, bot.drill, bot.fast, bot.pose, bot.arms, route, plan1);
    let r2 = choose|route: Seq<Action>| #[trigger]
        route_to(grid, bot.drill, bot.fast, bot.pose, quest, route, plan2.pos_angle, plan2.len as nat, plan2.first_action)
            && tried_first_of_best(grid, bot.drill, bot.fast, bot.pose, bot.arms, route, plan2);
    assert(route_end(grid, bot.drill, bot.fast, bot.pose, r1) == Some(plan1.pos_angle));
    assert(route_end(grid, bot.drill, bot.fast, bot.pose, r2) == Some(plan2.pos_angle));
    assert(plan1.len == plan2.len);
    assert(plan1.mark_number == plan2.mark_number && plan1.adj_empty_number == plan2.adj_empty_number);
    assert(route_not_after(grid, bot.drill, bot.fast, bot.pose, quest, r1, r2));
    assert(route_not_after(grid, bot.drill, bot.fast, bot.pose, quest, r2, r1));
    if r1 != r2 {
        lemma_before_one_way(grid, bot.drill, bot.fast, bot.pose, quest, r1, r2);
    }
}

/// A pose with `m1` arms that can paint and `a1` unpainted cells around them is worse than
/// one with `m2` and `a2`.
spec fn worse(m1: int, a1: int, m2: int, a2: int) -> bool {
    m1 < m2 || (m1 == m2 && a1 < a2)
}

/// Where `a` leads from step `k` to a pose as far as the plan's and an arm can paint
/// there, the pose is worse than the plan's.
spec fn node_beaten(
    grid: &Grid,
    drill: nat,
    fast: nat,
    arms: Seq<PosDiff>,
    nodes: Seq<MoveStep>,
    k: int,
    a: Action,
    best: Plan,
) -> bool {
    match hop(grid, drill, fast, nodes[k].pos_angle, nodes[k].len as nat, a) {
        Some(q) => nodes[k].len + 1 == best.len && mark_count(arms, arms.len() as int, q, grid) > 0
            ==> worse(
            mark_count(arms, arms.len() as int, q, grid) as int,
            fringe(arms, q, grid).len() as int,
            best.mark_number as int,
            best.adj_empty_number as int,
        ),
        None => true,
    }
}

/// The plan beats what was found before the action `by` was tried from step `at`.
spec fn beaten_before(
    grid: &Grid,
    drill: nat,
    fast: nat,
    arms: Seq<PosDiff>,
    nodes: Seq<MoveStep>,
    at: int,
    by: Action,
    best: Plan,
) -> bool {
    forall|k: int, a: Action|
        0 <= k <= at && (a.moves() || a.turns()) && (k < at || rank(
            Quest::Paint(arms),
            nodes[at].pos_angle,
            a,
        ) < rank(Quest::Paint(arms), nodes[at].pos_angle, by)) ==> #[trigger] node_beaten(
            grid,
            drill,
            fast,
            arms,
            nodes,
            k,
            a,
            best,
        )
}

/// What the search for a pose to paint from holds of the best pose it has found: it is a
/// pose as `paint_plan` asks, short of being the best; the steps before `first` are
/// settled, step `first` is one action shorter than the plan, and the plan dominates the
/// steps before `head`. The plan's pose was found by the action `by` from step `at`, and
/// the plan beats what was found before.
spec fn candidate(
    grid: &Grid,
    bot: BotView,
    nodes: Seq<MoveStep>,
    visited: PoseFlags,
    slot: Map<PosAngle, int>,
    first: int,
    head: int,
    at: int,
    by: Action,
    plan: Plan,
) -> bool {
    let quest = Quest::Paint(bot.arms);
    &&& reaches(grid, bot.drill, bot.fast, bot.pose, quest, plan.pos_angle, plan.len as nat, plan.first_action)
    &&& hop(grid, bot.drill, bot.fast, bot.pose, 0, plan.first_action) is Some
    &&& plan.mark_number == mark_count(bot.arms, bot.arms.len() as int, plan.pos_angle, grid)
    &&& plan.mark_number > 0
    &&& plan.adj_empty_number == fringe(bot.arms, plan.pos_angle, grid).len()
    &&& steady(bot.drill, bot.fast, plan.len as nat) ==> nothing_nearer(grid, bot.drill, bot.fast, bot.pose, quest, plan.len as nat)
    &&& 0 <= first <= head
    &&& first < nodes.len()
    &&& nodes[first].len + 1 == plan.len
    &&& processed(grid, bot.drill, bot.fast, quest, visited, nodes, slot, first)
    &&& dominated(grid, bot.drill, bot.fast, bot.arms, nodes, head, plan)
    &&& first <= at <= head
    &&& at < nodes.len()
    &&& nodes[at].len + 1 == plan.len
    &&& by.moves() || by.turns()
    &&& hop(grid, bot.drill, bot.fast, nodes[at].pos_angle, nodes[at].len as nat, by) == Some(plan.pos_angle)
    &&& plan.first_action == route_of(nodes, at).push(by)[0]
    &&& beaten_before(grid, bot.drill, bot.fast, bot.arms, nodes, at, by, plan)
}

/// Looks at the pose `q` that `action` leads to from step `head` and takes it for the
/// best pose where it is better than the best so far.
fn consider(
    grid: &Grid,
    bot: &Bot,
    nodes: &Vec<MoveStep>,
    Ghost(visited): Ghost<PoseFlags>,
    Ghost(slot): Ghost<Map<PosAngle, int>>,
    Ghost(first): Ghost<int>,
    Ghost(at): Ghost<int>,
    Ghost(by): Ghost<Action>,
    best: Option<Plan>,
    head: usize,
    Ghost(j): Ghost<int>,
    action: Action,
    q: PosAngle,
) -> (r: (Option<Plan>, Ghost<int>, Ghost<int>, Ghost<Action>))
    requires
        bot.wf(),
        searching(grid, bot@.drill, bot@.fast, bot.pos_angle, Quest::Paint(bot@.arms), nodes@, visited, slot),
        head < nodes@.len(),
        0 <= j < 6,
        action == tried(nodes@[head as int].pos_angle.angle, j),
        hop(
            grid,
            bot@.drill,
            bot@.fast,
            nodes@[head as int].pos_angle,
            nodes@[head as int].len as nat,
            action,
        ) == Some(q),
        best is None ==> processed(
            grid,
            bot@.drill,
            bot@.fast,
            Quest::Paint(bot@.arms),
            visited,
            nodes@,
            slot,
            head as int,
        ),
        best is None ==> forall|i: int|
            0 <= i < j ==> node_settled(
                grid,
                bot@.drill,
                bot@.fast,
                Quest::Paint(bot@.arms),
                visited,
                nodes@,
                slot,
                head as int,
                #[trigger] tried(nodes@[head as int].pos_angle.angle, i),
            ),
        best matches Some(plan) ==> candidate(grid, bot@, nodes@, visited, slot, first, head as int, at, by, plan),
        best matches Some(plan) ==> forall|i: int|
            0 <= i < j ==> node_dominated(
                grid,
                bot@.drill,
                bot@.fast,
                bot@.arms,
                nodes@,
                head as int,
                #[trigger] tried(nodes@[head as int].pos_angle.angle, i),
                plan,
            ),
    ensures
        r.0 is None <==> best is None && mark_count(bot@.arms, bot@.arms.len() as int, q, grid) == 0,
        r.0 is None ==> !Quest::Paint(bot@.arms).met(grid, q),
        r.0 matches Some(plan) ==> candidate(
            grid,
            bot@,
            nodes@,
            visited,
            slot,
            r.1@,
            head as int,
            r.2@,
            r.3@,
            plan,
        ),
        r.0 matches Some(plan) ==> forall|i: int|
            0 <= i < j + 1 ==> node_dominated(
                grid,
                bot@.drill,
                bot@.fast,
                bot@.arms,
                nodes@,
                head as int,
                #[trigger] tried(nodes@[head as int].pos_angle.angle, i),
                plan,
            ),
{
    let ghost quest = Quest::Paint(bot@.arms);
    let ghost arms = bot@.arms;
    let ghost angle = nodes@[head as int].pos_angle.angle;
    let cur = nodes[head];
    let total = nodes.len();
    assert(cur.len <= head < total);
    let mark_number = Bot::number_of_possible_mark_with_this_pos(q, &bot.manipulators, grid);
    if mark_number == 0 {
        proof {
            if best is Some {
                let plan = best->0;
                assert forall|i: int| 0 <= i < j + 1 implies node_dominated(
                    grid,
                    bot@.drill,
                    bot@.fast,
                    arms,
                    nodes@,
                    head as int,
                    #[trigger] tried(angle, i),
                    plan,
                ) by {}
            }
        }
        return (best, Ghost(first), Ghost(at), Ghost(by));
    }
    let adj_empty_number = Bot::number_of_ajd_empty_cells_of_manipulators_with_this_pos(
        q,
        &bot.manipulators,
        grid,
    );
    let better = match best {
        None => true,
        Some(b) => b.len == cur.len + 1 && (b.mark_number < mark_number || (b.mark_number == mark_number
            && b.adj_empty_number < adj_empty_number)),
    };
    if !better {
        proof {
            let plan = best->0;
            assert forall|i: int| 0 <= i < j + 1 implies node_dominated(
                grid,
                bot@.drill,
                bot@.fast,
                arms,
                nodes@,
                head as int,
                #[trigger] tried(angle, i),
                plan,
            ) by {}
        }
        return (best, Ghost(first), Ghost(at), Ghost(by));
    }
    proof {
        lemma_linked_chained(grid, bot@.drill, bot@.fast, bot.pos_angle, nodes@);
    }
    let first_action = first_of(nodes, head, action);
    let found = Plan { pos_angle: q, len: cur.len + 1, mark_number, adj_empty_number, first_action };
    let ghost first2 = if best is None {
        head as int
    } else {
        first
    };
    proof {
        lemma_route_allowed(grid, bot@.drill, bot@.fast, bot.pos_angle, quest, nodes@, visited, slot, head as int);
        lemma_route_extended(grid, bot@.drill, bot@.fast, bot.pos_angle, quest, nodes@, head as int, action, q);
        lemma_rank_tried(angle, j);
        assert forall|k: int, a: Action|
            0 <= k <= head && (a.moves() || a.turns()) && (k < head || rank(
                quest,
                nodes@[head as int].pos_angle,
                a,
            ) < rank(quest, nodes@[head as int].pos_angle, action)) implies #[trigger] node_beaten(
            grid,
            bot@.drill,
            bot@.fast,
            arms,
            nodes@,
            k,
            a,
            found,
        ) by {
            if k == head {
                lemma_tried_rank(angle, a);
                let i = rank(quest, nodes@[head as int].pos_angle, a);
                assert(a == tried(angle, i));
                if best is None {
                    assert(node_settled(grid, bot@.drill, bot@.fast, quest, visited, nodes@, slot, head as int, tried(angle, i)));
                } else {
                    assert(node_dominated(grid, bot@.drill, bot@.fast, arms, nodes@, head as int, tried(angle, i), best->0));
                }
            } else {
                if best is None {
                    assert(node_settled(grid, bot@.drill, bot@.fast, quest, visited, nodes@, slot, k, a));
                } else {
                    assert(node_dominated(grid, bot@.drill, bot@.fast, arms, nodes@, k, a, best->0));
                }
            }
        }
        if best is None {
            if steady(bot@.drill, bot@.fast, (cur.len + 1) as nat) {
                lemma_nothing_nearer(
                    grid,
                    bot@.drill,
                    bot@.fast,
                    bot.pos_angle,
                    quest,
                    nodes@,
                    visited,
                    slot,
                    head as int,
                );
            }
            assert forall|k: int, a: Action| 0 <= k < head && (a.moves() || a.turns()) implies #[trigger] node_dominated(
                grid,
                bot@.drill,
                bot@.fast,
                arms,
                nodes@,
                k,
                a,
                found,
            ) by {
                assert(node_settled(grid, bot@.drill, bot@.fast, quest, visited, nodes@, slot, k, a));
            }
            assert forall|i: int| 0 <= i < j + 1 implies node_dominated(
                grid,
                bot@.drill,
                bot@.fast,
                arms,
                nodes@,
                head as int,
                #[trigger] tried(angle, i),
                found,
            ) by {
                if i < j {
                    assert(node_settled(
                        grid,
                        bot@.drill,
                        bot@.fast,
                        quest,
                        visited,
                        nodes@,
                        slot,
                        head as int,
                        tried(angle, i),
                    ));
                }
            }
        } else {
            let plan = best->0;
            assert forall|k: int, a: Action| 0 <= k < head && (a.moves() || a.turns()) implies #[trigger] node_dominated(
                grid,
                bot@.drill,
                bot@.fast,
                arms,
                nodes@,
                k,
                a,
                found,
            ) by {
                assert(node_dominated(grid, bot@.drill, bot@.fast, arms, nodes@, k, a, plan));
            }
            assert forall|i: int| 0 <= i < j + 1 implies node_dominated(
                grid,
                bot@.drill,
                bot@.fast,
                arms,
                nodes@,
                head as int,
                #[trigger] tried(angle, i),
                found,
            ) by {
                if i < j {
                    assert(node_dominated(
                        grid,
                        bot@.drill,
                        bot@.fast,
                        arms,
                        nodes@,
                        head as int,
                        tried(angle, i),
                        plan,
                    ));
                }
            }
        }
    }
    (Some(found), Ghost(first2), Ghost(head as int), Ghost(action))
}

/// Searches, breadth first and by moves and turns, for the nearest pose from which an arm of
/// `bot` can paint. Among the poses found at that distance it prefers the one where most
/// arms can paint, then the one with most unpainted cells around its arms, then the one
/// found first.
///
/// `None` when the search has run dry: no route leads to a pose from which an arm can
/// paint, as far as the agent is without speed or its speed and its drill outlast the
/// route.
pub fn find_mark_move(grid: &Grid, bot: &Bot) -> (r: Option<Plan>)
    requires
        grid.wf(),
        bot.wf(),
        grid.in_range(bot.pos_angle.pos.x as int, bot.pos_angle.pos.y as int),
    ensures
        match r {
            Some(plan) => paint_plan(grid, bot@, plan),
            None => no_way(grid, bot@.drill, bot@.fast, bot.pos_angle, Quest::Paint(bot@.arms)),
        },
{
    let ghost quest = Quest::Paint(bot@.arms);
    let start = bot.pos_angle;
    let drill = bot.drill_timer;
    let fast = bot.fast_wheel_timer;
    let mut nodes: Vec<MoveStep> = Vec::new();
    nodes.push(
        MoveStep {
            pos_angle: start,
            len: 0,
            mark_number: 0,
            adj_empty_number: 0,
            prev_action: None,
            prev: None,
        },
    );
    let mut visited = PoseFlags::new(grid.max_x as usize, grid.max_y as usize);
    visited.set(start);
    let ghost mut slot: Map<PosAngle, int> = Map::empty().insert(start, 0int);
    let ghost mut first: int = 0;
    let ghost mut at: int = 0;
    let ghost mut by: Action = Action::DoNothing;
    let mut best: Option<Plan> = None;
    let mut head: usize = 0;
    while head < nodes.len()
        invariant
            bot.wf(),
            quest == Quest::Paint(bot@.arms),
            start == bot.pos_angle,
            drill == bot@.drill,
            fast == bot@.fast,
            head <= nodes@.len(),
            searching(grid, drill as nat, fast as nat, start, quest, nodes@, visited, slot),
            layered(nodes@, head as int),
            latest(nodes@, quest, head as int, 0),
            best is None ==> processed(grid, drill as nat, fast as nat, quest, visited, nodes@, slot, head as int),
            best matches Some(plan) ==> candidate(
                grid,
                bot@,
                nodes@,
                visited,
                slot,
                first,
                head as int,
                at,
                by,
                plan,
            ),
        decreases visited.unset() + nodes@.len() - head,
    {
        let cur = nodes[head];
        let ghost measure = visited.unset() + nodes@.len();
        let mut j: usize = 0;
        while j < 6
            invariant
                bot.wf(),
                quest == Quest::Paint(bot@.arms),
                start == bot.pos_angle,
                drill == bot@.drill,
                fast == bot@.fast,
                j <= 6,
                head < nodes@.len(),
                nodes@[head as int] == cur,
                searching(grid, drill as nat, fast as nat, start, quest, nodes@, visited, slot),
                layered(nodes@, head as int),
                latest(nodes@, quest, head as int, j as int),
                best is None ==> processed(
                    grid,
                    drill as nat,
                    fast as nat,
                    quest,
                    visited,
                    nodes@,
                    slot,
                    head as int,
                ),
                best is None ==> forall|i: int|
                    0 <= i < j ==> node_settled(
                        grid,
                        drill as nat,
                        fast as nat,
                        quest,
                        visited,
                        nodes@,
                        slot,
                        head as int,
                        #[trigger] tried(cur.pos_angle.angle, i),
                    ),
                best matches Some(plan) ==> candidate(
                    grid,
                    bot@,
                    nodes@,
                    visited,
                    slot,
                    first,
                    head as int,
                    at,
                    by,
                    plan,
                ),
                best matches Some(plan) ==> forall|i: int|
                    0 <= i < j ==> node_dominated(
                        grid,
                        drill as nat,
                        fast as nat,
                        bot@.arms,
                        nodes@,
                        head as int,
                        #[trigger] tried(cur.pos_angle.angle, i),
                        plan,
                    ),
                visited.unset() + nodes@.len() == measure,
            decreases 6 - j,
        {
            let action = action_in_order(cur.pos_angle.angle, j);
            let ghost seen = visited;
            let ghost before = nodes@;
            let ghost slot0 = slot;
            proof {
                lemma_rank_tried(cur.pos_angle.angle, j as int);
                assert(rank(quest, cur.pos_angle, action) == j);
                lemma_latest_later(before, quest, head as int, j as int);
            }
            match try_hop(grid, drill, fast, cur.pos_angle, cur.len, action) {
                None => {
                    proof {
                        if best is Some {
                            let plan = best->0;
                            assert forall|i: int| 0 <= i < j + 1 implies node_dominated(
                                grid,
                                drill as nat,
                                fast as nat,
                                bot@.arms,
                                nodes@,
                                head as int,
                                #[trigger] tried(cur.pos_angle.angle, i),
                                plan,
                            ) by {}
                        }
                    }
                },
                Some(q) => {
                    let (next_best, next_first, next_at, next_by) = consider(
                        grid,
                        bot,
                        &nodes,
                        Ghost(visited),
                        Ghost(slot),
                        Ghost(first),
                        Ghost(at),
                        Ghost(by),
                        best,
                        head,
                        Ghost(j as int),
                        action,
                        q,
                    );
                    best = next_best;
                    proof {
                        first = next_first@;
                        at = next_at@;
                        by = next_by@;
                    }
                    if best.is_none() {
                        if !visited.get(q) {
                            let next_slot = enqueue(
                                grid,
                                drill,
                                fast,
                                Ghost(start),
                                Ghost(quest),
                                &mut nodes,
                                &mut visited,
                                Ghost(slot),
                                head,
                                action,
                                q,
                            );
                            proof {
                                slot = next_slot@;
                            }
                        } else {
                            proof {
                                if slot[q] >= 1 {
                                    assert(not_later(nodes@, quest, slot[q], head as int, j as int));
                                }
                            }
                        }
                    }
                },
            }
            proof {
                if best is None {
                    lemma_processed_stays(
                        grid,
                        drill as nat,
                        fast as nat,
                        quest,
                        seen,
                        visited,
                        before,
                        nodes@,
                        slot0,
                        slot,
                        head as int,
                    );
                    assert forall|i: int| 0 <= i < j + 1 implies node_settled(
                        grid,
                        drill as nat,
                        fast as nat,
                        quest,
                        visited,
                        nodes@,
                        slot,
                        head as int,
                        #[trigger] tried(cur.pos_angle.angle, i),
                    ) by {
                        if i < j {
                            lemma_settled_stays(
                                grid,
                                drill as nat,
                                fast as nat,
                                quest,
                                seen,
                                visited,
                                before,
                                nodes@,
                                slot0,
                                slot,
                                head as int,
                                tried(cur.pos_angle.angle, i),
                            );
                        }
                    }
                }
            }
            j += 1;
        }
        proof {
            if best is None {
                assert forall|k: int, a: Action| 0 <= k < head + 1 && quest.allows(a) implies #[trigger] node_settled(
                    grid,
                    drill as nat,
                    fast as nat,
                    quest,
                    visited,
                    nodes@,
                    slot,
                    k,
                    a,
                ) by {
                    if k == head {
                        lemma_tried_all(cur.pos_angle.angle, a);
                        let i = choose|i: int| 0 <= i < 6 && #[trigger] tried(cur.pos_angle.angle, i) == a;
                        assert(node_settled(
                            grid,
                            drill as nat,
                            fast as nat,
                            quest,
                            visited,
                            nodes@,
                            slot,
                            head as int,
                            tried(cur.pos_angle.angle, i),
                        ));
                    }
                }
            } else {
                let plan = best->0;
                assert forall|k: int, a: Action| 0 <= k < head + 1 && (a.moves() || a.turns()) implies #[trigger] node_dominated(
                    grid,
                    drill as nat,
                    fast as nat,
                    bot@.arms,
                    nodes@,
                    k,
                    a,
                    plan,
                ) by {
                    if k == head {
                        lemma_tried_all(cur.pos_angle.angle, a);
                        let i = choose|i: int| 0 <= i < 6 && #[trigger] tried(cur.pos_angle.angle, i) == a;
                        assert(node_dominated(
                            grid,
                            drill as nat,
                            fast as nat,
                            bot@.arms,
                            nodes@,
                            head as int,
                            tried(cur.pos_angle.angle, i),
                            plan,
                        ));
                    }
                }
            }
            if head + 1 < nodes@.len() {
                assert(nodes@[head as int].len <= nodes@[head + 1].len);
            }
            lemma_latest_next(nodes@, quest, head as int, 6);
        }
        head += 1;
    }
    proof {
        if best is None {
            lemma_search_sealed(grid, drill as nat, fast as nat, start, quest, nodes@, visited, slot);
            lemma_exhausted_means_unreachable(grid, drill as nat, fast as nat, start, quest);
        } else if steady(drill as nat, fast as nat, best->0.len as nat) {
            lemma_best_at_len(
                grid,
                drill as nat,
                fast as nat,
                start,
                bot@.arms,
                nodes@,
                visited,
                slot,
                first,
                best->0,
            );
            lemma_first_of_best(
                grid,
                drill as nat,
                fast as nat,
                start,
                bot@.arms,
                nodes@,
                visited,
                slot,
                first,
                at,
                by,
                best->0,
            );
        }
    }
    best
}

/// Without drill and speed, the route to the plan's pose is the first that is tried of the
/// routes of its length to a pose as good as the plan's.
proof fn lemma_first_of_best(
    grid: &Grid,
    drill: nat,
    fast: nat,
    start: PosAngle,
    arms: Seq<PosDiff>,
    nodes: Seq<MoveStep>,
    visited: PoseFlags,
    slot: Map<PosAngle, int>,
    first: int,
    at: int,
    by: Action,
    best: Plan,
)
    requires
        searching(grid, drill, fast, start, Quest::Paint(arms), nodes, visited, slot),
        steady(drill, fast, (nodes[first].len + 1) as nat),
        processed(grid, drill, fast, Quest::Paint(arms), visited, nodes, slot, first),
        0 <= first <= at < nodes.len(),
        nodes[first].len + 1 == best.len,
        nodes[at].len + 1 == best.len,
        by.moves() || by.turns(),
        hop(grid, drill, fast, nodes[at].pos_angle, nodes[at].len as nat, by) == Some(best.pos_angle),
        best.first_action == route_of(nodes, at).push(by)[0],
        best.mark_number == mark_count(arms, arms.len() as int, best.pos_angle, grid),
        best.mark_number > 0,
        best.adj_empty_number == fringe(arms, best.pos_angle, grid).len(),
        beaten_before(grid, drill, fast, arms, nodes, at, by, best),
    ensures
        first_of_best(grid, drill, fast, start, arms, best),
{
    let quest = Quest::Paint(arms);
    let route = route_of(nodes, at).push(by);
    lemma_route_allowed(grid, drill, fast, start, quest, nodes, visited, slot, at);
    lemma_route_extended(grid, drill, fast, start, quest, nodes, at, by, best.pos_angle);
    assert forall|other: Seq<Action>|
        #![trigger route_end(grid, drill, fast, start, other)]
        route_allowed(quest, other) && other.len() == route.len() && (route_end(grid, drill, fast, start, other)
            matches Some(q) && mark_count(arms, arms.len() as int, q, grid) == best.mark_number && fringe(
            arms,
            q,
            grid,
        ).len() == best.adj_empty_number) implies route_not_after(grid, drill, fast, start, quest, route, other) by {
        lemma_route_of(grid, drill, fast, start, nodes, at);
        let shorter = other.drop_last();
        let b = other.last();
        assert(other =~= shorter.push(b));
        assert forall|i: int| 0 <= i < shorter.len() implies quest.allows(#[trigger] shorter[i]) by {
            assert(shorter[i] == other[i]);
        }
        assert(quest.allows(b));
        lemma_short_routes(grid, drill, fast, start, quest, nodes, visited, slot, first, shorter);
        let p = route_end(grid, drill, fast, start, shorter)->0;
        let m = slot[p];
        lemma_hop_earlier(
            grid,
            drill,
            fast,
            p,
            nodes[m].len as nat,
            (other.len() - 1) as nat,
            b,
            (nodes[first].len + 1) as nat,
        );
        if m < first {
            assert(node_settled(grid, drill, fast, quest, visited, nodes, slot, m, b));
        } else {
            assert(nodes[first].len <= nodes[m].len);
            lemma_first_route(grid, drill, fast, start, quest, nodes, visited, slot, first, m, shorter);
            lemma_route_of(grid, drill, fast, start, nodes, m);
            if m < at || (m == at && rank(quest, p, b) < rank(quest, p, by)) {
                assert(node_beaten(grid, drill, fast, arms, nodes, m, b, best));
            } else if m == at {
                lemma_goes_on_not_after(grid, drill, fast, start, quest, route_of(nodes, at), shorter, by, b, p);
            } else {
                assert(at >= 1) by {
                    if at == 0 {
                        assert(nodes[m].len >= 1);
                    }
                }
                lemma_found_in_order(grid, drill, fast, start, quest, nodes, visited, slot, at, m);
                lemma_before_chain(grid, drill, fast, start, quest, route_of(nodes, at), route_of(nodes, m), shorter);
                lemma_before_goes_on(grid, drill, fast, start, quest, route_of(nodes, at), shorter, by, b);
            }
        }
    }
    assert(tried_first_of_best(grid, drill, fast, start, arms, route, best));
    assert(route_to(grid, drill, fast, start, quest, route, best.pos_angle, best.len as nat, best.first_action));
}

/// A route that a search for a cell allows begins with a move.
proof fn lemma_first_moves(quest: Quest, route: Seq<Action>)
    requires
        !(quest is Paint),
        route.len() >= 1,
        route_allowed(quest, route),
    ensures
        route[0].moves(),
{
    assert(quest.allows(route[0]));
}

} // verus!
