//! The coordination engine: the grid, the agents and the pickups, and the turns that paint the
//! grid.

use crate::action::Action;
use crate::bot::{
    drilled_from, fresh_bot, painted_from, painted_out, Bot, BotView, Order, DRILL_TICKS,
    FAST_WHEEL_TICKS,
};
use crate::counting::{
    count_in_row, count_in_rows, lemma_count_rows_update, lemma_count_rows_zero, one_if,
};
use crate::geometry::{Pos, PosDiff};
use crate::grid::{grid_error, lemma_advances_chain, open_in, raster, Grid, GridError};
use crate::pickups::{within, Pool};
use crate::search::{
    find_mark_move, find_move_to, hop, lemma_exhausted_means_unreachable,
    lemma_paint_plan_determined, lemma_plan_determined, no_way, nothing_nearer, paint_plan,
    reaches, reaches_first, steady, Goal, Plan, Quest,
};
use crate::task::{max_x_of, max_y_of, Booster, BoosterKind, Task};
use crate::text::{decimal_padded, push_padded};
use vstd::prelude::*;
use vstd::string::StringExecFns;

verus! {

/// How far ahead an idle agent looks for a speed boost.
pub const NEAR_BOOSTER_STEPS: usize = 5;

/// Why a solve has come to a halt.
#[derive(Copy, Clone, PartialEq, Eq, Structural, Debug)]
pub enum SolveError {
    /// An agent cannot reach the cell that its order sends it to, or no mystery cell.
    NoRoute,
    /// An agent without speed boost can reach no pose from which it could paint.
    Stuck,
    /// A timer or the number of arms would leave the range of the machine's integers.
    Limit,
}

/// Why a search for a pickup has found none.
#[derive(Copy, Clone, PartialEq, Eq, Structural, Debug)]
pub enum PickupError {
    /// The pool holds no pickup of the kinds asked for.
    Unavailable,
    /// No route leads to a pickup of the kinds asked for.
    NoRoute,
    /// The nearest pickup is further than asked for.
    TooFar,
}

/// The engine: the grid, the agents in the order in which they take their turns, the
/// pickups that are left, and the mystery cells.
pub struct System {
    pub map: Grid,
    pub bots: Vec<Bot>,
    pub booster_pos: Pool,
    pub mysterious_pos: Vec<Pos>,
}

/// The mystery cells among the pickups, in their order.
pub open spec fn mystery_cells(boosters: Seq<Booster>) -> Seq<Pos>
    decreases boosters.len(),
{
    if boosters.len() == 0 {
        Seq::empty()
    } else if boosters.last().kind == BoosterKind::Mysterious {
        mystery_cells(boosters.drop_last()).push(boosters.last().pos)
    } else {
        mystery_cells(boosters.drop_last())
    }
}

/// The pickups that can be claimed, by cell: all but the mystery cells. Of two pickups on
/// one cell the later one counts.
pub open spec fn claimable(boosters: Seq<Booster>) -> Map<Pos, BoosterKind>
    decreases boosters.len(),
{
    if boosters.len() == 0 {
        Map::empty()
    } else if boosters.last().kind == BoosterKind::Mysterious {
        claimable(boosters.drop_last())
    } else {
        claimable(boosters.drop_last()).insert(boosters.last().pos, boosters.last().kind)
    }
}

/// The reason, if any, for which `task` gives no engine: it gives no grid, or its start
/// cell is not an open cell of the grid.
pub open spec fn engine_error(task: &Task) -> Option<GridError> {
    let w = max_x_of(task.map@);
    let h = max_y_of(task.map@);
    if grid_error(task) is Some {
        grid_error(task)
    } else if !(0 <= task.bot.x < w && 0 <= task.bot.y < h && open_in(
        task.map@,
        task.obstacles@,
        (task.bot.x as int, task.bot.y as int),
    )) {
        Some(GridError::BadStart)
    } else {
        None
    }
}

/// The arm that an agent with `n` arms attaches next.
pub open spec fn next_arm(n: int) -> PosDiff {
    PosDiff {
        dx: 1,
        dy: if n % 2 == 0 {
            (n / 2) as i32
        } else {
            (-(n / 2)) as i32
        },
    }
}

/// The action that carries out an order that has arrived.
pub open spec fn performing(order: Order, arms: int) -> Option<Action> {
    match order {
        Order::DoExtendManipulator => Some(Action::ExtendManipulator(next_arm(arms))),
        Order::DoClone => Some(Action::Cloning),
        Order::DoFastWheels => Some(Action::AttachFastWheels),
        Order::DoDrill => Some(Action::AttachDrill),
        _ => None,
    }
}

/// The orders of two agents after a handover from the first, who stands on `pa` with the
/// order `oa`, to the second, who stands on `pb` with the order `ob`: an idle second agent
/// takes over the walk to a clone pickup or to a mystery cell where it is closer to it,
/// counted in steps on a plane without walls.
pub open spec fn handed_over(oa: Option<Order>, pa: Pos, ob: Option<Order>, pb: Pos) -> (
    Option<Order>,
    Option<Order>,
) {
    match (oa, ob) {
        (Some(Order::MoveToMysterious(pos)), None) => if pa.manhattan(pos) > pb.manhattan(pos) {
            (None, oa)
        } else {
            (oa, ob)
        },
        (Some(Order::MoveToClone(pos)), None) => if pa.manhattan(pos) > pb.manhattan(pos) {
            (None, oa)
        } else {
            (oa, ob)
        },
        _ => (oa, ob),
    }
}

/// The orders of the agents.
pub open spec fn orders_of(bots: Seq<Bot>) -> Seq<Option<Order>> {
    bots.map_values(|b: Bot| b.order)
}

/// The cells that the agents stand on.
pub open spec fn cells_of(bots: Seq<Bot>) -> Seq<Pos> {
    bots.map_values(|b: Bot| b.pos_angle.pos)
}

/// The orders after a handover from agent `a` to agent `b`.
pub open spec fn hand(orders: Seq<Option<Order>>, cells: Seq<Pos>, a: int, b: int) -> Seq<Option<Order>> {
    if a == b {
        orders
    } else {
        let both = handed_over(orders[a], cells[a], orders[b], cells[b]);
        orders.update(a, both.0).update(b, both.1)
    }
}

/// The orders after the handovers from agent `a` to the first `j` agents, in index order.
pub open spec fn handed_row(orders: Seq<Option<Order>>, cells: Seq<Pos>, a: int, j: int) -> Seq<
    Option<Order>,
>
    decreases j,
{
    if j <= 0 {
        orders
    } else {
        hand(handed_row(orders, cells, a, j - 1), cells, a, j - 1)
    }
}

/// The orders after the handovers from each of the first `i` agents, in index order, to
/// every agent.
pub open spec fn handed_rows(orders: Seq<Option<Order>>, cells: Seq<Pos>, i: int) -> Seq<Option<Order>>
    decreases i,
{
    if i <= 0 {
        orders
    } else {
        handed_row(handed_rows(orders, cells, i - 1), cells, i - 1, cells.len() as int)
    }
}

/// The agent `after` is `before` but for its order.
pub open spec fn same_but_order(after: &Bot, before: &Bot) -> bool {
    &&& after.pos_angle == before.pos_angle
    &&& after.manipulators == before.manipulators
    &&& after.fast_wheel_timer == before.fast_wheel_timer
    &&& after.drill_timer == before.drill_timer
    &&& after.record == before.record
}

/// The agent after the turn in which it took `action`: the action is applied, under a speed
/// boost a move is applied a second time, and each timer that ran before the turn has run
/// down by one.
pub open spec fn after_turn(bot: BotView, action: Action, grid: &Grid) -> BotView {
    let once = bot.applied(action, grid, false);
    let done = if bot.fast > 0 && action.moves() {
        once.applied(action, grid, true)
    } else {
        once
    };
    BotView {
        fast: if bot.fast > 0 {
            (done.fast - 1) as nat
        } else {
            done.fast
        },
        drill: if bot.drill > 0 {
            (done.drill - 1) as nat
        } else {
            done.drill
        },
        ..done
    }
}

/// The searches and the engine agree on where an action leads: what `hop` gives for the
/// first turn of a plan is where the agent stands after the turn in which it takes the
/// action, and the agent accepts every action that `hop` lets it take.
pub proof fn lemma_hop_is_the_turn(bot: BotView, action: Action, grid: &Grid)
    requires
        grid.in_range(bot.pose.pos.x as int, bot.pose.pos.y as int),
        hop(grid, bot.drill, bot.fast, bot.pose, 0, action) is Some,
    ensures
        bot.accepts(action, grid, false),
        after_turn(bot, action, grid).pose == hop(grid, bot.drill, bot.fast, bot.pose, 0, action)->0,
{
}

/// Everything but the grid and agent `i` is in `after` as in `before`.
pub open spec fn only_agent(before: &System, after: &System, i: int) -> bool {
    &&& after.booster_pos == before.booster_pos
    &&& after.mysterious_pos == before.mysterious_pos
    &&& after.bots@.len() == before.bots@.len()
    &&& forall|j: int| 0 <= j < before.bots@.len() && j != i ==> #[trigger] after.bots@[j] == before.bots@[j]
}

/// The engine `after` is the engine `before` once agent `i` has taken `action` and painted:
/// the agent is as `applied` says, the grid is drilled where the action drills and then
/// painted from where the agent stands.
#[verifier::opaque]
pub open spec fn acted(before: &System, after: &System, i: int, action: Action, second: bool) -> bool {
    &&& only_agent(before, after, i)
    &&& after.bots@[i].wf()
    &&& after.bots@[i]@ == before.bots@[i]@.applied(action, &before.map, second)
    &&& exists|mid: Grid|
        {
            &&& #[trigger] drilled_from(&mid, &before.map, before.bots@[i]@, action, second)
            &&& painted_from(&after.map, &mid, after.bots@[i]@.arms, after.bots@[i].pos_angle)
        }
}

/// The engine `after` is the engine `before` at the end of a turn of agent `i`: the timers of
/// the agent have run down by one where `fast` and `drill` say that they ran at the start
/// of the turn, and for a clone a fresh agent stands on the agent's cell, behind all others.
pub open spec fn turn_closed(
    before: &System,
    after: &System,
    i: int,
    fast: bool,
    drill: bool,
    action: Action,
) -> bool {
    &&& after.map == before.map
    &&& after.booster_pos == before.booster_pos
    &&& after.mysterious_pos == before.mysterious_pos
    &&& after.bots@.len() == before.bots@.len() + if action is Cloning {
        1int
    } else {
        0int
    }
    &&& forall|j: int| 0 <= j < before.bots@.len() && j != i ==> #[trigger] after.bots@[j] == before.bots@[j]
    &&& after.bots@[i].wf()
    &&& after.bots@[i]@ == (BotView {
        fast: if fast {
            (before.bots@[i]@.fast - 1) as nat
        } else {
            before.bots@[i]@.fast
        },
        drill: if drill {
            (before.bots@[i]@.drill - 1) as nat
        } else {
            before.bots@[i]@.drill
        },
        ..before.bots@[i]@
    })
    &&& action is Cloning ==> after.bots@.last().wf() && after.bots@.last()@ == fresh_bot(
        before.bots@[i].pos_angle.pos,
    )
}

/// The engine `after` is the engine `before` after the turn in which agent `i` took
/// `action`: the agent acts, under a speed boost it acts a second time with a move, and the
/// turn is closed.
#[verifier::opaque]
pub open spec fn performed(before: &System, after: &System, i: int, action: Action) -> bool {
    let fast = before.bots@[i]@.fast > 0;
    let drill = before.bots@[i]@.drill > 0;
    exists|once: System|
        {
            &&& #[trigger] acted(before, &once, i, action, false)
            &&& if fast && action.moves() {
                exists|twice: System|
                    {
                        &&& #[trigger] acted(&once, &twice, i, action, true)
                        &&& turn_closed(&twice, after, i, fast, drill, action)
                    }
            } else {
                turn_closed(&once, after, i, fast, drill, action)
            }
        }
}

/// What a round of handovers leaves the engine as: nothing changes but the orders, which
/// are handed over for every ordered pair of agents in index order.
pub open spec fn rebalanced(before: &System, after: &System) -> bool {
    &&& after.map == before.map
    &&& after.booster_pos == before.booster_pos
    &&& after.mysterious_pos == before.mysterious_pos
    &&& after.bots@.len() == before.bots@.len()
    &&& forall|i: int|
        0 <= i < before.bots@.len() ==> same_but_order(&#[trigger] after.bots@[i], &before.bots@[i])
    &&& orders_of(after.bots@) == handed_rows(
        orders_of(before.bots@),
        cells_of(before.bots@),
        before.bots@.len() as int,
    )
}

/// The plan is what a search of the agent `bot` for `quest` hands back: a route of moves
/// that begins with the plan's first action leads to the plan's pose, which is what the
/// search looks for; where the agent has no speed, or speed and drill outlast the plan, no
/// route that is shorter leads to such a pose, and of the routes of that length it is the
/// one that is tried first.
pub open spec fn found_by(sys: &System, bot: BotView, quest: Quest, plan: Plan) -> bool {
    &&& reaches(&sys.map, bot.drill, bot.fast, bot.pose, quest, plan.pos_angle, plan.len as nat, plan.first_action)
    &&& hop(&sys.map, bot.drill, bot.fast, bot.pose, 0, plan.first_action) is Some
    &&& plan.first_action.moves()
    &&& steady(bot.drill, bot.fast, plan.len as nat) ==> {
        &&& nothing_nearer(&sys.map, bot.drill, bot.fast, bot.pose, quest, plan.len as nat)
        &&& reaches_first(
            &sys.map,
            bot.drill,
            bot.fast,
            bot.pose,
            quest,
            plan.pos_angle,
            plan.len as nat,
            plan.first_action,
        )
    }
}

/// The search for a pickup of one of the kinds `kinds`.
pub open spec fn pickup_quest(sys: &System, kinds: Seq<BoosterKind>) -> Quest {
    Quest::Pickup(kinds, sys.booster_pos@)
}

/// The kinds that an idle agent walks to when no speed boost is near.
pub open spec fn arm_kinds() -> Seq<BoosterKind> {
    seq![BoosterKind::ExtendManipulator, BoosterKind::Cloning]
}

/// The agent finds no speed boost within `NEAR_BOOSTER_STEPS` actions: none is left, none
/// is found, or the one that is found is further.
pub open spec fn no_speed_near(sys: &System, bot: BotView) -> bool {
    let quest = pickup_quest(sys, seq![BoosterKind::FastWheels]);
    ||| !sys.booster_pos.offers(BoosterKind::FastWheels)
    ||| no_way(&sys.map, bot.drill, bot.fast, bot.pose, quest)
    ||| exists|plan: Plan| #[trigger] found_by(sys, bot, quest, plan) && plan.len > NEAR_BOOSTER_STEPS
}

/// The agent finds no arm and no clone pickup: none is left, or none is found.
pub open spec fn no_arm_or_clone(sys: &System, bot: BotView) -> bool {
    ||| !sys.booster_pos.offers(BoosterKind::ExtendManipulator) && !sys.booster_pos.offers(
        BoosterKind::Cloning,
    )
    ||| no_way(&sys.map, bot.drill, bot.fast, bot.pose, pickup_quest(sys, arm_kinds()))
}

/// The order cannot be carried out within the range of the machine's integers.
pub open spec fn limit_hit(bot: BotView, order: Order) -> bool {
    match order {
        Order::DoExtendManipulator => bot.arms.len() / 2 > i32::MAX,
        Order::DoFastWheels => bot.fast + FAST_WHEEL_TICKS > usize::MAX,
        Order::DoDrill => bot.drill + DRILL_TICKS > usize::MAX,
        _ => false,
    }
}

/// What an agent on its way to the cell `t` decides: the first action of a shortest way
/// there.
pub open spec fn walks_to(sys: &System, bot: BotView, t: Pos, r: Result<Action, SolveError>) -> bool {
    match r {
        Ok(a) => exists|plan: Plan| #[trigger] found_by(sys, bot, Quest::At(t), plan) && a == plan.first_action,
        Err(e) => e == SolveError::NoRoute && no_way(&sys.map, bot.drill, bot.fast, bot.pose, Quest::At(t)),
    }
}

/// What an agent decides that has to find a mystery cell: it sets out for the nearest one,
/// which becomes the target of its order `order`.
pub open spec fn seeks_mystery(
    sys: &System,
    bot: BotView,
    order: Option<Order>,
    r: Result<Action, SolveError>,
) -> bool {
    match r {
        Ok(a) => exists|plan: Plan| #[trigger]
            found_by(sys, bot, Quest::Mystery(sys.mysterious_pos@), plan) && a == plan.first_action && order
                == Some(Order::MoveToMysterious(plan.pos_angle.pos)),
        Err(e) => e == SolveError::NoRoute && order == Some(Order::FindMysterious) && no_way(
            &sys.map,
            bot.drill,
            bot.fast,
            bot.pose,
            Quest::Mystery(sys.mysterious_pos@),
        ),
    }
}

/// What agent `i`, which holds the order `o`, decides: on its way to a cell it takes the
/// first action of a shortest way there; arrived, it performs what the order asks, unless
/// that leaves the range of the machine's integers; told to find a mystery cell it takes
/// the nearest one as its target and sets out.
#[verifier::opaque]
pub open spec fn decided_by_order(
    before: &System,
    after: &System,
    i: int,
    o: Order,
    r: Result<Action, SolveError>,
) -> bool {
    let bot = before.bots@[i]@;
    &&& after.booster_pos == before.booster_pos
    &&& if o.target() is Some {
        after.bots@[i].order == Some(o) && walks_to(before, bot, o.target()->0, r)
    } else if performing(o, bot.arms.len() as int) is Some {
        &&& after.bots@[i].order == Some(o)
        &&& r == if limit_hit(bot, o) {
            Err::<Action, SolveError>(SolveError::Limit)
        } else {
            Ok::<Action, SolveError>(performing(o, bot.arms.len() as int)->0)
        }
    } else {
        seeks_mystery(before, bot, after.bots@[i].order, r)
    }
}

/// The agent claims the pickup of kind `kind` that `plan` leads to, takes the order to walk
/// there and sets out. A speed boost is claimed where it is near; an arm or a clone pickup
/// where no speed boost is near.
pub open spec fn claimed(before: &System, after: &System, i: int, a: Action, plan: Plan, kind: BoosterKind) -> bool {
    let bot = before.bots@[i]@;
    let pos = plan.pos_angle.pos;
    &&& after.bots@[i].order == order_for(kind, pos)
    &&& before.booster_pos.kind_at(pos) == Some(kind)
    &&& after.booster_pos@ == before.booster_pos@.remove(pos)
    &&& a == plan.first_action
    &&& if kind == BoosterKind::FastWheels {
        found_by(before, bot, pickup_quest(before, seq![BoosterKind::FastWheels]), plan) && plan.len
            <= NEAR_BOOSTER_STEPS
    } else {
        &&& kind == BoosterKind::ExtendManipulator || kind == BoosterKind::Cloning
        &&& no_speed_near(before, bot)
        &&& found_by(before, bot, pickup_quest(before, arm_kinds()), plan)
    }
}

/// What the idle agent `i` decides: it claims a speed boost that is near, else an arm or a
/// clone pickup, and sets out for it; else it takes the first action to the nearest pose
/// from which it can paint; else it waits while its speed boost runs; else it is stuck.
#[verifier::opaque]
pub open spec fn decided_idle(before: &System, after: &System, i: int, r: Result<Action, SolveError>) -> bool {
    let bot = before.bots@[i]@;
    match r {
        Ok(a) => if after.bots@[i].order is Some {
            exists|plan: Plan, kind: BoosterKind| #[trigger] claimed(before, after, i, a, plan, kind)
        } else {
            &&& after.booster_pos == before.booster_pos
            &&& no_speed_near(before, bot)
            &&& no_arm_or_clone(before, bot)
            &&& (exists|plan: Plan| #[trigger] paint_plan(&before.map, bot, plan) && a == plan.first_action)
                || (a == Action::DoNothing && bot.fast > 0 && no_way(
                &before.map,
                bot.drill,
                bot.fast,
                bot.pose,
                Quest::Paint(bot.arms),
            ))
        },
        Err(e) => {
            &&& e == SolveError::Stuck
            &&& bot.fast == 0
            &&& after.booster_pos == before.booster_pos
            &&& after.bots@[i].order is None
            &&& no_speed_near(before, bot)
            &&& no_arm_or_clone(before, bot)
            &&& no_way(&before.map, bot.drill, 0, bot.pose, Quest::Paint(bot.arms))
        },
    }
}

/// What a decision of agent `i` leaves the engine as, and what it hands back: the grid, the
/// mystery cells and all other agents are as before, and so is the agent but for its
/// order; the action is one that the agent accepts.
pub open spec fn decided(before: &System, after: &System, i: int, r: Result<Action, SolveError>) -> bool {
    &&& kept(after, before, i)
    &&& r matches Ok(a) ==> after.bots@[i]@.accepts(a, &after.map, false)
    &&& match before.bots@[i].order {
        Some(o) => decided_by_order(before, after, i, o, r),
        None => decided_idle(before, after, i, r),
    }
}

/// The kinds of pickup that the engine claims: a speed boost, an arm and a clone pickup. A
/// pickup of another kind stays where it lies.
pub open spec fn sought(kind: BoosterKind) -> bool {
    kind == BoosterKind::FastWheels || kind == BoosterKind::ExtendManipulator || kind == BoosterKind::Cloning
}

/// The decision of agent `i` has taken the pickup on `pos` out of the pool: the agent was
/// idle, the pickup is of a kind that the engine claims, the pool has lost it and nothing
/// else, and the agent has the order to walk to `pos`.
pub open spec fn took(before: &System, after: &System, i: int, pos: Pos) -> bool {
    &&& before.bots@[i].order is None
    &&& before.booster_pos@.contains_key(pos)
    &&& sought(before.booster_pos@[pos])
    &&& after.booster_pos@ == before.booster_pos@.remove(pos)
    &&& after.bots@[i].order == order_for(before.booster_pos@[pos], pos)
    &&& after.bots@[i].order matches Some(o) && o.target() == Some(pos)
}

/// The pool `after` holds every pickup of the pool `before` that the engine does not claim.
pub open spec fn unsought_stay(after: Map<Pos, BoosterKind>, before: Map<Pos, BoosterKind>) -> bool {
    forall|p: Pos| before.contains_key(p) && !sought(#[trigger] before[p]) ==> after.contains_key(p)
}

/// What a decision does to the pool: nothing, or it takes one pickup out of it, which is
/// then the target of the agent that has decided. A decision that fails changes nothing.
pub open spec fn pool_after(before: &System, after: &System, i: int, r: Result<Action, SolveError>) -> bool {
    ||| after.booster_pos@ == before.booster_pos@
    ||| r is Ok && exists|pos: Pos| #[trigger] took(before, after, i, pos)
}

/// A pickup leaves the pool only when an idle agent claims it: whatever an agent decides,
/// the pool is as before, or it has lost the one pickup that the agent now walks to, and
/// no pickup that the engine does not claim is ever lost.
pub proof fn lemma_decision_and_pool(before: &System, after: &System, i: int, r: Result<Action, SolveError>)
    requires
        decided(before, after, i, r),
    ensures
        pool_after(before, after, i, r),
        unsought_stay(after.booster_pos@, before.booster_pos@),
        forall|p: Pos, q: Pos|
            before.booster_pos@.contains_key(p) && !after.booster_pos@.contains_key(p)
                && before.booster_pos@.contains_key(q) && !after.booster_pos@.contains_key(q) ==> p == q,
{
    reveal(decided_by_order);
    reveal(decided_idle);
    match before.bots@[i].order {
        Some(o) => {},
        None => {
            if r is Ok && after.bots@[i].order is Some {
                let (plan, kind) = choose|plan: Plan, kind: BoosterKind| #[trigger]
                    claimed(before, after, i, r->Ok_0, plan, kind);
                assert(took(before, after, i, plan.pos_angle.pos));
            }
        },
    }
}

/// Two plans that a search of an agent without speed hands back for the same quest lead to
/// the same pose by as many actions, the first of which is the same.
proof fn lemma_found_once(sys: &System, bot: BotView, quest: Quest, p1: Plan, p2: Plan)
    requires
        bot.fast == 0,
        found_by(sys, bot, quest, p1),
        found_by(sys, bot, quest, p2),
    ensures
        p1.pos_angle == p2.pos_angle,
        p1.len == p2.len,
        p1.first_action == p2.first_action,
{
    lemma_plan_determined(
        &sys.map,
        bot.drill,
        bot.fast,
        bot.pose,
        quest,
        p1.pos_angle,
        p1.len as nat,
        p1.first_action,
        p2.pos_angle,
        p2.len as nat,
        p2.first_action,
    );
}

/// A search of an agent without speed does not both fail and hand back a plan.
proof fn lemma_found_or_failed(sys: &System, bot: BotView, quest: Quest, plan: Plan)
    requires
        bot.fast == 0,
        found_by(sys, bot, quest, plan),
    ensures
        !no_way(&sys.map, bot.drill, bot.fast, bot.pose, quest),
{
    if no_way(&sys.map, bot.drill, bot.fast, bot.pose, quest) {
        lemma_exhausted_means_unreachable(&sys.map, bot.drill, bot.fast, bot.pose, quest);
        assert(steady(bot.drill, bot.fast, plan.len as nat));
        assert(false);
    }
}

/// An agent without speed that claims a pickup has found it, so that it does not hold at the
/// same time that it finds none of that kind.
proof fn lemma_claim_is_found(before: &System, after: &System, i: int, a: Action, plan: Plan, kind: BoosterKind)
    requires
        before.bots@[i]@.fast == 0,
        claimed(before, after, i, a, plan, kind),
    ensures
        before.booster_pos.offers(kind),
        sought(kind),
        kind == BoosterKind::FastWheels ==> !no_speed_near(before, before.bots@[i]@),
        kind != BoosterKind::FastWheels ==> no_speed_near(before, before.bots@[i]@) && !no_arm_or_clone(
            before,
            before.bots@[i]@,
        ),
{
    let bot = before.bots@[i]@;
    let pos = plan.pos_angle.pos;
    assert(before.booster_pos@.contains_key(pos) && before.booster_pos@[pos] == kind);
    if kind == BoosterKind::FastWheels {
        let quest = pickup_quest(before, seq![BoosterKind::FastWheels]);
        lemma_found_or_failed(before, bot, quest, plan);
        if no_speed_near(before, bot) {
            let far = choose|far: Plan| #[trigger] found_by(before, bot, quest, far) && far.len > NEAR_BOOSTER_STEPS;
            lemma_found_once(before, bot, quest, plan, far);
        }
    } else {
        lemma_found_or_failed(before, bot, pickup_quest(before, arm_kinds()), plan);
    }
}

/// An idle agent without speed decides in one way only.
proof fn lemma_idle_determined(
    before: &System,
    a1: &System,
    r1: Result<Action, SolveError>,
    a2: &System,
    r2: Result<Action, SolveError>,
    i: int,
)
    requires
        before.bots@[i]@.fast == 0,
        decided_idle(before, a1, i, r1),
        decided_idle(before, a2, i, r2),
    ensures
        r1 == r2,
        a1.bots@[i].order == a2.bots@[i].order,
        a1.booster_pos@ == a2.booster_pos@,
{
    reveal(decided_idle);
    let bot = before.bots@[i]@;
    let claims1 = r1 is Ok && a1.bots@[i].order is Some;
    let claims2 = r2 is Ok && a2.bots@[i].order is Some;
    if claims1 {
        let (p1, k1) = choose|plan: Plan, kind: BoosterKind| #[trigger]
            claimed(before, a1, i, r1->Ok_0, plan, kind);
        lemma_claim_is_found(before, a1, i, r1->Ok_0, p1, k1);
        if claims2 {
            let (p2, k2) = choose|plan: Plan, kind: BoosterKind| #[trigger]
                claimed(before, a2, i, r2->Ok_0, plan, kind);
            lemma_claim_is_found(before, a2, i, r2->Ok_0, p2, k2);
            if k1 == BoosterKind::FastWheels {
                lemma_found_once(before, bot, pickup_quest(before, seq![BoosterKind::FastWheels]), p1, p2);
            } else {
                lemma_found_once(before, bot, pickup_quest(before, arm_kinds()), p1, p2);
            }
        }
    } else if claims2 {
        let (p2, k2) = choose|plan: Plan, kind: BoosterKind| #[trigger]
            claimed(before, a2, i, r2->Ok_0, plan, kind);
        lemma_claim_is_found(before, a2, i, r2->Ok_0, p2, k2);
    } else {
        let quest = Quest::Paint(bot.arms);
        if r1 is Ok {
            let p1 = choose|plan: Plan| #[trigger] paint_plan(&before.map, bot, plan) && r1->Ok_0 == plan.first_action;
            if r2 is Ok {
                let p2 = choose|plan: Plan| #[trigger]
                    paint_plan(&before.map, bot, plan) && r2->Ok_0 == plan.first_action;
                lemma_paint_plan_determined(&before.map, bot, p1, p2);
            } else {
                lemma_exhausted_means_unreachable(&before.map, bot.drill, bot.fast, bot.pose, quest);
                assert(steady(bot.drill, bot.fast, p1.len as nat));
            }
        } else if r2 is Ok {
            let p2 = choose|plan: Plan| #[trigger] paint_plan(&before.map, bot, plan) && r2->Ok_0 == plan.first_action;
            lemma_exhausted_means_unreachable(&before.map, bot.drill, bot.fast, bot.pose, quest);
            assert(steady(bot.drill, bot.fast, p2.len as nat));
        }
    }
}

/// An agent without speed that holds an order decides in one way only.
proof fn lemma_ordered_determined(
    before: &System,
    a1: &System,
    r1: Result<Action, SolveError>,
    a2: &System,
    r2: Result<Action, SolveError>,
    i: int,
    o: Order,
)
    requires
        before.bots@[i]@.fast == 0,
        decided_by_order(before, a1, i, o, r1),
        decided_by_order(before, a2, i, o, r2),
    ensures
        r1 == r2,
        a1.bots@[i].order == a2.bots@[i].order,
        a1.booster_pos@ == a2.booster_pos@,
{
    reveal(decided_by_order);
    let bot = before.bots@[i]@;
    if o.target() is Some {
        let quest = Quest::At(o.target()->0);
        if r1 is Ok {
            let p1 = choose|plan: Plan| #[trigger] found_by(before, bot, quest, plan) && r1->Ok_0 == plan.first_action;
            lemma_found_or_failed(before, bot, quest, p1);
            if r2 is Ok {
                let p2 = choose|plan: Plan| #[trigger]
                    found_by(before, bot, quest, plan) && r2->Ok_0 == plan.first_action;
                lemma_found_once(before, bot, quest, p1, p2);
            }
        } else if r2 is Ok {
            let p2 = choose|plan: Plan| #[trigger] found_by(before, bot, quest, plan) && r2->Ok_0 == plan.first_action;
            lemma_found_or_failed(before, bot, quest, p2);
        }
    } else if performing(o, bot.arms.len() as int) is Some {
    } else {
        let quest = Quest::Mystery(before.mysterious_pos@);
        if r1 is Ok {
            let p1 = choose|plan: Plan| #[trigger]
                found_by(before, bot, quest, plan) && r1->Ok_0 == plan.first_action && a1.bots@[i].order == Some(
                    Order::MoveToMysterious(plan.pos_angle.pos),
                );
            lemma_found_or_failed(before, bot, quest, p1);
            if r2 is Ok {
                let p2 = choose|plan: Plan| #[trigger]
                    found_by(before, bot, quest, plan) && r2->Ok_0 == plan.first_action && a2.bots@[i].order
                        == Some(Order::MoveToMysterious(plan.pos_angle.pos));
                lemma_found_once(before, bot, quest, p1, p2);
            }
        } else if r2 is Ok {
            let p2 = choose|plan: Plan| #[trigger]
                found_by(before, bot, quest, plan) && r2->Ok_0 == plan.first_action && a2.bots@[i].order == Some(
                    Order::MoveToMysterious(plan.pos_angle.pos),
                );
            lemma_found_or_failed(before, bot, quest, p2);
        }
    }
}

/// The decision of an agent without speed is a function of the engine: two decisions of
/// agent `i` in the same engine hand back the same result, leave the agent the same order
/// and the pool the same pickups, and change nothing else.
pub proof fn lemma_decision_determined(
    before: &System,
    a1: &System,
    r1: Result<Action, SolveError>,
    a2: &System,
    r2: Result<Action, SolveError>,
    i: int,
)
    requires
        0 <= i < before.bots@.len(),
        before.bots@[i]@.fast == 0,
        decided(before, a1, i, r1),
        decided(before, a2, i, r2),
    ensures
        r1 == r2,
        a1.booster_pos@ == a2.booster_pos@,
        a1.map == a2.map,
        a1.mysterious_pos == a2.mysterious_pos,
        a1.bots@.len() == a2.bots@.len(),
        forall|j: int| 0 <= j < before.bots@.len() ==> (#[trigger] a1.bots@[j])@ == a2.bots@[j]@,
{
    match before.bots@[i].order {
        Some(o) => lemma_ordered_determined(before, a1, r1, a2, r2, i, o),
        None => lemma_idle_determined(before, a1, r1, a2, r2, i),
    }
}

/// The engine `after` is the engine `before` after the turn of agent `i`: the agent has
/// decided on an action and has carried it out.
#[verifier::opaque]
pub open spec fn turn_taken(before: &System, after: &System, i: int) -> bool {
    exists|mid: System, action: Action| #[trigger]
        decided(before, &mid, i, Ok(action)) && performed(&mid, after, i, action)
}

/// The `k`-th of the states has an unpainted cell, and the turn of agent `k` leads from it to
/// the next of the states.
pub open spec fn turn_at(states: Seq<System>, k: int) -> bool {
    states[k].map.empty_cell_count != 0 && turn_taken(&states[k], &states[k + 1], k)
}

/// The states of a tick that begins with the engine `start`, as far as it has run: the
/// first state is the engine after the handovers, and each further state is the engine
/// after the turn of the next agent, in index order, of those that `start` holds. An agent
/// takes its turn only while a cell is unpainted.
#[verifier::opaque]
pub open spec fn tick_run(start: &System, states: Seq<System>) -> bool {
    &&& states.len() >= 1
    &&& states.len() - 1 <= start.bots@.len()
    &&& rebalanced(start, &states[0])
    &&& forall|k: int| 0 <= k < states.len() - 1 ==> #[trigger] turn_at(states, k)
}

/// The engine `end` is the engine `start` after a tick: the handovers and the turns of
/// the agents, all of them or as many as it takes to paint the last cell.
#[verifier::opaque]
pub open spec fn tick_done(start: &System, end: &System) -> bool {
    exists|states: Seq<System>|
        {
            &&& #[trigger] tick_run(start, states)
            &&& states.last() == *end
            &&& states.len() - 1 == start.bots@.len() || end.map.empty_cell_count == 0
        }
}

/// The engine `end` is the engine `start` after a tick that has come to a halt with `e`:
/// after the handovers and the turns of some agents the next agent has found no action.
#[verifier::opaque]
pub open spec fn tick_failed(start: &System, end: &System, e: SolveError) -> bool {
    exists|states: Seq<System>|
        {
            &&& #[trigger] tick_run(start, states)
            &&& states.len() - 1 < start.bots@.len()
            &&& states.last().map.empty_cell_count != 0
            &&& decided(&states.last(), end, states.len() - 1, Err(e))
        }
}

/// The `k`-th of the engines has an unpainted cell, and a tick leads from it to the next of
/// the engines.
pub open spec fn tick_at(ticks: Seq<System>, k: int) -> bool {
    ticks[k].map.empty_cell_count != 0 && tick_done(&ticks[k], &ticks[k + 1])
}

/// The engine `first` is the engine `before` once the first agent has painted from where it
/// stands.
pub open spec fn started(before: &System, first: &System) -> bool {
    &&& first.bots == before.bots
    &&& first.booster_pos == before.booster_pos
    &&& first.mysterious_pos == before.mysterious_pos
    &&& painted_from(&first.map, &before.map, before.bots@[0]@.arms, before.bots@[0].pos_angle)
}

/// The engines at the start of each tick of a solve of the engine `before`: the first agent
/// paints, then tick follows tick while a cell is unpainted.
#[verifier::opaque]
pub open spec fn ticks_run(before: &System, ticks: Seq<System>) -> bool {
    &&& ticks.len() >= 1
    &&& started(before, &ticks[0])
    &&& forall|k: int| 0 <= k < ticks.len() - 1 ==> #[trigger] tick_at(ticks, k)
}

/// What a solve leaves the engine as, and what it hands back: the engine has run tick after
/// tick, to the end of the tick in which the last cell was painted, or to the turn in which
/// an agent has found no action.
#[verifier::opaque]
pub open spec fn solved(before: &System, after: &System, r: Result<(), SolveError>) -> bool {
    exists|ticks: Seq<System>|
        {
            &&& #[trigger] ticks_run(before, ticks)
            &&& match r {
                Ok(_) => ticks.last() == *after && after.map.empty_cell_count == 0,
                Err(e) => ticks.last().map.empty_cell_count != 0 && tick_failed(&ticks.last(), after, e),
            }
        }
}

/// A solve of the engine `before` has reached the engine `s` as the turn of agent `i`
/// begins: the solve has run tick after tick, and in the last of them the agents before
/// `i` have taken their turns.
#[verifier::opaque]
pub open spec fn reached(before: &System, s: &System, i: int) -> bool {
    exists|ticks: Seq<System>, states: Seq<System>|
        {
            &&& ticks_run(before, ticks)
            &&& #[trigger] tick_run(&ticks.last(), states)
            &&& states.last() == *s
            &&& states.len() - 1 == i
        }
}

/// In a solve of the engine `before` an idle agent has claimed the pickup on `p`: the solve
/// has reached a turn in which the agent decided to take the pickup out of the pool and to
/// walk to it.
#[verifier::opaque]
pub open spec fn claimed_on(before: &System, p: Pos) -> bool {
    exists|s: System, t: System, i: int, a: Action|
        {
            &&& reached(before, &s, i)
            &&& #[trigger] decided(&s, &t, i, Ok(a))
            &&& took(&s, &t, i, p)
        }
}

/// Every pickup of the engine `before` that the pool `pool` lacks was claimed by an idle
/// agent in a solve of `before`.
pub open spec fn claims_account(before: &System, pool: Map<Pos, BoosterKind>) -> bool {
    forall|p: Pos|
        #![trigger pool.contains_key(p)]
        before.booster_pos@.contains_key(p) && !pool.contains_key(p) ==> claimed_on(before, p)
}

/// A decision that takes a pickup in a turn that a solve has reached is a claim of that
/// solve.
proof fn lemma_claim_counts(
    before: &System,
    ticks: Seq<System>,
    states: Seq<System>,
    t: &System,
    a: Action,
    p: Pos,
)
    requires
        ticks_run(before, ticks),
        tick_run(&ticks.last(), states),
        states.len() >= 1,
        decided(&states.last(), t, states.len() - 1, Ok(a)),
        took(&states.last(), t, states.len() - 1, p),
    ensures
        claimed_on(before, p),
{
    reveal(reached);
    reveal(claimed_on);
    assert(reached(before, &states.last(), states.len() - 1));
}

/// A tick begins with the handovers.
proof fn lemma_tick_begins(start: &System, first: &System)
    requires
        rebalanced(start, first),
    ensures
        tick_run(start, seq![*first]),
{
    reveal(tick_run);
}

/// A tick goes on with the turn of the next agent.
proof fn lemma_tick_goes_on(start: &System, states: Seq<System>, mid: &System, next: &System, action: Action)
    requires
        states.len() >= 1,
        tick_run(start, states),
        states.len() - 1 < start.bots@.len(),
        states.last().map.empty_cell_count != 0,
        decided(&states.last(), mid, states.len() - 1, Ok(action)),
        performed(mid, next, states.len() - 1, action),
    ensures
        tick_run(start, states.push(*next)),
{
    reveal(tick_run);
    reveal(turn_taken);
    let longer = states.push(*next);
    assert(turn_taken(&states.last(), next, states.len() - 1));
    assert forall|k: int| 0 <= k < longer.len() - 1 implies #[trigger] turn_at(longer, k) by {
        if k < states.len() - 1 {
            assert(turn_at(states, k));
            assert(longer[k] == states[k]);
            assert(longer[k + 1] == states[k + 1]);
        } else {
            assert(longer[k] == states.last());
            assert(longer[k + 1] == *next);
        }
    }
    assert(longer[0] == states[0]);
}

/// A tick ends after the turn of the last agent, or when the last cell is painted.
proof fn lemma_tick_ends(start: &System, states: Seq<System>)
    requires
        states.len() >= 1,
        tick_run(start, states),
        states.len() - 1 == start.bots@.len() || states.last().map.empty_cell_count == 0,
    ensures
        tick_done(start, &states.last()),
{
    reveal(tick_done);
    reveal(tick_run);
}

/// A tick comes to a halt when an agent finds no action.
proof fn lemma_tick_halts(start: &System, states: Seq<System>, end: &System, e: SolveError)
    requires
        states.len() >= 1,
        tick_run(start, states),
        states.len() - 1 < start.bots@.len(),
        states.last().map.empty_cell_count != 0,
        decided(&states.last(), end, states.len() - 1, Err(e)),
    ensures
        tick_failed(start, end, e),
{
    reveal(tick_failed);
}

/// A solve begins when the first agent has painted.
proof fn lemma_ticks_begin(before: &System, first: &System)
    requires
        started(before, first),
    ensures
        ticks_run(before, seq![*first]),
{
    reveal(ticks_run);
}

/// A solve goes on with a tick.
proof fn lemma_ticks_go_on(before: &System, ticks: Seq<System>, next: &System)
    requires
        ticks.len() >= 1,
        ticks_run(before, ticks),
        ticks.last().map.empty_cell_count != 0,
        tick_done(&ticks.last(), next),
    ensures
        ticks_run(before, ticks.push(*next)),
{
    reveal(ticks_run);
    let longer = ticks.push(*next);
    assert forall|k: int| 0 <= k < longer.len() - 1 implies #[trigger] tick_at(longer, k) by {
        if k < ticks.len() - 1 {
            assert(tick_at(ticks, k));
            assert(longer[k] == ticks[k]);
            assert(longer[k + 1] == ticks[k + 1]);
        } else {
            assert(longer[k] == ticks.last());
            assert(longer[k + 1] == *next);
        }
    }
    assert(longer[0] == ticks[0]);
}

/// The logs of the agents.
pub open spec fn logs_of(bots: Seq<Bot>) -> Seq<Seq<Action>> {
    Seq::new(bots.len(), |j: int| bots[j].record@)
}

/// How many clone actions the logs of the agents hold.
pub open spec fn clones_logged(bots: Seq<Bot>) -> nat {
    count_in_rows(logs_of(bots), Action::Cloning)
}

/// The agents that no clone action in the logs accounts for: the number of the agents less
/// the number of the clone actions that their logs hold.
pub open spec fn founders(bots: Seq<Bot>) -> int {
    bots.len() - clones_logged(bots)
}

/// Agents without a log hold no clone action.
pub proof fn lemma_fresh_logs(bots: Seq<Bot>)
    requires
        forall|j: int| 0 <= j < bots.len() ==> (#[trigger] bots[j]).record@.len() == 0,
    ensures
        clones_logged(bots) == 0,
        founders(bots) == bots.len(),
{
    lemma_count_rows_zero(logs_of(bots), Action::Cloning);
}

/// Agents with the same logs hold the same clone actions.
pub proof fn lemma_same_logs(before: Seq<Bot>, after: Seq<Bot>)
    requires
        after.len() == before.len(),
        forall|j: int| 0 <= j < before.len() ==> (#[trigger] after[j]).record@ == before[j].record@,
    ensures
        clones_logged(after) == clones_logged(before),
        founders(after) == founders(before),
{
    assert(logs_of(after) =~= logs_of(before));
}

/// A turn keeps the number of agents and the number of clone actions in step: the agent
/// `i` logs one action, and where that is a clone action one agent with an empty log is
/// added behind the others.
pub proof fn lemma_turn_logs(before: Seq<Bot>, after: Seq<Bot>, i: int, logged: Action)
    requires
        0 <= i < before.len(),
        after.len() == before.len() + if logged is Cloning {
            1int
        } else {
            0int
        },
        forall|j: int| 0 <= j < before.len() && j != i ==> (#[trigger] after[j]).record@ == before[j].record@,
        after[i].record@ == before[i].record@.push(logged),
        logged is Cloning ==> after.last().record@.len() == 0,
    ensures
        clones_logged(after) == clones_logged(before) + one_if(logged is Cloning),
        founders(after) == founders(before),
{
    let old_log = before[i].record@;
    let new_log = old_log.push(logged);
    let kept = after.subrange(0, before.len() as int);
    assert(new_log.drop_last() =~= old_log);
    assert(count_in_row(new_log, Action::Cloning) == count_in_row(old_log, Action::Cloning) + one_if(
        logged is Cloning,
    ));
    lemma_count_rows_update(logs_of(before), i, new_log, Action::Cloning);
    assert(logs_of(kept) =~= logs_of(before).update(i, new_log));
    if logged is Cloning {
        assert(logs_of(after).drop_last() =~= logs_of(kept));
        assert(logs_of(after).last().len() == 0);
        assert(count_in_row(logs_of(after).last(), Action::Cloning) == 0);
    } else {
        assert(after =~= kept);
    }
}

/// What a decision leaves as it was: the grid, the mystery cells, every other agent, and of
/// the deciding agent everything but its order. The pool can only lose pickups.
pub open spec fn kept(after: &System, before: &System, i: int) -> bool {
    &&& after.map == before.map
    &&& after.mysterious_pos == before.mysterious_pos
    &&& after.bots@.len() == before.bots@.len()
    &&& forall|j: int| 0 <= j < before.bots@.len() && j != i ==> #[trigger] after.bots@[j] == before.bots@[j]
    &&& same_but_order(&after.bots@[i], &before.bots@[i])
    &&& within(after.booster_pos@, before.booster_pos@)
}

/// The order that sends an agent to a pickup of `kind` on `pos`.
pub open spec fn order_for(kind: BoosterKind, pos: Pos) -> Option<Order> {
    match kind {
        BoosterKind::FastWheels => Some(Order::MoveToFastWheel(pos)),
        BoosterKind::Drill => Some(Order::MoveToDrill(pos)),
        BoosterKind::ExtendManipulator => Some(Order::MoveToExtendManipulator(pos)),
        BoosterKind::Cloning => Some(Order::MoveToClone(pos)),
        _ => None,
    }
}

/// The text of a log: the texts of its actions, one after the other.
pub open spec fn log_text(log: Seq<Action>) -> Seq<char>
    decreases log.len(),
{
    if log.len() == 0 {
        Seq::empty()
    } else {
        log_text(log.drop_last()) + log.last().text()
    }
}

/// The text of a solution: the logs of the agents, in index order, with `#` between them.
pub open spec fn records_text(bots: Seq<Bot>) -> Seq<char>
    decreases bots.len(),
{
    if bots.len() == 0 {
        Seq::empty()
    } else if bots.len() == 1 {
        log_text(bots[0].record@)
    } else {
        records_text(bots.drop_last()) + seq!['#'] + log_text(bots.last().record@)
    }
}

/// `m` is the length of the longest log.
pub open spec fn is_score(bots: Seq<Bot>, m: int) -> bool {
    &&& forall|i: int| 0 <= i < bots.len() ==> (#[trigger] bots[i]).record@.len() <= m
    &&& exists|i: int| 0 <= i < bots.len() && (#[trigger] bots[i]).record@.len() == m
}

/// The name of the file that a solution of arena `id` with score `score` goes to.
pub open spec fn file_name(id: nat, score: nat) -> Seq<char> {
    "prob-"@ + decimal_padded(id, 3) + "-score-"@ + decimal_padded(score, 8) + "-ai-drill.sol"@
}

/// What a solve has produced.
#[derive(Debug, Clone, Default)]
pub struct Solution {
    pub id: u64,
    pub score: usize,
    pub solution: String,
    pub filename: String,
}

impl System {
    /// The grid and the pool are well formed, there is an agent, and every agent is well
    /// formed and stands on a cell of the grid that is no wall.
    pub open spec fn wf(&self) -> bool {
        &&& self.map.wf()
        &&& self.booster_pos.wf()
        &&& self.bots@.len() >= 1
        &&& forall|i: int|
            0 <= i < self.bots@.len() ==> {
                &&& (#[trigger] self.bots@[i]).wf()
                &&& self.map.free_at(self.bots@[i].pos_angle.pos.x as int, self.bots@[i].pos_angle.pos.y as int)
            }
    }

    /// The engine for an arena: its grid, one agent on the start cell, the pickups by cell
    /// and the mystery cells. Of two pickups on one cell the later one counts.
    pub fn new(task: Task) -> (r: Result<System, GridError>)
        ensures
            match r {
                Ok(sys) => {
                    &&& engine_error(&task) is None
                    &&& sys.wf()
                    &&& sys.map.id == task.id
                    &&& sys.map.max_x == max_x_of(task.map@)
                    &&& sys.map.max_y == max_y_of(task.map@)
                    &&& sys.map.bot_start_pos == task.bot
                    &&& sys.map.boosters@ == task.boosters@
                    &&& sys.map.table() == raster(
                        task.map@,
                        task.obstacles@,
                        sys.map.max_x as int,
                        sys.map.max_y as int,
                    )
                    &&& sys.bots@.len() == 1
                    &&& sys.bots@[0]@ == fresh_bot(task.bot)
                    &&& clones_logged(sys.bots@) == 0
                    &&& sys.mysterious_pos@ == mystery_cells(task.boosters@)
                    &&& sys.booster_pos@ == claimable(task.boosters@)
                },
                Err(e) => engine_error(&task) == Some(e),
            },
    {
        let ghost boosters = task.boosters@;
        let start = task.bot;
        let map = match Grid::new(task) {
            Ok(map) => map,
            Err(e) => {
                return Err(e);
            },
        };
        proof {
            if map.in_range(start.x as int, start.y as int) {
                assert(map.table()[start.x as int][start.y as int] == map.at(start.x as int, start.y as int));
            }
        }
        if !map.is_empty(start) {
            return Err(GridError::BadStart);
        }
        let bot = Bot::new(map.bot_start_pos);
        let mut booster_pos = Pool::new();
        let mut mysterious_pos: Vec<Pos> = Vec::new();
        let n = map.boosters.len();
        let mut i: usize = 0;
        assert(boosters.take(0) =~= Seq::<Booster>::empty());
        while i < n
            invariant
                i <= n,
                n == map.boosters@.len(),
                map.boosters@ == boosters,
                booster_pos.wf(),
                mysterious_pos@ == mystery_cells(boosters.take(i as int)),
                booster_pos@ == claimable(boosters.take(i as int)),
            decreases n - i,
        {
            let booster = map.boosters[i];
            proof {
                let t = boosters.take(i + 1);
                assert(t.drop_last() =~= boosters.take(i as int));
                assert(t.last() == booster);
            }
            if booster.kind == BoosterKind::Mysterious {
                mysterious_pos.push(booster.pos);
            } else {
                booster_pos.insert(booster.pos, booster.kind);
            }
            i += 1;
        }
        assert(boosters.take(n as int) =~= boosters);
        let mut bots: Vec<Bot> = Vec::new();
        bots.push(bot);
        proof {
            lemma_fresh_logs(bots@);
        }
        Ok(System { map, bots, booster_pos, mysterious_pos })
    }

    /// Whether a pickup of kind `booster` is left in the pool.
    pub fn has_booster(&self, booster: BoosterKind) -> (r: bool)
        requires
            self.booster_pos.wf(),
        ensures
            r == self.booster_pos.offers(booster),
    {
        self.booster_pos.has_booster(booster)
    }

    /// The number of steps between two cells on a plane without walls.
    pub fn distance(&self, a: Pos, b: Pos) -> (r: u64)
        ensures
            r == a.manhattan(b),
    {
        let dx: i64 = a.x as i64 - b.x as i64;
        let dy: i64 = a.y as i64 - b.y as i64;
        let ax: u64 = if dx < 0 {
            (-dx) as u64
        } else {
            dx as u64
        };
        let ay: u64 = if dy < 0 {
            (-dy) as u64
        } else {
            dy as u64
        };
        ax + ay
    }

    /// Hands the order of agent `bot_a` over to agent `bot_b` where `handed_over` says so.
    pub fn order_swap(&mut self, bot_a: usize, bot_b: usize)
        requires
            old(self).wf(),
            bot_a < old(self).bots@.len(),
            bot_b < old(self).bots@.len(),
        ensures
            final(self).wf(),
            final(self).map == old(self).map,
            final(self).booster_pos == old(self).booster_pos,
            final(self).mysterious_pos == old(self).mysterious_pos,
            final(self).bots@.len() == old(self).bots@.len(),
            forall|i: int|
                0 <= i < old(self).bots@.len() ==> same_but_order(
                    &#[trigger] final(self).bots@[i],
                    &old(self).bots@[i],
                ),
            orders_of(final(self).bots@) == hand(
                orders_of(old(self).bots@),
                cells_of(old(self).bots@),
                bot_a as int,
                bot_b as int,
            ),
    {
        let order_a = self.bots[bot_a].order;
        let order_b = self.bots[bot_b].order;
        let here_a = self.bots[bot_a].pos_angle.pos;
        let here_b = self.bots[bot_b].pos_angle.pos;
        match (order_a, order_b) {
            (Some(Order::MoveToMysterious(pos)), None) => {
                if self.distance(here_a, pos) > self.distance(here_b, pos) {
                    self.bots[bot_a].order = None;
                    self.bots[bot_b].order = Some(Order::MoveToMysterious(pos));
                }
            },
            (Some(Order::MoveToClone(pos)), None) => {
                if self.distance(here_a, pos) > self.distance(here_b, pos) {
                    self.bots[bot_a].order = None;
                    self.bots[bot_b].order = Some(Order::MoveToClone(pos));
                }
            },
            _ => {},
        }
        assert(orders_of(self.bots@) =~= hand(
            orders_of(old(self).bots@),
            cells_of(old(self).bots@),
            bot_a as int,
            bot_b as int,
        ));
    }

    /// One round of handovers: every ordered pair of agents, in index order.
    pub fn rebalance(&mut self)
        requires
            old(self).wf(),
        ensures
            final(self).wf(),
            rebalanced(&*old(self), &*final(self)),
    {
        let ghost orders0 = orders_of(self.bots@);
        let ghost cells = cells_of(self.bots@);
        let n = self.bots.len();
        let mut i: usize = 0;
        while i < n
            invariant
                i <= n,
                n == self.bots@.len(),
                self.wf(),
                self.map == old(self).map,
                self.booster_pos == old(self).booster_pos,
                self.mysterious_pos == old(self).mysterious_pos,
                self.bots@.len() == old(self).bots@.len(),
                orders0 == orders_of(old(self).bots@),
                cells == cells_of(old(self).bots@),
                cells == cells_of(self.bots@),
                orders_of(self.bots@) == handed_rows(orders0, cells, i as int),
                forall|k: int|
                    0 <= k < old(self).bots@.len() ==> same_but_order(
                        &#[trigger] self.bots@[k],
                        &old(self).bots@[k],
                    ),
            decreases n - i,
        {
            let ghost row0 = orders_of(self.bots@);
            let mut j: usize = 0;
            while j < n
                invariant
                    i < n,
                    j <= n,
                    n == self.bots@.len(),
                    self.wf(),
                    self.map == old(self).map,
                    self.booster_pos == old(self).booster_pos,
                    self.mysterious_pos == old(self).mysterious_pos,
                    self.bots@.len() == old(self).bots@.len(),
                    cells == cells_of(old(self).bots@),
                    cells == cells_of(self.bots@),
                    orders_of(self.bots@) == handed_row(row0, cells, i as int, j as int),
                    forall|k: int|
                        0 <= k < old(self).bots@.len() ==> same_but_order(
                            &#[trigger] self.bots@[k],
                            &old(self).bots@[k],
                        ),
                decreases n - j,
            {
                let ghost before = self.bots@;
                self.order_swap(i, j);
                proof {
                    assert forall|k: int| 0 <= k < old(self).bots@.len() implies same_but_order(
                        &#[trigger] self.bots@[k],
                        &old(self).bots@[k],
                    ) by {
                        assert(same_but_order(&self.bots@[k], &before[k]));
                        assert(same_but_order(&before[k], &old(self).bots@[k]));
                    }
                    assert(cells_of(self.bots@) =~= cells);
                }
                j += 1;
            }
            i += 1;
        }
    }

    /// Searches for the nearest pickup of one of the kinds `boosters` that agent `bot` can
    /// walk to.
    pub fn find_booster(&self, bot: &Bot, boosters: Vec<BoosterKind>) -> (r: Result<Plan, PickupError>)
        requires
            self.map.wf(),
            self.booster_pos.wf(),
            self.map.in_range(bot.pos_angle.pos.x as int, bot.pos_angle.pos.y as int),
        ensures
            (r matches Err(PickupError::Unavailable)) <==> forall|k: int|
                0 <= k < boosters@.len() ==> !self.booster_pos.offers(#[trigger] boosters@[k]),
            !(r matches Err(PickupError::TooFar)),
            r matches Ok(plan) ==> found_by(self, bot@, pickup_quest(self, boosters@), plan),
            (r matches Err(PickupError::NoRoute)) ==> no_way(
                &self.map,
                bot@.drill,
                bot@.fast,
                bot.pos_angle,
                Quest::Pickup(boosters@, self.booster_pos@),
            ),
    {
        let n = boosters.len();
        let mut any = false;
        let mut k: usize = 0;
        while k < n
            invariant
                k <= n,
                n == boosters@.len(),
                self.booster_pos.wf(),
                any <==> exists|j: int| 0 <= j < k && self.booster_pos.offers(#[trigger] boosters@[j]),
            decreases n - k,
        {
            if self.has_booster(boosters[k]) {
                any = true;
            }
            k += 1;
        }
        if !any {
            return Err(PickupError::Unavailable);
        }
        let goal = Goal::Pickup(boosters);
        match find_move_to(
            &self.map,
            &self.booster_pos,
            &self.mysterious_pos,
            bot.pos_angle,
            bot.drill_timer,
            bot.fast_wheel_timer,
            &goal,
        ) {
            Some(plan) => Ok(plan),
            None => Err(PickupError::NoRoute),
        }
    }

    /// Searches like `find_booster`, for a pickup that is at most `near_len` actions away.
    pub fn find_booster_near(&self, bot: &Bot, boosters: Vec<BoosterKind>, near_len: usize) -> (r: Result<
        Plan,
        PickupError,
    >)
        requires
            self.map.wf(),
            self.booster_pos.wf(),
            self.map.in_range(bot.pos_angle.pos.x as int, bot.pos_angle.pos.y as int),
        ensures
            (r matches Err(PickupError::Unavailable)) <==> forall|k: int|
                0 <= k < boosters@.len() ==> !self.booster_pos.offers(#[trigger] boosters@[k]),
            r matches Ok(plan) ==> plan.len <= near_len && found_by(
                self,
                bot@,
                pickup_quest(self, boosters@),
                plan,
            ),
            (r matches Err(PickupError::TooFar)) ==> exists|plan: Plan| #[trigger]
                found_by(self, bot@, pickup_quest(self, boosters@), plan) && plan.len > near_len,
            (r matches Err(PickupError::NoRoute)) ==> no_way(
                &self.map,
                bot@.drill,
                bot@.fast,
                bot.pos_angle,
                Quest::Pickup(boosters@, self.booster_pos@),
            ),
    {
        let ghost kinds = boosters@;
        let step = self.find_booster(bot, boosters)?;
        if step.len <= near_len {
            Ok(step)
        } else {
            assert(found_by(self, bot@, pickup_quest(self, kinds), step) && step.len > near_len);
            Err(PickupError::TooFar)
        }
    }

    /// Searches for the nearest mystery cell that agent `bot` can walk to.
    pub fn find_mysterious(&self, bot: &Bot) -> (r: Option<Plan>)
        requires
            self.map.wf(),
            self.booster_pos.wf(),
            self.map.in_range(bot.pos_angle.pos.x as int, bot.pos_angle.pos.y as int),
        ensures
            match r {
                Some(plan) => found_by(self, bot@, Quest::Mystery(self.mysterious_pos@), plan),
                None => no_way(
                    &self.map,
                    bot@.drill,
                    bot@.fast,
                    bot.pos_angle,
                    Quest::Mystery(self.mysterious_pos@),
                ),
            },
    {
        find_move_to(
            &self.map,
            &self.booster_pos,
            &self.mysterious_pos,
            bot.pos_angle,
            bot.drill_timer,
            bot.fast_wheel_timer,
            &Goal::Mystery,
        )
    }

    /// The first action on a shortest way of agent `bot` to the cell `goal`.
    pub fn move_to_action(&self, bot: &Bot, goal: Pos) -> (r: Option<Action>)
        requires
            self.map.wf(),
            self.booster_pos.wf(),
            self.map.in_range(bot.pos_angle.pos.x as int, bot.pos_angle.pos.y as int),
        ensures
            match r {
                Some(first) => exists|plan: Plan| #[trigger]
                    found_by(self, bot@, Quest::At(goal), plan) && first == plan.first_action,
                None => no_way(&self.map, bot@.drill, bot@.fast, bot.pos_angle, Quest::At(goal)),
            },
    {
        match find_move_to(
            &self.map,
            &self.booster_pos,
            &self.mysterious_pos,
            bot.pos_angle,
            bot.drill_timer,
            bot.fast_wheel_timer,
            &Goal::At(goal),
        ) {
            Some(plan) => {
                assert(found_by(self, bot@, Quest::At(goal), plan));
                Some(plan.first_action)
            },
            None => None,
        }
    }

    /// Claims the pickup that `step` has found for agent `i` and gives the agent the order
    /// to walk there.
    fn claim(&mut self, i: usize, step: Plan) -> (r: Option<BoosterKind>)
        requires
            old(self).wf(),
            i < old(self).bots@.len(),
        ensures
            final(self).wf(),
            kept(&*final(self), &*old(self), i as int),
            r == old(self).booster_pos.kind_at(step.pos_angle.pos),
            final(self).booster_pos@ == old(self).booster_pos@.remove(step.pos_angle.pos),
            final(self).bots@[i as int].order == match r {
                Some(kind) => order_for(kind, step.pos_angle.pos),
                None => old(self).bots@[i as int].order,
            },
    {
        let pos = step.pos_angle.pos;
        let booster = self.booster_pos.remove(pos);
        match booster {
            Some(BoosterKind::FastWheels) => {
                self.bots[i].order = Some(Order::MoveToFastWheel(pos));
            },
            Some(BoosterKind::Drill) => {
                self.bots[i].order = Some(Order::MoveToDrill(pos));
            },
            Some(BoosterKind::ExtendManipulator) => {
                self.bots[i].order = Some(Order::MoveToExtendManipulator(pos));
            },
            Some(BoosterKind::Cloning) => {
                self.bots[i].order = Some(Order::MoveToClone(pos));
            },
            Some(_) => {
                self.bots[i].order = None;
            },
            None => {},
        }
        booster
    }

    /// The next action of an idle agent: the first step to a speed boost that is near, else
    /// to an arm or a clone pickup, else to the nearest pose from which it can paint. An
    /// agent that finds none of these waits while a speed boost runs.
    fn idle_action(&mut self, i: usize) -> (r: Result<Action, SolveError>)
        requires
            old(self).wf(),
            i < old(self).bots@.len(),
            old(self).bots@[i as int].order is None,
        ensures
            final(self).wf(),
            kept(&*final(self), &*old(self), i as int),
            r matches Ok(a) ==> final(self).bots@[i as int]@.accepts(a, &final(self).map, false),
            decided_idle(&*old(self), &*final(self), i as int, r),
    {
        let ghost bot = self.bots@[i as int]@;
        proof {
            reveal(decided_idle);
        }
        let mut speed: Vec<BoosterKind> = Vec::new();
        speed.push(BoosterKind::FastWheels);
        let ghost speed_kinds = speed@;
        assert(speed_kinds =~= seq![BoosterKind::FastWheels]);
        match self.find_booster_near(&self.bots[i], speed, NEAR_BOOSTER_STEPS) {
            Ok(step) => {
                let kind = self.claim(i, step);
                proof {
                    assert(kind == Some(BoosterKind::FastWheels));
                    assert(claimed(
                        &*old(self),
                        &*self,
                        i as int,
                        step.first_action,
                        step,
                        BoosterKind::FastWheels,
                    ));
                }
                return Ok(step.first_action);
            },
            Err(e) => {
                proof {
                    match e {
                        PickupError::Unavailable => {
                            assert(!self.booster_pos.offers(speed_kinds[0]));
                        },
                        PickupError::NoRoute => {},
                        PickupError::TooFar => {
                            let plan = choose|plan: Plan| #[trigger]
                                found_by(&*self, bot, pickup_quest(&*self, speed_kinds), plan) && plan.len
                                    > NEAR_BOOSTER_STEPS;
                            assert(found_by(
                                &*old(self),
                                bot,
                                pickup_quest(&*old(self), seq![BoosterKind::FastWheels]),
                                plan,
                            ));
                        },
                    }
                }
            },
        }
        assert(no_speed_near(&*old(self), bot));
        let mut kinds: Vec<BoosterKind> = Vec::new();
        kinds.push(BoosterKind::ExtendManipulator);
        kinds.push(BoosterKind::Cloning);
        let ghost arm_or_clone = kinds@;
        assert(arm_or_clone =~= arm_kinds());
        match self.find_booster(&self.bots[i], kinds) {
            Ok(step) => {
                let kind = self.claim(i, step);
                proof {
                    assert(kind == Some(BoosterKind::ExtendManipulator) || kind == Some(BoosterKind::Cloning));
                    assert(claimed(&*old(self), &*self, i as int, step.first_action, step, kind->0));
                }
                return Ok(step.first_action);
            },
            Err(e) => {
                proof {
                    if e == PickupError::Unavailable {
                        assert(!self.booster_pos.offers(arm_or_clone[0]));
                        assert(!self.booster_pos.offers(arm_or_clone[1]));
                    }
                }
            },
        }
        assert(no_arm_or_clone(&*old(self), bot));
        match find_mark_move(&self.map, &self.bots[i]) {
            Some(step) => {
                assert(paint_plan(&old(self).map, bot, step));
                Ok(step.first_action)
            },
            None => {
                if self.bots[i].fast_wheel_timer > 0 {
                    Ok(Action::DoNothing)
                } else {
                    Err(SolveError::Stuck)
                }
            },
        }
    }

    /// The next action of agent `i` on its way to the cell `pos`.
    fn walk_action(&self, i: usize, pos: Pos) -> (r: Result<Action, SolveError>)
        requires
            self.wf(),
            i < self.bots@.len(),
        ensures
            r matches Ok(a) ==> self.bots@[i as int]@.accepts(a, &self.map, false),
            walks_to(self, self.bots@[i as int]@, pos, r),
    {
        match self.move_to_action(&self.bots[i], pos) {
            Some(action) => Ok(action),
            None => Err(SolveError::NoRoute),
        }
    }

    /// The action that carries out the order `order` of agent `i`, which has arrived.
    fn perform_action(&self, i: usize, order: Order) -> (r: Result<Action, SolveError>)
        requires
            self.wf(),
            i < self.bots@.len(),
            performing(order, self.bots@[i as int]@.arms.len() as int) is Some,
        ensures
            r matches Ok(a) ==> self.bots@[i as int]@.accepts(a, &self.map, false),
            r == if limit_hit(self.bots@[i as int]@, order) {
                Err::<Action, SolveError>(SolveError::Limit)
            } else {
                Ok::<Action, SolveError>(performing(order, self.bots@[i as int]@.arms.len() as int)->0)
            },
    {
        match order {
            Order::DoExtendManipulator => {
                if self.bots[i].manipulators.len() / 2 > 0x7fff_ffff {
                    Err(SolveError::Limit)
                } else {
                    Ok(Action::ExtendManipulator(self.bots[i].find_extend_manipulator_position()))
                }
            },
            Order::DoFastWheels => {
                if self.bots[i].fast_wheel_timer > usize::MAX - FAST_WHEEL_TICKS {
                    Err(SolveError::Limit)
                } else {
                    Ok(Action::AttachFastWheels)
                }
            },
            Order::DoDrill => {
                if self.bots[i].drill_timer > usize::MAX - DRILL_TICKS {
                    Err(SolveError::Limit)
                } else {
                    Ok(Action::AttachDrill)
                }
            },
            _ => Ok(Action::Cloning),
        }
    }

    /// Gives agent `i`, which has to find a mystery cell, the nearest one as its target, and
    /// hands back the first action of the way there.
    fn mystery_action(&mut self, i: usize) -> (r: Result<Action, SolveError>)
        requires
            old(self).wf(),
            i < old(self).bots@.len(),
            old(self).bots@[i as int].order == Some(Order::FindMysterious),
        ensures
            final(self).wf(),
            kept(&*final(self), &*old(self), i as int),
            r matches Ok(a) ==> final(self).bots@[i as int]@.accepts(a, &final(self).map, false),
            decided_by_order(&*old(self), &*final(self), i as int, Order::FindMysterious, r),
    {
        let ghost bot = self.bots@[i as int]@;
        proof {
            reveal(decided_by_order);
        }
        match self.find_mysterious(&self.bots[i]) {
            Some(step) => {
                self.bots[i].order = Some(Order::MoveToMysterious(step.pos_angle.pos));
                assert(found_by(&*old(self), bot, Quest::Mystery(old(self).mysterious_pos@), step));
                assert(seeks_mystery(&*old(self), bot, self.bots@[i as int].order, Ok(step.first_action)));
                Ok(step.first_action)
            },
            None => Err(SolveError::NoRoute),
        }
    }

    /// The next action of agent `i`: what its order asks for, or what an idle agent
    /// finds to do. An agent that has to find a mystery cell is given the nearest one as
    /// its target.
    pub fn decide(&mut self, i: usize) -> (r: Result<Action, SolveError>)
        requires
            old(self).wf(),
            i < old(self).bots@.len(),
        ensures
            final(self).wf(),
            decided(&*old(self), &*final(self), i as int, r),
            pool_after(&*old(self), &*final(self), i as int, r),
            unsought_stay(final(self).booster_pos@, old(self).booster_pos@),
    {
        let r = match self.bots[i].order {
            None => self.idle_action(i),
            Some(Order::FindMysterious) => self.mystery_action(i),
            Some(Order::MoveToExtendManipulator(pos)) | Some(Order::MoveToClone(pos)) | Some(
                Order::MoveToMysterious(pos),
            ) | Some(Order::MoveToFastWheel(pos)) | Some(Order::MoveToDrill(pos)) => {
                let r = self.walk_action(i, pos);
                proof {
                    reveal(decided_by_order);
                    let o = self.bots@[i as int].order->0;
                    assert(o.target() == Some(pos));
                    assert(decided_by_order(&*old(self), &*self, i as int, o, r));
                }
                r
            },
            Some(order) => {
                let r = self.perform_action(i, order);
                proof {
                    reveal(decided_by_order);
                    assert(decided_by_order(&*old(self), &*self, i as int, order, r));
                }
                r
            },
        };
        proof {
            lemma_decision_and_pool(&*old(self), &*self, i as int, r);
        }
        r
    }

    /// Applies `action` to agent `i` and lets the agent paint from where it then stands.
    fn act(&mut self, i: usize, action: Action, second: bool)
        requires
            old(self).wf(),
            i < old(self).bots@.len(),
            old(self).bots@[i as int]@.accepts(action, &old(self).map, second),
        ensures
            final(self).wf(),
            final(self).map.advances(&old(self).map),
            final(self).booster_pos == old(self).booster_pos,
            final(self).mysterious_pos == old(self).mysterious_pos,
            final(self).bots@.len() == old(self).bots@.len(),
            forall|j: int|
                0 <= j < old(self).bots@.len() && j != i ==> #[trigger] final(self).bots@[j] == old(
                    self,
                ).bots@[j],
            final(self).bots@[i as int]@ == old(self).bots@[i as int]@.applied(action, &old(self).map, second),
            acted(&*old(self), &*final(self), i as int, action, second),
            painted_out(final(self).bots@[i as int]@.arms, final(self).bots@[i as int].pos_angle, &final(self).map),
            forall|x: int, y: int|
                !(x == old(self).bots@[i as int].pos_angle.after(action).pos.x && y == old(
                    self,
                ).bots@[i as int].pos_angle.after(action).pos.y) ==> #[trigger] final(self).map.wall_at(x, y)
                    == old(self).map.wall_at(x, y),
    {
        let ghost map0 = self.map;
        self.bots[i].apply_action(action, &mut self.map, second);
        let ghost map1 = self.map;
        self.bots[i].mark_map(&mut self.map);
        proof {
            reveal(acted);
            assert(drilled_from(&map1, &map0, old(self).bots@[i as int]@, action, second));
            assert(painted_from(&self.map, &map1, self.bots@[i as int]@.arms, self.bots@[i as int].pos_angle));
            lemma_advances_chain(&map0, &map1, &self.map);
            let next = old(self).bots@[i as int].pos_angle.after(action).pos;
            assert forall|x: int, y: int| !(x == next.x && y == next.y) implies #[trigger] self.map.wall_at(
                x,
                y,
            ) == map0.wall_at(x, y) by {
                assert(self.map.wall_at(x, y) == map1.wall_at(x, y));
                if map0.in_range(x, y) {
                    let _ = map1.at(x, y);
                }
            }
            assert forall|j: int| 0 <= j < self.bots@.len() implies {
                &&& (#[trigger] self.bots@[j]).wf()
                &&& self.map.free_at(self.bots@[j].pos_angle.pos.x as int, self.bots@[j].pos_angle.pos.y as int)
            } by {
                let p = self.bots@[j].pos_angle.pos;
                if j != i {
                    assert(self.bots@[j] == old(self).bots@[j]);
                    assert(map0.free_at(p.x as int, p.y as int));
                    let _ = self.map.at(p.x as int, p.y as int);
                } else {
                    let p0 = old(self).bots@[i as int].pos_angle.pos;
                    assert(map0.free_at(p0.x as int, p0.y as int));
                    if action.moves() {
                        assert(map1.free_at(p.x as int, p.y as int));
                    } else {
                        assert(p == p0);
                        let _ = map1.at(p.x as int, p.y as int);
                    }
                    let _ = self.map.at(p.x as int, p.y as int);
                }
            }
        }
    }

    /// Lets the timers of agent `i` run down by one where `fast` and `drill` say that they
    /// ran at the start of the turn.
    fn tick_timers(&mut self, i: usize, fast: bool, drill: bool)
        requires
            old(self).wf(),
            i < old(self).bots@.len(),
            fast ==> old(self).bots@[i as int].fast_wheel_timer > 0,
            drill ==> old(self).bots@[i as int].drill_timer > 0,
        ensures
            final(self).wf(),
            final(self).map == old(self).map,
            final(self).booster_pos == old(self).booster_pos,
            final(self).mysterious_pos == old(self).mysterious_pos,
            final(self).bots@.len() == old(self).bots@.len(),
            forall|j: int|
                0 <= j < old(self).bots@.len() && j != i ==> #[trigger] final(self).bots@[j] == old(
                    self,
                ).bots@[j],
            final(self).bots@[i as int]@ == (BotView {
                fast: if fast {
                    (old(self).bots@[i as int]@.fast - 1) as nat
                } else {
                    old(self).bots@[i as int]@.fast
                },
                drill: if drill {
                    (old(self).bots@[i as int]@.drill - 1) as nat
                } else {
                    old(self).bots@[i as int]@.drill
                },
                ..old(self).bots@[i as int]@
            }),
    {
        if fast {
            self.bots[i].fast_wheel_timer -= 1;
        }
        if drill {
            self.bots[i].drill_timer -= 1;
        }
    }

    /// Carries out the turn of agent `i`: applies the action and paints, under a speed boost
    /// applies a move a second time and paints again, lets the timers run down, and for a
    /// clone puts a new agent on the agent's cell.
    pub fn perform(&mut self, i: usize, action: Action)
        requires
            old(self).wf(),
            i < old(self).bots@.len(),
            old(self).bots@[i as int]@.accepts(action, &old(self).map, false),
        ensures
            final(self).wf(),
            final(self).map.advances(&old(self).map),
            final(self).booster_pos == old(self).booster_pos,
            final(self).mysterious_pos == old(self).mysterious_pos,
            final(self).bots@.len() == old(self).bots@.len() + if action is Cloning {
                1int
            } else {
                0int
            },
            forall|j: int|
                0 <= j < old(self).bots@.len() && j != i ==> #[trigger] final(self).bots@[j] == old(
                    self,
                ).bots@[j],
            final(self).bots@[i as int]@ == after_turn(old(self).bots@[i as int]@, action, &old(self).map),
            performed(&*old(self), &*final(self), i as int, action),
            painted_out(final(self).bots@[i as int]@.arms, final(self).bots@[i as int].pos_angle, &final(self).map),
            action is Cloning ==> final(self).bots@.last()@ == fresh_bot(final(self).bots@[i as int].pos_angle.pos),
            clones_logged(final(self).bots@) == clones_logged(old(self).bots@) + one_if(action is Cloning),
            founders(final(self).bots@) == founders(old(self).bots@),
    {
        let ghost bot0 = self.bots@[i as int]@;
        let ghost map0 = self.map;
        let fast = self.bots[i].fast_wheel_timer > 0;
        let drill = self.bots[i].drill_timer > 0;
        self.act(i, action, false);
        let ghost once = *self;
        let ghost mut twice = *self;
        let ghost map1 = self.map;
        let ghost bot1 = self.bots@[i as int]@;
        if fast && action.is_move() {
            proof {
                let next = bot1.pose.after(action).pos;
                assert(bot1.pose == bot0.pose.after(action));
                assert(map1.wall_at(next.x as int, next.y as int) == map0.wall_at(next.x as int, next.y as int));
                assert(bot1.advances(action, &map1, true) == bot1.advances(action, &map0, true));
                assert(bot1.applied(action, &map1, true) == bot1.applied(action, &map0, true));
            }
            self.act(i, action, true);
            proof {
                lemma_advances_chain(&map0, &map1, &self.map);
                twice = *self;
            }
        }
        let ghost last = *self;
        self.tick_timers(i, fast, drill);
        if let Action::Cloning = action {
            let pos = self.bots[i].pos_angle.pos;
            let ghost before = self.bots@;
            self.bots.push(Bot::new(pos));
            proof {
                assert forall|j: int| 0 <= j < self.bots@.len() implies {
                    &&& (#[trigger] self.bots@[j]).wf()
                    &&& self.map.free_at(
                        self.bots@[j].pos_angle.pos.x as int,
                        self.bots@[j].pos_angle.pos.y as int,
                    )
                } by {
                    if j < before.len() {
                        assert(self.bots@[j] == before[j]);
                    }
                }
            }
        }
        proof {
            reveal(performed);
            assert(turn_closed(&last, &*self, i as int, fast, drill, action));
            if fast && action.moves() {
                assert(acted(&once, &twice, i as int, action, true));
                assert(last == twice);
            } else {
                assert(last == once);
            }
            assert(acted(&*old(self), &once, i as int, action, false));
            assert(self.bots@[i as int]@.log == bot0.log.push(bot0.logged(action)));
            lemma_turn_logs(old(self).bots@, self.bots@, i as int, bot0.logged(action));
        }
    }

    /// Paints the grid: the first agent paints from where it stands; then, tick after tick,
    /// the orders are handed over and every agent that stood on the grid at the start of
    /// the tick decides on an action and carries it out, until no cell is left unpainted.
    ///
    /// Every tick adds an action to the log of the first agent, and a log holds no more
    /// actions than the machine can count: so the ticks come to an end.
    pub fn solve(&mut self) -> (r: Result<(), SolveError>)
        requires
            old(self).wf(),
        ensures
            final(self).wf(),
            solved(&*old(self), &*final(self), r),
            final(self).map.advances(&old(self).map),
            final(self).bots@.len() >= old(self).bots@.len(),
            within(final(self).booster_pos@, old(self).booster_pos@),
            unsought_stay(final(self).booster_pos@, old(self).booster_pos@),
            claims_account(&*old(self), final(self).booster_pos@),
            final(self).mysterious_pos == old(self).mysterious_pos,
            forall|j: int|
                0 <= j < old(self).bots@.len() ==> old(self).bots@[j].record@.is_prefix_of(
                    (#[trigger] final(self).bots@[j]).record@,
                ),
            r is Ok <==> final(self).map.empty_cell_count == 0,
            founders(final(self).bots@) == founders(old(self).bots@),
            final(self).bots@.len() == old(self).bots@.len() + clones_logged(final(self).bots@) - clones_logged(
                old(self).bots@,
            ),
    {
        self.bots[0].mark_map(&mut self.map);
        let ghost mut ticks: Seq<System> = seq![*self];
        proof {
            lemma_ticks_begin(&*old(self), &*self);
        }
        while self.map.empty_cell_count != 0
            invariant
                self.wf(),
                ticks.len() >= 1,
                ticks_run(&*old(self), ticks),
                ticks.last() == *self,
                self.map.advances(&old(self).map),
                self.bots@.len() >= old(self).bots@.len(),
                within(self.booster_pos@, old(self).booster_pos@),
                unsought_stay(self.booster_pos@, old(self).booster_pos@),
                claims_account(&*old(self), self.booster_pos@),
                self.mysterious_pos == old(self).mysterious_pos,
                founders(self.bots@) == founders(old(self).bots@),
                forall|j: int|
                    0 <= j < old(self).bots@.len() ==> old(self).bots@[j].record@.is_prefix_of(
                        (#[trigger] self.bots@[j]).record@,
                    ),
            decreases usize::MAX - self.bots@[0].record@.len(),
        {
            let ghost len0 = self.bots@[0].record@.len();
            let ghost start = *self;
            self.rebalance();
            let ghost mut states: Seq<System> = seq![*self];
            proof {
                lemma_tick_begins(&start, &*self);
                lemma_same_logs(start.bots@, self.bots@);
            }
            let n = self.bots.len();
            let mut i: usize = 0;
            while i < n
                invariant
                    i <= n,
                    1 <= n <= self.bots@.len(),
                    n == start.bots@.len(),
                    self.wf(),
                    ticks.len() >= 1,
                    ticks_run(&*old(self), ticks),
                    ticks.last() == start,
                    start.map.empty_cell_count != 0,
                    tick_run(&start, states),
                    states.len() == i + 1,
                    states.last() == *self,
                    self.map.advances(&old(self).map),
                    self.bots@.len() >= old(self).bots@.len(),
                    within(self.booster_pos@, old(self).booster_pos@),
                    unsought_stay(self.booster_pos@, old(self).booster_pos@),
                    claims_account(&*old(self), self.booster_pos@),
                    self.mysterious_pos == old(self).mysterious_pos,
                    founders(self.bots@) == founders(old(self).bots@),
                    forall|j: int|
                        0 <= j < old(self).bots@.len() ==> old(self).bots@[j].record@.is_prefix_of(
                            (#[trigger] self.bots@[j]).record@,
                        ),
                    i == 0 ==> self.bots@[0].record@.len() == len0 && self.map.empty_cell_count != 0,
                    i >= 1 ==> self.bots@[0].record@.len() == len0 + 1,
                    i == n ==> tick_done(&start, &*self),
                ensures
                    self.bots@[0].record@.len() == len0 + 1,
                    tick_done(&start, &*self),
                    founders(self.bots@) == founders(old(self).bots@),
                    unsought_stay(self.booster_pos@, old(self).booster_pos@),
                    claims_account(&*old(self), self.booster_pos@),
                decreases n - i,
            {
                if self.map.empty_cell_count == 0 {
                    proof {
                        lemma_tick_ends(&start, states);
                    }
                    break ;
                }
                let ghost before = *self;
                let ghost bots0 = self.bots@;
                let ghost map1 = self.map;
                let ghost pool0 = self.booster_pos@;
                let action = match self.decide(i) {
                    Ok(action) => action,
                    Err(e) => {
                        proof {
                            assert forall|j: int| 0 <= j < old(self).bots@.len() implies old(
                                self,
                            ).bots@[j].record@.is_prefix_of((#[trigger] self.bots@[j]).record@) by {
                                assert(self.bots@[j].record == bots0[j].record);
                            }
                            lemma_same_logs(bots0, self.bots@);
                            assert(unsought_stay(self.booster_pos@, old(self).booster_pos@)) by {
                                assert forall|p: Pos|
                                    old(self).booster_pos@.contains_key(p) && !sought(
                                        #[trigger] old(self).booster_pos@[p],
                                    ) implies self.booster_pos@.contains_key(p) by {
                                    assert(pool0.contains_key(p));
                                    assert(!sought(pool0[p]));
                                }
                            }
                            lemma_tick_halts(&start, states, &*self, e);
                            assert(solved(&*old(self), &*self, Err(e))) by {
                                reveal(solved);
                            }
                        }
                        return Err(e);
                    },
                };
                let ghost mid = *self;
                let ghost bots1 = self.bots@;
                proof {
                    assert(claims_account(&*old(self), self.booster_pos@)) by {
                        assert forall|p: Pos|
                            old(self).booster_pos@.contains_key(p) && !self.booster_pos@.contains_key(
                                p,
                            ) implies claimed_on(&*old(self), p) by {
                            if pool0.contains_key(p) {
                                let pos = choose|pos: Pos| #[trigger] took(&before, &mid, i as int, pos);
                                assert(p == pos);
                                lemma_claim_counts(&*old(self), ticks, states, &mid, action, p);
                            }
                        }
                    }
                    lemma_same_logs(bots0, bots1);
                    assert(unsought_stay(self.booster_pos@, old(self).booster_pos@)) by {
                        assert forall|p: Pos|
                            old(self).booster_pos@.contains_key(p) && !sought(
                                #[trigger] old(self).booster_pos@[p],
                            ) implies self.booster_pos@.contains_key(p) by {
                            assert(pool0.contains_key(p));
                            assert(!sought(pool0[p]));
                        }
                    }
                    assert forall|p: Pos| #[trigger] self.booster_pos@.contains_key(p) implies old(
                        self,
                    ).booster_pos@.contains_key(p) && self.booster_pos@[p] == old(self).booster_pos@[p] by {
                        assert(pool0.contains_key(p));
                    }
                }
                self.perform(i, action);
                proof {
                    lemma_advances_chain(&old(self).map, &map1, &self.map);
                    assert forall|j: int| 0 <= j < old(self).bots@.len() implies old(
                        self,
                    ).bots@[j].record@.is_prefix_of((#[trigger] self.bots@[j]).record@) by {
                        assert(bots1[j].record == bots0[j].record);
                        if j != i {
                            assert(self.bots@[j] == bots1[j]);
                        } else {
                            assert(self.bots@[j]@.log == bots1[j]@.log.push(bots1[j]@.logged(action)));
                        }
                    }
                    assert(bots1[0].record == bots0[0].record);
                    if i == 0 {
                        assert(self.bots@[0]@.log == bots1[0]@.log.push(bots1[0]@.logged(action)));
                    } else {
                        assert(self.bots@[0] == bots1[0]);
                    }
                    lemma_tick_goes_on(&start, states, &mid, &*self, action);
                    states = states.push(*self);
                    if i + 1 == n {
                        lemma_tick_ends(&start, states);
                    }
                }
                i += 1;
            }
            proof {
                lemma_ticks_go_on(&*old(self), ticks, &*self);
                ticks = ticks.push(*self);
            }
            let grown = self.bots[0].record.len();
            assert(grown == len0 + 1);
        }
        proof {
            assert(solved(&*old(self), &*self, Ok(()))) by {
                reveal(solved);
            }
        }
        Ok(())
    }

    /// The logs of the agents as the text of a solution.
    pub fn dump_record(&self) -> (s: String)
        ensures
            s@ == records_text(self.bots@),
    {
        let mut s = String::new();
        let n = self.bots.len();
        let mut i: usize = 0;
        assert(self.bots@.take(0) =~= Seq::<Bot>::empty());
        while i < n
            invariant
                i <= n,
                n == self.bots@.len(),
                s@ == records_text(self.bots@.take(i as int)),
            decreases n - i,
        {
            if i > 0 {
                proof {
                    reveal_strlit("#");
                }
                s.append("#");
            }
            let ghost lead = s@;
            let record = &self.bots[i].record;
            let m = record.len();
            let mut k: usize = 0;
            assert(record@.take(0) =~= Seq::<Action>::empty());
            while k < m
                invariant
                    k <= m,
                    m == record@.len(),
                    s@ == lead + log_text(record@.take(k as int)),
                decreases m - k,
            {
                let ghost before = s@;
                record[k].write_to(&mut s);
                proof {
                    let t = record@.take(k + 1);
                    assert(t.drop_last() =~= record@.take(k as int));
                    assert(t.last() == record@[k as int]);
                    assert(s@ =~= lead + log_text(t));
                }
                k += 1;
            }
            proof {
                assert(record@.take(m as int) =~= record@);
                let t = self.bots@.take(i + 1);
                assert(t.drop_last() =~= self.bots@.take(i as int));
                assert(t.last() == self.bots@[i as int]);
                if i == 0 {
                    assert(t[0] == self.bots@[0]);
                    assert(s@ =~= records_text(t));
                } else {
                    assert(s@ =~= records_text(t));
                }
            }
            i += 1;
        }
        assert(self.bots@.take(n as int) =~= self.bots@);
        s
    }

    /// The solution as it stands: the score is the length of the longest log.
    pub fn solution(&self) -> (r: Solution)
        requires
            self.bots@.len() >= 1,
        ensures
            r.id == self.map.id,
            is_score(self.bots@, r.score as int),
            r.solution@ == records_text(self.bots@),
            r.filename@ == file_name(r.id as nat, r.score as nat),
    {
        let id = self.map.id;
        let n = self.bots.len();
        let mut score: usize = self.bots[0].record.len();
        let mut i: usize = 1;
        assert(self.bots@.take(1)[0] == self.bots@[0]);
        while i < n
            invariant
                1 <= i <= n,
                n == self.bots@.len(),
                is_score(self.bots@.take(i as int), score as int),
            decreases n - i,
        {
            let ghost w = choose|k: int|
                0 <= k < i && (#[trigger] self.bots@.take(i as int)[k]).record@.len() == score;
            let len = self.bots[i].record.len();
            if len > score {
                score = len;
            }
            i += 1;
            proof {
                let t = self.bots@.take(i as int);
                assert(t[w] == self.bots@.take(i - 1)[w]);
                assert(t[i - 1] == self.bots@[i - 1]);
                assert forall|k: int| 0 <= k < t.len() implies (#[trigger] t[k]).record@.len() <= score by {
                    if k < i - 1 {
                        assert(t[k] == self.bots@.take(i - 1)[k]);
                    }
                }
            }
        }
        assert(self.bots@.take(n as int) =~= self.bots@);
        let mut filename = String::new();
        filename.append("prob-");
        push_padded(&mut filename, id, 3);
        filename.append("-score-");
        push_padded(&mut filename, score as u64, 8);
        filename.append("-ai-drill.sol");
        assert(filename@ =~= file_name(id as nat, score as nat));
        Solution { id, score, solution: self.dump_record(), filename }
    }
}

} // verus!
