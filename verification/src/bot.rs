//! One agent: its pose, arms, ability timers, pending order and log, and the effect of one
//! action on it.

use crate::action::Action;
use crate::geometry::{Angle, Pos, PosAngle, PosDiff};
use crate::grid::{lemma_advances_chain, Cell, Grid};
use crate::plot::{offsets, plot, plot_points};
use vstd::prelude::*;

verus! {

/// The turns that a speed boost lasts.
pub const FAST_WHEEL_TICKS: usize = 50;

/// The turns that a drill lasts.
pub const DRILL_TICKS: usize = 30;

/// A task that an agent has committed to: walk to a cell, then perform something there.
#[derive(Debug, Copy, Clone, Hash, PartialEq, Eq, Structural)]
pub enum Order {
    MoveToExtendManipulator(Pos),
    DoExtendManipulator,
    MoveToClone(Pos),
    FindMysterious,
    MoveToMysterious(Pos),
    DoClone,
    MoveToFastWheel(Pos),
    DoFastWheels,
    MoveToDrill(Pos),
    DoDrill,
}

impl Order {
    /// The cell that the order sends the agent to, if it is on its way.
    pub open spec fn target(self) -> Option<Pos> {
        match self {
            Order::MoveToExtendManipulator(t) => Some(t),
            Order::MoveToClone(t) => Some(t),
            Order::MoveToMysterious(t) => Some(t),
            Order::MoveToFastWheel(t) => Some(t),
            Order::MoveToDrill(t) => Some(t),
            _ => None,
        }
    }

    /// Whether the order is at the stage that performs.
    pub open spec fn performs(self) -> bool {
        self is DoExtendManipulator || self is DoClone || self is DoFastWheels || self is DoDrill
    }

    /// The order after an action that leaves the agent on `pos`: an order on its way turns
    /// into the next stage on arrival, and a stage that performs is done with any action.
    pub open spec fn advanced(self, pos: Pos) -> Option<Order> {
        match self {
            Order::MoveToExtendManipulator(t) => if pos == t {
                Some(Order::DoExtendManipulator)
            } else {
                Some(self)
            },
            Order::DoExtendManipulator => None,
            Order::MoveToClone(t) => if pos == t {
                Some(Order::FindMysterious)
            } else {
                Some(self)
            },
            Order::FindMysterious => Some(self),
            Order::MoveToMysterious(t) => if pos == t {
                Some(Order::DoClone)
            } else {
                Some(self)
            },
            Order::DoClone => None,
            Order::MoveToFastWheel(t) => if pos == t {
                Some(Order::DoFastWheels)
            } else {
                Some(self)
            },
            Order::DoFastWheels => None,
            Order::MoveToDrill(t) => if pos == t {
                Some(Order::DoDrill)
            } else {
                Some(self)
            },
            Order::DoDrill => None,
        }
    }
}

/// How many stages lie between an order and idleness.
pub open spec fn order_rank(order: Option<Order>) -> nat {
    match order {
        None => 0,
        Some(Order::DoExtendManipulator) => 1,
        Some(Order::DoClone) => 1,
        Some(Order::DoFastWheels) => 1,
        Some(Order::DoDrill) => 1,
        Some(Order::MoveToExtendManipulator(_)) => 2,
        Some(Order::MoveToMysterious(_)) => 2,
        Some(Order::MoveToFastWheel(_)) => 2,
        Some(Order::MoveToDrill(_)) => 2,
        Some(Order::FindMysterious) => 3,
        Some(Order::MoveToClone(_)) => 4,
    }
}

/// One stage of an order carried out: the agent arrives where the order sends it, performs
/// what the order asks, or is told the mystery cell `mystery` that it has to find.
pub open spec fn order_followed(order: Option<Order>, mystery: Pos) -> Option<Order> {
    match order {
        None => None,
        Some(Order::FindMysterious) => Some(Order::MoveToMysterious(mystery)),
        Some(o) => match o.target() {
            Some(t) => o.advanced(t),
            None => o.advanced(mystery),
        },
    }
}

/// Every order reaches idleness: no action moves an order away from it, each stage carried
/// out moves the order one stage closer, and five stages are enough for any order.
pub proof fn lemma_order_reaches_idle(order: Order, pos: Pos, mystery: Pos)
    ensures
        order_rank(order.advanced(pos)) <= order_rank(Some(order)),
        order_rank(order_followed(Some(order), mystery)) < order_rank(Some(order)),
        order.target() is None && order != Order::FindMysterious ==> order.advanced(pos) is None,
        order_followed(
            order_followed(
                order_followed(order_followed(order_followed(Some(order), mystery), mystery), mystery),
                mystery,
            ),
            mystery,
        ) is None,
        forall|o: Option<Order>| order_rank(o) == 0 <==> o is None,
{
}

/// An arm of an agent: its offset from the body and the cells on its line of sight.
#[derive(Debug, Clone)]
pub struct Manipulator {
    pub posdiff: PosDiff,
    pub reachable_cell: Vec<PosDiff>,
}

/// No cell on the line from the body at `pose` to the tip at `d` is a wall.
pub open spec fn sight_clear(d: PosDiff, pose: PosAngle, grid: &Grid) -> bool {
    forall|i: int|
        0 <= i < plot_points(d).len() ==> !grid.wall_at(
            pose.reach_point(#[trigger] plot_points(d)[i]).0,
            pose.reach_point(plot_points(d)[i]).1,
        )
}

/// An arm at `d` of a body at `pose` can paint: its tip is on an unpainted cell and its line
/// of sight is clear.
pub open spec fn can_mark_at(d: PosDiff, pose: PosAngle, grid: &Grid) -> bool {
    grid.empty_at(pose.reach(d).0, pose.reach(d).1) && sight_clear(d, pose, grid)
}

impl Manipulator {
    /// The cached line of sight is the line to the offset.
    pub open spec fn wf(&self) -> bool {
        self.posdiff.can_turn() && offsets(self.reachable_cell@) == plot_points(self.posdiff)
    }

    /// The cells on the line from the body to the tip of an arm at `posdiff`.
    pub fn plot(posdiff: PosDiff) -> (r: Vec<PosDiff>)
        requires
            posdiff.can_turn(),
        ensures
            offsets(r@) == plot_points(posdiff),
            r@.len() >= 1,
            r@[0] == (PosDiff { dx: 0, dy: 0 }),
            r@.last() == posdiff,
    {
        plot(posdiff)
    }

    /// The arm at `posdiff`, with its line of sight.
    pub fn new(posdiff: PosDiff) -> (m: Manipulator)
        requires
            posdiff.can_turn(),
        ensures
            m.wf(),
            m.posdiff == posdiff,
    {
        Manipulator { posdiff, reachable_cell: plot(posdiff) }
    }

    /// Whether the arm of a body at `pos_angle` can paint: its tip is on an unpainted cell and
    /// no cell on the line from the body to the tip is a wall.
    pub fn can_mark(&self, pos_angle: PosAngle, map: &Grid) -> (r: bool)
        requires
            self.wf(),
            map.wf(),
        ensures
            r == can_mark_at(self.posdiff, pos_angle, map),
    {
        let t = pos_angle.reach_wide(self.posdiff);
        match map.probe(t.0, t.1) {
            Some(Cell::Empty) => {},
            _ => {
                return false;
            },
        }
        let ghost line = plot_points(self.posdiff);
        let n = self.reachable_cell.len();
        let mut i: usize = 0;
        while i < n
            invariant
                i <= n,
                n == self.reachable_cell@.len(),
                self.wf(),
                map.wf(),
                line == plot_points(self.posdiff),
                forall|j: int|
                    0 <= j < i ==> !map.wall_at(
                        pos_angle.reach_point(#[trigger] line[j]).0,
                        pos_angle.reach_point(line[j]).1,
                    ),
            decreases n - i,
        {
            let r = self.reachable_cell[i];
            let p = pos_angle.reach_wide(r);
            assert(offsets(self.reachable_cell@)[i as int] == (r.dx as int, r.dy as int));
            assert((p.0 as int, p.1 as int) == pos_angle.reach_point(line[i as int]));
            match map.probe(p.0, p.1) {
                Some(Cell::Wall) => {
                    assert(map.wall_at(
                        pos_angle.reach_point(line[i as int]).0,
                        pos_angle.reach_point(line[i as int]).1,
                    ));
                    return false;
                },
                _ => {},
            }
            i += 1;
        }
        true
    }
}

/// One agent.
#[derive(Debug)]
pub struct Bot {
    pub pos_angle: PosAngle,
    pub manipulators: Vec<Manipulator>,
    pub fast_wheel_timer: usize,
    pub drill_timer: usize,
    pub order: Option<Order>,
    pub record: Vec<Action>,
}

/// An agent as plain values.
pub struct BotView {
    pub pose: PosAngle,
    pub arms: Seq<PosDiff>,
    pub fast: nat,
    pub drill: nat,
    pub order: Option<Order>,
    pub log: Seq<Action>,
}

/// The offsets of the arms that an agent starts with: the body cell and the three cells in
/// front of it.
pub open spec fn default_arms() -> Seq<PosDiff> {
    seq![
        PosDiff { dx: 0, dy: 0 },
        PosDiff { dx: 1, dy: 0 },
        PosDiff { dx: 1, dy: 1 },
        PosDiff { dx: 1, dy: -1i32 },
    ]
}

/// The state of an agent that has just been made at `pos`.
pub open spec fn fresh_bot(pos: Pos) -> BotView {
    BotView {
        pose: PosAngle { pos, angle: Angle::A0 },
        arms: default_arms(),
        fast: 0,
        drill: 0,
        order: None,
        log: Seq::empty(),
    }
}

/// The offset `d` in the coordinates of a body that faces `angle`, as an offset: rotating
/// the body into `angle` turns it into `d`.
pub open spec fn unturned_offset(d: PosDiff, angle: Angle) -> PosDiff {
    PosDiff { dx: d.unturned(angle).0 as i32, dy: d.unturned(angle).1 as i32 }
}

/// The offset that is logged for an arm is the one that the agent's orientation turns into
/// the offset of the action: the two are the same where the agent faces `A0`, and each
/// other's negation where it faces `A180`.
pub proof fn lemma_logged_offset(d: PosDiff, angle: Angle)
    requires
        d.can_turn(),
    ensures
        unturned_offset(d, angle).turned(angle) == (d.dx as int, d.dy as int),
        unturned_offset(d, Angle::A0) == d,
        unturned_offset(d, Angle::A180) == (PosDiff { dx: (-d.dx) as i32, dy: (-d.dy) as i32 }),
        unturned_offset(d, Angle::A90) == (PosDiff { dx: (-d.dy) as i32, dy: d.dx }),
        unturned_offset(d, Angle::A270) == (PosDiff { dx: d.dy, dy: (-d.dx) as i32 }),
{
}

/// One of the first `k` arms paints the cell `c`.
pub open spec fn marks_cell(arms: Seq<PosDiff>, k: int, pose: PosAngle, grid: &Grid, c: (int, int)) -> bool {
    exists|j: int| 0 <= j < k && can_mark_at(#[trigger] arms[j], pose, grid) && pose.reach(arms[j]) == c
}

/// The grid `after` is the grid `before` once the agent with the arms `arms` has painted from
/// `pose`: every cell that an arm could paint is painted, and nothing else has changed.
pub open spec fn painted_from(after: &Grid, before: &Grid, arms: Seq<PosDiff>, pose: PosAngle) -> bool {
    &&& after.wf()
    &&& after.same_frame(before)
    &&& forall|x: int, y: int|
        before.in_range(x, y) ==> #[trigger] after.at(x, y) == if marks_cell(
            arms,
            arms.len() as int,
            pose,
            before,
            (x, y),
        ) {
            Cell::Marked
        } else {
            before.at(x, y)
        }
}

/// The grid `after` is the grid `before` once the agent `bot` has taken `action`: where the
/// action drills, the wall that the agent walks into is open, and nothing else has changed.
pub open spec fn drilled_from(after: &Grid, before: &Grid, bot: BotView, action: Action, second: bool) -> bool {
    &&& after.wf()
    &&& after.same_frame(before)
    &&& after.empty_cell_count == before.empty_cell_count
    &&& forall|x: int, y: int|
        before.in_range(x, y) ==> #[trigger] after.at(x, y) == if bot.drills(action, before, second) && x
            == bot.pose.after(action).pos.x && y == bot.pose.after(action).pos.y {
            Cell::Marked
        } else {
            before.at(x, y)
        }
}

/// No arm can paint from `pose`: the agent has painted all that it reaches.
pub open spec fn painted_out(arms: Seq<PosDiff>, pose: PosAngle, grid: &Grid) -> bool {
    forall|j: int| 0 <= j < arms.len() ==> !can_mark_at(#[trigger] arms[j], pose, grid)
}

/// How many of the first `k` arms can paint.
pub open spec fn mark_count(arms: Seq<PosDiff>, k: int, pose: PosAngle, grid: &Grid) -> nat
    decreases k,
{
    if k <= 0 {
        0
    } else {
        mark_count(arms, k - 1, pose, grid) + if can_mark_at(arms[k - 1], pose, grid) {
            1nat
        } else {
            0nat
        }
    }
}

/// The count is positive exactly when some arm can paint.
pub proof fn lemma_mark_count_positive(arms: Seq<PosDiff>, k: int, pose: PosAngle, grid: &Grid)
    requires
        0 <= k <= arms.len(),
    ensures
        mark_count(arms, k, pose, grid) <= k,
        mark_count(arms, k, pose, grid) > 0 <==> exists|j: int|
            0 <= j < k && can_mark_at(#[trigger] arms[j], pose, grid),
    decreases k,
{
    if k > 0 {
        lemma_mark_count_positive(arms, k - 1, pose, grid);
        if mark_count(arms, k, pose, grid) > 0 {
            if can_mark_at(arms[k - 1], pose, grid) {
            } else {
                let j = choose|j: int| 0 <= j < k - 1 && can_mark_at(#[trigger] arms[j], pose, grid);
                assert(0 <= j < k && can_mark_at(arms[j], pose, grid));
            }
        }
        if exists|j: int| 0 <= j < k && can_mark_at(#[trigger] arms[j], pose, grid) {
            let j = choose|j: int| 0 <= j < k && can_mark_at(#[trigger] arms[j], pose, grid);
            if j < k - 1 {
                assert(0 <= j < k - 1 && can_mark_at(arms[j], pose, grid));
            }
        }
    }
}

/// The cell beside `c` in direction `dir` of `PosDiff::all_diffs`.
pub open spec fn side(c: (int, int), dir: int) -> (int, int) {
    (c.0 + PosDiff::all_diffs()[dir].dx, c.1 + PosDiff::all_diffs()[dir].dy)
}

/// The tip of one of the arms stands on `c`.
pub open spec fn is_tip(arms: Seq<PosDiff>, pose: PosAngle, c: (int, int)) -> bool {
    exists|j: int| 0 <= j < arms.len() && pose.reach(#[trigger] arms[j]) == c
}

/// The `m`-th cell around the tips: the four sides of the first tip, then those of the
/// second, and so on.
pub open spec fn around(arms: Seq<PosDiff>, pose: PosAngle, m: int) -> (int, int) {
    side(pose.reach(arms[m / 4]), m % 4)
}

/// `c` is an unpainted cell, is among the first `m` cells around the tips and carries no tip.
pub open spec fn fringe_upto(arms: Seq<PosDiff>, pose: PosAngle, grid: &Grid, m: int, c: (int, int)) -> bool {
    &&& grid.empty_at(c.0, c.1)
    &&& !is_tip(arms, pose, c)
    &&& exists|k: int| 0 <= k < m && #[trigger] around(arms, pose, k) == c
}

/// The unpainted cells that touch the footprint of the arms from outside.
pub open spec fn fringe(arms: Seq<PosDiff>, pose: PosAngle, grid: &Grid) -> Set<(int, int)> {
    Set::new(|c: (int, int)| fringe_upto(arms, pose, grid, 4 * arms.len() as int, c))
}

/// Arm `j` has, beside its tip, an unpainted cell that carries no tip.
pub open spec fn open_sided(arms: Seq<PosDiff>, pose: PosAngle, grid: &Grid, j: int) -> bool {
    exists|dir: int|
        0 <= dir < 4 && grid.empty_at(
            (#[trigger] side(pose.reach(arms[j]), dir)).0,
            side(pose.reach(arms[j]), dir).1,
        ) && !is_tip(arms, pose, side(pose.reach(arms[j]), dir))
}

/// How many of the first `k` arms are open sided.
pub open spec fn open_sided_count(arms: Seq<PosDiff>, k: int, pose: PosAngle, grid: &Grid) -> nat
    decreases k,
{
    if k <= 0 {
        0
    } else {
        open_sided_count(arms, k - 1, pose, grid) + if open_sided(arms, pose, grid, k - 1) {
            1nat
        } else {
            0nat
        }
    }
}

/// The points of a list of cells.
pub open spec fn points(v: Seq<(i64, i64)>) -> Seq<(int, int)> {
    v.map_values(|p: (i64, i64)| (p.0 as int, p.1 as int))
}

fn holds_point(v: &Vec<(i64, i64)>, c: (i64, i64)) -> (r: bool)
    ensures
        r == points(v@).contains((c.0 as int, c.1 as int)),
{
    let n = v.len();
    let mut i: usize = 0;
    while i < n
        invariant
            i <= n,
            n == v@.len(),
            forall|j: int| 0 <= j < i ==> points(v@)[j] != (c.0 as int, c.1 as int),
        decreases n - i,
    {
        let p = v[i];
        if p.0 == c.0 && p.1 == c.1 {
            assert(points(v@)[i as int] == (c.0 as int, c.1 as int));
            return true;
        }
        i += 1;
    }
    false
}

impl BotView {
    /// Whether a move is carried out. The first half of a move always is; the second half
    /// of a boosted move stops before the edge of the grid, and before a wall unless a drill
    /// is running.
    pub open spec fn advances(self, action: Action, grid: &Grid, second: bool) -> bool {
        let next = self.pose.after(action).pos;
        !second || (grid.in_range(next.x as int, next.y as int) && (grid.free_at(
            next.x as int,
            next.y as int,
        ) || self.drill > 0))
    }

    /// Whether a move opens a wall.
    pub open spec fn drills(self, action: Action, grid: &Grid, second: bool) -> bool {
        let next = self.pose.after(action).pos;
        &&& action.moves()
        &&& self.advances(action, grid, second)
        &&& self.drill > 0
        &&& grid.wall_at(next.x as int, next.y as int)
    }

    /// The pose after `action`.
    pub open spec fn pose_after(self, action: Action, grid: &Grid, second: bool) -> PosAngle {
        if action.moves() {
            if self.advances(action, grid, second) {
                self.pose.after(action)
            } else {
                self.pose
            }
        } else if action.turns() {
            self.pose.after(action)
        } else {
            self.pose
        }
    }

    /// What `action` is logged as: an arm is logged by its offset in the coordinates of the
    /// body, which is the offset that the agent's orientation turns into the offset of the
    /// action.
    pub open spec fn logged(self, action: Action) -> Action {
        match action {
            Action::ExtendManipulator(d) => Action::ExtendManipulator(
                unturned_offset(d, self.pose.angle),
            ),
            a => a,
        }
    }

    /// The agent after `action`. `second` marks the second half of a boosted move, which is
    /// not logged.
    pub open spec fn applied(self, action: Action, grid: &Grid, second: bool) -> BotView {
        let pose = self.pose_after(action, grid, second);
        BotView {
            pose,
            arms: match action {
                Action::ExtendManipulator(d) => self.arms.push(d),
                _ => self.arms,
            },
            fast: if action is AttachFastWheels {
                self.fast + FAST_WHEEL_TICKS as nat
            } else {
                self.fast
            },
            drill: if action is AttachDrill {
                self.drill + DRILL_TICKS as nat
            } else {
                self.drill
            },
            order: match self.order {
                None => None,
                Some(o) => o.advanced(pose.pos),
            },
            log: if second {
                self.log
            } else {
                self.log.push(self.logged(action))
            },
        }
    }

    /// What `apply_action` asks of the agent, the action and the grid.
    pub open spec fn accepts(self, action: Action, grid: &Grid, second: bool) -> bool {
        let next = self.pose.after(action).pos;
        &&& (action matches Action::ExtendManipulator(d) ==> d.can_turn())
        &&& action is AttachFastWheels ==> self.fast + FAST_WHEEL_TICKS <= usize::MAX
        &&& action is AttachDrill ==> self.drill + DRILL_TICKS <= usize::MAX
        &&& action.moves() ==> grid.in_range(self.pose.pos.x as int, self.pose.pos.y as int)
        &&& action.moves() && !second ==> grid.in_range(next.x as int, next.y as int) && (
        grid.free_at(next.x as int, next.y as int) || self.drill > 0)
    }
}

/// What one action does to the order and the log of an agent, whatever the agent, the
/// action and the grid. An idle agent stays idle. An agent whose order is to perform is
/// idle afterwards. An agent on its way that arrives is at the next stage, and one that
/// does not arrive keeps its order; an agent that has to find a mystery cell keeps its
/// order too. No action moves an order away from idleness. The log grows by the one
/// action, except in the second half of a boosted move, which leaves it alone.
pub proof fn lemma_action_and_order(bot: BotView, action: Action, grid: &Grid, second: bool)
    ensures
        bot.order is None ==> bot.applied(action, grid, second).order is None,
        bot.order matches Some(o) && o.performs() ==> bot.applied(action, grid, second).order is None,
        bot.order matches Some(o) && o.target() == Some(bot.applied(action, grid, second).pose.pos)
            ==> bot.applied(action, grid, second).order == order_followed(bot.order, bot.pose.pos),
        bot.order matches Some(o) && o.target() is Some && o.target() != Some(
            bot.applied(action, grid, second).pose.pos,
        ) ==> bot.applied(action, grid, second).order == bot.order,
        bot.order == Some(Order::FindMysterious) ==> bot.applied(action, grid, second).order == bot.order,
        order_rank(bot.applied(action, grid, second).order) <= order_rank(bot.order),
        !second ==> bot.applied(action, grid, second).log == bot.log.push(bot.logged(action)),
        !second ==> bot.applied(action, grid, second).log.len() == bot.log.len() + 1,
        second ==> bot.applied(action, grid, second).log == bot.log,
{
}

impl View for Bot {
    type V = BotView;

    open spec fn view(&self) -> BotView {
        BotView {
            pose: self.pos_angle,
            arms: self.manipulators@.map_values(|m: Manipulator| m.posdiff),
            fast: self.fast_wheel_timer as nat,
            drill: self.drill_timer as nat,
            order: self.order,
            log: self.record@,
        }
    }
}

impl Bot {
    /// Every arm holds the line of sight of its offset.
    pub open spec fn wf(&self) -> bool {
        forall|i: int| 0 <= i < self.manipulators@.len() ==> (#[trigger] self.manipulators@[i]).wf()
    }

    /// An agent at `pos`, facing right, with the four arms that every agent starts with, no
    /// ability running, no order and an empty log.
    pub fn new(pos: Pos) -> (bot: Bot)
        ensures
            bot.wf(),
            bot@ == fresh_bot(pos),
    {
        let mut manipulators: Vec<Manipulator> = Vec::new();
        manipulators.push(Manipulator::new(PosDiff::new(0, 0)));
        manipulators.push(Manipulator::new(PosDiff::new(1, 0)));
        manipulators.push(Manipulator::new(PosDiff::new(1, 1)));
        manipulators.push(Manipulator::new(PosDiff::new(1, -1)));
        let bot = Bot {
            pos_angle: PosAngle::new(pos, Angle::A0),
            manipulators,
            fast_wheel_timer: 0,
            drill_timer: 0,
            order: None,
            record: Vec::new(),
        };
        assert(bot@.arms =~= default_arms());
        assert(bot@.log =~= Seq::<Action>::empty());
        bot
    }

    /// Paints every cell that an arm of the agent can paint from where it stands.
    pub fn mark_map(&self, map: &mut Grid)
        requires
            self.wf(),
            old(map).wf(),
        ensures
            final(map).wf(),
            final(map).advances(old(map)),
            painted_from(final(map), old(map), self@.arms, self.pos_angle),
            painted_out(self@.arms, self.pos_angle, final(map)),
            forall|x: int, y: int| #[trigger] final(map).wall_at(x, y) == old(map).wall_at(x, y),
            forall|x: int, y: int|
                old(map).in_range(x, y) ==> #[trigger] final(map).at(x, y) == if marks_cell(
                    self@.arms,
                    self@.arms.len() as int,
                    self.pos_angle,
                    old(map),
                    (x, y),
                ) {
                    Cell::Marked
                } else {
                    old(map).at(x, y)
                },
    {
        let n = self.manipulators.len();
        let ghost arms = self@.arms;
        let ghost pose = self.pos_angle;
        let mut i: usize = 0;
        proof {
            lemma_advances_chain(&*map, &*map, &*map);
        }
        while i < n
            invariant
                i <= n,
                n == self.manipulators@.len(),
                arms == self@.arms,
                pose == self.pos_angle,
                self.wf(),
                map.wf(),
                map.advances(old(map)),
                forall|x: int, y: int| #[trigger] map.wall_at(x, y) == old(map).wall_at(x, y),
                forall|x: int, y: int|
                    old(map).in_range(x, y) ==> #[trigger] map.at(x, y) == if marks_cell(
                        arms,
                        i as int,
                        pose,
                        old(map),
                        (x, y),
                    ) {
                        Cell::Marked
                    } else {
                        old(map).at(x, y)
                    },
            decreases n - i,
        {
            let ghost before = *map;
            let m = &self.manipulators[i];
            assert(arms[i as int] == m.posdiff);
            let ghost t = pose.reach(m.posdiff);
            proof {
                assert(sight_clear(m.posdiff, pose, &*map) == sight_clear(m.posdiff, pose, old(map)));
            }
            if m.can_mark(self.pos_angle, map) {
                let t = self.pos_angle.reach_wide(m.posdiff);
                map.mark_pos(Pos::new(t.0 as i32, t.1 as i32));
                proof {
                    lemma_advances_chain(old(map), &before, &*map);
                    assert forall|x: int, y: int| #[trigger] map.wall_at(x, y) == old(map).wall_at(x, y) by {
                        assert(before.wall_at(x, y) == old(map).wall_at(x, y));
                        if map.in_range(x, y) {
                            let _ = map.at(x, y);
                        }
                    }
                }
            }
            proof {
                assert forall|x: int, y: int| old(map).in_range(x, y) implies #[trigger] map.at(x, y)
                    == if marks_cell(arms, i + 1, pose, old(map), (x, y)) {
                    Cell::Marked
                } else {
                    old(map).at(x, y)
                } by {
                    let _ = before.at(x, y);
                    assert(before.in_range(x, y));
                    assert(t == pose.reach(arms[i as int]));
                    let was = marks_cell(arms, i as int, pose, old(map), (x, y));
                    let now = marks_cell(arms, i + 1, pose, old(map), (x, y));
                    let here = can_mark_at(arms[i as int], pose, old(map)) && t == (x, y);
                    if was {
                        let j = choose|j: int|
                            0 <= j < i && can_mark_at(#[trigger] arms[j], pose, old(map)) && pose.reach(
                                arms[j],
                            ) == (x, y);
                        assert(0 <= j < i + 1 && can_mark_at(arms[j], pose, old(map)));
                    }
                    if here {
                        assert(0 <= i < i + 1 && can_mark_at(arms[i as int], pose, old(map)));
                    }
                    if now && !was {
                        let j = choose|j: int|
                            0 <= j < i + 1 && can_mark_at(#[trigger] arms[j], pose, old(map))
                                && pose.reach(arms[j]) == (x, y);
                        assert(j == i);
                    }
                    assert(now == (was || here));
                    assert(before.at(x, y) == if was {
                        Cell::Marked
                    } else {
                        old(map).at(x, y)
                    });
                    if can_mark_at(arms[i as int], pose, &before) {
                        assert(before.empty_at(t.0, t.1));
                        assert(old(map).empty_at(t.0, t.1));
                    } else if here {
                        assert(!before.empty_at(t.0, t.1));
                    }
                }
            }
            i += 1;
        }
        proof {
            assert forall|j: int| 0 <= j < arms.len() implies !can_mark_at(#[trigger] arms[j], pose, &*map) by {
                let t = pose.reach(arms[j]);
                if can_mark_at(arms[j], pose, old(map)) {
                    assert(marks_cell(arms, arms.len() as int, pose, old(map), t));
                    assert(map.at(t.0, t.1) == Cell::Marked);
                } else if old(map).empty_at(t.0, t.1) {
                    let k = choose|k: int|
                        0 <= k < plot_points(arms[j]).len() && old(map).wall_at(
                            pose.reach_point(#[trigger] plot_points(arms[j])[k]).0,
                            pose.reach_point(plot_points(arms[j])[k]).1,
                        );
                    assert(map.wall_at(
                        pose.reach_point(plot_points(arms[j])[k]).0,
                        pose.reach_point(plot_points(arms[j])[k]).1,
                    ));
                } else if old(map).in_range(t.0, t.1) {
                    let _ = map.at(t.0, t.1);
                }
            }
        }
    }

    /// How many arms could paint if the agent stood at `pos_angle`.
    pub fn number_of_possible_mark_with_this_pos(
        pos_angle: PosAngle,
        manipulators: &Vec<Manipulator>,
        map: &Grid,
    ) -> (r: usize)
        requires
            map.wf(),
            forall|i: int| 0 <= i < manipulators@.len() ==> (#[trigger] manipulators@[i]).wf(),
        ensures
            r == mark_count(
                manipulators@.map_values(|m: Manipulator| m.posdiff),
                manipulators@.len() as int,
                pos_angle,
                map,
            ),
    {
        let ghost arms = manipulators@.map_values(|m: Manipulator| m.posdiff);
        let n = manipulators.len();
        let mut count: usize = 0;
        let mut i: usize = 0;
        while i < n
            invariant
                i <= n,
                n == manipulators@.len(),
                map.wf(),
                forall|i: int| 0 <= i < manipulators@.len() ==> (#[trigger] manipulators@[i]).wf(),
                arms == manipulators@.map_values(|m: Manipulator| m.posdiff),
                count == mark_count(arms, i as int, pos_angle, map),
                count <= i,
            decreases n - i,
        {
            assert(arms[i as int] == manipulators@[i as int].posdiff);
            if manipulators[i].can_mark(pos_angle, map) {
                count += 1;
            }
            i += 1;
        }
        count
    }

    /// How many unpainted cells would touch the footprint of the arms from outside if the
    /// agent stood at `pos_angle`.
    pub fn number_of_ajd_empty_cells_of_manipulators_with_this_pos(
        pos_angle: PosAngle,
        manipulators: &Vec<Manipulator>,
        map: &Grid,
    ) -> (r: usize)
        requires
            map.wf(),
        ensures
            r == fringe(manipulators@.map_values(|m: Manipulator| m.posdiff), pos_angle, map).len(),
            fringe(manipulators@.map_values(|m: Manipulator| m.posdiff), pos_angle, map).finite(),
    {
        let ghost arms = manipulators@.map_values(|m: Manipulator| m.posdiff);
        let n = manipulators.len();
        let mut tips: Vec<(i64, i64)> = Vec::new();
        let mut i: usize = 0;
        while i < n
            invariant
                i <= n,
                n == manipulators@.len(),
                arms == manipulators@.map_values(|m: Manipulator| m.posdiff),
                tips@.len() == i,
                forall|j: int| 0 <= j < i ==> #[trigger] points(tips@)[j] == pos_angle.reach(arms[j]),
            decreases n - i,
        {
            let t = pos_angle.reach_wide(manipulators[i].posdiff);
            let ghost before = points(tips@);
            tips.push(t);
            assert(arms[i as int] == manipulators@[i as int].posdiff);
            assert(points(tips@) =~= before.push((t.0 as int, t.1 as int)));
            i += 1;
        }
        proof {
            assert forall|c: (int, int)| points(tips@).contains(c) == is_tip(arms, pos_angle, c) by {
                if points(tips@).contains(c) {
                    let j = choose|j: int| 0 <= j < points(tips@).len() && points(tips@)[j] == c;
                    assert(pos_angle.reach(arms[j]) == c);
                }
                if is_tip(arms, pos_angle, c) {
                    let j = choose|j: int| 0 <= j < arms.len() && pos_angle.reach(#[trigger] arms[j]) == c;
                    assert(points(tips@)[j] == c);
                }
            }
        }
        let diffs = PosDiff::gen_all_diff();
        let mut found: Vec<(i64, i64)> = Vec::new();
        let mut i: usize = 0;
        while i < n
            invariant
                i <= n,
                n == manipulators@.len() == arms.len() == tips@.len(),
                map.wf(),
                diffs@ == PosDiff::all_diffs(),
                forall|j: int| 0 <= j < n ==> #[trigger] points(tips@)[j] == pos_angle.reach(arms[j]),
                forall|c: (int, int)| points(tips@).contains(c) == is_tip(arms, pos_angle, c),
                points(found@).no_duplicates(),
                forall|c: (int, int)|
                    points(found@).contains(c) == fringe_upto(arms, pos_angle, map, 4 * i, c),
            decreases n - i,
        {
            let tip = tips[i];
            assert(points(tips@)[i as int] == (tip.0 as int, tip.1 as int));
            let mut dir: usize = 0;
            while dir < 4
                invariant
                    i < n,
                    dir <= 4,
                    n == manipulators@.len() == arms.len() == tips@.len(),
                    map.wf(),
                    diffs@ == PosDiff::all_diffs(),
                    (tip.0 as int, tip.1 as int) == pos_angle.reach(arms[i as int]),
                    forall|c: (int, int)| points(tips@).contains(c) == is_tip(arms, pos_angle, c),
                    points(found@).no_duplicates(),
                    forall|c: (int, int)|
                        points(found@).contains(c) == fringe_upto(
                            arms,
                            pos_angle,
                            map,
                            4 * i + dir,
                            c,
                        ),
                decreases 4 - dir,
            {
                let d = diffs[dir];
                assert(d == PosDiff::all_diffs()[dir as int]);
                let c: (i64, i64) = (tip.0 + d.dx as i64, tip.1 + d.dy as i64);
                let ghost m = 4 * i + dir;
                let ghost cell = (c.0 as int, c.1 as int);
                let ghost before = points(found@);
                assert(around(arms, pos_angle, m) == cell) by {
                    assert(m / 4 == i && m % 4 == dir);
                }
                let open = match map.probe(c.0, c.1) {
                    Some(Cell::Empty) => true,
                    _ => false,
                };
                if open && !holds_point(&tips, c) && !holds_point(&found, c) {
                    found.push(c);
                    assert(points(found@) =~= before.push(cell));
                }
                proof {
                    let after = points(found@);
                    assert forall|q: (int, int)| after.contains(q) == fringe_upto(
                        arms,
                        pos_angle,
                        map,
                        m + 1,
                        q,
                    ) by {
                        let was = fringe_upto(arms, pos_angle, map, m, q);
                        let now = fringe_upto(arms, pos_angle, map, m + 1, q);
                        assert(before.contains(q) == was);
                        if was {
                            let k = choose|k: int| 0 <= k < m && #[trigger] around(arms, pos_angle, k) == q;
                            assert(0 <= k < m + 1 && around(arms, pos_angle, k) == q);
                        }
                        if now && !was {
                            let k = choose|k: int|
                                0 <= k < m + 1 && #[trigger] around(arms, pos_angle, k) == q;
                            assert(k == m);
                        }
                        if q == cell && map.empty_at(q.0, q.1) && !is_tip(arms, pos_angle, q) {
                            assert(0 <= m < m + 1 && around(arms, pos_angle, m) == q);
                        }
                        if after.contains(q) && !before.contains(q) {
                            let j = choose|j: int| 0 <= j < after.len() && after[j] == q;
                            if j < before.len() {
                                assert(before[j] == q);
                            }
                        }
                        if before.contains(q) {
                            let j = choose|j: int| 0 <= j < before.len() && before[j] == q;
                            assert(after[j] == q);
                        }
                        if after.len() > before.len() {
                            assert(after[before.len() as int] == cell);
                        }
                    }
                }
                dir += 1;
            }
            i += 1;
        }
        proof {
            let all = points(found@);
            assert(all.to_set() =~= fringe(arms, pos_angle, map));
            all.unique_seq_to_set();
        }
        found.len()
    }

    /// How many arms would have, beside their tip, an unpainted cell that carries no tip if
    /// the agent stood at `pos_angle`.
    pub fn number_of_manipulators_which_has_empty_adj_cell_with_this_pos(
        pos_angle: PosAngle,
        manipulators: &Vec<Manipulator>,
        map: &Grid,
    ) -> (r: usize)
        requires
            map.wf(),
        ensures
            r == open_sided_count(
                manipulators@.map_values(|m: Manipulator| m.posdiff),
                manipulators@.len() as int,
                pos_angle,
                map,
            ),
    {
        let ghost arms = manipulators@.map_values(|m: Manipulator| m.posdiff);
        let n = manipulators.len();
        let mut tips: Vec<(i64, i64)> = Vec::new();
        let mut i: usize = 0;
        while i < n
            invariant
                i <= n,
                n == manipulators@.len(),
                arms == manipulators@.map_values(|m: Manipulator| m.posdiff),
                tips@.len() == i,
                forall|j: int| 0 <= j < i ==> #[trigger] points(tips@)[j] == pos_angle.reach(arms[j]),
            decreases n - i,
        {
            let t = pos_angle.reach_wide(manipulators[i].posdiff);
            let ghost before = points(tips@);
            tips.push(t);
            assert(arms[i as int] == manipulators@[i as int].posdiff);
            assert(points(tips@) =~= before.push((t.0 as int, t.1 as int)));
            i += 1;
        }
        proof {
            assert forall|c: (int, int)| points(tips@).contains(c) == is_tip(arms, pos_angle, c) by {
                if points(tips@).contains(c) {
                    let j = choose|j: int| 0 <= j < points(tips@).len() && points(tips@)[j] == c;
                    assert(pos_angle.reach(arms[j]) == c);
                }
                if is_tip(arms, pos_angle, c) {
                    let j = choose|j: int| 0 <= j < arms.len() && pos_angle.reach(#[trigger] arms[j]) == c;
                    assert(points(tips@)[j] == c);
                }
            }
        }
        let diffs = PosDiff::gen_all_diff();
        let mut count: usize = 0;
        let mut i: usize = 0;
        while i < n
            invariant
                i <= n,
                n == manipulators@.len() == arms.len() == tips@.len(),
                map.wf(),
                diffs@ == PosDiff::all_diffs(),
                forall|j: int| 0 <= j < n ==> #[trigger] points(tips@)[j] == pos_angle.reach(arms[j]),
                forall|c: (int, int)| points(tips@).contains(c) == is_tip(arms, pos_angle, c),
                count == open_sided_count(arms, i as int, pos_angle, map),
                count <= i,
            decreases n - i,
        {
            let tip = tips[i];
            assert(points(tips@)[i as int] == (tip.0 as int, tip.1 as int));
            let ghost t = pos_angle.reach(arms[i as int]);
            let mut any = false;
            let mut dir: usize = 0;
            while dir < 4
                invariant
                    dir <= 4,
                    map.wf(),
                    diffs@ == PosDiff::all_diffs(),
                    (tip.0 as int, tip.1 as int) == t,
                    t == pos_angle.reach(arms[i as int]),
                    forall|c: (int, int)| points(tips@).contains(c) == is_tip(arms, pos_angle, c),
                    any == exists|d: int|
                        0 <= d < dir && map.empty_at((#[trigger] side(t, d)).0, side(t, d).1) && !is_tip(
                            arms,
                            pos_angle,
                            side(t, d),
                        ),
                decreases 4 - dir,
            {
                let d = diffs[dir];
                assert(d == PosDiff::all_diffs()[dir as int]);
                let c: (i64, i64) = (tip.0 + d.dx as i64, tip.1 + d.dy as i64);
                assert((c.0 as int, c.1 as int) == side(t, dir as int));
                let open = match map.probe(c.0, c.1) {
                    Some(Cell::Empty) => true,
                    _ => false,
                };
                let ghost was = any;
                if open && !holds_point(&tips, c) {
                    any = true;
                }
                proof {
                    let here = map.empty_at(side(t, dir as int).0, side(t, dir as int).1) && !is_tip(
                        arms,
                        pos_angle,
                        side(t, dir as int),
                    );
                    if was {
                        let w = choose|d: int|
                            0 <= d < dir && map.empty_at((#[trigger] side(t, d)).0, side(t, d).1) && !is_tip(
                                arms,
                                pos_angle,
                                side(t, d),
                            );
                        assert(0 <= w < dir + 1);
                    }
                    if exists|d: int|
                        0 <= d < dir + 1 && map.empty_at((#[trigger] side(t, d)).0, side(t, d).1) && !is_tip(
                            arms,
                            pos_angle,
                            side(t, d),
                        ) {
                        let w = choose|d: int|
                            0 <= d < dir + 1 && map.empty_at((#[trigger] side(t, d)).0, side(t, d).1)
                                && !is_tip(arms, pos_angle, side(t, d));
                        assert(w < dir || here);
                    }
                }
                dir += 1;
            }
            if any {
                count += 1;
            }
            i += 1;
        }
        count
    }

    /// Where the next arm goes: beside the arms in front of the body, above and below in
    /// turn, each time one cell further out.
    pub fn find_extend_manipulator_position(&self) -> (r: PosDiff)
        requires
            self.manipulators@.len() / 2 <= i32::MAX,
        ensures
            r.dx == 1,
            r.dy == if self.manipulators@.len() % 2 == 0 {
                (self.manipulators@.len() / 2) as int
            } else {
                -((self.manipulators@.len() / 2) as int)
            },
            r.can_turn(),
    {
        let n = self.manipulators.len();
        if n % 2 == 0 {
            PosDiff::new(1, (n / 2) as i32)
        } else {
            PosDiff::new(1, -((n / 2) as i32))
        }
    }

    /// Carries out one action: moves or turns the agent, opens a wall where a drill meets
    /// one, adds an arm or starts an ability, then advances the order and logs the action.
    pub fn apply_action(&mut self, action: Action, map: &mut Grid, fast_wheel_second_move: bool)
        requires
            old(self).wf(),
            old(map).wf(),
            old(self)@.accepts(action, old(map), fast_wheel_second_move),
        ensures
            final(self).wf(),
            final(self)@ == old(self)@.applied(action, old(map), fast_wheel_second_move),
            old(self)@.order is None ==> final(self)@.order is None,
            old(self)@.order matches Some(o) && o.performs() ==> final(self)@.order is None,
            !fast_wheel_second_move ==> final(self)@.log == old(self)@.log.push(old(self)@.logged(action)),
            fast_wheel_second_move ==> final(self)@.log == old(self)@.log,
            final(map).wf(),
            final(map).advances(old(map)),
            drilled_from(final(map), old(map), old(self)@, action, fast_wheel_second_move),
            final(map).empty_cell_count == old(map).empty_cell_count,
            final(map).table() == if old(self)@.drills(action, old(map), fast_wheel_second_move) {
                let next = old(self).pos_angle.after(action).pos;
                old(map).table().update(
                    next.x as int,
                    old(map).table()[next.x as int].update(next.y as int, Cell::Marked),
                )
            } else {
                old(map).table()
            },
            forall|x: int, y: int|
                old(map).in_range(x, y) ==> #[trigger] final(map).at(x, y) == if old(self)@.drills(
                    action,
                    old(map),
                    fast_wheel_second_move,
                ) && x == old(self).pos_angle.after(action).pos.x && y == old(self).pos_angle.after(
                    action,
                ).pos.y {
                    Cell::Marked
                } else {
                    old(map).at(x, y)
                },
            action.moves() && old(map).free_at(
                old(self).pos_angle.pos.x as int,
                old(self).pos_angle.pos.y as int,
            ) ==> final(map).free_at(
                final(self).pos_angle.pos.x as int,
                final(self).pos_angle.pos.y as int,
            ),
    {
        let ghost before = self@;
        proof {
            lemma_advances_chain(&*map, &*map, &*map);
        }
        match action {
            Action::MoveUp | Action::MoveDown | Action::MoveLeft | Action::MoveRight => {
                let next = self.pos_angle.apply_action(action);
                if fast_wheel_second_move {
                    if map.is_in_range(next.pos) {
                        if map.is_free(next.pos) {
                            self.pos_angle = next;
                        } else if self.drill_timer > 0 {
                            map.do_drill(next.pos);
                            self.pos_angle = next;
                        }
                    }
                } else {
                    if self.drill_timer > 0 && map.is_wall(next.pos) {
                        map.do_drill(next.pos);
                    }
                    self.pos_angle = next;
                }
            },
            Action::DoNothing => {},
            Action::TurnClockWise | Action::TurnCounterClockWise => {
                self.pos_angle = self.pos_angle.apply_action(action);
            },
            Action::ExtendManipulator(posdiff) => {
                self.manipulators.push(Manipulator::new(posdiff));
            },
            Action::Cloning => {},
            Action::AttachFastWheels => {
                self.fast_wheel_timer += FAST_WHEEL_TICKS;
            },
            Action::AttachDrill => {
                self.drill_timer += DRILL_TICKS;
            },
        }
        if let Some(order) = self.order {
            match order {
                Order::MoveToExtendManipulator(pos) => {
                    if self.pos_angle.pos == pos {
                        self.order = Some(Order::DoExtendManipulator);
                    }
                },
                Order::DoExtendManipulator => {
                    self.order = None;
                },
                Order::MoveToClone(pos) => {
                    if self.pos_angle.pos == pos {
                        self.order = Some(Order::FindMysterious);
                    }
                },
                Order::FindMysterious => {},
                Order::MoveToMysterious(pos) => {
                    if self.pos_angle.pos == pos {
                        self.order = Some(Order::DoClone);
                    }
                },
                Order::DoClone => {
                    self.order = None;
                },
                Order::MoveToFastWheel(pos) => {
                    if self.pos_angle.pos == pos {
                        self.order = Some(Order::DoFastWheels);
                    }
                },
                Order::DoFastWheels => {
                    self.order = None;
                },
                Order::MoveToDrill(pos) => {
                    if self.pos_angle.pos == pos {
                        self.order = Some(Order::DoDrill);
                    }
                },
                Order::DoDrill => {
                    self.order = None;
                },
            }
        }
        if !fast_wheel_second_move {
            if let Action::ExtendManipulator(posdiff) = action {
                self.record.push(Action::ExtendManipulator(posdiff.unturn(self.pos_angle.angle)));
            } else {
                self.record.push(action);
            }
        }
        proof {
            let goal = before.applied(action, old(map), fast_wheel_second_move);
            assert(self@.arms =~= goal.arms);
            assert(self@.log =~= goal.log);
        }
    }
}

} // verus!
