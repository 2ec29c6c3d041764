//! Integer grid geometry: positions, offsets, the four orientations and poses.

use core::ops::Add;
use vstd::prelude::*;
use vstd::std_specs::ops::AddSpecImpl;

verus! {

/// A cell position on the integer grid.
#[derive(Hash, Copy, Clone, PartialEq, Eq, Structural, Debug, PartialOrd, Ord)]
pub struct Pos {
    pub x: i32,
    pub y: i32,
}

/// A relative offset between two positions.
#[derive(Hash, Copy, Clone, PartialEq, Eq, Structural, Debug)]
pub struct PosDiff {
    pub dx: i32,
    pub dy: i32,
}

/// One of the four orientations of an agent, named by its clockwise angle.
#[derive(Hash, Copy, Clone, PartialEq, Eq, Structural, Debug)]
pub enum Angle {
    A0,
    A90,
    A180,
    A270,
}

/// A position together with an orientation.
#[derive(Hash, Copy, Clone, PartialEq, Eq, Structural, Debug)]
pub struct PosAngle {
    pub pos: Pos,
    pub angle: Angle,
}

impl Pos {
    /// The position `(x, y)`.
    pub fn new(x: i32, y: i32) -> (p: Pos)
        ensures
            p.x == x,
            p.y == y,
    {
        Pos { x, y }
    }

    /// Whether `self + d` is representable.
    pub open spec fn can_add(self, d: PosDiff) -> bool {
        &&& i32::MIN <= self.x + d.dx <= i32::MAX
        &&& i32::MIN <= self.y + d.dy <= i32::MAX
    }

    /// The Manhattan distance between two positions.
    pub open spec fn manhattan(self, other: Pos) -> nat {
        (vstd::math::abs(self.x - other.x) + vstd::math::abs(self.y - other.y)) as nat
    }
}

/// A walk on the plane: every position is one step, left, right, up or down, from the one
/// before.
pub open spec fn is_walk(walk: Seq<Pos>) -> bool {
    forall|i: int| 0 < i < walk.len() ==> walk[i - 1].manhattan(#[trigger] walk[i]) == 1
}

/// No walk between two positions has fewer steps than their Manhattan distance.
pub proof fn lemma_walk_is_long(walk: Seq<Pos>)
    requires
        walk.len() >= 1,
        is_walk(walk),
    ensures
        walk.len() - 1 >= walk[0].manhattan(walk.last()),
    decreases walk.len(),
{
    if walk.len() > 1 {
        let shorter = walk.drop_last();
        assert forall|i: int| 0 < i < shorter.len() implies shorter[i - 1].manhattan(#[trigger] shorter[i])
            == 1 by {
            assert(shorter[i] == walk[i]);
            assert(shorter[i - 1] == walk[i - 1]);
        }
        lemma_walk_is_long(shorter);
        assert(shorter[0] == walk[0]);
        assert(shorter.last() == walk[walk.len() - 2]);
        assert(walk[walk.len() - 2].manhattan(walk[walk.len() - 1]) == 1);
    }
}

/// Some walk between two positions has as many steps as their Manhattan distance: the
/// distance is the number of steps of a shortest walk on a plane without walls.
pub proof fn lemma_walk_exists(a: Pos, b: Pos) -> (walk: Seq<Pos>)
    ensures
        is_walk(walk),
        walk.len() == a.manhattan(b) + 1,
        walk[0] == a,
        walk.last() == b,
    decreases a.manhattan(b),
{
    if a == b {
        seq![a]
    } else {
        let before = if b.x > a.x {
            Pos { x: (b.x - 1) as i32, y: b.y }
        } else if b.x < a.x {
            Pos { x: (b.x + 1) as i32, y: b.y }
        } else if b.y > a.y {
            Pos { x: b.x, y: (b.y - 1) as i32 }
        } else {
            Pos { x: b.x, y: (b.y + 1) as i32 }
        };
        assert(a.manhattan(before) == a.manhattan(b) - 1);
        assert(before.manhattan(b) == 1);
        let shorter = lemma_walk_exists(a, before);
        let walk = shorter.push(b);
        assert forall|i: int| 0 < i < walk.len() implies walk[i - 1].manhattan(#[trigger] walk[i]) == 1 by {
            if i < shorter.len() {
                assert(walk[i] == shorter[i]);
                assert(walk[i - 1] == shorter[i - 1]);
            } else {
                assert(walk[i - 1] == shorter.last());
            }
        }
        walk
    }
}

impl Add<PosDiff> for Pos {
    type Output = Pos;

    fn add(self, rhs: PosDiff) -> (r: Pos) {
        Pos { x: self.x + rhs.dx, y: self.y + rhs.dy }
    }
}

impl AddSpecImpl<PosDiff> for Pos {
    open spec fn obeys_add_spec() -> bool {
        true
    }

    open spec fn add_req(self, rhs: PosDiff) -> bool {
        self.can_add(rhs)
    }

    open spec fn add_spec(self, rhs: PosDiff) -> Pos {
        Pos { x: (self.x + rhs.dx) as i32, y: (self.y + rhs.dy) as i32 }
    }
}

impl Angle {
    /// The orientation after a quarter turn clockwise.
    pub open spec fn clockwise(self) -> Angle {
        match self {
            Angle::A0 => Angle::A90,
            Angle::A90 => Angle::A180,
            Angle::A180 => Angle::A270,
            Angle::A270 => Angle::A0,
        }
    }

    /// The orientation after a quarter turn counter-clockwise.
    pub open spec fn counter_clockwise(self) -> Angle {
        match self {
            Angle::A0 => Angle::A270,
            Angle::A90 => Angle::A0,
            Angle::A180 => Angle::A90,
            Angle::A270 => Angle::A180,
        }
    }

    /// The orientation that undoes this one: turning into the one and then into the other
    /// restores every offset.
    pub open spec fn opposite(self) -> Angle {
        match self {
            Angle::A0 => Angle::A0,
            Angle::A90 => Angle::A270,
            Angle::A180 => Angle::A180,
            Angle::A270 => Angle::A90,
        }
    }

    /// The orientation's place in the cycle A0, A90, A180, A270.
    pub open spec fn index(self) -> int {
        match self {
            Angle::A0 => 0,
            Angle::A90 => 1,
            Angle::A180 => 2,
            Angle::A270 => 3,
        }
    }

    /// The orientation after a quarter turn clockwise.
    pub fn turn_clock_wise(self) -> (r: Angle)
        ensures
            r == self.clockwise(),
    {
        match self {
            Angle::A0 => Angle::A90,
            Angle::A90 => Angle::A180,
            Angle::A180 => Angle::A270,
            Angle::A270 => Angle::A0,
        }
    }

    /// The orientation after a quarter turn counter-clockwise.
    pub fn turn_counter_clock_wise(self) -> (r: Angle)
        ensures
            r == self.counter_clockwise(),
    {
        match self {
            Angle::A0 => Angle::A270,
            Angle::A90 => Angle::A0,
            Angle::A180 => Angle::A90,
            Angle::A270 => Angle::A180,
        }
    }

    /// The orientation that undoes this one.
    pub fn turn_back(self) -> (r: Angle)
        ensures
            r == self.opposite(),
    {
        match self {
            Angle::A0 => Angle::A0,
            Angle::A90 => Angle::A270,
            Angle::A180 => Angle::A180,
            Angle::A270 => Angle::A90,
        }
    }

    /// The orientation's place in the cycle, as a machine integer.
    pub fn ordinal(self) -> (r: usize)
        ensures
            r == self.index(),
    {
        match self {
            Angle::A0 => 0,
            Angle::A90 => 1,
            Angle::A180 => 2,
            Angle::A270 => 3,
        }
    }
}

/// The point `p`, given in body-local coordinates, as seen after rotating the body into
/// `angle`.
pub open spec fn turned_point(p: (int, int), angle: Angle) -> (int, int) {
    match angle {
        Angle::A0 => p,
        Angle::A90 => (p.1, -p.0),
        Angle::A180 => (-p.0, -p.1),
        Angle::A270 => (-p.1, p.0),
    }
}

/// The two quarter turns undo each other, and four equal quarter turns are the identity.
pub proof fn lemma_quarter_turns(a: Angle)
    ensures
        a.clockwise().counter_clockwise() == a,
        a.counter_clockwise().clockwise() == a,
        a.clockwise().clockwise().clockwise().clockwise() == a,
        a.counter_clockwise().counter_clockwise().counter_clockwise().counter_clockwise() == a,
        a.clockwise().index() == (a.index() + 1) % 4,
        a.counter_clockwise().index() == (a.index() + 3) % 4,
{
}

impl PosDiff {
    /// The offset `(dx, dy)`.
    pub fn new(dx: i32, dy: i32) -> (d: PosDiff)
        ensures
            d.dx == dx,
            d.dy == dy,
    {
        PosDiff { dx, dy }
    }

    /// The four unit steps, in the order right, up, left, down.
    pub open spec fn all_diffs() -> Seq<PosDiff> {
        seq![
            PosDiff { dx: 1, dy: 0 },
            PosDiff { dx: 0, dy: 1 },
            PosDiff { dx: -1i32, dy: 0 },
            PosDiff { dx: 0, dy: -1i32 },
        ]
    }

    /// The four unit steps, in the order right, up, left, down.
    pub fn gen_all_diff() -> (r: [PosDiff; 4])
        ensures
            r@ == PosDiff::all_diffs(),
    {
        let r = [PosDiff::new(1, 0), PosDiff::new(0, 1), PosDiff::new(-1, 0), PosDiff::new(0, -1)];
        assert(r@ =~= PosDiff::all_diffs());
        r
    }

    /// The offset as seen after rotating the body into `angle`, as mathematical integers.
    pub open spec fn turned(self, angle: Angle) -> (int, int) {
        turned_point((self.dx as int, self.dy as int), angle)
    }

    /// Whether both components can be negated.
    pub open spec fn can_turn(self) -> bool {
        self.dx > i32::MIN && self.dy > i32::MIN
    }

    /// The offset as seen after rotating the body into `angle`: a quarter turn clockwise takes
    /// `(dx, dy)` to `(dy, -dx)`.
    pub fn turn(self, angle: Angle) -> (r: PosDiff)
        requires
            self.can_turn(),
        ensures
            (r.dx as int, r.dy as int) == self.turned(angle),
            r.can_turn(),
    {
        match angle {
            Angle::A0 => self,
            Angle::A90 => PosDiff::new(self.dy, -self.dx),
            Angle::A180 => PosDiff::new(-self.dx, -self.dy),
            Angle::A270 => PosDiff::new(-self.dy, self.dx),
        }
    }

    /// The offset in the coordinates of a body that faces `angle`: the offset that rotating
    /// the body into `angle` turns into this one.
    pub open spec fn unturned(self, angle: Angle) -> (int, int) {
        self.turned(angle.opposite())
    }

    /// The offset in the coordinates of a body that faces `angle`: the offset that `turn`
    /// by `angle` takes to this one.
    pub fn unturn(self, angle: Angle) -> (r: PosDiff)
        requires
            self.can_turn(),
        ensures
            (r.dx as int, r.dy as int) == self.unturned(angle),
            r.turned(angle) == (self.dx as int, self.dy as int),
            r.can_turn(),
    {
        self.turn(angle.turn_back())
    }

    /// `turn` without a machine limit: the rotated offset in 64 bits.
    pub fn turn_wide(self, angle: Angle) -> (r: (i64, i64))
        ensures
            (r.0 as int, r.1 as int) == self.turned(angle),
    {
        let dx: i64 = self.dx as i64;
        let dy: i64 = self.dy as i64;
        match angle {
            Angle::A0 => (dx, dy),
            Angle::A90 => (dy, -dx),
            Angle::A180 => (-dx, -dy),
            Angle::A270 => (-dy, dx),
        }
    }
}

/// Turning an offset back undoes turning it, and turning it undoes turning it back.
pub proof fn lemma_turn_back(p: (int, int), a: Angle)
    ensures
        turned_point(turned_point(p, a.opposite()), a) == p,
        turned_point(turned_point(p, a), a.opposite()) == p,
        a.opposite().opposite() == a,
{
}

/// Turning an offset clockwise four times, or clockwise and then counter-clockwise, restores it;
/// a half turn negates both components.
pub proof fn lemma_turn_cycle(d: PosDiff)
    ensures
        d.turned(Angle::A0) == (d.dx as int, d.dy as int),
        d.turned(Angle::A180) == (-d.dx, -d.dy),
        forall|a: Angle|
            (#[trigger] d.turned(a.clockwise())) == ({
                let t = d.turned(a);
                (t.1, -t.0)
            }),
{
}

impl PosAngle {
    /// The pose at `pos` facing `angle`.
    pub fn new(pos: Pos, angle: Angle) -> (p: PosAngle)
        ensures
            p.pos == pos,
            p.angle == angle,
    {
        PosAngle { pos, angle }
    }

    /// The mathematical point that the body-local point `p` names at this pose.
    pub open spec fn reach_point(self, p: (int, int)) -> (int, int) {
        let t = turned_point(p, self.angle);
        (self.pos.x + t.0, self.pos.y + t.1)
    }

    /// The mathematical point that the body-local offset `d` names at this pose.
    pub open spec fn reach(self, d: PosDiff) -> (int, int) {
        self.reach_point((d.dx as int, d.dy as int))
    }

    /// The point of `reach`, in 64 bits.
    pub fn reach_wide(self, d: PosDiff) -> (r: (i64, i64))
        ensures
            (r.0 as int, r.1 as int) == self.reach(d),
    {
        let t = d.turn_wide(self.angle);
        (self.pos.x as i64 + t.0, self.pos.y as i64 + t.1)
    }
}

impl Add<PosDiff> for PosAngle {
    type Output = Pos;

    fn add(self, diff: PosDiff) -> (r: Pos) {
        self.pos + diff.turn(self.angle)
    }
}

impl AddSpecImpl<PosDiff> for PosAngle {
    open spec fn obeys_add_spec() -> bool {
        true
    }

    open spec fn add_req(self, rhs: PosDiff) -> bool {
        &&& rhs.can_turn()
        &&& i32::MIN <= self.reach(rhs).0 <= i32::MAX
        &&& i32::MIN <= self.reach(rhs).1 <= i32::MAX
    }

    open spec fn add_spec(self, rhs: PosDiff) -> Pos {
        Pos { x: self.reach(rhs).0 as i32, y: self.reach(rhs).1 as i32 }
    }
}

} // verus!
