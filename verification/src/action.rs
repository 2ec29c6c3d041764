//! The actions of an agent and how they are written in a solution.

use crate::geometry::{Pos, PosAngle, PosDiff};
use crate::text::{decimal, push_decimal};
use vstd::prelude::*;
use vstd::string::StringExecFns;

verus! {

/// One action of an agent in one turn.
#[derive(Debug, Copy, Clone, PartialEq, Eq, Structural)]
pub enum Action {
    MoveUp,
    MoveDown,
    MoveLeft,
    MoveRight,
    DoNothing,
    TurnClockWise,
    TurnCounterClockWise,
    ExtendManipulator(PosDiff),
    AttachFastWheels,
    Cloning,
    AttachDrill,
}

impl Action {
    /// The action moves the agent by one cell.
    pub open spec fn moves(self) -> bool {
        self is MoveUp || self is MoveDown || self is MoveLeft || self is MoveRight
    }

    /// The action turns the agent by a quarter.
    pub open spec fn turns(self) -> bool {
        self is TurnClockWise || self is TurnCounterClockWise
    }

    /// The unit step of a move; no step for any other action.
    pub open spec fn delta(self) -> (int, int) {
        match self {
            Action::MoveUp => (0, 1),
            Action::MoveDown => (0, -1),
            Action::MoveLeft => (-1, 0),
            Action::MoveRight => (1, 0),
            _ => (0, 0),
        }
    }

    /// The text of the action in a solution.
    pub open spec fn text(self) -> Seq<char> {
        match self {
            Action::MoveUp => seq!['W'],
            Action::MoveDown => seq!['S'],
            Action::MoveLeft => seq!['A'],
            Action::MoveRight => seq!['D'],
            Action::DoNothing => seq!['Z'],
            Action::TurnClockWise => seq!['E'],
            Action::TurnCounterClockWise => seq!['Q'],
            Action::ExtendManipulator(d) => seq!['B', '('] + decimal(d.dx as int) + seq![','] + decimal(
                d.dy as int,
            ) + seq![')'],
            Action::AttachFastWheels => seq!['F'],
            Action::Cloning => seq!['C'],
            Action::AttachDrill => seq!['L'],
        }
    }

    /// Whether the action moves the agent by one cell.
    pub fn is_move(&self) -> (r: bool)
        ensures
            r == self.moves(),
    {
        match self {
            Action::MoveUp | Action::MoveDown | Action::MoveLeft | Action::MoveRight => true,
            _ => false,
        }
    }

    /// Appends the text of the action to `s`.
    pub fn write_to(&self, s: &mut String)
        ensures
            final(s)@ == old(s)@ + self.text(),
    {
        proof {
            reveal_strlit("W");
            reveal_strlit("S");
            reveal_strlit("A");
            reveal_strlit("D");
            reveal_strlit("Z");
            reveal_strlit("E");
            reveal_strlit("Q");
            reveal_strlit("F");
            reveal_strlit("C");
            reveal_strlit("L");
            reveal_strlit("B(");
            reveal_strlit(",");
            reveal_strlit(")");
        }
        let ghost start = s@;
        match self {
            Action::MoveUp => s.append("W"),
            Action::MoveDown => s.append("S"),
            Action::MoveLeft => s.append("A"),
            Action::MoveRight => s.append("D"),
            Action::DoNothing => s.append("Z"),
            Action::TurnClockWise => s.append("E"),
            Action::TurnCounterClockWise => s.append("Q"),
            Action::ExtendManipulator(d) => {
                s.append("B(");
                push_decimal(s, d.dx);
                s.append(",");
                push_decimal(s, d.dy);
                s.append(")");
                assert(s@ =~= start + self.text());
            },
            Action::AttachFastWheels => s.append("F"),
            Action::Cloning => s.append("C"),
            Action::AttachDrill => s.append("L"),
        }
        assert(s@ =~= start + self.text());
    }

    /// The text of the action in a solution.
    pub fn to_string(&self) -> (s: String)
        ensures
            s@ == self.text(),
    {
        let mut s = String::new();
        self.write_to(&mut s);
        assert(s@ =~= self.text());
        s
    }
}

impl PosAngle {
    /// The pose after a move or a turn; any other action leaves it.
    pub open spec fn after(self, action: Action) -> PosAngle {
        PosAngle {
            pos: Pos {
                x: (self.pos.x + action.delta().0) as i32,
                y: (self.pos.y + action.delta().1) as i32,
            },
            angle: match action {
                Action::TurnClockWise => self.angle.clockwise(),
                Action::TurnCounterClockWise => self.angle.counter_clockwise(),
                _ => self.angle,
            },
        }
    }

    /// The action is a move or a turn, and the cell it leads to is representable.
    pub open spec fn can_apply(self, action: Action) -> bool {
        &&& action.moves() || action.turns()
        &&& i32::MIN <= self.pos.x + action.delta().0 <= i32::MAX
        &&& i32::MIN <= self.pos.y + action.delta().1 <= i32::MAX
    }

    /// The pose after a move or a turn.
    pub fn apply_action(&self, action: Action) -> (r: PosAngle)
        requires
            self.can_apply(action),
        ensures
            r == self.after(action),
    {
        match action {
            Action::MoveUp => PosAngle::new(self.pos + PosDiff::new(0, 1), self.angle),
            Action::MoveDown => PosAngle::new(self.pos + PosDiff::new(0, -1), self.angle),
            Action::MoveLeft => PosAngle::new(self.pos + PosDiff::new(-1, 0), self.angle),
            Action::MoveRight => PosAngle::new(self.pos + PosDiff::new(1, 0), self.angle),
            Action::TurnClockWise => PosAngle::new(self.pos, self.angle.turn_clock_wise()),
            _ => PosAngle::new(self.pos, self.angle.turn_counter_clock_wise()),
        }
    }
}

} // verus!
