//! The description of an arena: boundary, start cell, obstacles and ability pickups.

use crate::counting::rows_of;
use crate::geometry::Pos;
use crate::text::{int_text, parse_int, pieces, split_on, split_ranges};
use vstd::prelude::*;
use vstd::string::{StringExecFns, StringSliceAdditionalSpecFns};

verus! {

/// The kinds of ability a pickup can grant.
#[derive(Hash, Copy, Clone, PartialEq, Eq, Structural, Debug, PartialOrd, Ord)]
pub enum BoosterKind {
    ExtendManipulator,
    FastWheels,
    Drill,
    Mysterious,
    Teleport,
    Cloning,
}

/// Why a text is no arena description.
#[derive(Copy, Clone, PartialEq, Eq, Structural, Debug)]
pub enum ParseError {
    /// The text has too few or too many fields.
    FieldCount,
    /// A tour is no list of positions.
    Tour,
    /// A position is not of the form `(x,y)`.
    Position,
    /// The obstacles are no list of tours.
    Obstacles,
    /// The pickups are no list of a kind letter and a position each.
    Boosters,
    /// The text names no position at all.
    NoPoints,
    /// A coordinate leaves the range of the machine's integers.
    Overflow,
}

impl BoosterKind {
    /// The kind that the letter `c` stands for.
    pub open spec fn of_char(c: char) -> Option<BoosterKind> {
        if c == 'B' {
            Some(BoosterKind::ExtendManipulator)
        } else if c == 'F' {
            Some(BoosterKind::FastWheels)
        } else if c == 'L' {
            Some(BoosterKind::Drill)
        } else if c == 'X' {
            Some(BoosterKind::Mysterious)
        } else if c == 'R' {
            Some(BoosterKind::Teleport)
        } else if c == 'C' {
            Some(BoosterKind::Cloning)
        } else {
            None
        }
    }

    /// The letter that stands for the kind.
    pub open spec fn letter(self) -> char {
        match self {
            BoosterKind::ExtendManipulator => 'B',
            BoosterKind::FastWheels => 'F',
            BoosterKind::Drill => 'L',
            BoosterKind::Mysterious => 'X',
            BoosterKind::Teleport => 'R',
            BoosterKind::Cloning => 'C',
        }
    }

    /// The kind that the letter `c` stands for.
    pub fn from_char(c: char) -> (r: Option<BoosterKind>)
        ensures
            r == BoosterKind::of_char(c),
    {
        if c == 'B' {
            Some(BoosterKind::ExtendManipulator)
        } else if c == 'F' {
            Some(BoosterKind::FastWheels)
        } else if c == 'L' {
            Some(BoosterKind::Drill)
        } else if c == 'X' {
            Some(BoosterKind::Mysterious)
        } else if c == 'R' {
            Some(BoosterKind::Teleport)
        } else if c == 'C' {
            Some(BoosterKind::Cloning)
        } else {
            None
        }
    }

    /// The letter that stands for the kind.
    pub fn to_char(&self) -> (c: char)
        ensures
            c == self.letter(),
            BoosterKind::of_char(c) == Some(*self),
    {
        match self {
            BoosterKind::ExtendManipulator => 'B',
            BoosterKind::FastWheels => 'F',
            BoosterKind::Drill => 'L',
            BoosterKind::Mysterious => 'X',
            BoosterKind::Teleport => 'R',
            BoosterKind::Cloning => 'C',
        }
    }

    /// The letter of the kind on a line of its own.
    pub fn to_string(&self) -> (s: String)
        ensures
            s@ == seq![self.letter(), '\n'],
    {
        proof {
            reveal_strlit("B\n");
            reveal_strlit("F\n");
            reveal_strlit("L\n");
            reveal_strlit("X\n");
            reveal_strlit("R\n");
            reveal_strlit("C\n");
        }
        let text = match self {
            BoosterKind::ExtendManipulator => "B\n",
            BoosterKind::FastWheels => "F\n",
            BoosterKind::Drill => "L\n",
            BoosterKind::Mysterious => "X\n",
            BoosterKind::Teleport => "R\n",
            BoosterKind::Cloning => "C\n",
        };
        let s = String::from_str(text);
        assert(s@ =~= seq![self.letter(), '\n']);
        s
    }
}

/// An ability pickup lying on a cell.
#[derive(Hash, Copy, Clone, PartialEq, Eq, Structural, Debug, PartialOrd, Ord)]
pub struct Booster {
    pub pos: Pos,
    pub kind: BoosterKind,
}

/// A parsed arena description.
pub struct Task {
    pub id: u64,
    pub map: Vec<Pos>,
    pub bot: Pos,
    pub obstacles: Vec<Vec<Pos>>,
    pub boosters: Vec<Booster>,
}

/// `m` is the greatest x coordinate among the corners of `map`.
pub open spec fn is_max_x(map: Seq<Pos>, m: int) -> bool {
    &&& forall|i: int| 0 <= i < map.len() ==> (#[trigger] map[i]).x <= m
    &&& exists|i: int| 0 <= i < map.len() && (#[trigger] map[i]).x == m
}

/// `m` is the greatest y coordinate among the corners of `map`.
pub open spec fn is_max_y(map: Seq<Pos>, m: int) -> bool {
    &&& forall|i: int| 0 <= i < map.len() ==> (#[trigger] map[i]).y <= m
    &&& exists|i: int| 0 <= i < map.len() && (#[trigger] map[i]).y == m
}

/// The greatest x coordinate of a tour that has a corner.
pub open spec fn max_x_of(map: Seq<Pos>) -> int {
    choose|m: int| is_max_x(map, m)
}

/// The greatest y coordinate of a tour that has a corner.
pub open spec fn max_y_of(map: Seq<Pos>) -> int {
    choose|m: int| is_max_y(map, m)
}

/// A tour has at most one greatest coordinate on each axis.
pub proof fn lemma_max_unique(map: Seq<Pos>, m: int)
    ensures
        is_max_x(map, m) ==> max_x_of(map) == m,
        is_max_y(map, m) ==> max_y_of(map) == m,
{
    if is_max_x(map, m) {
        let c = max_x_of(map);
        assert(is_max_x(map, c));
    }
    if is_max_y(map, m) {
        let c = max_y_of(map);
        assert(is_max_y(map, c));
    }
}

/// The position that the two fields of `(x,y)` around its comma stand for.
pub open spec fn pos_fields(a: Seq<u8>, b: Seq<u8>) -> Option<Pos> {
    if a.len() >= 1 && a[0] == 40 && b.len() >= 1 && b.last() == 41 {
        match (int_text(a.skip(1)), int_text(b.drop_last())) {
            (Some(x), Some(y)) => Some(Pos { x: x as i32, y: y as i32 }),
            _ => None,
        }
    } else {
        None
    }
}

/// The position that `s` is the text of: `(x,y)` with two decimal numbers.
pub open spec fn pos_text(s: Seq<u8>) -> Option<Pos> {
    let f = split_on(s, 44);
    if f.len() == 2 {
        pos_fields(f[0], f[1])
    } else {
        None
    }
}

/// The `k`-th position among the fields `f` of a tour split at its commas.
pub open spec fn pair_at(f: Seq<Seq<u8>>, k: int) -> Option<Pos> {
    pos_fields(f[2 * k], f[2 * k + 1])
}

/// The tour that `s` is the text of: positions with commas between them. The empty text is
/// the tour without corners.
pub open spec fn tour_text(s: Seq<u8>) -> Option<Seq<Pos>> {
    let f = split_on(s, 44);
    if s.len() == 0 {
        Some(Seq::empty())
    } else if f.len() % 2 == 0 && (forall|k: int| 0 <= k < f.len() / 2 ==> (#[trigger] pair_at(f, k)) is Some) {
        Some(Seq::new((f.len() / 2) as nat, |k: int| pair_at(f, k)->0))
    } else {
        None
    }
}

/// The tours that `s` is the text of, with `;` between them. The empty text is no tour at
/// all.
pub open spec fn obstacles_text(s: Seq<u8>) -> Option<Seq<Seq<Pos>>> {
    let f = split_on(s, 59);
    if s.len() == 0 {
        Some(Seq::empty())
    } else if forall|k: int| 0 <= k < f.len() ==> tour_text(#[trigger] f[k]) is Some {
        Some(Seq::new(f.len(), |k: int| tour_text(f[k])->0))
    } else {
        None
    }
}

/// The pickup that `s` is the text of: the letter of its kind, then its position.
pub open spec fn booster_text(s: Seq<u8>) -> Option<Booster> {
    if s.len() >= 1 {
        match (BoosterKind::of_char(s[0] as char), pos_text(s.skip(1))) {
            (Some(kind), Some(pos)) => Some(Booster { pos, kind }),
            _ => None,
        }
    } else {
        None
    }
}

/// The pickups that `s` is the text of, with `;` between them. The empty text is no pickup
/// at all.
pub open spec fn boosters_text(s: Seq<u8>) -> Option<Seq<Booster>> {
    let f = split_on(s, 59);
    if s.len() == 0 {
        Some(Seq::empty())
    } else if forall|k: int| 0 <= k < f.len() ==> booster_text(#[trigger] f[k]) is Some {
        Some(Seq::new(f.len(), |k: int| booster_text(f[k])->0))
    } else {
        None
    }
}

/// The reason, if any, for which `s` is no arena description: it must be four fields with
/// `#` between them, the boundary, the start cell, the obstacles and the pickups.
pub open spec fn task_error(s: Seq<u8>) -> Option<ParseError> {
    let f = split_on(s, 35);
    if f.len() != 4 {
        Some(ParseError::FieldCount)
    } else if tour_text(f[0]) is None {
        Some(ParseError::Tour)
    } else if pos_text(f[1]) is None {
        Some(ParseError::Position)
    } else if obstacles_text(f[2]) is None {
        Some(ParseError::Obstacles)
    } else if boosters_text(f[3]) is None {
        Some(ParseError::Boosters)
    } else {
        None
    }
}

fn parse_pos_fields(b: &[u8], a: (usize, usize), c: (usize, usize)) -> (r: Option<Pos>)
    requires
        a.0 <= a.1 <= b@.len(),
        c.0 <= c.1 <= b@.len(),
    ensures
        r == pos_fields(b@.subrange(a.0 as int, a.1 as int), b@.subrange(c.0 as int, c.1 as int)),
{
    let ghost fa = b@.subrange(a.0 as int, a.1 as int);
    let ghost fc = b@.subrange(c.0 as int, c.1 as int);
    if a.0 < a.1 && c.0 < c.1 {
        assert(fa[0] == b@[a.0 as int]);
        assert(fc.last() == b@[c.1 - 1]);
        if b[a.0] == 40 && b[c.1 - 1] == 41 {
            assert(fa.skip(1) =~= b@.subrange(a.0 + 1, a.1 as int));
            assert(fc.drop_last() =~= b@.subrange(c.0 as int, c.1 - 1));
            let x = parse_int(b, a.0 + 1, a.1);
            let y = parse_int(b, c.0, c.1 - 1);
            match (x, y) {
                (Some(x), Some(y)) => Some(Pos { x, y }),
                _ => None,
            }
        } else {
            None
        }
    } else {
        None
    }
}

fn parse_pos_range(b: &[u8], lo: usize, hi: usize) -> (r: Option<Pos>)
    requires
        lo <= hi <= b@.len(),
    ensures
        r == pos_text(b@.subrange(lo as int, hi as int)),
{
    let f = split_ranges(b, lo, hi, 44);
    if f.len() == 2 {
        assert(pieces(b@, f@)[0] == b@.subrange(f@[0].0 as int, f@[0].1 as int));
        assert(pieces(b@, f@)[1] == b@.subrange(f@[1].0 as int, f@[1].1 as int));
        parse_pos_fields(b, f[0], f[1])
    } else {
        None
    }
}

fn parse_tour_range(b: &[u8], lo: usize, hi: usize) -> (r: Option<Vec<Pos>>)
    requires
        lo <= hi <= b@.len(),
    ensures
        match r {
            Some(v) => tour_text(b@.subrange(lo as int, hi as int)) == Some(v@),
            None => tour_text(b@.subrange(lo as int, hi as int)) is None,
        },
{
    let mut v: Vec<Pos> = Vec::new();
    if lo == hi {
        return Some(v);
    }
    let f = split_ranges(b, lo, hi, 44);
    let ghost fields = split_on(b@.subrange(lo as int, hi as int), 44);
    let n = f.len();
    if n % 2 != 0 {
        return None;
    }
    let half = n / 2;
    let mut k: usize = 0;
    while k < half
        invariant
            k <= half,
            half * 2 == n,
            n == f@.len(),
            fields == split_on(b@.subrange(lo as int, hi as int), 44),
            lo < hi <= b@.len(),
            fields == pieces(b@, f@),
            forall|j: int| 0 <= j < f@.len() ==> (#[trigger] f@[j]).0 <= f@[j].1 <= b@.len(),
            v@.len() == k,
            forall|j: int| 0 <= j < k ==> #[trigger] pair_at(fields, j) == Some(v@[j]),
        decreases half - k,
    {
        let a = f[2 * k];
        let c = f[2 * k + 1];
        assert(fields[2 * k] == b@.subrange(a.0 as int, a.1 as int));
        assert(fields[2 * k + 1] == b@.subrange(c.0 as int, c.1 as int));
        match parse_pos_fields(b, a, c) {
            Some(p) => {
                v.push(p);
            },
            None => {
                assert(pair_at(fields, k as int) is None);
                return None;
            },
        }
        k += 1;
    }
    assert(v@ =~= Seq::new((fields.len() / 2) as nat, |k: int| pair_at(fields, k)->0));
    Some(v)
}

fn parse_obstacles_range(b: &[u8], lo: usize, hi: usize) -> (r: Option<Vec<Vec<Pos>>>)
    requires
        lo <= hi <= b@.len(),
    ensures
        match r {
            Some(v) => obstacles_text(b@.subrange(lo as int, hi as int)) == Some(rows_of(v@)),
            None => obstacles_text(b@.subrange(lo as int, hi as int)) is None,
        },
{
    let mut v: Vec<Vec<Pos>> = Vec::new();
    if lo == hi {
        assert(rows_of(v@) =~= Seq::<Seq<Pos>>::empty());
        return Some(v);
    }
    let f = split_ranges(b, lo, hi, 59);
    let ghost fields = split_on(b@.subrange(lo as int, hi as int), 59);
    let n = f.len();
    let mut k: usize = 0;
    while k < n
        invariant
            k <= n,
            n == f@.len(),
            fields == split_on(b@.subrange(lo as int, hi as int), 59),
            lo < hi <= b@.len(),
            fields == pieces(b@, f@),
            forall|j: int| 0 <= j < f@.len() ==> (#[trigger] f@[j]).0 <= f@[j].1 <= b@.len(),
            v@.len() == k,
            forall|j: int| 0 <= j < k ==> tour_text(#[trigger] fields[j]) == Some(v@[j]@),
        decreases n - k,
    {
        let a = f[k];
        assert(fields[k as int] == b@.subrange(a.0 as int, a.1 as int));
        match parse_tour_range(b, a.0, a.1) {
            Some(t) => {
                v.push(t);
            },
            None => {
                return None;
            },
        }
        k += 1;
    }
    assert(rows_of(v@) =~= Seq::new(fields.len(), |k: int| tour_text(fields[k])->0));
    Some(v)
}

fn parse_booster_range(b: &[u8], lo: usize, hi: usize) -> (r: Option<Booster>)
    requires
        lo <= hi <= b@.len(),
    ensures
        r == booster_text(b@.subrange(lo as int, hi as int)),
{
    let ghost s = b@.subrange(lo as int, hi as int);
    if lo == hi {
        return None;
    }
    assert(s[0] == b@[lo as int]);
    assert(s.skip(1) =~= b@.subrange(lo + 1, hi as int));
    let kind = BoosterKind::from_char(b[lo] as char);
    let pos = parse_pos_range(b, lo + 1, hi);
    match (kind, pos) {
        (Some(kind), Some(pos)) => Some(Booster { pos, kind }),
        _ => None,
    }
}

fn parse_boosters_range(b: &[u8], lo: usize, hi: usize) -> (r: Option<Vec<Booster>>)
    requires
        lo <= hi <= b@.len(),
    ensures
        match r {
            Some(v) => boosters_text(b@.subrange(lo as int, hi as int)) == Some(v@),
            None => boosters_text(b@.subrange(lo as int, hi as int)) is None,
        },
{
    let mut v: Vec<Booster> = Vec::new();
    if lo == hi {
        return Some(v);
    }
    let f = split_ranges(b, lo, hi, 59);
    let ghost fields = split_on(b@.subrange(lo as int, hi as int), 59);
    let n = f.len();
    let mut k: usize = 0;
    while k < n
        invariant
            k <= n,
            n == f@.len(),
            fields == split_on(b@.subrange(lo as int, hi as int), 59),
            lo < hi <= b@.len(),
            fields == pieces(b@, f@),
            forall|j: int| 0 <= j < f@.len() ==> (#[trigger] f@[j]).0 <= f@[j].1 <= b@.len(),
            v@.len() == k,
            forall|j: int| 0 <= j < k ==> booster_text(#[trigger] fields[j]) == Some(v@[j]),
        decreases n - k,
    {
        let a = f[k];
        assert(fields[k as int] == b@.subrange(a.0 as int, a.1 as int));
        match parse_booster_range(b, a.0, a.1) {
            Some(t) => {
                v.push(t);
            },
            None => {
                return None;
            },
        }
        k += 1;
    }
    assert(v@ =~= Seq::new(fields.len(), |k: int| booster_text(fields[k])->0));
    Some(v)
}

impl Task {
    /// Reads the bytes of `b` from `lo` to `hi` as a tour.
    pub fn parse_tour_in(b: &[u8], lo: usize, hi: usize) -> (r: Option<Vec<Pos>>)
        requires
            lo <= hi <= b@.len(),
        ensures
            match r {
                Some(v) => tour_text(b@.subrange(lo as int, hi as int)) == Some(v@),
                None => tour_text(b@.subrange(lo as int, hi as int)) is None,
            },
    {
        parse_tour_range(b, lo, hi)
    }

    /// Reads a tour: positions with commas between them.
    pub fn parse_tour(s: &str) -> (r: Result<Vec<Pos>, ParseError>)
        ensures
            match r {
                Ok(v) => tour_text(s.spec_bytes()) == Some(v@),
                Err(e) => e == ParseError::Tour && tour_text(s.spec_bytes()) is None,
            },
    {
        let b = s.as_bytes();
        assert(b@.subrange(0, b@.len() as int) =~= b@);
        match parse_tour_range(b, 0, b.len()) {
            Some(v) => Ok(v),
            None => Err(ParseError::Tour),
        }
    }

    /// Reads a position: `(x,y)`.
    pub fn parse_pos(s: &str) -> (r: Result<Pos, ParseError>)
        ensures
            match r {
                Ok(p) => pos_text(s.spec_bytes()) == Some(p),
                Err(e) => e == ParseError::Position && pos_text(s.spec_bytes()) is None,
            },
    {
        let b = s.as_bytes();
        assert(b@.subrange(0, b@.len() as int) =~= b@);
        match parse_pos_range(b, 0, b.len()) {
            Some(p) => Ok(p),
            None => Err(ParseError::Position),
        }
    }

    /// Reads the obstacles: tours with `;` between them.
    pub fn parse_obstacles(s: &str) -> (r: Result<Vec<Vec<Pos>>, ParseError>)
        ensures
            match r {
                Ok(v) => obstacles_text(s.spec_bytes()) == Some(rows_of(v@)),
                Err(e) => e == ParseError::Obstacles && obstacles_text(s.spec_bytes()) is None,
            },
    {
        let b = s.as_bytes();
        assert(b@.subrange(0, b@.len() as int) =~= b@);
        match parse_obstacles_range(b, 0, b.len()) {
            Some(v) => Ok(v),
            None => Err(ParseError::Obstacles),
        }
    }

    /// Reads a pickup: the letter of its kind, then its position.
    pub fn parse_booster(s: &str) -> (r: Result<Booster, ParseError>)
        ensures
            match r {
                Ok(v) => booster_text(s.spec_bytes()) == Some(v),
                Err(e) => e == ParseError::Boosters && booster_text(s.spec_bytes()) is None,
            },
    {
        let b = s.as_bytes();
        assert(b@.subrange(0, b@.len() as int) =~= b@);
        match parse_booster_range(b, 0, b.len()) {
            Some(v) => Ok(v),
            None => Err(ParseError::Boosters),
        }
    }

    /// Reads the pickups, with `;` between them.
    pub fn parse_boosters(s: &str) -> (r: Result<Vec<Booster>, ParseError>)
        ensures
            match r {
                Ok(v) => boosters_text(s.spec_bytes()) == Some(v@),
                Err(e) => e == ParseError::Boosters && boosters_text(s.spec_bytes()) is None,
            },
    {
        let b = s.as_bytes();
        assert(b@.subrange(0, b@.len() as int) =~= b@);
        match parse_boosters_range(b, 0, b.len()) {
            Some(v) => Ok(v),
            None => Err(ParseError::Boosters),
        }
    }

    /// Reads the description of the arena `id`: boundary, start cell, obstacles and pickups,
    /// with `#` between them.
    pub fn parse(id: u64, s: &str) -> (r: Result<Task, ParseError>)
        ensures
            match r {
                Ok(task) => {
                    let f = split_on(s.spec_bytes(), 35);
                    &&& task_error(s.spec_bytes()) is None
                    &&& task.id == id
                    &&& tour_text(f[0]) == Some(task.map@)
                    &&& pos_text(f[1]) == Some(task.bot)
                    &&& obstacles_text(f[2]) == Some(rows_of(task.obstacles@))
                    &&& boosters_text(f[3]) == Some(task.boosters@)
                },
                Err(e) => task_error(s.spec_bytes()) == Some(e),
            },
    {
        let b = s.as_bytes();
        assert(b@.subrange(0, b@.len() as int) =~= b@);
        let f = split_ranges(b, 0, b.len(), 35);
        if f.len() != 4 {
            return Err(ParseError::FieldCount);
        }
        let ghost fields = split_on(b@, 35);
        assert(fields[0] == b@.subrange(f@[0].0 as int, f@[0].1 as int));
        assert(fields[1] == b@.subrange(f@[1].0 as int, f@[1].1 as int));
        assert(fields[2] == b@.subrange(f@[2].0 as int, f@[2].1 as int));
        assert(fields[3] == b@.subrange(f@[3].0 as int, f@[3].1 as int));
        let map = match parse_tour_range(b, f[0].0, f[0].1) {
            Some(v) => v,
            None => {
                return Err(ParseError::Tour);
            },
        };
        let bot = match parse_pos_range(b, f[1].0, f[1].1) {
            Some(v) => v,
            None => {
                return Err(ParseError::Position);
            },
        };
        let obstacles = match parse_obstacles_range(b, f[2].0, f[2].1) {
            Some(v) => v,
            None => {
                return Err(ParseError::Obstacles);
            },
        };
        let boosters = match parse_boosters_range(b, f[3].0, f[3].1) {
            Some(v) => v,
            None => {
                return Err(ParseError::Boosters);
            },
        };
        Ok(Task { id, map, bot, obstacles, boosters })
    }

    /// The width of the arena: the greatest x coordinate of the boundary.
    pub fn max_x(&self) -> (r: i32)
        requires
            self.map@.len() > 0,
        ensures
            is_max_x(self.map@, r as int),
            r == max_x_of(self.map@),
    {
        max_x_in(&self.map)
    }

    /// The height of the arena: the greatest y coordinate of the boundary.
    pub fn max_y(&self) -> (r: i32)
        requires
            self.map@.len() > 0,
        ensures
            is_max_y(self.map@, r as int),
            r == max_y_of(self.map@),
    {
        max_y_in(&self.map)
    }
}

/// The greatest x coordinate among the positions of `v`.
pub fn max_x_in(v: &Vec<Pos>) -> (r: i32)
    requires
        v@.len() > 0,
    ensures
        is_max_x(v@, r as int),
        r == max_x_of(v@),
{
    let mut best: i32 = v[0].x;
    let mut i: usize = 1;
    assert(v@.take(1)[0].x == best);
    while i < v.len()
        invariant
            1 <= i <= v@.len(),
            is_max_x(v@.take(i as int), best as int),
        decreases v@.len() - i,
    {
        let ghost w = choose|k: int| 0 <= k < i && (#[trigger] v@.take(i as int)[k]).x == best;
        if v[i].x > best {
            best = v[i].x;
        }
        i += 1;
        proof {
            let t = v@.take(i as int);
            assert(t[w] == v@.take(i - 1)[w]);
            assert(t[i - 1] == v@[i - 1]);
            assert forall|k: int| 0 <= k < t.len() implies (#[trigger] t[k]).x <= best by {
                if k < i - 1 {
                    assert(t[k] == v@.take(i - 1)[k]);
                }
            }
        }
    }
    proof {
        assert(v@.take(i as int) =~= v@);
        lemma_max_unique(v@, best as int);
    }
    best
}

/// The greatest y coordinate among the positions of `v`.
pub fn max_y_in(v: &Vec<Pos>) -> (r: i32)
    requires
        v@.len() > 0,
    ensures
        is_max_y(v@, r as int),
        r == max_y_of(v@),
{
    let mut best: i32 = v[0].y;
    let mut i: usize = 1;
    assert(v@.take(1)[0].y == best);
    while i < v.len()
        invariant
            1 <= i <= v@.len(),
            is_max_y(v@.take(i as int), best as int),
        decreases v@.len() - i,
    {
        let ghost w = choose|k: int| 0 <= k < i && (#[trigger] v@.take(i as int)[k]).y == best;
        if v[i].y > best {
            best = v[i].y;
        }
        i += 1;
        proof {
            let t = v@.take(i as int);
            assert(t[w] == v@.take(i - 1)[w]);
            assert(t[i - 1] == v@[i - 1]);
            assert forall|k: int| 0 <= k < t.len() implies (#[trigger] t[k]).y <= best by {
                if k < i - 1 {
                    assert(t[k] == v@.take(i - 1)[k]);
                }
            }
        }
    }
    proof {
        assert(v@.take(i as int) =~= v@);
        lemma_max_unique(v@, best as int);
    }
    best
}

} // verus!
