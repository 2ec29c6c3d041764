//! A puzzle: two lists of squares, those that an arena has to hold and those that it has to
//! leave out.

use crate::geometry::Pos;
use crate::task::{max_x_in, max_x_of, max_y_in, max_y_of, tour_text, ParseError, Task};
use crate::text::{push_symbol, split_on, split_ranges};
use vstd::prelude::*;
use vstd::string::{StringExecFns, StringSliceAdditionalSpecFns};

verus! {

/// A puzzle. The counters stand for the numbers of its first field.
#[derive(Default)]
pub struct Puzzle {
    pub b_num: u64,
    pub e_num: u64,
    pub t_size: u64,
    pub v_min: u64,
    pub v_max: u64,
    pub m_num: u64,
    pub f_num: u64,
    pub r_num: u64,
    pub c_num: u64,
    pub x_num: u64,
    pub i_sqs: Vec<Pos>,
    pub o_sqs: Vec<Pos>,
    pub max_x: i32,
    pub max_y: i32,
}

/// The reason, if any, for which `s` is no puzzle: it must have at least three fields with
/// `#` between them, of which the second and the third are lists of squares, not both empty.
pub open spec fn puzzle_error(s: Seq<u8>) -> Option<ParseError> {
    let f = split_on(s, 35);
    if f.len() < 3 {
        Some(ParseError::FieldCount)
    } else if tour_text(f[1]) is None || tour_text(f[2]) is None {
        Some(ParseError::Tour)
    } else {
        let all = tour_text(f[1])->0 + tour_text(f[2])->0;
        if all.len() == 0 {
            Some(ParseError::NoPoints)
        } else if max_x_of(all) >= i32::MAX || max_y_of(all) >= i32::MAX {
            Some(ParseError::Overflow)
        } else {
            None
        }
    }
}

/// The square `(x, y)` is one of `squares`.
pub open spec fn has_square(squares: Seq<Pos>, x: int, y: int) -> bool {
    exists|i: int| 0 <= i < squares.len() && (#[trigger] squares[i]).x == x && squares[i].y == y
}

fn holds_square(squares: &Vec<Pos>, x: usize, y: usize) -> (r: bool)
    ensures
        r == has_square(squares@, x as int, y as int),
{
    let n = squares.len();
    let mut i: usize = 0;
    while i < n
        invariant
            i <= n,
            n == squares@.len(),
            forall|j: int| 0 <= j < i ==> !((#[trigger] squares@[j]).x == x && squares@[j].y == y),
        decreases n - i,
    {
        let p = squares[i];
        if p.x >= 0 && p.y >= 0 && p.x as usize == x && p.y as usize == y {
            return true;
        }
        i += 1;
    }
    false
}

impl Puzzle {
    /// The character that the square `(x, y)` is drawn as: `x` where it has to be left out,
    /// else `o` where it has to be held, else a blank.
    pub open spec fn symbol(&self, x: int, y: int) -> char {
        if has_square(self.o_sqs@, x, y) {
            'x'
        } else if has_square(self.i_sqs@, x, y) {
            'o'
        } else {
            ' '
        }
    }

    /// The number of columns of the picture.
    pub open spec fn width(&self) -> int {
        if self.max_x < 0 {
            0
        } else {
            self.max_x as int
        }
    }

    /// The number of rows of the picture.
    pub open spec fn height(&self) -> int {
        if self.max_y < 0 {
            0
        } else {
            self.max_y as int
        }
    }

    /// The row `y` of the picture.
    pub open spec fn row_text(&self, y: int) -> Seq<char> {
        Seq::new(self.width() as nat, |x: int| self.symbol(x, y))
    }

    /// The top `k` rows of the picture, with line breaks between them.
    pub open spec fn rows_text(&self, k: int) -> Seq<char>
        decreases k,
    {
        if k <= 0 {
            Seq::empty()
        } else if k == 1 {
            self.row_text(self.height() - 1)
        } else {
            self.rows_text(k - 1) + seq!['\n'] + self.row_text(self.height() - k)
        }
    }

    /// Reads a puzzle. Of its first field, the numbers, nothing is kept; the extent is one
    /// more than the greatest coordinate of a square.
    pub fn parse(s: &str) -> (r: Result<Puzzle, ParseError>)
        ensures
            match r {
                Ok(p) => {
                    let f = split_on(s.spec_bytes(), 35);
                    &&& puzzle_error(s.spec_bytes()) is None
                    &&& tour_text(f[1]) == Some(p.i_sqs@)
                    &&& tour_text(f[2]) == Some(p.o_sqs@)
                    &&& p.max_x == max_x_of(p.i_sqs@ + p.o_sqs@) + 1
                    &&& p.max_y == max_y_of(p.i_sqs@ + p.o_sqs@) + 1
                    &&& p.b_num == 0 && p.e_num == 0 && p.t_size == 0 && p.v_min == 0 && p.v_max == 0
                    &&& p.m_num == 0 && p.f_num == 0 && p.r_num == 0 && p.c_num == 0 && p.x_num == 0
                },
                Err(e) => puzzle_error(s.spec_bytes()) == Some(e),
            },
    {
        let b = s.as_bytes();
        assert(b@.subrange(0, b@.len() as int) =~= b@);
        let f = split_ranges(b, 0, b.len(), 35);
        if f.len() < 3 {
            return Err(ParseError::FieldCount);
        }
        let ghost fields = split_on(b@, 35);
        assert(fields[1] == b@.subrange(f@[1].0 as int, f@[1].1 as int));
        assert(fields[2] == b@.subrange(f@[2].0 as int, f@[2].1 as int));
        let i_sqs = Task::parse_tour_in(b, f[1].0, f[1].1);
        let o_sqs = Task::parse_tour_in(b, f[2].0, f[2].1);
        let (i_sqs, o_sqs) = match (i_sqs, o_sqs) {
            (Some(i_sqs), Some(o_sqs)) => (i_sqs, o_sqs),
            _ => {
                return Err(ParseError::Tour);
            },
        };
        let mut all: Vec<Pos> = Vec::new();
        let mut k: usize = 0;
        while k < i_sqs.len()
            invariant
                k <= i_sqs@.len(),
                all@ == i_sqs@.take(k as int),
            decreases i_sqs@.len() - k,
        {
            all.push(i_sqs[k]);
            assert(all@ =~= i_sqs@.take(k + 1));
            k += 1;
        }
        assert(i_sqs@.take(k as int) =~= i_sqs@);
        let mut k: usize = 0;
        while k < o_sqs.len()
            invariant
                k <= o_sqs@.len(),
                all@ == i_sqs@ + o_sqs@.take(k as int),
            decreases o_sqs@.len() - k,
        {
            all.push(o_sqs[k]);
            assert(all@ =~= i_sqs@ + o_sqs@.take(k + 1));
            k += 1;
        }
        assert(o_sqs@.take(k as int) =~= o_sqs@);
        if all.len() == 0 {
            return Err(ParseError::NoPoints);
        }
        let mx = max_x_in(&all);
        let my = max_y_in(&all);
        if mx == i32::MAX || my == i32::MAX {
            return Err(ParseError::Overflow);
        }
        Ok(
            Puzzle {
                b_num: 0,
                e_num: 0,
                t_size: 0,
                v_min: 0,
                v_max: 0,
                m_num: 0,
                f_num: 0,
                r_num: 0,
                c_num: 0,
                x_num: 0,
                i_sqs,
                o_sqs,
                max_x: mx + 1,
                max_y: my + 1,
            },
        )
    }

    /// A picture of the puzzle, the top row first: `o` for a square to hold, `x` for a
    /// square to leave out.
    pub fn dump_map(&self) -> (s: String)
        ensures
            s@ == self.rows_text(self.height()),
    {
        let mut s = String::new();
        let w: usize = if self.max_x < 0 {
            0
        } else {
            self.max_x as usize
        };
        let h: usize = if self.max_y < 0 {
            0
        } else {
            self.max_y as usize
        };
        let mut k: usize = 0;
        while k < h
            invariant
                w == self.width(),
                h == self.height(),
                k <= h,
                s@ == self.rows_text(k as int),
            decreases h - k,
        {
            if k > 0 {
                proof {
                    reveal_strlit("\n");
                }
                s.append("\n");
            }
            let y = h - 1 - k;
            let ghost lead = s@;
            let mut x: usize = 0;
            while x < w
                invariant
                    w == self.width(),
                    h == self.height(),
                    y < h,
                    x <= w,
                    s@ == lead + self.row_text(y as int).take(x as int),
                decreases w - x,
            {
                let c = if holds_square(&self.o_sqs, x, y) {
                    'x'
                } else if holds_square(&self.i_sqs, x, y) {
                    'o'
                } else {
                    ' '
                };
                push_symbol(&mut s, c);
                assert(s@ =~= lead + self.row_text(y as int).take(x + 1));
                x += 1;
            }
            assert(self.row_text(y as int).take(w as int) =~= self.row_text(y as int));
            assert(s@ =~= self.rows_text(k + 1));
            k += 1;
        }
        s
    }
}

} // verus!
