//! Coordinates on a Hex board. The standard setup is a parallelogram: letters
//! `a`-`z` name columns from left to right and numbers 1-26 name rows from top
//! to bottom, so `(x, y) = (0, 0)` is the top left cell. Boards larger than
//! 26x26 are unsupported, because the letter encoding and the index arithmetic
//! assume that bound.

use vstd::prelude::*;

verus! {

/// A coordinate on a Hex board, such that (x, y) = (0, 0) is the top left and
/// (1, 0) is the hex immediately to the right of that hex.
#[derive(Copy, Clone, Debug, Eq, PartialEq, Hash, Structural)]
pub struct Coord {
    /// The x-axis, starting from the left column at 0.
    pub x: u8,
    /// The y-axis, starting from the top row at 0.
    pub y: u8,
}

impl Coord {
    /// Both components lie within the 26x26 grid that the coordinate system
    /// supports.
    pub open spec fn valid(self) -> bool {
        self.x <= 25 && self.y <= 25
    }

    /// Creates a new `Coord`, returning `None` if either x or y exceed 25.
    pub fn new(x: u8, y: u8) -> (r: Option<Coord>)
        ensures
            r is Some <==> x <= 25 && y <= 25,
            r is Some ==> r->Some_0 == (Coord { x, y }) && r->Some_0.valid(),
    {
        if x > 25 || y > 25 {
            Option::None
        } else {
            Option::Some(Coord { x, y })
        }
    }

    /// Gets the absolute difference between two u8s, in a way that avoids
    /// overflow.
    pub fn abs_sub(int1: u8, int2: u8) -> (r: u8)
        ensures
            r as int == abs_diff(int1 as int, int2 as int),
    {
        if int1 >= int2 {
            int1 - int2
        } else {
            int2 - int1
        }
    }

    /// The hex-grid distance between two coordinates: the number of steps in
    /// the grid needed to connect them. Embedding the plane into the 3-axis
    /// cube coordinate system (z = -x-y) turns it into half a Manhattan
    /// distance.
    pub open spec fn spec_distance(self, other: Coord) -> int {
        (abs_diff(self.x as int, other.x as int) + abs_diff(self.y as int, other.y as int)
            + abs_diff(self.x + self.y, other.x + other.y)) / 2
    }

    /// Gets the distance between two coordinates, defined as the number of
    /// steps in the grid needed to connect them. A distance of 0 means
    /// equality, and a distance of 1 means the two are neighboring.
    pub fn distance(self, other: Coord) -> (r: u8)
        requires
            self.valid(),
            other.valid(),
        ensures
            r as int == self.spec_distance(other),
    {
        (Coord::abs_sub(self.x, other.x) + Coord::abs_sub(self.y, other.y) + Coord::abs_sub(
            self.x + self.y,
            other.x + other.y,
        )) / 2
    }

    /// The two coordinates are equal or adjacent: no axis of the cube
    /// embedding differs by more than one step.
    pub open spec fn spec_is_neighbor(self, other: Coord) -> bool {
        abs_diff(self.x as int, other.x as int) <= 1 && abs_diff(self.y as int, other.y as int)
            <= 1 && abs_diff(self.x + self.y, other.x + other.y) <= 1
    }

    /// Returns true if the two hexes neighbor each other or equal each other,
    /// and false otherwise.
    pub fn is_neighbor(self, other: Coord) -> (r: bool)
        requires
            self.valid(),
            other.valid(),
        ensures
            r == self.spec_is_neighbor(other),
    {
        Coord::abs_sub(self.x, other.x) <= 1 && Coord::abs_sub(self.y, other.y) <= 1
            && Coord::abs_sub(self.x + self.y, other.x + other.y) <= 1
    }
}

impl Coord {
    /// The neighbors of this hex in clockwise order starting at the top left,
    /// restricted to positions that exist on an unbounded grid: cells on the
    /// first row or column have fewer than six neighbors. The six offsets for
    /// an interior cell, in order, are top (0,-1), top-right (+1,-1), right
    /// (+1,0), bottom-right (0,+1), bottom-left (-1,+1), left (-1,0).
    pub open spec fn spec_neighbors(self) -> Seq<Coord> {
        if self.x == 0 && self.y == 0 {
            seq![Coord { x: 1, y: 0 }, Coord { x: 0, y: 1 }]
        } else if self.x == 0 {
            seq![
                Coord { x: 0, y: (self.y - 1) as u8 },
                Coord { x: 1, y: (self.y - 1) as u8 },
                Coord { x: 1, y: self.y },
                Coord { x: 0, y: (self.y + 1) as u8 },
            ]
        } else if self.y == 0 {
            seq![
                Coord { x: (self.x + 1) as u8, y: 0 },
                Coord { x: self.x, y: 1 },
                Coord { x: (self.x - 1) as u8, y: 1 },
                Coord { x: (self.x - 1) as u8, y: 0 },
            ]
        } else {
            seq![
                Coord { x: self.x, y: (self.y - 1) as u8 },
                Coord { x: (self.x + 1) as u8, y: (self.y - 1) as u8 },
                Coord { x: (self.x + 1) as u8, y: self.y },
                Coord { x: self.x, y: (self.y + 1) as u8 },
                Coord { x: (self.x - 1) as u8, y: (self.y + 1) as u8 },
                Coord { x: (self.x - 1) as u8, y: self.y },
            ]
        }
    }

    /// Returns each of this hex's neighbors, clockwise from the top left. If
    /// this hex is on the first row or column, will return fewer than six
    /// coordinates.
    pub fn neighbors(self) -> (r: Vec<Coord>)
        requires
            self.valid(),
        ensures
            r@ == self.spec_neighbors(),
    {
        let mut v: Vec<Coord> = Vec::new();
        if self.x == 0 && self.y == 0 {
            v.push(Coord { x: 1, y: 0 });
            v.push(Coord { x: 0, y: 1 });
        } else if self.x == 0 {
            v.push(Coord { x: 0, y: self.y - 1 });
            v.push(Coord { x: 1, y: self.y - 1 });
            v.push(Coord { x: 1, y: self.y });
            v.push(Coord { x: 0, y: self.y + 1 });
        } else if self.y == 0 {
            v.push(Coord { x: self.x + 1, y: 0 });
            v.push(Coord { x: self.x, y: 1 });
            v.push(Coord { x: self.x - 1, y: 1 });
            v.push(Coord { x: self.x - 1, y: 0 });
        } else {
            v.push(Coord { x: self.x, y: self.y - 1 });
            v.push(Coord { x: self.x + 1, y: self.y - 1 });
            v.push(Coord { x: self.x + 1, y: self.y });
            v.push(Coord { x: self.x, y: self.y + 1 });
            v.push(Coord { x: self.x - 1, y: self.y + 1 });
            v.push(Coord { x: self.x - 1, y: self.y });
        }
        proof {
            assert(v@ =~= self.spec_neighbors());
        }
        v
    }
}

/// A cell's neighbor count depends only on where it sits relative to the grid
/// boundary: two neighbors at the origin, four on the rest of the first row or
/// column, six in the interior.
pub proof fn lemma_neighbor_count(p: Coord)
    requires
        p.valid(),
    ensures
        p.x == 0 && p.y == 0 ==> p.spec_neighbors().len() == 2,
        (p.x == 0 || p.y == 0) && !(p.x == 0 && p.y == 0) ==> p.spec_neighbors().len() == 4,
        p.x > 0 && p.y > 0 ==> p.spec_neighbors().len() == 6,
{
}

/// An error for parsing a `Coord` from its textual form.
#[derive(Clone, Debug, Eq, PartialEq)]
pub enum ParseCoordError {
    /// The string is too short, or its first character names no column.
    InvalidFormat,
    /// The numeric suffix is not a row number that the textual form produces.
    InvalidInt,
}

/// The column letters in order: `a` names column 0 through `z` naming column
/// 25.
pub open spec fn spec_alphabet() -> Seq<char> {
    seq![
        'a', 'b', 'c', 'd', 'e', 'f', 'g', 'h', 'i', 'j', 'k', 'l', 'm', 'n', 'o', 'p', 'q', 'r',
        's', 't', 'u', 'v', 'w', 'x', 'y', 'z',
    ]
}

/// The decimal digit characters in order.
pub open spec fn spec_digits() -> Seq<char> {
    seq!['0', '1', '2', '3', '4', '5', '6', '7', '8', '9']
}

/// The decimal text of a row number between 1 and 26: one digit below ten,
/// two digits from ten on.
pub open spec fn spec_row_text(row: int) -> Seq<char> {
    if row < 10 {
        seq![spec_digits()[row]]
    } else {
        seq![spec_digits()[row / 10], spec_digits()[row % 10]]
    }
}

/// The column this character names when read case-insensitively: `a` or `A`
/// name 0 through `z` or `Z` naming 25; -1 for every other character.
pub open spec fn spec_col_of(c: char) -> int {
    if 'a' <= c && c <= 'z' {
        c as int - 'a' as int
    } else if 'A' <= c && c <= 'Z' {
        c as int - 'A' as int
    } else {
        -1
    }
}

/// The value of this character as a decimal digit, or -1 if it is none.
pub open spec fn spec_digit_of(c: char) -> int {
    if '0' <= c && c <= '9' {
        c as int - '0' as int
    } else {
        -1
    }
}

/// Every character of the sequence is a decimal digit.
pub open spec fn spec_all_digits(t: Seq<char>) -> bool {
    forall|i: int| 0 <= i < t.len() ==> spec_digit_of(#[trigger] t[i]) >= 0
}

/// The number the digit sequence denotes, read left to right.
pub open spec fn spec_num_val(t: Seq<char>) -> int
    decreases t.len(),
{
    if t.len() == 0 {
        0
    } else {
        spec_num_val(t.drop_last()) * 10 + spec_digit_of(t.last())
    }
}

impl Coord {
    /// The textual form of this coordinate: the column letter followed by the
    /// 1-based row number.
    pub open spec fn spec_text(self) -> Seq<char> {
        seq![spec_alphabet()[self.x as int]] + spec_row_text(self.y + 1)
    }

    /// Encodes this coordinate as its column letter followed by its 1-based
    /// row number, so that (0, 0) reads "a1" and (25, 25) reads "z26".
    pub fn to_text(&self) -> (r: String)
        requires
            self.valid(),
        ensures
            r@ == self.spec_text(),
    {
        let alpha: &str = "abcdefghijklmnopqrstuvwxyz";
        let digits: &str = "0123456789";
        proof {
            reveal_strlit("abcdefghijklmnopqrstuvwxyz");
            reveal_strlit("0123456789");
            assert(alpha@ =~= spec_alphabet());
            assert(digits@ =~= spec_digits());
        }
        let x: usize = self.x as usize;
        let mut r = String::new();
        r.append(alpha.substring_ascii(x, x + 1));
        let row: usize = self.y as usize + 1;
        if row < 10 {
            r.append(digits.substring_ascii(row, row + 1));
        } else {
            r.append(digits.substring_ascii(row / 10, row / 10 + 1));
            r.append(digits.substring_ascii(row % 10, row % 10 + 1));
        }
        proof {
            assert(r@ =~= self.spec_text());
        }
        r
    }

    /// Decodes the textual form produced by `to_text`, case-insensitive in
    /// the column letter. Fails with `InvalidFormat` if the string is shorter
    /// than two characters or its first character names no column, and with
    /// `InvalidInt` if the rest is not a row number between 1 and 26 in
    /// decimal digits.
    pub fn from_text(s: &str) -> (r: Result<Coord, ParseCoordError>)
        ensures
            r is Ok <==> s@.len() >= 2 && spec_col_of(s@[0]) >= 0 && spec_all_digits(
                s@.skip(1),
            ) && 1 <= spec_num_val(s@.skip(1)) <= 26,
            r is Ok ==> r->Ok_0.valid() && r->Ok_0.x as int == spec_col_of(s@[0])
                && r->Ok_0.y as int == spec_num_val(s@.skip(1)) - 1,
            r == Err::<Coord, ParseCoordError>(ParseCoordError::InvalidFormat) <==> s@.len() < 2
                || spec_col_of(s@[0]) < 0,
    {
        let n = s.unicode_len();
        if n < 2 {
            return Err(ParseCoordError::InvalidFormat);
        }
        let c0 = s.get_char(0);
        let col: u32 = if 'a' <= c0 && c0 <= 'z' {
            c0 as u32 - 'a' as u32
        } else if 'A' <= c0 && c0 <= 'Z' {
            c0 as u32 - 'A' as u32
        } else {
            return Err(ParseCoordError::InvalidFormat);
        };
        let mut val: u32 = 0;
        let mut all_digits = true;
        let mut i: usize = 1;
        while i < n
            invariant
                1 <= i <= n,
                n == s@.len(),
                val <= 27,
                all_digits == spec_all_digits(s@.subrange(1, i as int)),
                all_digits ==> val == (if spec_num_val(s@.subrange(1, i as int)) <= 26 {
                    spec_num_val(s@.subrange(1, i as int))
                } else {
                    27int
                }),
            decreases n - i,
        {
            let c = s.get_char(i);
            proof {
                assert(s@.subrange(1, i + 1).drop_last() =~= s@.subrange(1, i as int));
                assert(s@.subrange(1, i + 1).last() == s@[i as int]);
            }
            if '0' <= c && c <= '9' {
                let d: u32 = c as u32 - '0' as u32;
                val = val * 10 + d;
                if val > 27 {
                    val = 27;
                }
            } else {
                all_digits = false;
            }
            i += 1;
        }
        proof {
            assert(s@.subrange(1, n as int) =~= s@.skip(1));
        }
        if !all_digits || val == 0 || val > 26 {
            return Err(ParseCoordError::InvalidInt);
        }
        Ok(Coord { x: col as u8, y: (val - 1) as u8 })
    }
}

/// The absolute difference of two integers.
pub open spec fn abs_diff(a: int, b: int) -> int {
    if a >= b {
        a - b
    } else {
        b - a
    }
}

/// Distance is a faithful notion of closeness: it is zero exactly on equal
/// coordinates, and one exactly on distinct adjacent coordinates.
pub proof fn lemma_distance_zero_one(a: Coord, b: Coord)
    requires
        a.valid(),
        b.valid(),
    ensures
        a.spec_distance(b) == 0 <==> a == b,
        a.spec_distance(b) == 1 <==> a.spec_is_neighbor(b) && a != b,
{
}

} // verus!
