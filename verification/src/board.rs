//! A Hex board of a given size, with pieces placed. The maximum size is 26,
//! due to the limitations of the standard Hex coordinate system.
//!
//! Under the hood, a union-find forest per player keeps track of the game
//! status efficiently. Each forest ranges over a padded index space: the board
//! enlarged by one "virtual stone" row or column on every side, so that
//! edge-to-edge connectivity reduces to one find on two border nodes instead
//! of a scan of the whole edge.

use vstd::prelude::*;

use petgraph::unionfind::UnionFind;

use crate::coord::Coord;
use crate::forest::{uf_find, uf_len, uf_new, uf_roots, uf_union};

verus! {

/// One of the two possible colors in Hex.
#[derive(Copy, Clone, Debug, Eq, PartialEq, Hash, Structural)]
pub enum Color {
    /// The left-right player that goes first.
    Black,
    /// The top-bottom player that goes second.
    White,
}

/// A simple descriptor of the possible values at a Hex tile: black piece,
/// white piece, or empty.
#[derive(Copy, Clone, Debug, Eq, PartialEq, Hash, Structural)]
pub enum HexCell {
    /// A Black piece.
    Black,
    /// A White piece.
    White,
    /// An empty cell.
    Empty,
}

/// A simple descriptor of the game status: ongoing, black victory, or white
/// victory.
#[derive(Copy, Clone, Debug, Eq, PartialEq, Hash, Structural)]
pub enum GameStatus {
    /// Black wins.
    BlackWin,
    /// White wins.
    WhiteWin,
    /// The game does not yet have a winner.
    Ongoing,
}

/// The cell value that a stone of the given color produces.
pub open spec fn cell_of(color: Color) -> HexCell {
    match color {
        Color::Black => HexCell::Black,
        Color::White => HexCell::White,
    }
}

/// The padded linear index of grid position (x, y) on a board of edge
/// `size`: the grid is shifted down and right by one, because row 0, column
/// 0, row size+1 and column size+1 hold the virtual border stones.
pub open spec fn spec_to_num(size: int, x: int, y: int) -> int {
    (y + 1) * (size + 2) + x + 1
}

/// The x component of the grid position that the padded index `n` maps back
/// to. Meaningless for indices on the border itself.
pub open spec fn spec_num_x(size: int, n: int) -> int {
    n % (size + 2) - 1
}

/// The y component of the grid position that the padded index `n` maps back
/// to. Meaningless for indices on the border itself.
pub open spec fn spec_num_y(size: int, n: int) -> int {
    n / (size + 2) - 1
}

/// The padded index `n` lies on the real grid, not on the virtual border.
pub open spec fn spec_real_num(size: int, n: int) -> bool {
    &&& 0 <= n
    &&& 1 <= n % (size + 2) <= size
    &&& 1 <= n / (size + 2) <= size
}

/// The six padded indices adjacent to padded index `n`, clockwise from the
/// top left, mirroring the neighbor offsets of the hex grid.
pub open spec fn spec_num_neighbors(size: int, n: int) -> Seq<int> {
    let side = size + 2;
    seq![n - side, n - side + 1, n + 1, n + side, n + side - 1, n - 1]
}

/// A Hex board of a given size, with pieces placed.
#[derive(Debug)]
pub struct Board {
    /// The size of the board: both width and length, between 1 and 26.
    pub size: u16,
    /// Black's chains, as a union-find forest over the padded index space.
    /// Black connects the left and right edges, whose virtual border columns
    /// are pre-unioned at construction.
    pub black_unions: UnionFind<u16>,
    /// White's chains, as a union-find forest over the padded index space.
    /// White connects the top and bottom edges, whose virtual border rows are
    /// pre-unioned at construction.
    pub white_unions: UnionFind<u16>,
    /// The occupancy of every real cell, in row-major order. A cell holds at
    /// most one stone, so one grid serves both players.
    pub cells: Vec<HexCell>,
    /// The current status of the board, recomputed after every placement.
    pub status: GameStatus,
}

impl Board {
    /// The edge length of the padded index space.
    pub open spec fn side(self) -> int {
        self.size + 2
    }

    /// The number of padded indices: the real grid plus the virtual border.
    pub open spec fn area(self) -> int {
        self.side() * self.side()
    }

    /// The coordinate lies on this board's real grid.
    pub open spec fn in_bounds(self, c: Coord) -> bool {
        (c.x as int) < self.size && (c.y as int) < self.size
    }

    /// The occupancy of grid position (x, y): `Empty` everywhere off the
    /// board, so the query is total.
    pub open spec fn cell(self, x: int, y: int) -> HexCell {
        if 0 <= x < self.size && 0 <= y < self.size {
            self.cells@[y * self.size + x]
        } else {
            HexCell::Empty
        }
    }

    /// What the padded index `n` holds: virtual border stones count as
    /// stones of their player, with the corner columns belonging to Black.
    pub open spec fn padded_color(self, n: int) -> HexCell {
        if n % self.side() == 0 || n % self.side() == self.side() - 1 {
            HexCell::Black
        } else if n / self.side() == 0 || n / self.side() == self.side() - 1 {
            HexCell::White
        } else {
            self.cell(spec_num_x(self.size as int, n), spec_num_y(self.size as int, n))
        }
    }

    /// The class map of Black's forest.
    pub open spec fn black_roots(self) -> Map<int, int> {
        uf_roots(self.black_unions)
    }

    /// The class map of White's forest.
    pub open spec fn white_roots(self) -> Map<int, int> {
        uf_roots(self.white_unions)
    }

    /// The left and right virtual borders lie in one class of Black's
    /// forest: an unbroken black chain runs from the left edge to the right
    /// edge.
    pub open spec fn black_connected(self) -> bool {
        self.black_roots()[self.side()] == self.black_roots()[2 * self.side() - 1]
    }

    /// The top and bottom virtual borders lie in one class of White's
    /// forest: an unbroken white chain runs from the top edge to the bottom
    /// edge.
    pub open spec fn white_connected(self) -> bool {
        self.white_roots()[1] == self.white_roots()[(self.side() - 1) * self.side() + 1]
    }

    /// The status that the two forests currently encode, testing Black
    /// first.
    pub open spec fn computed_status(self) -> GameStatus {
        if self.black_connected() {
            GameStatus::BlackWin
        } else if self.white_connected() {
            GameStatus::WhiteWin
        } else {
            GameStatus::Ongoing
        }
    }

    /// The board's fields have consistent dimensions.
    pub open spec fn sized_ok(self) -> bool {
        &&& 1 <= self.size <= 26
        &&& self.cells@.len() == self.size * self.size
        &&& uf_len(self.black_unions) == self.area()
        &&& uf_len(self.white_unions) == self.area()
    }

    /// Well-formed: consistent dimensions, and the cached status agrees with
    /// the two forests.
    pub open spec fn wf(self) -> bool {
        &&& self.sized_ok()
        &&& self.status == self.computed_status()
    }
}

/// A fresh forest for a board of edge `size`, as built at construction: the
/// two pre-unioned virtual borders each form one class (columns 0 and side-1
/// for Black, rows 0 and side-1 for White), and every other index is still a
/// singleton.
pub open spec fn spec_border_classes(m: Map<int, int>, size: int, black: bool) -> bool {
    let side = size + 2;
    forall|i: int, j: int|
        0 <= i < side * side && 0 <= j < side * side ==> ((#[trigger] m[i] == #[trigger] m[j])
            <==> (i == j || (black && i % side == 0 && j % side == 0) || (black && i % side == side
            - 1 && j % side == side - 1) || (!black && i / side == 0 && j / side == 0) || (!black
            && i / side == side - 1 && j / side == side - 1)))
}

/// After a union of `a` and `b`, two indices lie in one class exactly when
/// they did before, or when each lay in the old class of `a` or of `b`.
proof fn lemma_union_char(m0: Map<int, int>, m1: Map<int, int>, len: int, a: int, b: int)
    requires
        0 <= a < len,
        0 <= b < len,
        m1[a] == m0[a] || m1[a] == m0[b],
        forall|i: int|
            0 <= i < len ==> #[trigger] m1[i] == (if m0[i] == m0[a] || m0[i] == m0[b] {
                m1[a]
            } else {
                m0[i]
            }),
    ensures
        forall|i: int, j: int|
            0 <= i < len && 0 <= j < len ==> ((#[trigger] m1[i] == #[trigger] m1[j]) <==> (m0[i]
                == m0[j] || ((m0[i] == m0[a] || m0[i] == m0[b]) && (m0[j] == m0[a] || m0[j]
                == m0[b])))),
{
}

/// A black forest part-way through construction: column 0 is merged through
/// the first `rl` rows, column side-1 through the first `rr` rows, and
/// nothing else is merged.
pub open spec fn spec_cols_classes_upto(m: Map<int, int>, size: int, rl: int, rr: int) -> bool {
    let side = size + 2;
    forall|i: int, j: int|
        0 <= i < side * side && 0 <= j < side * side ==> ((#[trigger] m[i] == #[trigger] m[j])
            <==> (i == j || (i % side == 0 && j % side == 0 && i / side < rl && j / side < rl) || (
        i % side == side - 1 && j % side == side - 1 && i / side < rr && j / side < rr)))
}

/// A white forest part-way through construction: row 0 is merged through the
/// first `ct` columns, row side-1 through the first `cb` columns, and
/// nothing else is merged.
pub open spec fn spec_rows_classes_upto(m: Map<int, int>, size: int, ct: int, cb: int) -> bool {
    let side = size + 2;
    forall|i: int, j: int|
        0 <= i < side * side && 0 <= j < side * side ==> ((#[trigger] m[i] == #[trigger] m[j])
            <==> (i == j || (i / side == 0 && j / side == 0 && i % side < ct && j % side < ct) || (
        i / side == side - 1 && j / side == side - 1 && i % side < cb && j % side < cb)))
}

/// Every index splits into its padded row times the side length plus its
/// padded column.
proof fn lemma_div_mod_decompose(side: int, x: int)
    requires
        side > 0,
        0 <= x,
    ensures
        x == (x / side) * side + x % side,
        0 <= x % side < side,
        0 <= x / side,
        x < side * side ==> x / side < side,
{
    vstd::arithmetic::div_mod::lemma_fundamental_div_mod(x, side);
    assert((x / side) * side == side * (x / side)) by (nonlinear_arith);
    assert(0 <= x % side < side && 0 <= x / side && (x < side * side ==> x / side < side))
        by (nonlinear_arith)
        requires
            side > 0,
            0 <= x,
    ;
}

/// One instance of the column characterization, for use under nested
/// quantifiers.
proof fn lemma_cols_instance(m: Map<int, int>, size: int, rl: int, rr: int, i: int, j: int)
    requires
        spec_cols_classes_upto(m, size, rl, rr),
        0 <= i < (size + 2) * (size + 2),
        0 <= j < (size + 2) * (size + 2),
    ensures
        (m[i] == m[j]) <==> (i == j || (i % (size + 2) == 0 && j % (size + 2) == 0 && i / (size + 2)
            < rl && j / (size + 2) < rl) || (i % (size + 2) == size + 1 && j % (size + 2) == size + 1
            && i / (size + 2) < rr && j / (size + 2) < rr)),
{
}

/// One instance of the row characterization, for use under nested
/// quantifiers.
proof fn lemma_rows_instance(m: Map<int, int>, size: int, ct: int, cb: int, i: int, j: int)
    requires
        spec_rows_classes_upto(m, size, ct, cb),
        0 <= i < (size + 2) * (size + 2),
        0 <= j < (size + 2) * (size + 2),
    ensures
        (m[i] == m[j]) <==> (i == j || (i / (size + 2) == 0 && j / (size + 2) == 0 && i % (size + 2)
            < ct && j % (size + 2) < ct) || (i / (size + 2) == size + 1 && j / (size + 2) == size + 1
            && i % (size + 2) < cb && j % (size + 2) < cb)),
{
}

/// Unioning row `r` of column 0 with the row above extends the merged left
/// column by one row.
proof fn lemma_left_col_step(m0: Map<int, int>, m1: Map<int, int>, size: int, r: int, rr: int)
    requires
        1 <= size <= 26,
        1 <= r < size + 2,
        spec_cols_classes_upto(m0, size, r, rr),
        forall|i: int, j: int|
            0 <= i < (size + 2) * (size + 2) && 0 <= j < (size + 2) * (size + 2) ==> ((#[trigger]
            m1[i] == #[trigger] m1[j]) <==> (m0[i] == m0[j] || ((m0[i] == m0[r * (size + 2)]
                || m0[i] == m0[(r - 1) * (size + 2)]) && (m0[j] == m0[r * (size + 2)] || m0[j]
                == m0[(r - 1) * (size + 2)])))),
    ensures
        spec_cols_classes_upto(m1, size, r + 1, rr),
{
    let side = size + 2;
    let a = r * side;
    let b = (r - 1) * side;
    assert(a % side == 0 && a / side == r && b % side == 0 && b / side == r - 1 && 0 <= b && b
        < side * side && a < side * side) by (nonlinear_arith)
        requires
            side == size + 2,
            1 <= size <= 26,
            1 <= r < side,
            a == r * side,
            b == (r - 1) * side,
    ;
    assert forall|i: int, j: int| 0 <= i < side * side && 0 <= j < side * side implies ((m1[i]
        == m1[j]) <==> (i == j || (i % side == 0 && j % side == 0 && i / side < r + 1 && j / side
        < r + 1) || (i % side == side - 1 && j % side == side - 1 && i / side < rr && j / side
        < rr))) by {
        lemma_div_mod_decompose(side, i);
        lemma_div_mod_decompose(side, j);
        lemma_cols_instance(m0, size, r, rr, i, j);
        lemma_cols_instance(m0, size, r, rr, i, a);
        lemma_cols_instance(m0, size, r, rr, i, b);
        lemma_cols_instance(m0, size, r, rr, j, a);
        lemma_cols_instance(m0, size, r, rr, j, b);
        assert((m1[i] == m1[j]) <==> (m0[i] == m0[j] || ((m0[i] == m0[a] || m0[i] == m0[b]) && (
        m0[j] == m0[a] || m0[j] == m0[b]))));
    }
}

/// Unioning row `r` of column side-1 with the row above extends the merged
/// right column by one row.
proof fn lemma_right_col_step(m0: Map<int, int>, m1: Map<int, int>, size: int, r: int, rl: int)
    requires
        1 <= size <= 26,
        1 <= r < size + 2,
        r + 1 <= rl,
        spec_cols_classes_upto(m0, size, rl, r),
        forall|i: int, j: int|
            0 <= i < (size + 2) * (size + 2) && 0 <= j < (size + 2) * (size + 2) ==> ((#[trigger]
            m1[i] == #[trigger] m1[j]) <==> (m0[i] == m0[j] || ((m0[i] == m0[r * (size + 2) + size
                + 1] || m0[i] == m0[(r - 1) * (size + 2) + size + 1]) && (m0[j] == m0[r * (size + 2)
                + size + 1] || m0[j] == m0[(r - 1) * (size + 2) + size + 1])))),
    ensures
        spec_cols_classes_upto(m1, size, rl, r + 1),
{
    let side = size + 2;
    let a = r * side + side - 1;
    let b = (r - 1) * side + side - 1;
    assert(a % side == side - 1 && a / side == r && b % side == side - 1 && b / side == r - 1 && 0
        <= b && b < side * side && a < side * side) by (nonlinear_arith)
        requires
            side == size + 2,
            1 <= size <= 26,
            1 <= r < side,
            a == r * side + side - 1,
            b == (r - 1) * side + side - 1,
    ;
    assert forall|i: int, j: int| 0 <= i < side * side && 0 <= j < side * side implies ((m1[i]
        == m1[j]) <==> (i == j || (i % side == 0 && j % side == 0 && i / side < rl && j / side
        < rl) || (i % side == side - 1 && j % side == side - 1 && i / side < r + 1 && j / side < r
        + 1))) by {
        lemma_div_mod_decompose(side, i);
        lemma_div_mod_decompose(side, j);
        lemma_cols_instance(m0, size, rl, r, i, j);
        lemma_cols_instance(m0, size, rl, r, i, a);
        lemma_cols_instance(m0, size, rl, r, i, b);
        lemma_cols_instance(m0, size, rl, r, j, a);
        lemma_cols_instance(m0, size, rl, r, j, b);
        assert((m1[i] == m1[j]) <==> (m0[i] == m0[j] || ((m0[i] == m0[a] || m0[i] == m0[b]) && (
        m0[j] == m0[a] || m0[j] == m0[b]))));
    }
}

/// Unioning column `c` of row 0 with the column to its left extends the
/// merged top row by one column.
proof fn lemma_top_row_step(m0: Map<int, int>, m1: Map<int, int>, size: int, c: int, cb: int)
    requires
        1 <= size <= 26,
        1 <= c < size + 2,
        spec_rows_classes_upto(m0, size, c, cb),
        forall|i: int, j: int|
            0 <= i < (size + 2) * (size + 2) && 0 <= j < (size + 2) * (size + 2) ==> ((#[trigger]
            m1[i] == #[trigger] m1[j]) <==> (m0[i] == m0[j] || ((m0[i] == m0[c] || m0[i] == m0[c
                - 1]) && (m0[j] == m0[c] || m0[j] == m0[c - 1])))),
    ensures
        spec_rows_classes_upto(m1, size, c + 1, cb),
{
    let side = size + 2;
    assert(c % side == c && c / side == 0 && (c - 1) % side == c - 1 && (c - 1) / side == 0 && c
        < side * side) by (nonlinear_arith)
        requires
            side == size + 2,
            1 <= size <= 26,
            1 <= c < side,
    ;
    assert forall|i: int, j: int| 0 <= i < side * side && 0 <= j < side * side implies ((m1[i]
        == m1[j]) <==> (i == j || (i / side == 0 && j / side == 0 && i % side < c + 1 && j % side
        < c + 1) || (i / side == side - 1 && j / side == side - 1 && i % side < cb && j % side
        < cb))) by {
        lemma_div_mod_decompose(side, i);
        lemma_div_mod_decompose(side, j);
        lemma_rows_instance(m0, size, c, cb, i, j);
        lemma_rows_instance(m0, size, c, cb, i, c);
        lemma_rows_instance(m0, size, c, cb, i, c - 1);
        lemma_rows_instance(m0, size, c, cb, j, c);
        lemma_rows_instance(m0, size, c, cb, j, c - 1);
        assert((m1[i] == m1[j]) <==> (m0[i] == m0[j] || ((m0[i] == m0[c] || m0[i] == m0[c - 1]) && (
        m0[j] == m0[c] || m0[j] == m0[c - 1]))));
    }
}

/// Unioning column `c` of row side-1 with the column to its left extends the
/// merged bottom row by one column.
proof fn lemma_bottom_row_step(m0: Map<int, int>, m1: Map<int, int>, size: int, c: int, ct: int)
    requires
        1 <= size <= 26,
        1 <= c < size + 2,
        c + 1 <= ct,
        spec_rows_classes_upto(m0, size, ct, c),
        forall|i: int, j: int|
            0 <= i < (size + 2) * (size + 2) && 0 <= j < (size + 2) * (size + 2) ==> ((#[trigger]
            m1[i] == #[trigger] m1[j]) <==> (m0[i] == m0[j] || ((m0[i] == m0[(size + 1) * (size + 2)
                + c] || m0[i] == m0[(size + 1) * (size + 2) + c - 1]) && (m0[j] == m0[(size + 1) * (
            size + 2) + c] || m0[j] == m0[(size + 1) * (size + 2) + c - 1])))),
    ensures
        spec_rows_classes_upto(m1, size, ct, c + 1),
{
    let side = size + 2;
    let a = (size + 1) * (size + 2) + c;
    let b = (size + 1) * (size + 2) + c - 1;
    assert(a % side == c && a / side == side - 1 && b % side == c - 1 && b / side == side - 1 && 0
        <= b && b < side * side && a < side * side) by (nonlinear_arith)
        requires
            side == size + 2,
            1 <= size <= 26,
            1 <= c < side,
            a == (size + 1) * (size + 2) + c,
            b == (size + 1) * (size + 2) + c - 1,
    ;
    assert forall|i: int, j: int| 0 <= i < side * side && 0 <= j < side * side implies ((m1[i]
        == m1[j]) <==> (i == j || (i / side == 0 && j / side == 0 && i % side < ct && j % side
        < ct) || (i / side == side - 1 && j / side == side - 1 && i % side < c + 1 && j % side < c
        + 1))) by {
        lemma_div_mod_decompose(side, i);
        lemma_div_mod_decompose(side, j);
        lemma_rows_instance(m0, size, ct, c, i, j);
        lemma_rows_instance(m0, size, ct, c, i, a);
        lemma_rows_instance(m0, size, ct, c, i, b);
        lemma_rows_instance(m0, size, ct, c, j, a);
        lemma_rows_instance(m0, size, ct, c, j, b);
        assert((m1[i] == m1[j]) <==> (m0[i] == m0[j] || ((m0[i] == m0[a] || m0[i] == m0[b]) && (
        m0[j] == m0[a] || m0[j] == m0[b]))));
    }
}

impl Board {
    /// Initializes a blank board with given size less than or equal to 26:
    /// both forests span the padded index space, the left and right virtual
    /// border columns are pre-unioned for Black, the top and bottom virtual
    /// border rows for White, no cell holds a stone, and the game is ongoing.
    pub fn new(size: u16) -> (b: Board)
        requires
            1 <= size <= 26,
        ensures
            b.wf(),
            b.size == size,
            b.status == GameStatus::Ongoing,
            forall|x: int, y: int| #[trigger] b.cell(x, y) == HexCell::Empty,
            spec_border_classes(b.black_roots(), size as int, true),
            spec_border_classes(b.white_roots(), size as int, false),
    {
        let side: u16 = size + 2;
        proof {
            assert((side as int) * (side as int) <= 784) by (nonlinear_arith)
                requires
                    side <= 28,
            ;
        }
        let area: usize = (side as usize) * (side as usize);
        let mut black_unions = uf_new(area);
        let mut white_unions = uf_new(area);
        proof {
            assert forall|i: int, j: int|
                0 <= i < side * side && 0 <= j < side * side implies ((#[trigger] uf_roots(
                black_unions,
            )[i] == #[trigger] uf_roots(black_unions)[j]) <==> (i == j || (i % (side as int) == 0
                && j % (side as int) == 0 && i / (side as int) < 1 && j / (side as int) < 1) || (i
                % (side as int) == side - 1 && j % (side as int) == side - 1 && i / (side as int)
                < 1 && j / (side as int) < 1))) by {
                lemma_div_mod_decompose(side as int, i);
                lemma_div_mod_decompose(side as int, j);
            }
            assert forall|i: int, j: int|
                0 <= i < side * side && 0 <= j < side * side implies ((#[trigger] uf_roots(
                white_unions,
            )[i] == #[trigger] uf_roots(white_unions)[j]) <==> (i == j || (i / (side as int) == 0
                && j / (side as int) == 0 && i % (side as int) < 1 && j % (side as int) < 1) || (i
                / (side as int) == side - 1 && j / (side as int) == side - 1 && i % (side as int)
                < 1 && j % (side as int) < 1))) by {
                lemma_div_mod_decompose(side as int, i);
                lemma_div_mod_decompose(side as int, j);
            }
            assert(spec_cols_classes_upto(uf_roots(black_unions), size as int, 1, 1));
            assert(spec_rows_classes_upto(uf_roots(white_unions), size as int, 1, 1));
        }
        // pre-union the virtual border columns for Black, one row at a time
        let mut r: u16 = 1;
        while r < side
            invariant
                1 <= size <= 26,
                side == size + 2,
                area == side * side,
                1 <= r <= side,
                uf_len(black_unions) == area as int,
                uf_len(white_unions) == area as int,
                spec_cols_classes_upto(uf_roots(black_unions), size as int, r as int, r as int),
                spec_rows_classes_upto(uf_roots(white_unions), size as int, 1, 1),
            decreases side - r,
        {
            proof {
                assert((side as int) * (side as int) <= 784 && (r as int) * (side as int) + size
                    + 1 < (side as int) * (side as int) && (r as int - 1) * (side as int) >= 0 && (r
                    as int - 1) * (side as int) <= (r as int) * (side as int)) by (nonlinear_arith)
                    requires
                        1 <= r < side,
                        3 <= side <= 28,
                        size + 2 == side,
                ;
            }
            let ghost m0 = uf_roots(black_unions);
            uf_union(&mut black_unions, r * side, (r - 1) * side);
            proof {
                lemma_union_char(
                    m0,
                    uf_roots(black_unions),
                    area as int,
                    (r * side) as int,
                    ((r - 1) * side) as int,
                );
                lemma_left_col_step(
                    m0,
                    uf_roots(black_unions),
                    size as int,
                    r as int,
                    r as int,
                );
            }
            let ghost m1 = uf_roots(black_unions);
            uf_union(&mut black_unions, r * side + size + 1, (r - 1) * side + size + 1);
            proof {
                lemma_union_char(
                    m1,
                    uf_roots(black_unions),
                    area as int,
                    (r * side + size + 1) as int,
                    ((r - 1) * side + size + 1) as int,
                );
                lemma_right_col_step(
                    m1,
                    uf_roots(black_unions),
                    size as int,
                    r as int,
                    r as int + 1,
                );
            }
            r += 1;
        }
        // pre-union the virtual border rows for White, one column at a time
        let mut c: u16 = 1;
        while c < side
            invariant
                1 <= size <= 26,
                side == size + 2,
                area == side * side,
                1 <= c <= side,
                uf_len(black_unions) == area as int,
                uf_len(white_unions) == area as int,
                spec_cols_classes_upto(
                    uf_roots(black_unions),
                    size as int,
                    side as int,
                    side as int,
                ),
                spec_rows_classes_upto(uf_roots(white_unions), size as int, c as int, c as int),
            decreases side - c,
        {
            proof {
                assert((side as int) * (side as int) <= 784 && (size as int + 1) * (side as int)
                    + c < (side as int) * (side as int) && (size as int + 1) * (side as int) >= side)
                    by (nonlinear_arith)
                    requires
                        1 <= c < side,
                        3 <= side <= 28,
                        size + 2 == side,
                ;
            }
            let ghost m0 = uf_roots(white_unions);
            uf_union(&mut white_unions, c, c - 1);
            proof {
                lemma_union_char(
                    m0,
                    uf_roots(white_unions),
                    area as int,
                    c as int,
                    (c - 1) as int,
                );
                lemma_top_row_step(m0, uf_roots(white_unions), size as int, c as int, c as int);
            }
            let ghost m1 = uf_roots(white_unions);
            uf_union(&mut white_unions, (size + 1) * side + c, (size + 1) * side + c - 1);
            proof {
                lemma_union_char(
                    m1,
                    uf_roots(white_unions),
                    area as int,
                    ((size + 1) * side + c) as int,
                    ((size + 1) * side + c - 1) as int,
                );
                lemma_bottom_row_step(
                    m1,
                    uf_roots(white_unions),
                    size as int,
                    c as int,
                    c as int + 1,
                );
            }
            c += 1;
        }
        // an empty occupancy grid
        proof {
            assert((size as int) * (size as int) <= 676) by (nonlinear_arith)
                requires
                    size <= 26,
            ;
        }
        let cell_count: usize = (size as usize) * (size as usize);
        let mut cells: Vec<HexCell> = Vec::new();
        while cells.len() < cell_count
            invariant
                cells@.len() <= cell_count,
                forall|t: int| 0 <= t < cells@.len() ==> cells@[t] == HexCell::Empty,
            decreases cell_count - cells@.len(),
        {
            cells.push(HexCell::Empty);
        }
        let b = Board { size, black_unions, white_unions, cells, status: GameStatus::Ongoing };
        proof {
            let sd = b.side();
            assert forall|i: int, j: int|
                0 <= i < sd * sd && 0 <= j < sd * sd implies ((#[trigger] b.black_roots()[i]
                == #[trigger] b.black_roots()[j]) <==> (i == j || (i % sd == 0 && j % sd == 0) || (i
                % sd == sd - 1 && j % sd == sd - 1))) by {
                lemma_div_mod_decompose(sd, i);
                lemma_div_mod_decompose(sd, j);
            }
            assert forall|i: int, j: int|
                0 <= i < sd * sd && 0 <= j < sd * sd implies ((#[trigger] b.white_roots()[i]
                == #[trigger] b.white_roots()[j]) <==> (i == j || (i / sd == 0 && j / sd == 0) || (i
                / sd == sd - 1 && j / sd == sd - 1))) by {
                lemma_div_mod_decompose(sd, i);
                lemma_div_mod_decompose(sd, j);
            }
            assert(spec_border_classes(b.black_roots(), size as int, true));
            assert(spec_border_classes(b.white_roots(), size as int, false));
            // the fresh borders are not yet connected, so the game is ongoing
            assert(sd % sd == 0 && sd / sd == 1 && (2 * sd - 1) % sd == sd - 1 && (2 * sd - 1) / sd
                == 1 && 1int % sd == 1 && 1int / sd == 0 && ((sd - 1) * sd + 1) % sd == 1 && ((sd - 1) * sd
                + 1) / sd == sd - 1 && 2 * sd - 1 < sd * sd && (sd - 1) * sd + 1 < sd * sd)
                by (nonlinear_arith)
                requires
                    3 <= sd <= 28,
            ;
            assert(!b.black_connected());
            assert(!b.white_connected());
            assert forall|x: int, y: int| #[trigger] b.cell(x, y) == HexCell::Empty by {
                if 0 <= x < b.size && 0 <= y < b.size {
                    assert(0 <= y * b.size + x < b.size * b.size) by (nonlinear_arith)
                        requires
                            0 <= x < b.size,
                            0 <= y < b.size,
                    ;
                }
            }
        }
        b
    }
}

impl Default for Board {
    /// The default board is the common 13x13 size.
    fn default() -> (b: Board)
        ensures
            b.wf(),
            b.size == 13,
            b.status == GameStatus::Ongoing,
    {
        Board::new(13)
    }
}

impl Board {
    /// Returns a `HexCell` value describing the piece at the given location:
    /// `Empty` if no piece is there, `Black` if Black has a piece, or `White`
    /// if White has a piece. If the coordinate is out of bounds, returns
    /// `Empty`.
    pub fn piece(&self, coord: Coord) -> (r: HexCell)
        requires
            self.sized_ok(),
        ensures
            r == self.cell(coord.x as int, coord.y as int),
    {
        if coord.x as u16 >= self.size || coord.y as u16 >= self.size {
            HexCell::Empty
        } else {
            proof {
                assert(0 <= (coord.y as int) * (self.size as int) + coord.x < (self.size as int) * (
                self.size as int) && (self.size as int) * (self.size as int) <= 676)
                    by (nonlinear_arith)
                    requires
                        0 <= coord.x < self.size <= 26,
                        0 <= coord.y < self.size,
                ;
            }
            let idx: usize = (coord.y as usize) * (self.size as usize) + (coord.x as usize);
            self.cells[idx]
        }
    }

    /// Returns the current game status. This is updated automatically as the
    /// game progresses, so this function has basically no runtime cost.
    pub fn status(&self) -> (st: GameStatus)
        requires
            self.wf(),
        ensures
            st == self.status,
            st == self.computed_status(),
    {
        self.status
    }

    /// Gets the padded linear index that maps to a given coordinate in this
    /// board size: everything is shifted down and right by one, because the
    /// virtual border stones occupy row 0 and column 0.
    pub fn coord_to_num(&self, coord: Coord) -> (n: u16)
        requires
            self.sized_ok(),
            self.in_bounds(coord),
        ensures
            n as int == spec_to_num(self.size as int, coord.x as int, coord.y as int),
            spec_real_num(self.size as int, n as int),
            (n as int) < self.area(),
    {
        proof {
            assert((coord.y as int + 1) * (self.size as int + 2) + coord.x + 1 < (self.size as int
                + 2) * (self.size as int + 2) && (self.size as int + 2) * (self.size as int + 2)
                <= 784 && ((coord.y as int + 1) * (self.size as int + 2) + coord.x + 1) % (self.size
                as int + 2) == coord.x + 1 && ((coord.y as int + 1) * (self.size as int + 2)
                + coord.x + 1) / (self.size as int + 2) == coord.y + 1) by (nonlinear_arith)
                requires
                    1 <= self.size <= 26,
                    0 <= coord.x < self.size,
                    0 <= coord.y < self.size,
            ;
        }
        let n = (coord.y as u16 + 1) * (self.size + 2) + coord.x as u16 + 1;
        n
    }

    /// Gets the coordinate that maps to a given padded index in this board
    /// size, undoing the shift for the virtual border stones. The index must
    /// lie on the real grid: the inverse is undefined on the border itself.
    pub fn num_to_coord(&self, num: u16) -> (c: Coord)
        requires
            self.sized_ok(),
            spec_real_num(self.size as int, num as int),
        ensures
            c.x as int == spec_num_x(self.size as int, num as int),
            c.y as int == spec_num_y(self.size as int, num as int),
            self.in_bounds(c),
            c.valid(),
    {
        Coord {
            y: (num / (self.size + 2)) as u8 - 1,
            x: (num % (self.size + 2)) as u8 - 1,
        }
    }

    /// Determines whether the given padded index is black, white, or empty,
    /// counting the virtual border stones for their players.
    fn piece_at_num(&self, num: u16) -> (r: HexCell)
        requires
            self.sized_ok(),
            (num as int) < self.area(),
        ensures
            r == self.padded_color(num as int),
    {
        let side = self.size + 2;
        if num % side == 0 || num % side == side - 1 {
            HexCell::Black
        } else if num / side == 0 || num / side == side - 1 {
            HexCell::White
        } else {
            proof {
                lemma_div_mod_decompose(side as int, num as int);
            }
            self.piece(self.num_to_coord(num))
        }
    }

    /// Gets the six padded indices corresponding to the neighbors of a given
    /// real-grid index, including virtual border stones.
    fn num_neighbors(&self, num: u16) -> (v: Vec<u16>)
        requires
            self.sized_ok(),
            spec_real_num(self.size as int, num as int),
        ensures
            v@.len() == 6,
            forall|k: int|
                0 <= k < 6 ==> #[trigger] v@[k] as int == spec_num_neighbors(
                    self.size as int,
                    num as int,
                )[k],
            forall|k: int| 0 <= k < 6 ==> 0 < (#[trigger] v@[k] as int) && (v@[k] as int) < self.area() - 1,
    {
        let side = self.size + 2;  // to account for virtual stones
        proof {
            lemma_div_mod_decompose(side as int, num as int);
            assert(side as int + 1 <= num as int && num as int + side + 1 < (side as int) * (side
                as int) && (side as int) * (side as int) <= 784) by (nonlinear_arith)
                requires
                    3 <= side <= 28,
                    1 <= num as int / side as int <= side - 2,
                    1 <= num as int % side as int <= side - 2,
                    num as int == (num as int / side as int) * (side as int) + num as int % side
                        as int,
            ;
        }
        let mut v: Vec<u16> = Vec::new();
        v.push(num - side);  // top left
        v.push(num - side + 1);  // top right
        v.push(num + 1);  // right
        v.push(num + side);  // bottom right
        v.push(num + side - 1);  // bottom left
        v.push(num - 1);  // left
        v
    }
}

/// The forest of the player whose turn it is.
pub open spec fn spec_mover_roots(b: Board, color: Color) -> Map<int, int> {
    if color == Color::Black {
        b.black_roots()
    } else {
        b.white_roots()
    }
}

/// Padded neighbor entry `t` of index `num` holds a stone of `color` on
/// board `pre`: a virtual border stone of that player, or a placed piece.
pub open spec fn spec_matching_entry(pre: Board, num: int, color: Color, t: int) -> bool {
    pre.padded_color(spec_num_neighbors(pre.size as int, num)[t]) == cell_of(color)
}

/// Index `i` lies in one of the classes that a placement at `num` merges,
/// judging by the first `k` neighbor entries: the old class of `num` itself,
/// or the old class of a same-colored padded neighbor among those entries.
pub open spec fn spec_touches_upto(
    m0: Map<int, int>,
    pre: Board,
    num: int,
    color: Color,
    k: int,
    i: int,
) -> bool {
    m0[i] == m0[num] || exists|t: int|
        0 <= t < k && #[trigger] spec_matching_entry(pre, num, color, t) && m0[i] == m0[
            spec_num_neighbors(pre.size as int, num)[t]
        ]
}

/// Index `i` lies in one of the classes that a placement at `num` merges:
/// the old class of `num`, or of any same-colored padded neighbor.
pub open spec fn spec_touches(m0: Map<int, int>, pre: Board, num: int, color: Color, i: int) -> bool {
    spec_touches_upto(m0, pre, num, color, 6, i)
}

/// How a placement at `coord` reshapes the mover's forest: the old classes
/// of the new stone and of all its same-colored padded neighbors merge into
/// one, and no other classes change.
pub open spec fn spec_placed_forest(
    m0: Map<int, int>,
    m1: Map<int, int>,
    pre: Board,
    coord: Coord,
    color: Color,
) -> bool {
    forall|i: int, j: int|
        0 <= i < pre.area() && 0 <= j < pre.area() ==> ((#[trigger] m1[i] == #[trigger] m1[j])
            <==> (m0[i] == m0[j] || (spec_touches(
            m0,
            pre,
            spec_to_num(pre.size as int, coord.x as int, coord.y as int),
            color,
            i,
        ) && spec_touches(
            m0,
            pre,
            spec_to_num(pre.size as int, coord.x as int, coord.y as int),
            color,
            j,
        ))))
}

/// A neighbor entry of the wrong color adds nothing to the merged classes.
proof fn lemma_touches_skip(m0: Map<int, int>, pre: Board, num: int, color: Color, k: int)
    requires
        0 <= k < 6,
        !spec_matching_entry(pre, num, color, k),
    ensures
        forall|i: int|
            #[trigger] spec_touches_upto(m0, pre, num, color, k + 1, i) == spec_touches_upto(
                m0,
                pre,
                num,
                color,
                k,
                i,
            ),
{
    assert forall|i: int|
        #[trigger] spec_touches_upto(m0, pre, num, color, k + 1, i) == spec_touches_upto(
            m0,
            pre,
            num,
            color,
            k,
            i,
        ) by {
        if spec_touches_upto(m0, pre, num, color, k + 1, i) {
            assert(spec_touches_upto(m0, pre, num, color, k, i));
        }
        if spec_touches_upto(m0, pre, num, color, k, i) {
            assert(spec_touches_upto(m0, pre, num, color, k + 1, i));
        }
    }
}

/// Unioning the new stone with its same-colored neighbor entry `k` extends
/// the merged classes by exactly that neighbor's old class.
proof fn lemma_touches_extend(
    m0: Map<int, int>,
    mk: Map<int, int>,
    mk1: Map<int, int>,
    pre: Board,
    num: int,
    color: Color,
    k: int,
)
    requires
        0 <= k < 6,
        spec_matching_entry(pre, num, color, k),
        0 <= num < pre.area(),
        0 <= spec_num_neighbors(pre.size as int, num)[k] < pre.area(),
        forall|i: int, j: int|
            0 <= i < pre.area() && 0 <= j < pre.area() ==> ((#[trigger] mk[i] == #[trigger] mk[j])
                <==> (m0[i] == m0[j] || (spec_touches_upto(m0, pre, num, color, k, i)
                && spec_touches_upto(m0, pre, num, color, k, j)))),
        forall|i: int, j: int|
            0 <= i < pre.area() && 0 <= j < pre.area() ==> ((#[trigger] mk1[i] == #[trigger] mk1[j])
                <==> (mk[i] == mk[j] || ((mk[i] == mk[num] || mk[i] == mk[spec_num_neighbors(
                pre.size as int,
                num,
            )[k]]) && (mk[j] == mk[num] || mk[j] == mk[spec_num_neighbors(pre.size as int, num)[k]])))),
    ensures
        forall|i: int, j: int|
            0 <= i < pre.area() && 0 <= j < pre.area() ==> ((#[trigger] mk1[i] == #[trigger] mk1[j])
                <==> (m0[i] == m0[j] || (spec_touches_upto(m0, pre, num, color, k + 1, i)
                && spec_touches_upto(m0, pre, num, color, k + 1, j)))),
{
    let nb = spec_num_neighbors(pre.size as int, num)[k];
    assert forall|i: int| 0 <= i < pre.area() implies #[trigger] spec_touches_upto(
        m0,
        pre,
        num,
        color,
        k + 1,
        i,
    ) == (spec_touches_upto(m0, pre, num, color, k, i) || m0[i] == m0[nb]) by {
        if spec_touches_upto(m0, pre, num, color, k + 1, i) {
            let t = choose|t: int|
                0 <= t < k + 1 && #[trigger] spec_matching_entry(pre, num, color, t) && m0[i]
                    == m0[spec_num_neighbors(pre.size as int, num)[t]];
            if m0[i] != m0[num] {
                if t < k {
                    assert(spec_touches_upto(m0, pre, num, color, k, i));
                } else {
                    assert(m0[i] == m0[nb]);
                }
            }
        }
        if spec_touches_upto(m0, pre, num, color, k, i) || m0[i] == m0[nb] {
            assert(spec_touches_upto(m0, pre, num, color, k + 1, i));
        }
    }
    assert forall|i: int, j: int| 0 <= i < pre.area() && 0 <= j < pre.area() implies ((#[trigger]
    mk1[i] == #[trigger] mk1[j]) <==> (m0[i] == m0[j] || (spec_touches_upto(
        m0,
        pre,
        num,
        color,
        k + 1,
        i,
    ) && spec_touches_upto(m0, pre, num, color, k + 1, j)))) by {
        assert((mk[i] == mk[num]) <==> (m0[i] == m0[num] || (spec_touches_upto(
            m0,
            pre,
            num,
            color,
            k,
            i,
        ) && spec_touches_upto(m0, pre, num, color, k, num))));
        assert((mk[j] == mk[num]) <==> (m0[j] == m0[num] || (spec_touches_upto(
            m0,
            pre,
            num,
            color,
            k,
            j,
        ) && spec_touches_upto(m0, pre, num, color, k, num))));
        assert((mk[i] == mk[nb]) <==> (m0[i] == m0[nb] || (spec_touches_upto(
            m0,
            pre,
            num,
            color,
            k,
            i,
        ) && spec_touches_upto(m0, pre, num, color, k, nb))));
        assert((mk[j] == mk[nb]) <==> (m0[j] == m0[nb] || (spec_touches_upto(
            m0,
            pre,
            num,
            color,
            k,
            j,
        ) && spec_touches_upto(m0, pre, num, color, k, nb))));
        assert((mk[i] == mk[j]) <==> (m0[i] == m0[j] || (spec_touches_upto(m0, pre, num, color, k, i)
            && spec_touches_upto(m0, pre, num, color, k, j))));
        assert((mk1[i] == mk1[j]) <==> (mk[i] == mk[j] || ((mk[i] == mk[num] || mk[i] == mk[nb]) && (
        mk[j] == mk[num] || mk[j] == mk[nb]))));
    }
}

/// The padded index mapping is a bijection between the real grid and the
/// non-border indices: decoding what a coordinate encodes gives the
/// coordinate back.
pub proof fn lemma_index_round_trip(size: int, x: int, y: int)
    requires
        1 <= size <= 26,
        0 <= x < size,
        0 <= y < size,
    ensures
        spec_num_x(size, spec_to_num(size, x, y)) == x,
        spec_num_y(size, spec_to_num(size, x, y)) == y,
        spec_real_num(size, spec_to_num(size, x, y)),
{
    assert(((y + 1) * (size + 2) + x + 1) % (size + 2) == x + 1 && ((y + 1) * (size + 2) + x + 1)
        / (size + 2) == y + 1 && (y + 1) * (size + 2) + x + 1 >= 0) by (nonlinear_arith)
        requires
            1 <= size <= 26,
            0 <= x < size,
            0 <= y < size,
    ;
}

impl Board {
    /// Checks for a winner, updating the cached game status if a change is
    /// required and returning whatever the game status is.
    fn set_game_status(&mut self) -> (st: GameStatus)
        requires
            old(self).sized_ok(),
        ensures
            final(self).size == old(self).size,
            final(self).cells == old(self).cells,
            final(self).black_unions == old(self).black_unions,
            final(self).white_unions == old(self).white_unions,
            final(self).wf(),
            st == final(self).status,
    {
        let side = self.size + 2;
        proof {
            assert(2 * (side as int) - 1 < (side as int) * (side as int) && (side as int - 1) * (
            side as int) + 1 < (side as int) * (side as int) && (side as int) * (side as int) <= 784
                && (side as int - 1) * (side as int) >= 0) by (nonlinear_arith)
                requires
                    3 <= side <= 28,
            ;
        }
        // black wins when the left and right virtual borders are connected
        let lb = uf_find(&self.black_unions, side);
        let rb = uf_find(&self.black_unions, 2 * side - 1);
        if lb == rb {
            self.status = GameStatus::BlackWin;
            GameStatus::BlackWin
        } else {
            // white wins when the top and bottom virtual borders are connected
            let tb = uf_find(&self.white_unions, 1);
            let bb = uf_find(&self.white_unions, (side - 1) * side + 1);
            if tb == bb {
                self.status = GameStatus::WhiteWin;
                GameStatus::WhiteWin
            } else {
                self.status = GameStatus::Ongoing;
                GameStatus::Ongoing
            }
        }
    }

    /// Places the piece at the given spot if the placement is valid (there
    /// are no other pieces there and the coordinate is within range),
    /// modifying the board's state and returning true. Otherwise, does not
    /// modify the board state and returns false. Once won, a board never
    /// reports Ongoing again.
    pub fn place_piece(&mut self, coord: Coord, color: Color) -> (r: bool)
        requires
            old(self).wf(),
        ensures
            final(self).wf(),
            final(self).size == old(self).size,
            r == (old(self).in_bounds(coord) && old(self).cell(coord.x as int, coord.y as int)
                == HexCell::Empty),
            !r ==> *final(self) == *old(self),
            r ==> final(self).cells@ == old(self).cells@.update(
                (coord.y as int) * (old(self).size as int) + coord.x as int,
                cell_of(color),
            ),
            r ==> spec_placed_forest(
                spec_mover_roots(*old(self), color),
                spec_mover_roots(*final(self), color),
                *old(self),
                coord,
                color,
            ),
            r && color == Color::Black ==> final(self).white_unions == old(self).white_unions,
            r && color == Color::White ==> final(self).black_unions == old(self).black_unions,
            old(self).status == GameStatus::BlackWin ==> final(self).status
                == GameStatus::BlackWin,
            old(self).status == GameStatus::WhiteWin ==> final(self).status
                != GameStatus::Ongoing,
    {
        // if out of bounds, return false and do nothing
        if coord.x as u16 >= self.size || coord.y as u16 >= self.size {
            return false;
        }
        // if existing piece, return false and do nothing
        if self.piece(coord) != HexCell::Empty {
            return false;
        }
        let num = self.coord_to_num(coord);
        let nbrs = self.num_neighbors(num);
        let target = match color {
            Color::Black => HexCell::Black,
            Color::White => HexCell::White,
        };
        let ghost m0 = spec_mover_roots(*old(self), color);
        // union the new stone with every same-colored padded neighbor
        let mut k: usize = 0;
        while k < 6
            invariant
                0 <= k <= 6,
                old(self).wf(),
                old(self).in_bounds(coord),
                self.size == old(self).size,
                self.cells == old(self).cells,
                self.status == old(self).status,
                target == cell_of(color),
                m0 == spec_mover_roots(*old(self), color),
                num as int == spec_to_num(
                    old(self).size as int,
                    coord.x as int,
                    coord.y as int,
                ),
                spec_real_num(old(self).size as int, num as int),
                (num as int) < old(self).area(),
                nbrs@.len() == 6,
                forall|t: int|
                    0 <= t < 6 ==> #[trigger] nbrs@[t] as int == spec_num_neighbors(
                        old(self).size as int,
                        num as int,
                    )[t],
                forall|t: int|
                    0 <= t < 6 ==> 0 < (#[trigger] nbrs@[t] as int) && (nbrs@[t] as int) < old(
                        self,
                    ).area() - 1,
                uf_len(self.black_unions) == old(self).area(),
                uf_len(self.white_unions) == old(self).area(),
                color == Color::Black ==> self.white_unions == old(self).white_unions,
                color == Color::White ==> self.black_unions == old(self).black_unions,
                forall|i: int, j: int|
                    0 <= i < old(self).area() && 0 <= j < old(self).area() ==> ((#[trigger]
                    spec_mover_roots(*self, color)[i] == #[trigger] spec_mover_roots(
                        *self,
                        color,
                    )[j]) <==> (m0[i] == m0[j] || (spec_touches_upto(
                        m0,
                        *old(self),
                        num as int,
                        color,
                        k as int,
                        i,
                    ) && spec_touches_upto(
                        m0,
                        *old(self),
                        num as int,
                        color,
                        k as int,
                        j,
                    )))),
            decreases 6 - k,
        {
            let nb = nbrs[k];
            let pc = self.piece_at_num(nb);
            proof {
                assert(self.padded_color(nb as int) == old(self).padded_color(nb as int));
            }
            if pc == target {
                let ghost mk = spec_mover_roots(*self, color);
                match color {
                    Color::Black => {
                        uf_union(&mut self.black_unions, num, nb);
                    },
                    Color::White => {
                        uf_union(&mut self.white_unions, num, nb);
                    },
                }
                proof {
                    lemma_union_char(
                        mk,
                        spec_mover_roots(*self, color),
                        old(self).area(),
                        num as int,
                        nb as int,
                    );
                    lemma_touches_extend(
                        m0,
                        mk,
                        spec_mover_roots(*self, color),
                        *old(self),
                        num as int,
                        color,
                        k as int,
                    );
                }
            } else {
                proof {
                    lemma_touches_skip(m0, *old(self), num as int, color, k as int);
                }
            }
            k += 1;
        }
        // record the stone itself
        proof {
            assert(0 <= (coord.y as int) * (self.size as int) + coord.x < (self.size as int) * (
            self.size as int) && (self.size as int) * (self.size as int) <= 676)
                by (nonlinear_arith)
                requires
                    0 <= coord.x < self.size <= 26,
                    0 <= coord.y < self.size,
            ;
        }
        let ghost mdone = spec_mover_roots(*self, color);
        proof {
            assert(spec_placed_forest(m0, mdone, *old(self), coord, color));
        }
        let idx: usize = (coord.y as usize) * (self.size as usize) + (coord.x as usize);
        self.cells.set(idx, target);
        // update game status
        self.set_game_status();
        proof {
            assert(spec_mover_roots(*self, color) == mdone);
            let sd = old(self).side();
            assert(sd < sd * sd && 2 * sd - 1 < sd * sd && 1 < sd * sd && (sd - 1) * sd + 1 < sd
                * sd && (sd - 1) * sd + 1 >= 0) by (nonlinear_arith)
                requires
                    3 <= sd <= 28,
            ;
            if old(self).status == GameStatus::BlackWin {
                assert(old(self).black_connected());
                if color == Color::Black {
                    assert(m0[sd] == m0[2 * sd - 1]);
                    assert(mdone[sd] == mdone[2 * sd - 1]);
                    assert(self.black_roots() == mdone);
                } else {
                    assert(self.black_unions == old(self).black_unions);
                }
                assert(self.black_connected());
            }
            if old(self).status == GameStatus::WhiteWin {
                assert(old(self).white_connected());
                if color == Color::White {
                    assert(m0[1] == m0[(sd - 1) * sd + 1]);
                    assert(mdone[1] == mdone[(sd - 1) * sd + 1]);
                    assert(self.white_roots() == mdone);
                } else {
                    assert(self.white_unions == old(self).white_unions);
                }
                assert(self.white_connected());
            }
        }
        true
    }
}

/// A successful placement fills its target cell, so repeating the identical
/// placement returns false by the placement contract and leaves the board
/// exactly as it stood after the first call alone.
pub proof fn lemma_place_idempotent(pre: Board, post: Board, coord: Coord, color: Color)
    requires
        pre.sized_ok(),
        pre.in_bounds(coord),
        post.size == pre.size,
        post.cells@ == pre.cells@.update(
            (coord.y as int) * (pre.size as int) + coord.x as int,
            cell_of(color),
        ),
    ensures
        post.cell(coord.x as int, coord.y as int) == cell_of(color),
        post.cell(coord.x as int, coord.y as int) != HexCell::Empty,
{
    assert(0 <= (coord.y as int) * (pre.size as int) + coord.x < (pre.size as int) * (pre.size
        as int)) by (nonlinear_arith)
        requires
            0 <= coord.x < pre.size,
            0 <= coord.y < pre.size,
    ;
}

} // verus!
