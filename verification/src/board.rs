//! ChArUco board layout: which chessboard squares carry markers, which ids
//! they get, and where the interior chessboard corners lie, in square units.

use vstd::prelude::*;

verus! {

/// Why a board layout was refused.
#[derive(Clone, Copy, PartialEq, Eq, Structural, Debug)]
pub enum BoardError {
    /// The explicit ids do not match the number of marker squares, which is given.
    IdCount(usize),
}

/// The integer layout of a ChArUco board.
pub struct BoardLayout {
    /// Squares `(x, y)` that carry a marker, row by row.
    pub marker_cells: Vec<(usize, usize)>,
    /// The id of the marker in each of those squares.
    pub ids: Vec<usize>,
    /// Interior chessboard corners `(x, y)` in square units, row by row.
    pub corner_cells: Vec<(usize, usize)>,
}

/// Square `(x, y)` is white and carries a marker. Black squares sit where
/// row and column parity agree; the legacy pattern flips that parity on
/// boards with an even number of rows.
pub open spec fn has_marker(x: int, y: int, squares_y: int, legacy: bool) -> bool {
    if legacy && squares_y % 2 == 0 {
        (y + 1) % 2 != x % 2
    } else {
        y % 2 != x % 2
    }
}

/// Marker squares of row `y` among columns `0..k`.
pub open spec fn row_cells(y: int, k: int, squares_y: int, legacy: bool) -> Seq<(usize, usize)>
    decreases k,
{
    if k <= 0 {
        Seq::empty()
    } else if has_marker(k - 1, y, squares_y, legacy) {
        row_cells(y, k - 1, squares_y, legacy).push(((k - 1) as usize, y as usize))
    } else {
        row_cells(y, k - 1, squares_y, legacy)
    }
}

/// Marker squares of rows `0..rows`, row by row.
pub open spec fn board_cells(rows: int, squares_x: int, squares_y: int, legacy: bool) -> Seq<(usize, usize)>
    decreases rows,
{
    if rows <= 0 {
        Seq::empty()
    } else {
        board_cells(rows - 1, squares_x, squares_y, legacy) + row_cells(rows - 1, squares_x, squares_y, legacy)
    }
}

/// The marker squares of row `y` among columns `0..k` are exactly its
/// marker squares there, in increasing column order.
proof fn lemma_row_cells_exact(y: int, k: int, squares_y: int, legacy: bool)
    requires
        0 <= y <= usize::MAX,
        0 <= k <= usize::MAX,
    ensures
        forall|j: int|
            0 <= j < row_cells(y, k, squares_y, legacy).len() ==> {
                let c = #[trigger] row_cells(y, k, squares_y, legacy)[j];
                &&& c.1 == y
                &&& c.0 < k
                &&& (if legacy && squares_y % 2 == 0 {
                    (y + 1) % 2 != c.0 % 2
                } else {
                    y % 2 != c.0 % 2
                })
            },
        forall|j1: int, j2: int|
            0 <= j1 < j2 < row_cells(y, k, squares_y, legacy).len() ==> (#[trigger] row_cells(y, k, squares_y, legacy)[j1]).0
                < (#[trigger] row_cells(y, k, squares_y, legacy)[j2]).0,
        forall|c: (usize, usize)|
            c.1 == y && c.0 < k && (if legacy && squares_y % 2 == 0 {
                (y + 1) % 2 != c.0 % 2
            } else {
                y % 2 != c.0 % 2
            }) ==> #[trigger] row_cells(y, k, squares_y, legacy).contains(c),
    decreases k,
{
    if k > 0 {
        lemma_row_cells_exact(y, k - 1, squares_y, legacy);
        let prev = row_cells(y, k - 1, squares_y, legacy);
        let cur = row_cells(y, k, squares_y, legacy);
        if has_marker(k - 1, y, squares_y, legacy) {
            assert(cur == prev.push(((k - 1) as usize, y as usize)));
            assert forall|j: int| 0 <= j < prev.len() implies cur[j] == prev[j] by {}
            assert(cur[prev.len() as int] == ((k - 1) as usize, y as usize));
            assert forall|c: (usize, usize)|
                c.1 == y && c.0 < k && (if legacy && squares_y % 2 == 0 {
                    (y + 1) % 2 != c.0 % 2
                } else {
                    y % 2 != c.0 % 2
                }) implies #[trigger] cur.contains(c) by {
                if c.0 < k - 1 {
                    assert(prev.contains(c));
                    let j = choose|j: int| 0 <= j < prev.len() && prev[j] == c;
                    assert(cur[j] == prev[j]);
                } else {
                    assert(cur[prev.len() as int] == c);
                }
            }
        } else {
            assert(cur == prev);
            assert forall|c: (usize, usize)|
                c.1 == y && c.0 < k && (if legacy && squares_y % 2 == 0 {
                    (y + 1) % 2 != c.0 % 2
                } else {
                    y % 2 != c.0 % 2
                }) implies #[trigger] cur.contains(c) by {
                assert(prev.contains(c));
            }
        }
    }
}

/// The marker squares of rows `0..rows` are exactly the squares `(x, y)`
/// with `x < squares_x` and `y < rows` whose row and column parities differ
/// (the row parity taken one further on a legacy board with an even number
/// of rows), in row-major order; which squares carry markers does not
/// depend on `squares_x`.
pub proof fn lemma_board_cells_exact(rows: int, squares_x: int, squares_y: int, legacy: bool)
    requires
        0 <= rows <= usize::MAX,
        0 <= squares_x <= usize::MAX,
    ensures
        forall|j: int|
            0 <= j < board_cells(rows, squares_x, squares_y, legacy).len() ==> {
                let c = #[trigger] board_cells(rows, squares_x, squares_y, legacy)[j];
                &&& c.0 < squares_x
                &&& c.1 < rows
                &&& (if legacy && squares_y % 2 == 0 {
                    (c.1 + 1) % 2 != c.0 % 2
                } else {
                    c.1 % 2 != c.0 % 2
                })
            },
        forall|j1: int, j2: int|
            0 <= j1 < j2 < board_cells(rows, squares_x, squares_y, legacy).len() ==> {
                let c1 = #[trigger] board_cells(rows, squares_x, squares_y, legacy)[j1];
                let c2 = #[trigger] board_cells(rows, squares_x, squares_y, legacy)[j2];
                c1.1 < c2.1 || (c1.1 == c2.1 && c1.0 < c2.0)
            },
        forall|c: (usize, usize)|
            c.0 < squares_x && c.1 < rows && (if legacy && squares_y % 2 == 0 {
                (c.1 + 1) % 2 != c.0 % 2
            } else {
                c.1 % 2 != c.0 % 2
            }) ==> #[trigger] board_cells(rows, squares_x, squares_y, legacy).contains(c),
    decreases rows,
{
    if rows > 0 {
        lemma_board_cells_exact(rows - 1, squares_x, squares_y, legacy);
        lemma_row_cells_exact(rows - 1, squares_x, squares_y, legacy);
        let prev = board_cells(rows - 1, squares_x, squares_y, legacy);
        let row = row_cells(rows - 1, squares_x, squares_y, legacy);
        let cur = board_cells(rows, squares_x, squares_y, legacy);
        assert(cur == prev + row);
        assert forall|j: int| 0 <= j < cur.len() implies {
            let c = #[trigger] cur[j];
            &&& c.0 < squares_x
            &&& c.1 < rows
            &&& (if legacy && squares_y % 2 == 0 {
                (c.1 + 1) % 2 != c.0 % 2
            } else {
                c.1 % 2 != c.0 % 2
            })
        } by {
            if j < prev.len() {
                assert(cur[j] == prev[j]);
            } else {
                assert(cur[j] == row[j - prev.len()]);
            }
        }
        assert forall|j1: int, j2: int| 0 <= j1 < j2 < cur.len() implies {
            let c1 = #[trigger] cur[j1];
            let c2 = #[trigger] cur[j2];
            c1.1 < c2.1 || (c1.1 == c2.1 && c1.0 < c2.0)
        } by {
            if j2 < prev.len() {
                assert(cur[j1] == prev[j1] && cur[j2] == prev[j2]);
            } else if j1 < prev.len() {
                assert(cur[j1] == prev[j1] && cur[j2] == row[j2 - prev.len()]);
            } else {
                assert(cur[j1] == row[j1 - prev.len()] && cur[j2] == row[j2 - prev.len()]);
            }
        }
        assert forall|c: (usize, usize)|
            c.0 < squares_x && c.1 < rows && (if legacy && squares_y % 2 == 0 {
                (c.1 + 1) % 2 != c.0 % 2
            } else {
                c.1 % 2 != c.0 % 2
            }) implies #[trigger] cur.contains(c) by {
            if c.1 < rows - 1 {
                assert(prev.contains(c));
                let j = choose|j: int| 0 <= j < prev.len() && prev[j] == c;
                assert(cur[j] == prev[j]);
            } else {
                assert(row.contains(c));
                let j = choose|j: int| 0 <= j < row.len() && row[j] == c;
                assert(cur[prev.len() + j] == row[j]);
            }
        }
    }
}

/// Interior corners of rows `1..=rows`, each row holding columns `1..=cols`.
pub open spec fn corner_grid(rows: int, cols: int) -> Seq<(usize, usize)>
    decreases rows,
{
    if rows <= 0 {
        Seq::empty()
    } else {
        corner_grid(rows - 1, cols) + Seq::new(cols as nat, |x: int| ((x + 1) as usize, rows as usize))
    }
}

/// The interior corners of `rows` rows of `cols` columns, row by row: entry
/// `y * cols + x` is the corner `(x + 1, y + 1)`.
pub proof fn lemma_corner_grid_exact(rows: int, cols: int)
    requires
        0 <= rows < usize::MAX,
        0 <= cols < usize::MAX,
    ensures
        corner_grid(rows, cols).len() == rows * cols,
        forall|x: int, y: int|
            0 <= x < cols && 0 <= y < rows ==> #[trigger] corner_grid(rows, cols)[y * cols + x] == ((x + 1) as usize, (y
                + 1) as usize),
    decreases rows,
{
    if rows > 0 {
        lemma_corner_grid_exact(rows - 1, cols);
        let prev = corner_grid(rows - 1, cols);
        let cur = corner_grid(rows, cols);
        assert((rows - 1) * cols + cols == rows * cols) by (nonlinear_arith);
        assert forall|x: int, y: int| 0 <= x < cols && 0 <= y < rows implies #[trigger] cur[y * cols + x] == (
        (x + 1) as usize,
        (y + 1) as usize,
        ) by {
            if y < rows - 1 {
                assert(y * cols + x < (rows - 1) * cols) by (nonlinear_arith)
                    requires
                        0 <= x < cols,
                        0 <= y < rows - 1,
                ;
                assert(0 <= y * cols) by (nonlinear_arith)
                    requires
                        0 <= y,
                        0 <= cols,
                ;
                assert(cur[y * cols + x] == prev[y * cols + x]);
            } else {
                assert(y * cols + x - (rows - 1) * cols == x) by (nonlinear_arith)
                    requires
                        y == rows - 1,
                ;
            }
        }
    } else {
        assert(rows * cols == 0) by (nonlinear_arith)
            requires
                rows == 0,
        ;
    }
}

/// Lays out a `squares_x x squares_y` board: markers on the white squares in
/// row-major order, numbered `0..` unless `ids` is non-empty, in which case
/// it must give exactly one id per marker square.
pub fn board_layout(squares_x: usize, squares_y: usize, legacy_pattern: bool, ids: Vec<usize>) -> (res: Result<
    BoardLayout,
    BoardError,
>)
    ensures
        ({
            let cells = board_cells(squares_y as int, squares_x as int, squares_y as int, legacy_pattern);
            match res {
                Ok(layout) => {
                    &&& layout.marker_cells@ == cells
                    &&& forall|j: int|
                        0 <= j < layout.marker_cells@.len() ==> {
                            let c = #[trigger] layout.marker_cells@[j];
                            &&& c.0 < squares_x
                            &&& c.1 < squares_y
                            &&& (if legacy_pattern && squares_y % 2 == 0 {
                                (c.1 + 1) % 2 != c.0 % 2
                            } else {
                                c.1 % 2 != c.0 % 2
                            })
                        }
                    &&& forall|c: (usize, usize)|
                        c.0 < squares_x && c.1 < squares_y && (if legacy_pattern && squares_y % 2 == 0 {
                            (c.1 + 1) % 2 != c.0 % 2
                        } else {
                            c.1 % 2 != c.0 % 2
                        }) ==> #[trigger] layout.marker_cells@.contains(c)
                    &&& (ids@.len() == 0 ==> layout.ids@ == Seq::new(cells.len(), |i: int| i as usize))
                    &&& (ids@.len() != 0 ==> ids@.len() == cells.len() && layout.ids@ == ids@)
                    &&& layout.corner_cells@ == corner_grid(
                        if squares_y > 0 { squares_y - 1 } else { 0 },
                        if squares_x > 0 { squares_x - 1 } else { 0 },
                    )
                    &&& squares_x > 0 && squares_y > 0 ==> layout.corner_cells@.len() == (squares_x - 1) * (squares_y - 1)
                        && forall|x: int, y: int|
                        0 <= x < squares_x - 1 && 0 <= y < squares_y - 1 ==> #[trigger] layout.corner_cells@[y * (
                        squares_x - 1) + x] == ((x + 1) as usize, (y + 1) as usize)
                },
                Err(e) => ids@.len() != 0 && ids@.len() != cells.len() && e == BoardError::IdCount(cells.len() as usize),
            }
        }),
{
    let mut cells: Vec<(usize, usize)> = Vec::new();
    let mut y: usize = 0;
    while y < squares_y
        invariant
            y <= squares_y,
            cells@ == board_cells(y as int, squares_x as int, squares_y as int, legacy_pattern),
        decreases squares_y - y,
    {
        let ghost before = cells@;
        let mut x: usize = 0;
        while x < squares_x
            invariant
                y < squares_y,
                x <= squares_x,
                cells@ == before + row_cells(y as int, x as int, squares_y as int, legacy_pattern),
            decreases squares_x - x,
        {
            let marker = if legacy_pattern && squares_y % 2 == 0 {
                (y + 1) % 2 != x % 2
            } else {
                y % 2 != x % 2
            };
            if marker {
                cells.push((x, y));
                assert(cells@ =~= before + row_cells(y as int, x + 1, squares_y as int, legacy_pattern));
            }
            x = x + 1;
        }
        y = y + 1;
    }
    proof {
        lemma_board_cells_exact(squares_y as int, squares_x as int, squares_y as int, legacy_pattern);
    }
    let n = cells.len();
    let mut out_ids: Vec<usize> = Vec::new();
    if ids.len() == 0 {
        let mut i: usize = 0;
        while i < n
            invariant
                i <= n,
                out_ids@ == Seq::new(i as nat, |k: int| k as usize),
            decreases n - i,
        {
            out_ids.push(i);
            assert(out_ids@ =~= Seq::new((i + 1) as nat, |k: int| k as usize));
            i = i + 1;
        }
    } else if ids.len() != n {
        return Err(BoardError::IdCount(n));
    } else {
        out_ids = ids;
    }
    let rows: usize = if squares_y > 0 { squares_y - 1 } else { 0 };
    let cols: usize = if squares_x > 0 { squares_x - 1 } else { 0 };
    let mut corner_cells: Vec<(usize, usize)> = Vec::new();
    let mut r: usize = 0;
    while r < rows
        invariant
            r <= rows,
            rows < usize::MAX,
            cols < usize::MAX,
            corner_cells@ == corner_grid(r as int, cols as int),
        decreases rows - r,
    {
        let ghost before = corner_cells@;
        let mut x: usize = 0;
        while x < cols
            invariant
                r < rows,
                rows < usize::MAX,
                x <= cols,
                cols < usize::MAX,
                corner_cells@ == before + Seq::new(x as nat, |k: int| ((k + 1) as usize, (r + 1) as usize)),
            decreases cols - x,
        {
            corner_cells.push((x + 1, r + 1));
            assert(corner_cells@ =~= before + Seq::new((x + 1) as nat, |k: int| ((k + 1) as usize, (r + 1) as usize)));
            x = x + 1;
        }
        assert(corner_cells@ =~= corner_grid(r + 1, cols as int));
        r = r + 1;
    }
    proof {
        lemma_corner_grid_exact(rows as int, cols as int);
        assert(rows * cols == cols * rows) by (nonlinear_arith);
    }
    Ok(BoardLayout { marker_cells: cells, ids: out_ids, corner_cells })
}

} // verus!
