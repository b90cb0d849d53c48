use vstd::prelude::*;

use crate::error::Error;

verus! {

/// Width and height of the board.
pub const BOARD_SIZE: usize = 8;

/// A board coordinate: column, then row.
#[derive(Clone, Copy, Debug, PartialEq, Eq, Structural)]
pub struct Point(pub usize, pub usize);

/// The color of a stone.
#[derive(Clone, Copy, Debug, PartialEq, Eq, Structural)]
pub enum Stone {
    Black,
    White,
}

pub open spec fn in_board(p: Point) -> bool {
    p.0 < 8 && p.1 < 8
}

/// Color that moves in a given round: Black on even rounds, White on odd ones.
pub open spec fn color_of_round(round: int) -> Stone {
    if round % 2 == 0 { Stone::Black } else { Stone::White }
}

pub open spec fn opponent(s: Stone) -> Stone {
    match s {
        Stone::Black => Stone::White,
        Stone::White => Stone::Black,
    }
}

/// One step along an axis; walking off either end of `usize` wraps around.
pub open spec fn coord_step(v: usize, d: int) -> usize {
    if d < 0 {
        if v == 0 { usize::MAX } else { (v - 1) as usize }
    } else if d > 0 {
        if v == usize::MAX { 0 } else { (v + 1) as usize }
    } else {
        v
    }
}

pub open spec fn shift_point(p: Point, dx: int, dy: int) -> Point {
    Point(coord_step(p.0, dx), coord_step(p.1, dy))
}

impl Stone {
    /// The color that moves in `round`.
    pub fn from_round(round: usize) -> (r: Stone)
        ensures
            r == color_of_round(round as int),
    {
        if round % 2 == 0 {
            Stone::Black
        } else {
            Stone::White
        }
    }

    pub fn opponent(&self) -> (r: Stone)
        ensures
            r == opponent(*self),
    {
        match self {
            Stone::Black => Stone::White,
            Stone::White => Stone::Black,
        }
    }
}

fn coord_shift(v: usize, d: i8) -> (r: usize)
    ensures
        r == coord_step(v, d as int),
{
    if d < 0 {
        if v == 0 {
            usize::MAX
        } else {
            v - 1
        }
    } else if d > 0 {
        if v == usize::MAX {
            0
        } else {
            v + 1
        }
    } else {
        v
    }
}

impl Point {
    fn shift(&self, xd: i8, yd: i8) -> (r: Point)
        ensures
            r == shift_point(*self, xd as int, yd as int),
    {
        Point(coord_shift(self.0, xd), coord_shift(self.1, yd))
    }

    pub fn is_in_board(&self) -> (r: bool)
        ensures
            r == in_board(*self),
    {
        BOARD_SIZE > self.0 && BOARD_SIZE > self.1
    }
}


/// Index of an in-board point in the row-major cell sequence.
pub open spec fn cell_index(p: Point) -> int {
    p.1 * 8 + p.0
}

/// The in-board point stored at a given index of the cell sequence.
pub open spec fn point_of(i: int) -> Point {
    Point((i % 8) as usize, (i / 8) as usize)
}

/// What stands at `p` on a board whose cells are `cells`; nothing off the board.
pub open spec fn stone_at(cells: Seq<Option<Stone>>, p: Point) -> Option<Stone> {
    if in_board(p) {
        cells[cell_index(p)]
    } else {
        None
    }
}

/// The eight neighbor offsets, in the order in which chains are scanned.
pub open spec fn dir_x(k: int) -> int {
    if k < 3 { -1 } else if k < 5 { 0 } else { 1 }
}

pub open spec fn dir_y(k: int) -> int {
    if k == 0 || k == 3 || k == 5 { -1 } else if k == 1 || k == 6 { 0 } else { 1 }
}

/// Walks from `p` in direction (dx, dy) for at most `fuel` more cells, having
/// already passed the opposing stones in `acc`. Yields `acc` when a stone of
/// color `c` closes the run, else nothing.
pub open spec fn ray_from(
    cells: Seq<Option<Stone>>,
    p: Point,
    dx: int,
    dy: int,
    c: Stone,
    fuel: nat,
    acc: Seq<Point>,
) -> Seq<Point>
    decreases fuel,
{
    if fuel == 0 {
        Seq::empty()
    } else {
        let q = shift_point(p, dx, dy);
        match stone_at(cells, q) {
            None => Seq::empty(),
            Some(s) => if s == c {
                acc
            } else {
                ray_from(cells, q, dx, dy, c, (fuel - 1) as nat, acc.push(q))
            },
        }
    }
}

/// The stones that a stone of color `c` at `origin` would turn along one direction.
pub open spec fn ray(cells: Seq<Option<Stone>>, origin: Point, dx: int, dy: int, c: Stone) -> Seq<Point> {
    ray_from(cells, origin, dx, dy, c, 7, Seq::empty())
}

/// The chains of directions `k` and on. With `stop`, the first non-empty ray ends the scan.
pub open spec fn scan_from(cells: Seq<Option<Stone>>, origin: Point, c: Stone, stop: bool, k: int) -> Seq<Point>
    decreases 8 - k,
{
    if k >= 8 || k < 0 {
        Seq::empty()
    } else {
        let r = ray(cells, origin, dir_x(k), dir_y(k), c);
        if stop && r.len() > 0 {
            r
        } else {
            r + scan_from(cells, origin, c, stop, k + 1)
        }
    }
}

/// The flip chain of a stone of color `c` placed at `origin`.
pub open spec fn scan(cells: Seq<Option<Stone>>, origin: Point, c: Stone, stop: bool) -> Seq<Point> {
    scan_from(cells, origin, c, stop, 0)
}

/// Whether a stone of color `c` may be placed at `p`.
pub open spec fn is_legal(cells: Seq<Option<Stone>>, p: Point, c: Stone) -> bool {
    in_board(p) && stone_at(cells, p).is_none() && scan(cells, p, c, true).len() > 0
}

/// Ties a point to the origin it was reached from: `m` steps away along (dx, dy).
spec fn axis_at(o: usize, p: usize, d: int, m: int) -> bool {
    if d > 0 {
        p == o + m
    } else if d < 0 {
        p + m == o
    } else {
        p == o
    }
}

spec fn along(o: Point, p: Point, dx: int, dy: int, m: nat) -> bool {
    if m == 0 {
        p == o
    } else {
        in_board(p) && axis_at(o.0, p.0, dx, m as int) && axis_at(o.1, p.1, dy, m as int)
    }
}

/// What a chain is made of: opposing stones on the board, other than the origin.
spec fn chain_cell(cells: Seq<Option<Stone>>, o: Point, c: Stone, q: Point) -> bool {
    in_board(q) && q != o && stone_at(cells, q) == Some(opponent(c))
}

proof fn lemma_ray_from(
    cells: Seq<Option<Stone>>,
    o: Point,
    p: Point,
    dx: int,
    dy: int,
    c: Stone,
    fuel: nat,
    acc: Seq<Point>,
    m: nat,
)
    requires
        -1 <= dx <= 1,
        -1 <= dy <= 1,
        dx != 0 || dy != 0,
        in_board(o) ==> along(o, p, dx, dy, m),
        forall|i: int| 0 <= i < acc.len() ==> chain_cell(cells, o, c, #[trigger] acc[i]),
    ensures
        forall|i: int|
            0 <= i < ray_from(cells, p, dx, dy, c, fuel, acc).len() ==> chain_cell(
                cells,
                o,
                c,
                #[trigger] ray_from(cells, p, dx, dy, c, fuel, acc)[i],
            ),
    decreases fuel,
{
    if fuel > 0 {
        let q = shift_point(p, dx, dy);
        match stone_at(cells, q) {
            None => {},
            Some(s) => {
                if s == c {
                    assert(ray_from(cells, p, dx, dy, c, fuel, acc) == acc);
                } else {
                    assert(in_board(q));
                    assert(in_board(o) ==> along(o, q, dx, dy, m + 1));
                    assert(q != o);
                    assert(s == opponent(c));
                    let acc2 = acc.push(q);
                    assert forall|i: int| 0 <= i < acc2.len() implies chain_cell(cells, o, c, #[trigger] acc2[i]) by {
                        if i < acc.len() {
                            assert(acc2[i] == acc[i]);
                        }
                    }
                    lemma_ray_from(cells, o, q, dx, dy, c, (fuel - 1) as nat, acc2, m + 1);
                    assert(ray_from(cells, p, dx, dy, c, fuel, acc) == ray_from(
                        cells,
                        q,
                        dx,
                        dy,
                        c,
                        (fuel - 1) as nat,
                        acc2,
                    ));
                }
            },
        }
    }
}

proof fn lemma_scan_from(cells: Seq<Option<Stone>>, o: Point, c: Stone, stop: bool, k: int)
    ensures
        forall|i: int|
            0 <= i < scan_from(cells, o, c, stop, k).len() ==> chain_cell(
                cells,
                o,
                c,
                #[trigger] scan_from(cells, o, c, stop, k)[i],
            ),
    decreases 8 - k,
{
    if 0 <= k < 8 {
        lemma_ray_from(cells, o, o, dir_x(k), dir_y(k), c, 7, Seq::empty(), 0);
        lemma_scan_from(cells, o, c, stop, k + 1);
        let r = ray(cells, o, dir_x(k), dir_y(k), c);
        let rest = scan_from(cells, o, c, stop, k + 1);
        assert forall|i: int| 0 <= i < (r + rest).len() implies chain_cell(cells, o, c, #[trigger] (r + rest)[i]) by {
            if i < r.len() {
                assert((r + rest)[i] == r[i]);
            } else {
                assert((r + rest)[i] == rest[i - r.len()]);
            }
        }
    }
}

/// A flip chain holds only stones of the opposing color, all on the board, and
/// never the origin itself.
pub proof fn lemma_scan_in_board(cells: Seq<Option<Stone>>, origin: Point, c: Stone, stop: bool)
    ensures
        forall|i: int|
            0 <= i < scan(cells, origin, c, stop).len() ==> {
                let q = #[trigger] scan(cells, origin, c, stop)[i];
                in_board(q) && q != origin && stone_at(cells, q) == Some(opponent(c))
            },
{
    lemma_scan_from(cells, origin, c, stop, 0);
}

proof fn lemma_index(i: int, q: Point)
    requires
        0 <= i < 64,
        in_board(q),
    ensures
        in_board(point_of(i)),
        cell_index(point_of(i)) == i,
        (point_of(i) == q) == (i == cell_index(q)),
{
}

/// The outcome of placing a stone of color `c` at `p`.
pub open spec fn place_result(cells: Seq<Option<Stone>>, p: Point, c: Stone) -> Result<(), Error> {
    if !in_board(p) {
        Err(Error::OutOfBoard)
    } else if stone_at(cells, p).is_some() {
        Err(Error::StoneAlreadyExists)
    } else if scan(cells, p, c, false).len() == 0 {
        Err(Error::NoChainOccurred)
    } else {
        Ok(())
    }
}

/// The cells after a stone of color `c` is placed at `p` and its chain turned.
pub open spec fn after_place(cells: Seq<Option<Stone>>, p: Point, c: Stone) -> Seq<Option<Stone>> {
    Seq::new(
        64,
        |i: int|
            if point_of(i) == p || scan(cells, p, c, false).contains(point_of(i)) {
                Some(c)
            } else {
                cells[i]
            },
    )
}

/// How many of the first `n` cells hold `v`.
pub open spec fn count_upto(cells: Seq<Option<Stone>>, v: Option<Stone>, n: int) -> nat
    decreases n,
{
    if n <= 0 {
        0
    } else {
        count_upto(cells, v, n - 1) + if cells[n - 1] == v {
            1nat
        } else {
            0nat
        }
    }
}

/// How many cells of the board hold `v` (`None` counts the empty cells).
pub open spec fn count_of(cells: Seq<Option<Stone>>, v: Option<Stone>) -> nat {
    count_upto(cells, v, 64)
}

/// The starting position: Black on (3,3) and (4,4), White on (4,3) and (3,4).
pub open spec fn initial_cells() -> Seq<Option<Stone>> {
    Seq::new(
        64,
        |i: int|
            if i == 27 || i == 36 {
                Some(Stone::Black)
            } else if i == 28 || i == 35 {
                Some(Stone::White)
            } else {
                None
            },
    )
}

/// The `k`-th point in scan order: by column, then by row.
pub open spec fn scan_point(k: int) -> Point {
    Point((k / 8) as usize, (k % 8) as usize)
}

/// The legal moves for `c` among the first `n` points in scan order.
pub open spec fn legal_upto(cells: Seq<Option<Stone>>, c: Stone, n: int) -> Seq<Point>
    decreases n,
{
    if n <= 0 {
        Seq::empty()
    } else {
        let q = scan_point(n - 1);
        if is_legal(cells, q, c) {
            legal_upto(cells, c, n - 1).push(q)
        } else {
            legal_upto(cells, c, n - 1)
        }
    }
}

/// Every legal move for `c`, in scan order.
pub open spec fn legal_moves(cells: Seq<Option<Stone>>, c: Stone) -> Seq<Point> {
    legal_upto(cells, c, 64)
}

proof fn lemma_count_skip(cells: Seq<Option<Stone>>, v: Option<Stone>, a: int, n: int)
    requires
        0 <= a <= n,
        forall|i: int| a <= i < n ==> cells[i] != v,
    ensures
        count_upto(cells, v, n) == count_upto(cells, v, a),
    decreases n,
{
    if n > a {
        lemma_count_skip(cells, v, a, n - 1);
    }
}

proof fn lemma_count_bound(cells: Seq<Option<Stone>>, v: Option<Stone>, n: int)
    requires
        0 <= n,
    ensures
        count_upto(cells, v, n) <= n,
    decreases n,
{
    if n > 0 {
        lemma_count_bound(cells, v, n - 1);
    }
}

/// The starting position holds two stones of each color, on the four center
/// cells, Black on one diagonal and White on the other; the other sixty
/// cells are empty.
pub proof fn lemma_initial_position()
    ensures
        count_of(initial_cells(), Some(Stone::Black)) == 2,
        count_of(initial_cells(), Some(Stone::White)) == 2,
        count_of(initial_cells(), None) == 60,
        stone_at(initial_cells(), Point(3, 3)) == Some(Stone::Black),
        stone_at(initial_cells(), Point(4, 4)) == Some(Stone::Black),
        stone_at(initial_cells(), Point(3, 4)) == Some(Stone::White),
        stone_at(initial_cells(), Point(4, 3)) == Some(Stone::White),
        forall|p: Point|
            in_board(p) && !((p.0 == 3 || p.0 == 4) && (p.1 == 3 || p.1 == 4)) ==> stone_at(
                initial_cells(),
                p,
            ) is None,
{
    let cells = initial_cells();
    let b = Some(Stone::Black);
    let w = Some(Stone::White);
    lemma_count_skip(cells, b, 37, 64);
    lemma_count_skip(cells, b, 28, 36);
    lemma_count_skip(cells, b, 0, 27);
    lemma_count_skip(cells, w, 36, 64);
    lemma_count_skip(cells, w, 29, 35);
    lemma_count_skip(cells, w, 0, 28);
    lemma_count_all(cells, None, 27);
    lemma_count_skip(cells, None, 27, 29);
    lemma_count_all_from(cells, None, 29, 35);
    lemma_count_skip(cells, None, 35, 37);
    lemma_count_all_from(cells, None, 37, 64);
}

proof fn lemma_count_all(cells: Seq<Option<Stone>>, v: Option<Stone>, n: int)
    requires
        0 <= n,
        forall|i: int| 0 <= i < n ==> cells[i] == v,
    ensures
        count_upto(cells, v, n) == n,
    decreases n,
{
    if n > 0 {
        lemma_count_all(cells, v, n - 1);
    }
}

proof fn lemma_count_all_from(cells: Seq<Option<Stone>>, v: Option<Stone>, a: int, n: int)
    requires
        0 <= a <= n,
        forall|i: int| a <= i < n ==> cells[i] == v,
    ensures
        count_upto(cells, v, n) == count_upto(cells, v, a) + (n - a),
    decreases n,
{
    if n > a {
        lemma_count_all_from(cells, v, a, n - 1);
    }
}

/// Among the first `n` points in scan order there is no legal move exactly
/// when none of them is one.
pub proof fn lemma_legal_upto(cells: Seq<Option<Stone>>, c: Stone, n: int)
    requires
        0 <= n <= 64,
    ensures
        legal_upto(cells, c, n).len() == 0 <==> forall|k: int|
            0 <= k < n ==> !is_legal(cells, #[trigger] scan_point(k), c),
    decreases n,
{
    if n > 0 {
        lemma_legal_upto(cells, c, n - 1);
    }
}

/// There is no legal move for `c` exactly when no empty cell has a chain
/// under the scan that stops at the first chain found.
pub proof fn lemma_no_legal_moves(cells: Seq<Option<Stone>>, c: Stone)
    ensures
        legal_moves(cells, c).len() == 0 <==> forall|p: Point|
            in_board(p) && stone_at(cells, p) is None ==> #[trigger] scan(cells, p, c, true).len() == 0,
{
    lemma_legal_upto(cells, c, 64);
    assert forall|p: Point| in_board(p) implies #[trigger] scan_point(p.0 * 8 + p.1) == p by {}
    if legal_moves(cells, c).len() == 0 {
        assert forall|p: Point| in_board(p) && stone_at(cells, p) is None implies #[trigger] scan(cells, p, c, true).len() == 0 by {
            assert(scan_point(p.0 * 8 + p.1) == p);
            assert(!is_legal(cells, scan_point(p.0 * 8 + p.1), c));
        }
    }
}

/// A successful placement leaves `c` at `p` and turns at least one other
/// stone to `c`; a failed one is reported before anything changes (see `put`).
pub proof fn lemma_place_effect(cells: Seq<Option<Stone>>, p: Point, c: Stone)
    requires
        cells.len() == 64,
        place_result(cells, p, c) is Ok,
    ensures
        stone_at(after_place(cells, p, c), p) == Some(c),
        exists|q: Point|
            q != p && in_board(q) && stone_at(cells, q) != Some(c) && #[trigger] stone_at(
                after_place(cells, p, c),
                q,
            ) == Some(c),
{
    let chain = scan(cells, p, c, false);
    lemma_scan_in_board(cells, p, c, false);
    lemma_index(cell_index(p), p);
    let q = chain[0];
    lemma_index(cell_index(q), q);
    assert(chain.contains(q));
    assert(stone_at(after_place(cells, p, c), q) == Some(c));
}

proof fn lemma_count_one_less(a: Seq<Option<Stone>>, b: Seq<Option<Stone>>, v: Option<Stone>, j: int, n: int)
    requires
        0 <= j < n,
        a[j] == v,
        b[j] != v,
        forall|i: int| 0 <= i < n && i != j ==> (a[i] == v) == (b[i] == v),
    ensures
        count_upto(a, v, n) == count_upto(b, v, n) + 1,
    decreases n,
{
    if n - 1 > j {
        lemma_count_one_less(a, b, v, j, n - 1);
    } else {
        assert forall|i: int| 0 <= i < j implies (a[i] == v) == (b[i] == v) by {}
        lemma_count_same(a, b, v, j);
    }
}

proof fn lemma_count_same(a: Seq<Option<Stone>>, b: Seq<Option<Stone>>, v: Option<Stone>, n: int)
    requires
        forall|i: int| 0 <= i < n ==> (a[i] == v) == (b[i] == v),
    ensures
        count_upto(a, v, n) == count_upto(b, v, n),
    decreases n,
{
    if n > 0 {
        lemma_count_same(a, b, v, n - 1);
    }
}

/// Each successful placement fills exactly one empty cell.
pub proof fn lemma_place_fills_one(cells: Seq<Option<Stone>>, p: Point, c: Stone)
    requires
        cells.len() == 64,
        place_result(cells, p, c) is Ok,
    ensures
        count_of(after_place(cells, p, c), None) + 1 == count_of(cells, None),
{
    let after = after_place(cells, p, c);
    let chain = scan(cells, p, c, false);
    lemma_scan_in_board(cells, p, c, false);
    lemma_index(cell_index(p), p);
    assert forall|i: int| 0 <= i < 64 && i != cell_index(p) implies (cells[i] == None::<Stone>) == (after[i]
        == None::<Stone>) by {
        lemma_index(i, p);
        if chain.contains(point_of(i)) {
            let k = choose|k: int| 0 <= k < chain.len() && chain[k] == point_of(i);
            assert(stone_at(cells, chain[k]) == Some(opponent(c)));
        }
    }
    lemma_count_one_less(cells, after, None, cell_index(p), 64);
}

/// The symbols with which a board is drawn.
pub open spec fn cell_symbol(
    cells: Seq<Option<Stone>>,
    p: Point,
    empty_symbol: char,
    black_symbol: char,
    white_symbol: char,
    hint_symbol: char,
    stone_for_hint: Option<Stone>,
) -> char {
    if stone_for_hint is Some && is_legal(cells, p, stone_for_hint->0) {
        hint_symbol
    } else {
        match stone_at(cells, p) {
            Some(Stone::Black) => black_symbol,
            Some(Stone::White) => white_symbol,
            None => empty_symbol,
        }
    }
}

/// Row `y` of a drawn board, led by its index glyph when there is one.
pub open spec fn grid_row(
    cells: Seq<Option<Stone>>,
    y: int,
    empty_symbol: char,
    black_symbol: char,
    white_symbol: char,
    hint_symbol: char,
    stone_for_hint: Option<Stone>,
    y_index: Option<[char; 8]>,
) -> Seq<char> {
    let body = Seq::new(
        8,
        |x: int|
            cell_symbol(
                cells,
                Point(x as usize, y as usize),
                empty_symbol,
                black_symbol,
                white_symbol,
                hint_symbol,
                stone_for_hint,
            ),
    );
    match y_index {
        Some(ia) => seq![ia@[y]] + body,
        None => body,
    }
}

/// A drawn board: a header of column glyphs when there is one, then eight rows.
pub open spec fn grid(
    cells: Seq<Option<Stone>>,
    empty_symbol: char,
    black_symbol: char,
    white_symbol: char,
    hint_symbol: char,
    stone_for_hint: Option<Stone>,
    x_index: Option<[char; 8]>,
    y_index: Option<[char; 8]>,
) -> Seq<Seq<char>> {
    let rows = Seq::new(
        8,
        |y: int|
            grid_row(
                cells,
                y,
                empty_symbol,
                black_symbol,
                white_symbol,
                hint_symbol,
                stone_for_hint,
                y_index,
            ),
    );
    match x_index {
        Some(ia) => {
            let header = if y_index is Some {
                seq![' '] + ia@
            } else {
                ia@
            };
            seq![header] + rows
        },
        None => rows,
    }
}

proof fn lemma_scan_from_stop(cells: Seq<Option<Stone>>, o: Point, c: Stone, k: int)
    ensures
        (scan_from(cells, o, c, true, k).len() > 0) == (scan_from(cells, o, c, false, k).len() > 0),
    decreases 8 - k,
{
    if 0 <= k < 8 {
        lemma_scan_from_stop(cells, o, c, k + 1);
    }
}

/// The scan that stops at the first chain finds one exactly when the full
/// scan does.
pub proof fn lemma_scan_stop(cells: Seq<Option<Stone>>, o: Point, c: Stone)
    ensures
        (scan(cells, o, c, true).len() > 0) == (scan(cells, o, c, false).len() > 0),
{
    lemma_scan_from_stop(cells, o, c, 0);
}

/// A board with no empty cell leaves no legal move to either color.
pub proof fn lemma_full_board(cells: Seq<Option<Stone>>, c: Stone)
    requires
        cells.len() == 64,
        count_of(cells, None) == 0,
    ensures
        legal_moves(cells, c).len() == 0,
{
    assert forall|i: int| 0 <= i < 64 implies cells[i] != None::<Stone> by {
        lemma_count_zero(cells, None, 64, i);
    }
    lemma_no_legal_moves(cells, c);
    assert forall|p: Point| in_board(p) && stone_at(cells, p) is None implies #[trigger] scan(cells, p, c, true).len() == 0 by {
        assert(cells[cell_index(p)] != None::<Stone>);
    }
}

proof fn lemma_count_zero(cells: Seq<Option<Stone>>, v: Option<Stone>, n: int, i: int)
    requires
        0 <= i < n,
        count_upto(cells, v, n) == 0,
    ensures
        cells[i] != v,
    decreases n,
{
    if n - 1 > i {
        lemma_count_zero(cells, v, n - 1, i);
    }
}

/// A legal move is accepted by placement.
pub proof fn lemma_legal_accepted(cells: Seq<Option<Stone>>, p: Point, c: Stone)
    requires
        is_legal(cells, p, c),
    ensures
        place_result(cells, p, c) is Ok,
{
    lemma_scan_stop(cells, p, c);
}

proof fn lemma_scan_from_found(cells: Seq<Option<Stone>>, o: Point, c: Stone, stop: bool, k: int, j: int)
    requires
        0 <= k <= j < 8,
        ray(cells, o, dir_x(j), dir_y(j), c).len() > 0,
    ensures
        scan_from(cells, o, c, stop, k).len() > 0,
    decreases j - k,
{
    if k < j {
        lemma_scan_from_found(cells, o, c, stop, k + 1, j);
    }
}

/// Black has a legal move in the starting position: at (2,4) it turns (3,4).
pub proof fn lemma_opening_move()
    ensures
        is_legal(initial_cells(), Point(2, 4), Stone::Black),
        legal_moves(initial_cells(), Stone::Black).len() > 0,
{
    let cells = initial_cells();
    let o = Point(2, 4);
    assert(stone_at(cells, Point(3, 4)) == Some(Stone::White));
    assert(stone_at(cells, Point(4, 4)) == Some(Stone::Black));
    assert(shift_point(o, 1, 0) == Point(3, 4));
    assert(shift_point(Point(3, 4), 1, 0) == Point(4, 4));
    let acc = Seq::<Point>::empty().push(Point(3, 4));
    assert(ray_from(cells, Point(3, 4), 1, 0, Stone::Black, 6, acc) == acc);
    assert(ray(cells, o, dir_x(6), dir_y(6), Stone::Black).len() > 0);
    lemma_scan_from_found(cells, o, Stone::Black, true, 0, 6);
    assert(stone_at(cells, o) is None);
    lemma_no_legal_moves(cells, Stone::Black);
}

/// An 8x8 grid, each cell empty or holding a stone.
#[derive(Clone, Copy)]
pub struct Board {
    cells: [Option<Stone>; 64],
}

impl View for Board {
    type V = Seq<Option<Stone>>;

    closed spec fn view(&self) -> Seq<Option<Stone>> {
        self.cells@
    }
}

fn direction(k: usize) -> (r: (i8, i8))
    requires
        k < 8,
    ensures
        r.0 as int == dir_x(k as int),
        r.1 as int == dir_y(k as int),
{
    if k == 0 {
        (-1, -1)
    } else if k == 1 {
        (-1, 0)
    } else if k == 2 {
        (-1, 1)
    } else if k == 3 {
        (0, -1)
    } else if k == 4 {
        (0, 1)
    } else if k == 5 {
        (1, -1)
    } else if k == 6 {
        (1, 0)
    } else {
        (1, 1)
    }
}

impl Default for Board {
    /// The starting position.
    fn default() -> (r: Board)
        ensures
            r@ == initial_cells(),
    {
        let mut cells: [Option<Stone>; 64] = [None; 64];
        let lo: usize = BOARD_SIZE / 2 - 1;
        let hi: usize = lo + 1;
        // Colors alternate with the parity of x + y, as they do with the round.
        cells[lo * 8 + lo] = Some(Stone::from_round(lo + lo));
        cells[lo * 8 + hi] = Some(Stone::from_round(hi + lo));
        cells[hi * 8 + lo] = Some(Stone::from_round(lo + hi));
        cells[hi * 8 + hi] = Some(Stone::from_round(hi + hi));
        assert(cells@ =~= initial_cells());
        Board { cells }
    }
}

impl Board {
    /// A board always has sixty-four cells.
    pub proof fn lemma_cells_len(&self)
        ensures
            self@.len() == 64,
    {
    }

    pub open spec fn at(&self, p: Point) -> Option<Stone> {
        stone_at(self@, p)
    }

    /// The stone at `point`; `None` for an empty cell or a point off the board.
    pub fn get(&self, point: &Point) -> (r: Option<Stone>)
        ensures
            r == self.at(*point),
    {
        if point.is_in_board() {
            self.cells[point.1 * 8 + point.0]
        } else {
            None
        }
    }

    /// Places a stone of color `stone` at `point` and turns its flip chain.
    /// Fails, leaving the board as it was, off the board, on an occupied cell,
    /// or where no stone would be turned.
    pub fn put(&mut self, point: Point, stone: Stone) -> (r: Result<(), Error>)
        ensures
            r == place_result(old(self)@, point, stone),
            r is Ok ==> final(self)@ == after_place(old(self)@, point, stone),
            r is Err ==> final(self)@ == old(self)@,
    {
        if !point.is_in_board() {
            return Err(Error::OutOfBoard);
        } else if self.get(&point).is_some() {
            return Err(Error::StoneAlreadyExists);
        }
        let chain = self.scan_stones_turning(point, stone, false);
        if chain.len() == 0 {
            return Err(Error::NoChainOccurred);
        }
        let ghost old_cells = self@;
        proof {
            lemma_scan_in_board(old_cells, point, stone, false);
            assert forall|i: int| 0 <= i < 64 implies in_board(point_of(i)) && cell_index(point_of(i)) == i by {
                lemma_index(i, point);
            }
        }
        self.cells[point.1 * 8 + point.0] = Some(stone);
        let mut j: usize = 0;
        while j < chain.len()
            invariant
                j <= chain@.len(),
                chain@ == scan(old_cells, point, stone, false),
                old_cells.len() == 64,
                self@.len() == 64,
                in_board(point),
                forall|q: Point| #[trigger] chain@.contains(q) ==> in_board(q),
                forall|i: int| 0 <= i < 64 ==> in_board(point_of(i)) && cell_index(point_of(i)) == i,
                forall|i: int|
                    0 <= i < 64 ==> #[trigger] self@[i] == if point_of(i) == point || (exists|k: int|
                        0 <= k < j && chain@[k] == point_of(i)) {
                        Some(stone)
                    } else {
                        old_cells[i]
                    },
            decreases chain@.len() - j,
        {
            let q = chain[j];
            assert(chain@.contains(q));
            self.cells[q.1 * 8 + q.0] = Some(stone);
            assert forall|i: int| 0 <= i < 64 implies #[trigger] self@[i] == if point_of(i) == point || (exists|k: int|
                0 <= k < j + 1 && chain@[k] == point_of(i)) {
                Some(stone)
            } else {
                old_cells[i]
            } by {
                lemma_index(i, q);
                if point_of(i) == q {
                    assert(chain@[j as int] == point_of(i));
                }
            }
            j += 1;
        }
        assert(self@ =~= after_place(old_cells, point, stone)) by {
            assert forall|i: int| 0 <= i < 64 implies self@[i] == after_place(old_cells, point, stone)[i] by {
                if scan(old_cells, point, stone, false).contains(point_of(i)) {
                    let k = choose|k: int| 0 <= k < chain@.len() && chain@[k] == point_of(i);
                    assert(chain@[k] == point_of(i));
                }
            }
        }
        Ok(())
    }

    /// How many black and how many white stones stand on the board.
    pub fn count_stones(&self) -> (r: (usize, usize))
        ensures
            r.0 == count_of(self@, Some(Stone::Black)),
            r.1 == count_of(self@, Some(Stone::White)),
    {
        let mut black: usize = 0;
        let mut white: usize = 0;
        let mut i: usize = 0;
        while i < 64
            invariant
                i <= 64,
                self@.len() == 64,
                black == count_upto(self@, Some(Stone::Black), i as int),
                white == count_upto(self@, Some(Stone::White), i as int),
            decreases 64 - i,
        {
            proof {
                lemma_count_bound(self@, Some(Stone::Black), i as int);
                lemma_count_bound(self@, Some(Stone::White), i as int);
            }
            match self.cells[i] {
                Some(Stone::Black) => black += 1,
                Some(Stone::White) => white += 1,
                None => {},
            }
            i += 1;
        }
        (black, white)
    }

    /// Every empty cell where a stone of color `stone` would turn at least one
    /// stone, by column, then by row.
    pub fn scan_cells_placeable(&self, stone: Stone) -> (r: Vec<Point>)
        ensures
            r@ == legal_moves(self@, stone),
    {
        let mut result: Vec<Point> = Vec::new();
        let mut k: usize = 0;
        while k < 64
            invariant
                k <= 64,
                result@ == legal_upto(self@, stone, k as int),
            decreases 64 - k,
        {
            let p = Point(k / 8, k % 8);
            assert(p == scan_point(k as int));
            if self.get(&p).is_none() {
                let chain = self.scan_stones_turning(p, stone, true);
                if chain.len() > 0 {
                    result.push(p);
                }
            }
            k += 1;
        }
        result
    }

    fn symbol(
        &self,
        p: Point,
        empty_symbol: char,
        black_symbol: char,
        white_symbol: char,
        hint_symbol: char,
        stone_for_hint: Option<Stone>,
    ) -> (r: char)
        requires
            in_board(p),
        ensures
            r == cell_symbol(
                self@,
                p,
                empty_symbol,
                black_symbol,
                white_symbol,
                hint_symbol,
                stone_for_hint,
            ),
    {
        let cell = self.get(&p);
        if let Some(hint) = stone_for_hint {
            if cell.is_none() && self.scan_stones_turning(p, hint, true).len() > 0 {
                return hint_symbol;
            }
        }
        match cell {
            Some(Stone::Black) => black_symbol,
            Some(Stone::White) => white_symbol,
            None => empty_symbol,
        }
    }

    /// Draws the board as rows of characters, row by row; with
    /// `stone_for_hint`, the legal moves of that color show `hint_symbol`.
    /// Index glyphs, when given, lead each row and head the columns.
    pub fn format(
        &self,
        empty_symbol: char,
        black_symbol: char,
        white_symbol: char,
        hint_symbol: char,
        stone_for_hint: Option<Stone>,
        x_index: Option<[char; BOARD_SIZE]>,
        y_index: Option<[char; BOARD_SIZE]>,
    ) -> (r: Vec<Vec<char>>)
        ensures
            r@.len() == grid(
                self@,
                empty_symbol,
                black_symbol,
                white_symbol,
                hint_symbol,
                stone_for_hint,
                x_index,
                y_index,
            ).len(),
            forall|i: int|
                0 <= i < r@.len() ==> #[trigger] r@[i]@ == grid(
                    self@,
                    empty_symbol,
                    black_symbol,
                    white_symbol,
                    hint_symbol,
                    stone_for_hint,
                    x_index,
                    y_index,
                )[i],
    {
        let ghost g = grid(
            self@,
            empty_symbol,
            black_symbol,
            white_symbol,
            hint_symbol,
            stone_for_hint,
            x_index,
            y_index,
        );
        let mut result: Vec<Vec<char>> = Vec::new();
        let ghost skip: int = if x_index is Some { 1 } else { 0 };
        if let Some(ia) = x_index {
            let mut header: Vec<char> = Vec::new();
            if y_index.is_some() {
                header.push(' ');
            }
            let ghost lead = header@;
            let mut i: usize = 0;
            while i < BOARD_SIZE
                invariant
                    i <= 8,
                    header@ == lead + ia@.subrange(0, i as int),
                decreases 8 - i,
            {
                header.push(ia[i]);
                assert(ia@.subrange(0, i + 1) =~= ia@.subrange(0, i as int).push(ia@[i as int]));
                assert(lead + ia@.subrange(0, i + 1) =~= (lead + ia@.subrange(0, i as int)).push(ia@[i as int]));
                i += 1;
            }
            assert(ia@.subrange(0, 8) =~= ia@);
            assert(header@ =~= g[0]);
            result.push(header);
        }
        let mut y: usize = 0;
        while y < BOARD_SIZE
            invariant
                y <= 8,
                g == grid(
                    self@,
                    empty_symbol,
                    black_symbol,
                    white_symbol,
                    hint_symbol,
                    stone_for_hint,
                    x_index,
                    y_index,
                ),
                skip == if x_index is Some { 1int } else { 0int },
                g.len() == 8 + skip,
                result@.len() == skip + y,
                forall|i: int| 0 <= i < result@.len() ==> #[trigger] result@[i]@ == g[i],
            decreases 8 - y,
        {
            let ghost want = grid_row(
                self@,
                y as int,
                empty_symbol,
                black_symbol,
                white_symbol,
                hint_symbol,
                stone_for_hint,
                y_index,
            );
            let mut row: Vec<char> = Vec::new();
            if let Some(ia) = y_index {
                row.push(ia[y]);
            }
            let ghost lead = row@;
            let mut x: usize = 0;
            while x < BOARD_SIZE
                invariant
                    x <= 8,
                    y < 8,
                    y_index is Some ==> lead == seq![(y_index->0)@[y as int]],
                    y_index is None ==> lead.len() == 0,
                    row@.len() == lead.len() + x,
                    forall|j: int| 0 <= j < lead.len() ==> row@[j] == lead[j],
                    forall|j: int|
                        0 <= j < x ==> #[trigger] row@[lead.len() + j] == cell_symbol(
                            self@,
                            Point(j as usize, y),
                            empty_symbol,
                            black_symbol,
                            white_symbol,
                            hint_symbol,
                            stone_for_hint,
                        ),
                decreases 8 - x,
            {
                let c = self.symbol(
                    Point(x, y),
                    empty_symbol,
                    black_symbol,
                    white_symbol,
                    hint_symbol,
                    stone_for_hint,
                );
                row.push(c);
                x += 1;
            }
            assert(row@ =~= want) by {
                assert forall|j: int| lead.len() <= j < row@.len() implies row@[j] == want[j] by {
                    assert(row@[lead.len() + (j - lead.len())] == want[j]);
                }
            }
            assert(g[skip + y] == want);
            result.push(row);
            y += 1;
        }
        result
    }

    fn scan_ray(&self, origin: Point, dx: i8, dy: i8, stone: Stone) -> (r: Vec<Point>)
        ensures
            r@ == ray(self@, origin, dx as int, dy as int, stone),
    {
        let mut trace: Vec<Point> = Vec::new();
        let mut cur = origin;
        let mut i: usize = 0;
        while i < 7
            invariant
                i <= 7,
                ray(self@, origin, dx as int, dy as int, stone) == ray_from(
                    self@,
                    cur,
                    dx as int,
                    dy as int,
                    stone,
                    (7 - i) as nat,
                    trace@,
                ),
            decreases 7 - i,
        {
            let q = cur.shift(dx, dy);
            match self.get(&q) {
                None => {
                    return Vec::new();
                },
                Some(s) => {
                    if s == stone {
                        return trace;
                    }
                    trace.push(q);
                    cur = q;
                },
            }
            i += 1;
        }
        Vec::new()
    }

    /// The flip chain of a stone of color `org_stone` placed at `org_point`:
    /// along each of the eight directions, the opposing stones that a stone of
    /// `org_stone` closes. With `should_scan_one_only`, the scan ends at the
    /// first direction that yields a chain.
    pub fn scan_stones_turning(&self, org_point: Point, org_stone: Stone, should_scan_one_only: bool) -> (r: Vec<Point>)
        ensures
            r@ == scan(self@, org_point, org_stone, should_scan_one_only),
    {
        let mut result: Vec<Point> = Vec::new();
        let mut k: usize = 0;
        while k < 8
            invariant
                k <= 8,
                should_scan_one_only ==> result@.len() == 0,
                scan(self@, org_point, org_stone, should_scan_one_only) == result@ + scan_from(
                    self@,
                    org_point,
                    org_stone,
                    should_scan_one_only,
                    k as int,
                ),
            decreases 8 - k,
        {
            let (dx, dy) = direction(k);
            let mut r = self.scan_ray(org_point, dx, dy, org_stone);
            if should_scan_one_only && r.len() > 0 {
                assert(result@ + r@ =~= r@);
                return r;
            }
            let ghost before = result@;
            let ghost rr = r@;
            let ghost rest = scan_from(self@, org_point, org_stone, should_scan_one_only, k + 1);
            result.append(&mut r);
            assert(before + (rr + rest) =~= result@ + rest);
            k += 1;
        }
        assert(result@ + Seq::<Point>::empty() =~= result@);
        result
    }
}

} // verus!
