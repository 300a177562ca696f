use vstd::prelude::*;

verus! {

/// The tile value that wins the game.
pub const MAX_PIECE: u32 = 2048;

/// A board of tiles, indexed `[x][y]` with `(0, 0)` at the top left; a tile
/// of value 0 is an empty square.
pub struct Board {
    pub tiles: Vec<Vec<u32>>,
    pub width: usize,
    pub height: usize,
}

/// A board turned so that the direction `dir` faces up.
struct RotatedBoard {
    tiles: Vec<Vec<u32>>,
    width: usize,
    height: usize,
    dir: Direction,
}

/// A tile's move from its start square to its end square in one tilt.
#[derive(PartialEq, Eq, PartialOrd, Ord, Debug)]
pub struct MovingTile {
    pub start_x: usize,
    pub start_y: usize,
    pub end_x: usize,
    pub end_y: usize,
    pub value: u32,
}

/// The four directions in which the board can be tilted.
#[derive(Clone, Copy, Debug, PartialEq, Eq)]
pub enum Direction {
    North,
    East,
    South,
    West,
}

/// The columns of tiles.
pub open spec fn grid_of(tiles: Seq<Vec<u32>>) -> Seq<Seq<u32>> {
    tiles.map_values(|c: Vec<u32>| c@)
}

/// `g` has `w` columns of `h` squares each.
pub open spec fn has_dims(g: Seq<Seq<u32>>, w: int, h: int) -> bool {
    &&& g.len() == w
    &&& forall|x: int| 0 <= x < w ==> (#[trigger] g[x]).len() == h
}

impl View for Board {
    type V = Seq<Seq<u32>>;

    /// The tiles, column by column.
    open spec fn view(&self) -> Seq<Seq<u32>> {
        grid_of(self.tiles@)
    }
}

impl Board {
    /// The tiles form `width` columns of `height` squares, and the number of
    /// squares fits in a `usize`.
    pub open spec fn wf(&self) -> bool {
        &&& has_dims(self@, self.width as int, self.height as int)
        &&& self.width * self.height <= usize::MAX
    }

    /// A `width` by `height` board with the tiles `first` and then `second`
    /// added as `add_tile` adds them: each is a value and the rank of the
    /// empty square it goes to.
    pub fn new(width: usize, height: usize, first: (u32, usize), second: (u32, usize)) -> (r: Self)
        requires
            width * height <= usize::MAX,
            first.0 != 0,
            width * height == 0 || first.1 < width * height,
            width * height <= 1 || second.1 < width * height - 1,
        ensures
            r.wf(),
            r.width == width,
            r.height == height,
            r@ == with_tile(
                with_tile(empty_grid(width as int, height as int), first.0, first.1 as int),
                second.0,
                second.1 as int,
            ),
    {
        let mut board = Board { tiles: zero_grid(width, height), width, height };
        proof {
            lemma_empty_open_count(width as int, height as int);
        }
        add_tile(&mut board, first.0, first.1);
        proof {
            if width * height > 0 {
                lemma_open_count_after_tile(
                    empty_grid(width as int, height as int),
                    first.0,
                    first.1 as int,
                );
            }
        }
        add_tile(&mut board, second.0, second.1);
        board
    }
}

impl MovingTile {
    /// The move of a tile of `value` from `(start_x, start_y)` to `(end_x, end_y)`.
    pub fn new(start_x: usize, start_y: usize, end_x: usize, end_y: usize, value: u32) -> (r: Self)
        ensures
            r.start_x == start_x,
            r.start_y == start_y,
            r.end_x == end_x,
            r.end_y == end_y,
            r.value == value,
    {
        MovingTile { start_x, start_y, end_x, end_y, value }
    }
}

/// A column of `h` empty squares.
pub open spec fn empty_column(h: int) -> Seq<u32> {
    Seq::new(h as nat, |y: int| 0u32)
}

/// A `w` by `h` grid of empty squares.
pub open spec fn empty_grid(w: int, h: int) -> Seq<Seq<u32>> {
    Seq::new(w as nat, |x: int| empty_column(h))
}

/// `w` columns of `h` empty squares.
fn zero_grid(w: usize, h: usize) -> (r: Vec<Vec<u32>>)
    ensures
        grid_of(r@) == empty_grid(w as int, h as int),
{
    let mut tiles: Vec<Vec<u32>> = Vec::new();
    let mut x: usize = 0;
    while x < w
        invariant
            x <= w,
            tiles@.len() == x,
            grid_of(tiles@) == empty_grid(x as int, h as int),
        decreases w - x,
    {
        let mut col: Vec<u32> = Vec::new();
        let mut y: usize = 0;
        while y < h
            invariant
                y <= h,
                col@ == empty_column(y as int),
            decreases h - y,
        {
            col.push(0);
            y = y + 1;
            assert(col@ =~= empty_column(y as int));
        }
        let ghost before = tiles@;
        tiles.push(col);
        x = x + 1;
        assert forall|i: int| 0 <= i < x implies #[trigger] grid_of(tiles@)[i] == empty_grid(
            x as int,
            h as int,
        )[i] by {
            if i < x - 1 {
                assert(grid_of(tiles@)[i] == grid_of(before)[i]);
                assert(grid_of(before)[i] == empty_grid(x - 1, h as int)[i]);
            }
        }
        assert(grid_of(tiles@) =~= empty_grid(x as int, h as int));
    }
    tiles
}

/// The number of empty squares among the first `y` squares of column `c`.
pub open spec fn col_zeros(c: Seq<u32>, y: int) -> nat
    decreases y,
{
    if y <= 0 {
        0
    } else {
        col_zeros(c, y - 1) + if c[y - 1] == 0 {
            1nat
        } else {
            0nat
        }
    }
}

/// The number of empty squares in the first `x` columns of `g`.
pub open spec fn zeros_upto(g: Seq<Seq<u32>>, x: int) -> nat
    decreases x,
{
    if x <= 0 {
        0
    } else {
        zeros_upto(g, x - 1) + col_zeros(g[x - 1], g[x - 1].len() as int)
    }
}

/// The number of empty squares of `g`.
pub open spec fn open_count(g: Seq<Seq<u32>>) -> nat {
    zeros_upto(g, g.len() as int)
}

/// The number of empty squares that come before `(x, y)`, column by column.
pub open spec fn zeros_before(g: Seq<Seq<u32>>, x: int, y: int) -> nat {
    zeros_upto(g, x) + col_zeros(g[x], y)
}

/// `g` with `value` put on its empty square of rank `k` (counting column by
/// column from the top left); `g` itself when it has no empty square.
pub open spec fn with_tile(g: Seq<Seq<u32>>, value: u32, k: int) -> Seq<Seq<u32>> {
    if exists|x: int, y: int|
        0 <= x < g.len() && 0 <= y < g[x].len() && g[x][y] == 0 && zeros_before(g, x, y) == k {
        let (x, y) = choose|x: int, y: int|
            0 <= x < g.len() && 0 <= y < g[x].len() && g[x][y] == 0 && zeros_before(g, x, y) == k;
        g.update(x, g[x].update(y, value))
    } else {
        g
    }
}

proof fn lemma_col_zeros_bounded(c: Seq<u32>, y: int)
    requires
        0 <= y,
    ensures
        col_zeros(c, y) <= y,
    decreases y,
{
    if y > 0 {
        lemma_col_zeros_bounded(c, y - 1);
    }
}

proof fn lemma_zeros_upto_bounded(g: Seq<Seq<u32>>, x: int, h: int)
    requires
        0 <= x <= g.len(),
        0 <= h,
        forall|i: int| 0 <= i < g.len() ==> (#[trigger] g[i]).len() == h,
    ensures
        zeros_upto(g, x) <= x * h,
    decreases x,
{
    if x > 0 {
        lemma_zeros_upto_bounded(g, x - 1, h);
        lemma_col_zeros_bounded(g[x - 1], h);
        assert((x - 1) * h + h == x * h) by (nonlinear_arith);
    }
}

proof fn lemma_zeros_before_bounded(g: Seq<Seq<u32>>, x: int, y: int, w: int, h: int)
    requires
        has_dims(g, w, h),
        0 <= x < w,
        0 <= y <= h,
    ensures
        zeros_before(g, x, y) <= x * h + y,
        x * h + y <= w * h,
{
    lemma_zeros_upto_bounded(g, x, h);
    lemma_col_zeros_bounded(g[x], y);
    assert(x * h + y <= w * h) by (nonlinear_arith)
        requires
            0 <= x < w,
            0 <= y <= h,
    ;
}

proof fn lemma_col_zeros_all(h: int, y: int)
    requires
        0 <= y <= h,
    ensures
        col_zeros(empty_column(h), y) == y,
    decreases y,
{
    if y > 0 {
        lemma_col_zeros_all(h, y - 1);
    }
}

proof fn lemma_empty_open_count_upto(w: int, h: int, x: int)
    requires
        0 <= x <= w,
        0 <= h,
    ensures
        zeros_upto(empty_grid(w, h), x) == x * h,
    decreases x,
{
    if x > 0 {
        let g = empty_grid(w, h);
        lemma_empty_open_count_upto(w, h, x - 1);
        lemma_col_zeros_all(h, h);
        assert(g[x - 1] == empty_column(h));
        assert(g[x - 1].len() == h);
        assert(zeros_upto(g, x) == zeros_upto(g, x - 1) + col_zeros(g[x - 1], h));
        assert((x - 1) * h + h == x * h) by (nonlinear_arith);
    } else {
        assert(x * h == 0) by (nonlinear_arith)
            requires
                x == 0,
        ;
    }
}

/// An empty `w` by `h` grid has `w * h` empty squares.
proof fn lemma_empty_open_count(w: int, h: int)
    requires
        0 <= w,
        0 <= h,
    ensures
        open_count(empty_grid(w, h)) == w * h,
{
    lemma_empty_open_count_upto(w, h, w);
}

/// Counting zeros in a column changed at one square.
proof fn lemma_col_zeros_update(c: Seq<u32>, j: int, v: u32, y: int)
    requires
        0 <= j < c.len(),
        0 <= y <= c.len(),
    ensures
        col_zeros(c.update(j, v), y) == col_zeros(c, y) - (if j < y && c[j] == 0 {
            1int
        } else {
            0int
        }) + (if j < y && v == 0 {
            1int
        } else {
            0int
        }),
    decreases y,
{
    if y > 0 {
        lemma_col_zeros_update(c, j, v, y - 1);
    }
}

/// Counting zeros in columns when one column changes.
proof fn lemma_zeros_upto_update(g: Seq<Seq<u32>>, i: int, c: Seq<u32>, x: int)
    requires
        0 <= i < g.len(),
        0 <= x <= g.len(),
    ensures
        zeros_upto(g.update(i, c), x) == zeros_upto(g, x) + (if i < x {
            col_zeros(c, c.len() as int) - col_zeros(g[i], g[i].len() as int)
        } else {
            0int
        }),
    decreases x,
{
    if x > 0 {
        lemma_zeros_upto_update(g, i, c, x - 1);
    }
}

/// Filling one empty square leaves one empty square fewer.
proof fn lemma_open_count_after_tile(g: Seq<Seq<u32>>, value: u32, k: int)
    requires
        value != 0,
        0 <= k < open_count(g),
    ensures
        open_count(with_tile(g, value, k)) == open_count(g) - 1,
{
    lemma_rank_exists(g, k);
    let (x, y) = choose|x: int, y: int|
        0 <= x < g.len() && 0 <= y < g[x].len() && g[x][y] == 0 && zeros_before(g, x, y) == k;
    lemma_col_zeros_update(g[x], y, value, g[x].len() as int);
    lemma_zeros_upto_update(g, x, g[x].update(y, value), g.len() as int);
}

/// Every rank below the number of empty squares belongs to some empty square.
proof fn lemma_rank_exists(g: Seq<Seq<u32>>, k: int)
    requires
        0 <= k < open_count(g),
    ensures
        exists|x: int, y: int|
            0 <= x < g.len() && 0 <= y < g[x].len() && g[x][y] == 0 && zeros_before(g, x, y) == k,
{
    let x = lemma_column_of_rank(g, k, g.len() as int);
    let y = lemma_row_of_rank(g[x], k - zeros_upto(g, x), g[x].len() as int);
    assert(0 <= x < g.len() && 0 <= y < g[x].len() && g[x][y] == 0 && zeros_before(g, x, y) == k);
}

/// The column, among the first `n`, that holds the empty square of rank `k`.
proof fn lemma_column_of_rank(g: Seq<Seq<u32>>, k: int, n: int) -> (x: int)
    requires
        0 <= k < zeros_upto(g, n),
        n <= g.len(),
    ensures
        0 <= x < n,
        zeros_upto(g, x) <= k < zeros_upto(g, x) + col_zeros(g[x], g[x].len() as int),
    decreases n,
{
    if k >= zeros_upto(g, n - 1) {
        n - 1
    } else {
        lemma_column_of_rank(g, k, n - 1)
    }
}

/// The square, among the first `n` of column `c`, that is the empty square of
/// rank `k` in it.
proof fn lemma_row_of_rank(c: Seq<u32>, k: int, n: int) -> (y: int)
    requires
        0 <= k < col_zeros(c, n),
        n <= c.len(),
    ensures
        0 <= y < n,
        c[y] == 0,
        col_zeros(c, y) == k,
    decreases n,
{
    if k >= col_zeros(c, n - 1) {
        n - 1
    } else {
        lemma_row_of_rank(c, k, n - 1)
    }
}

/// Puts `v` on square `(x, y)`.
fn set_square(tiles: &mut Vec<Vec<u32>>, x: usize, y: usize, v: u32)
    requires
        x < old(tiles)@.len(),
        y < old(tiles)@[x as int]@.len(),
    ensures
        grid_of(final(tiles)@) == grid_of(old(tiles)@).update(
            x as int,
            grid_of(old(tiles)@)[x as int].update(y as int, v),
        ),
        final(tiles)@.len() == old(tiles)@.len(),
        forall|i: int|
            0 <= i < old(tiles)@.len() ==> (#[trigger] final(tiles)@[i])@.len() == old(tiles)@[i]@.len(),
{
    tiles[x][y] = v;
    assert(grid_of(tiles@) =~~= grid_of(old(tiles)@).update(
        x as int,
        grid_of(old(tiles)@)[x as int].update(y as int, v),
    ));
}

/// The number of empty squares on the board.
pub fn open_positions(board: &Board) -> (r: usize)
    requires
        board.wf(),
    ensures
        r == open_count(board@),
{
    let ghost g = board@;
    let ghost w = board.width as int;
    let ghost h = board.height as int;
    let mut count: usize = 0;
    let mut x: usize = 0;
    while x < board.width
        invariant
            board.wf(),
            g == board@,
            w == board.width,
            h == board.height,
            x <= board.width,
            count == zeros_upto(g, x as int),
        decreases board.width - x,
    {
        let mut y: usize = 0;
        while y < board.height
            invariant
                board.wf(),
                g == board@,
                w == board.width,
                h == board.height,
                x < board.width,
                y <= board.height,
                count == zeros_before(g, x as int, y as int),
            decreases board.height - y,
        {
            proof {
                lemma_zeros_before_bounded(g, x as int, y as int + 1, w, h);
            }
            assert(g[x as int][y as int] == board.tiles@[x as int]@[y as int]);
            if board.tiles[x][y] == 0 {
                count = count + 1;
            }
            y = y + 1;
        }
        x = x + 1;
    }
    count
}

/// The empty square of rank `pick`, counting column by column from the top
/// left, or `None` when there is none.
fn find_open(board: &Board, pick: usize) -> (r: Option<(usize, usize)>)
    requires
        board.wf(),
    ensures
        r matches Some((x, y)) ==> {
            &&& x < board.width
            &&& y < board.height
            &&& board@[x as int][y as int] == 0
            &&& zeros_before(board@, x as int, y as int) == pick
        },
        r is None ==> pick >= open_count(board@),
{
    let ghost g = board@;
    let mut idx: usize = pick;
    let mut x: usize = 0;
    while x < board.width
        invariant
            board.wf(),
            g == board@,
            x <= board.width,
            idx + zeros_upto(g, x as int) == pick,
        decreases board.width - x,
    {
        let mut y: usize = 0;
        while y < board.height
            invariant
                board.wf(),
                g == board@,
                x < board.width,
                y <= board.height,
                idx + zeros_before(g, x as int, y as int) == pick,
            decreases board.height - y,
        {
            assert(g[x as int][y as int] == board.tiles@[x as int]@[y as int]);
            if board.tiles[x][y] == 0 {
                if idx == 0 {
                    return Some((x, y));
                }
                idx = idx - 1;
            }
            y = y + 1;
        }
        x = x + 1;
    }
    None
}

/// Puts a tile of `value` on the empty square of rank `pick`, counting column
/// by column from the top left. Does nothing when no square is empty.
pub fn add_tile(board: &mut Board, value: u32, pick: usize)
    requires
        old(board).wf(),
        open_count(old(board)@) == 0 || pick < open_count(old(board)@),
    ensures
        final(board).wf(),
        final(board).width == old(board).width,
        final(board).height == old(board).height,
        final(board)@ == with_tile(old(board)@, value, pick as int),
{
    let ghost g = board@;
    match find_open(board, pick) {
        Some((x, y)) => {
            set_square(&mut board.tiles, x, y, value);
            proof {
                lemma_rank_unique(g, x as int, y as int, pick as int);
            }
        },
        None => {
            proof {
                if exists|x: int, y: int|
                    0 <= x < g.len() && 0 <= y < g[x].len() && g[x][y] == 0 && zeros_before(g, x, y)
                        == pick {
                    let (x, y) = choose|x: int, y: int|
                        0 <= x < g.len() && 0 <= y < g[x].len() && g[x][y] == 0 && zeros_before(
                            g,
                            x,
                            y,
                        ) == pick;
                    lemma_zeros_before_below_total(g, x, y);
                }
            }
        },
    }
}

/// The rank of an empty square is below the number of empty squares.
proof fn lemma_zeros_before_below_total(g: Seq<Seq<u32>>, x: int, y: int)
    requires
        0 <= x < g.len(),
        0 <= y < g[x].len(),
        g[x][y] == 0,
    ensures
        zeros_before(g, x, y) < open_count(g),
{
    lemma_col_zeros_mono(g[x], y + 1, g[x].len() as int);
    lemma_zeros_upto_mono(g, x + 1, g.len() as int);
}

proof fn lemma_col_zeros_mono(c: Seq<u32>, a: int, b: int)
    requires
        0 <= a <= b,
    ensures
        col_zeros(c, a) <= col_zeros(c, b),
    decreases b - a,
{
    if a < b {
        lemma_col_zeros_mono(c, a, b - 1);
    }
}

proof fn lemma_zeros_upto_mono(g: Seq<Seq<u32>>, a: int, b: int)
    requires
        0 <= a <= b,
    ensures
        zeros_upto(g, a) <= zeros_upto(g, b),
    decreases b - a,
{
    if a < b {
        lemma_zeros_upto_mono(g, a, b - 1);
    }
}

/// Two empty squares never share a rank.
proof fn lemma_rank_unique(g: Seq<Seq<u32>>, x: int, y: int, k: int)
    requires
        0 <= x < g.len(),
        0 <= y < g[x].len(),
        g[x][y] == 0,
        zeros_before(g, x, y) == k,
    ensures
        forall|x2: int, y2: int|
            0 <= x2 < g.len() && 0 <= y2 < g[x2].len() && g[x2][y2] == 0 && zeros_before(g, x2, y2)
                == k ==> x2 == x && y2 == y,
{
    assert forall|x2: int, y2: int|
        0 <= x2 < g.len() && 0 <= y2 < g[x2].len() && g[x2][y2] == 0 && zeros_before(g, x2, y2)
            == k implies x2 == x && y2 == y by {
        if x2 < x {
            lemma_col_zeros_mono(g[x2], y2 + 1, g[x2].len() as int);
            lemma_zeros_upto_mono(g, x2 + 1, x);
        } else if x < x2 {
            lemma_col_zeros_mono(g[x], y + 1, g[x].len() as int);
            lemma_zeros_upto_mono(g, x + 1, x2);
        } else if y2 < y {
            lemma_col_zeros_mono(g[x], y2 + 1, y);
        } else if y < y2 {
            lemma_col_zeros_mono(g[x], y + 1, y2);
        }
    }
}

/// Some tile has reached `MAX_PIECE`.
pub open spec fn has_max_tile(g: Seq<Seq<u32>>, w: int, h: int) -> bool {
    exists|x: int, y: int| 0 <= x < w && 0 <= y < h && #[trigger] g[x][y] == MAX_PIECE
}

/// Some square is empty.
pub open spec fn has_empty(g: Seq<Seq<u32>>, w: int, h: int) -> bool {
    exists|x: int, y: int| 0 <= x < w && 0 <= y < h && #[trigger] g[x][y] == 0
}

/// The tile at `(x, y)` equals its right or its lower neighbour. Over all
/// squares this covers every pair of neighbouring squares.
pub open spec fn mergeable_at(g: Seq<Seq<u32>>, w: int, h: int, x: int, y: int) -> bool {
    (x + 1 < w && g[x + 1][y] == g[x][y]) || (y + 1 < h && g[x][y + 1] == g[x][y])
}

/// A move is left: some square is empty, or two neighbouring squares hold
/// equal tiles.
pub open spec fn has_move(g: Seq<Seq<u32>>, w: int, h: int) -> bool {
    has_empty(g, w, h) || exists|x: int, y: int|
        0 <= x < w && 0 <= y < h && #[trigger] mergeable_at(g, w, h, x, y)
}

/// The game is over when no tile has reached `MAX_PIECE` and no move is left.
pub open spec fn is_over(g: Seq<Seq<u32>>, w: int, h: int) -> bool {
    !has_max_tile(g, w, h) && !has_move(g, w, h)
}

/// Whether `func` holds at some square of the board, visiting the squares
/// column by column.
fn traversing_utils<F: Fn(&Board, usize, usize) -> bool>(board: &Board, func: F) -> (r: bool)
    requires
        board.wf(),
        forall|x: usize, y: usize|
            x < board.width && y < board.height ==> #[trigger] func.requires((board, x, y)),
    ensures
        r ==> exists|x: usize, y: usize|
            x < board.width && y < board.height && #[trigger] func.ensures((board, x, y), true),
        !r ==> forall|x: usize, y: usize|
            x < board.width && y < board.height ==> #[trigger] func.ensures((board, x, y), false),
{
    let mut a: usize = 0;
    while a < board.width
        invariant
            board.wf(),
            a <= board.width,
            forall|x: usize, y: usize|
                x < board.width && y < board.height ==> #[trigger] func.requires((board, x, y)),
            forall|x: usize, y: usize|
                x < a && y < board.height ==> #[trigger] func.ensures((board, x, y), false),
        decreases board.width - a,
    {
        let mut b: usize = 0;
        while b < board.height
            invariant
                board.wf(),
                a < board.width,
                b <= board.height,
                forall|x: usize, y: usize|
                    x < board.width && y < board.height ==> #[trigger] func.requires((board, x, y)),
                forall|x: usize, y: usize|
                    x < a && y < board.height ==> #[trigger] func.ensures((board, x, y), false),
                forall|y: usize| y < b ==> #[trigger] func.ensures((board, a, y), false),
            decreases board.height - b,
        {
            if func(board, a, b) {
                return true;
            }
            b = b + 1;
        }
        a = a + 1;
    }
    false
}

/// Each column vector of a well-formed board holds `height` squares, as its
/// view says.
proof fn lemma_columns(board: &Board)
    requires
        board.wf(),
    ensures
        forall|x: int|
            0 <= x < board.width ==> (#[trigger] board.tiles@[x])@.len() == board.height && board@[x]
                == board.tiles@[x]@,
{
    assert forall|x: int| 0 <= x < board.width implies (#[trigger] board.tiles@[x])@.len()
        == board.height && board@[x] == board.tiles@[x]@ by {
        assert(board@[x] == board.tiles@[x]@);
    }
}

/// Whether the tile at `(x, y)` has reached `MAX_PIECE`.
fn holds_max_piece(board: &Board, x: usize, y: usize) -> (r: bool)
    requires
        board.wf(),
        x < board.width,
        y < board.height,
    ensures
        r == (board@[x as int][y as int] == MAX_PIECE),
{
    proof {
        lemma_columns(board);
    }
    board.tiles[x][y] == MAX_PIECE
}

/// Whether the square at `(x, y)` is empty.
fn holds_nothing(board: &Board, x: usize, y: usize) -> (r: bool)
    requires
        board.wf(),
        x < board.width,
        y < board.height,
    ensures
        r == (board@[x as int][y as int] == 0),
{
    proof {
        lemma_columns(board);
    }
    board.tiles[x][y] == 0
}

/// Whether the tile at `(x, y)` equals its right or its lower neighbour.
fn can_merge_at(board: &Board, x: usize, y: usize) -> (r: bool)
    requires
        board.wf(),
        x < board.width,
        y < board.height,
    ensures
        r == mergeable_at(board@, board.width as int, board.height as int, x as int, y as int),
{
    proof {
        lemma_columns(board);
    }
    let cur = board.tiles[x][y];
    if x + 1 < board.width && board.tiles[x + 1][y] == cur {
        return true;
    }
    if y + 1 < board.height && board.tiles[x][y + 1] == cur {
        return true;
    }
    false
}

fn max_tile_exists(board: &Board) -> (r: bool)
    requires
        board.wf(),
    ensures
        r == has_max_tile(board@, board.width as int, board.height as int),
{
    let r = traversing_utils(board, holds_max_piece);
    proof {
        if r {
            let (x, y) = choose|x: usize, y: usize|
                x < board.width && y < board.height && #[trigger] call_ensures(
                    holds_max_piece,
                    (board, x, y),
                    true,
                );
            assert(board@[x as int][y as int] == MAX_PIECE);
        } else {
            assert forall|x: int, y: int| 0 <= x < board.width && 0 <= y < board.height implies
                #[trigger] board@[x][y] != MAX_PIECE by {
                assert(call_ensures(holds_max_piece, (board, x as usize, y as usize), false));
            }
        }
    }
    r
}

fn empty_space_exists(board: &Board) -> (r: bool)
    requires
        board.wf(),
    ensures
        r == has_empty(board@, board.width as int, board.height as int),
{
    let r = traversing_utils(board, holds_nothing);
    proof {
        if r {
            let (x, y) = choose|x: usize, y: usize|
                x < board.width && y < board.height && #[trigger] call_ensures(
                    holds_nothing,
                    (board, x, y),
                    true,
                );
            assert(board@[x as int][y as int] == 0);
        } else {
            assert forall|x: int, y: int| 0 <= x < board.width && 0 <= y < board.height implies
                #[trigger] board@[x][y] != 0 by {
                assert(call_ensures(holds_nothing, (board, x as usize, y as usize), false));
            }
        }
    }
    r
}

fn at_least_one_move_exists(board: &Board) -> (r: bool)
    requires
        board.wf(),
    ensures
        r == has_move(board@, board.width as int, board.height as int),
{
    if empty_space_exists(board) {
        return true;
    }
    let r = traversing_utils(board, can_merge_at);
    let ghost w = board.width as int;
    let ghost h = board.height as int;
    proof {
        if r {
            let (x, y) = choose|x: usize, y: usize|
                x < board.width && y < board.height && #[trigger] call_ensures(
                    can_merge_at,
                    (board, x, y),
                    true,
                );
            assert(mergeable_at(board@, w, h, x as int, y as int));
        } else {
            assert forall|x: int, y: int| 0 <= x < w && 0 <= y < h implies !#[trigger] mergeable_at(
                board@,
                w,
                h,
                x,
                y,
            ) by {
                assert(call_ensures(can_merge_at, (board, x as usize, y as usize), false));
            }
        }
    }
    r
}

/// Whether the game is over: no tile has reached `MAX_PIECE` and no move is
/// left.
pub fn game_over(board: &Board) -> (r: bool)
    requires
        board.wf(),
    ensures
        r == is_over(board@, board.width as int, board.height as int),
{
    if max_tile_exists(board) || at_least_one_move_exists(board) {
        return false;
    }
    true
}

/// The width and height of a `w` by `h` board once turned so that `dir`
/// faces up.
pub open spec fn turned_dims(dir: Direction, w: int, h: int) -> (int, int) {
    match dir {
        Direction::North | Direction::South => (w, h),
        Direction::East | Direction::West => (h, w),
    }
}

/// The board square shown at `(x, y)` of a board turned so that `dir` faces
/// up, where `w` and `h` are the turned board's width and height.
pub open spec fn unturn(dir: Direction, w: int, h: int, x: int, y: int) -> (int, int) {
    match dir {
        Direction::North => (x, y),
        Direction::East => (h - 1 - y, x),
        Direction::South => (w - 1 - x, h - 1 - y),
        Direction::West => (y, w - 1 - x),
    }
}

/// Where board square `(i, j)` shows on the turned board: the inverse of
/// `unturn`.
pub open spec fn turn(dir: Direction, w: int, h: int, i: int, j: int) -> (int, int) {
    match dir {
        Direction::North => (i, j),
        Direction::East => (j, h - 1 - i),
        Direction::South => (w - 1 - i, h - 1 - j),
        Direction::West => (w - 1 - j, i),
    }
}

/// The grid `g` turned so that `dir` faces up; `w` and `h` are the turned
/// width and height.
pub open spec fn turned(g: Seq<Seq<u32>>, dir: Direction, w: int, h: int) -> Seq<Seq<u32>> {
    Seq::new(
        w as nat,
        |x: int|
            Seq::new(
                h as nat,
                |y: int| g[unturn(dir, w, h, x, y).0][unturn(dir, w, h, x, y).1],
            ),
    )
}

/// The turned grid `r`, of width `w` and height `h`, turned back.
pub open spec fn unturned(r: Seq<Seq<u32>>, dir: Direction, w: int, h: int) -> Seq<Seq<u32>> {
    Seq::new(
        turned_dims(dir, w, h).0 as nat,
        |i: int|
            Seq::new(
                turned_dims(dir, w, h).1 as nat,
                |j: int| r[turn(dir, w, h, i, j).0][turn(dir, w, h, i, j).1],
            ),
    )
}

impl RotatedBoard {
    /// The tiles form `width` columns of `height` squares.
    spec fn wf(&self) -> bool {
        &&& has_dims(grid_of(self.tiles@), self.width as int, self.height as int)
        &&& self.width * self.height <= usize::MAX
    }
}

/// The board square that shows at `(x, y)` of the turned board.
fn unrotate(rotated: &RotatedBoard, x: usize, y: usize) -> (r: (usize, usize))
    requires
        x < rotated.width,
        y < rotated.height,
    ensures
        r.0 == unturn(rotated.dir, rotated.width as int, rotated.height as int, x as int, y as int).0,
        r.1 == unturn(rotated.dir, rotated.width as int, rotated.height as int, x as int, y as int).1,
{
    match rotated.dir {
        Direction::North => (x, y),
        Direction::East => (rotated.height - 1 - y, x),
        Direction::South => (rotated.width - 1 - x, rotated.height - 1 - y),
        Direction::West => (y, rotated.width - 1 - x),
    }
}

/// The board turned so that `dir` faces up: tiles then fall towards row 0.
fn rotate_board(board: &Board, dir: Direction) -> (r: RotatedBoard)
    requires
        board.wf(),
    ensures
        r.wf(),
        r.dir == dir,
        (r.width as int, r.height as int) == turned_dims(dir, board.width as int, board.height as int),
        grid_of(r.tiles@) == turned(board@, dir, r.width as int, r.height as int),
{
    let (new_width, new_height) = match dir {
        Direction::North | Direction::South => (board.width, board.height),
        Direction::East | Direction::West => (board.height, board.width),
    };
    let mut rotated = RotatedBoard {
        tiles: zero_grid(new_width, new_height),
        width: new_width,
        height: new_height,
        dir,
    };
    proof {
        lemma_columns(board);
        assert(new_width * new_height == board.width * board.height) by (nonlinear_arith)
            requires
                (new_width == board.width && new_height == board.height) || (new_width
                    == board.height && new_height == board.width),
        ;
    }
    let ghost target = turned(board@, dir, new_width as int, new_height as int);
    let mut x: usize = 0;
    while x < new_width
        invariant
            board.wf(),
            forall|i: int| 0 <= i < board.width ==> (#[trigger] board.tiles@[i])@.len() == board.height && board@[i] == board.tiles@[i]@,
            rotated.width == new_width,
            rotated.height == new_height,
            rotated.dir == dir,
            (new_width as int, new_height as int) == turned_dims(dir, board.width as int, board.height as int),
            new_width * new_height <= usize::MAX,
            x <= new_width,
            target == turned(board@, dir, new_width as int, new_height as int),
            has_dims(grid_of(rotated.tiles@), new_width as int, new_height as int),
            forall|i: int| 0 <= i < x ==> #[trigger] grid_of(rotated.tiles@)[i] == target[i],
            forall|i: int| x <= i < new_width ==> #[trigger] grid_of(rotated.tiles@)[i] == empty_column(new_height as int),
        decreases new_width - x,
    {
        let mut y: usize = 0;
        while y < new_height
            invariant
                board.wf(),
                forall|i: int| 0 <= i < board.width ==> (#[trigger] board.tiles@[i])@.len() == board.height && board@[i] == board.tiles@[i]@,
                rotated.width == new_width,
                rotated.height == new_height,
                rotated.dir == dir,
                (new_width as int, new_height as int) == turned_dims(dir, board.width as int, board.height as int),
                x < new_width,
                y <= new_height,
                target == turned(board@, dir, new_width as int, new_height as int),
                has_dims(grid_of(rotated.tiles@), new_width as int, new_height as int),
                forall|i: int| 0 <= i < x ==> #[trigger] grid_of(rotated.tiles@)[i] == target[i],
                forall|i: int| x < i < new_width ==> #[trigger] grid_of(rotated.tiles@)[i] == empty_column(new_height as int),
                forall|j: int| 0 <= j < y ==> #[trigger] grid_of(rotated.tiles@)[x as int][j] == target[x as int][j],
            decreases new_height - y,
        {
            let (old_a, old_b) = unrotate(&rotated, x, y);
            let v = board.tiles[old_a][old_b];
            assert(grid_of(rotated.tiles@)[x as int] == rotated.tiles@[x as int]@);
            set_square(&mut rotated.tiles, x, y, v);
            assert(grid_of(rotated.tiles@)[x as int][y as int] == target[x as int][y as int]);
            y = y + 1;
        }
        assert(grid_of(rotated.tiles@)[x as int] =~= target[x as int]);
        x = x + 1;
    }
    assert(grid_of(rotated.tiles@) =~= target);
    rotated
}

/// `turn` and `unturn` are inverse bijections between the squares of a board
/// and those of the turned board.
proof fn lemma_turn_inverse(dir: Direction, w: int, h: int)
    ensures
        forall|x: int, y: int|
            0 <= x < w && 0 <= y < h ==> {
                let (i, j) = #[trigger] unturn(dir, w, h, x, y);
                &&& 0 <= i < turned_dims(dir, w, h).0
                &&& 0 <= j < turned_dims(dir, w, h).1
                &&& turn(dir, w, h, i, j) == (x, y)
            },
        forall|i: int, j: int|
            0 <= i < turned_dims(dir, w, h).0 && 0 <= j < turned_dims(dir, w, h).1 ==> {
                let (x, y) = #[trigger] turn(dir, w, h, i, j);
                &&& 0 <= x < w
                &&& 0 <= y < h
                &&& unturn(dir, w, h, x, y) == (i, j)
            },
{
}

/// The turned board turned back, so that north faces up again.
fn unrotate_board(rotated: RotatedBoard) -> (r: Board)
    requires
        rotated.wf(),
    ensures
        r.wf(),
        (r.width as int, r.height as int) == turned_dims(
            rotated.dir,
            rotated.width as int,
            rotated.height as int,
        ),
        r@ == unturned(
            grid_of(rotated.tiles@),
            rotated.dir,
            rotated.width as int,
            rotated.height as int,
        ),
{
    let (old_width, old_height) = match rotated.dir {
        Direction::North | Direction::South => (rotated.width, rotated.height),
        Direction::East | Direction::West => (rotated.height, rotated.width),
    };
    let ghost rw = rotated.width as int;
    let ghost rh = rotated.height as int;
    let ghost dir = rotated.dir;
    let ghost src = grid_of(rotated.tiles@);
    let ghost target = unturned(src, dir, rw, rh);
    let mut board = Board { tiles: zero_grid(old_width, old_height), width: old_width, height: old_height };
    proof {
        lemma_turn_inverse(dir, rw, rh);
        assert(old_width * old_height == rw * rh) by (nonlinear_arith)
            requires
                (old_width == rw && old_height == rh) || (old_width == rh && old_height == rw),
        ;
        assert forall|x: int| 0 <= x < rw implies (#[trigger] rotated.tiles@[x])@.len() == rh by {
            assert(src[x] == rotated.tiles@[x]@);
        }
    }
    let mut a: usize = 0;
    while a < rotated.width
        invariant
            rotated.wf(),
            forall|x: int| 0 <= x < rw ==> (#[trigger] rotated.tiles@[x])@.len() == rh,
            rw == rotated.width,
            rh == rotated.height,
            dir == rotated.dir,
            src == grid_of(rotated.tiles@),
            target == unturned(src, dir, rw, rh),
            (old_width as int, old_height as int) == turned_dims(dir, rw, rh),
            board.width == old_width,
            board.height == old_height,
            board.wf(),
            a <= rw,
            forall|i: int, j: int|
                0 <= i < old_width && 0 <= j < old_height && #[trigger] turn(dir, rw, rh, i, j).0 < a
                    ==> board@[i][j] == target[i][j],
        decreases rotated.width - a,
    {
        let mut b: usize = 0;
        while b < rotated.height
            invariant
                rotated.wf(),
                forall|x: int| 0 <= x < rw ==> (#[trigger] rotated.tiles@[x])@.len() == rh,
                rw == rotated.width,
                rh == rotated.height,
                dir == rotated.dir,
                src == grid_of(rotated.tiles@),
                target == unturned(src, dir, rw, rh),
                (old_width as int, old_height as int) == turned_dims(dir, rw, rh),
                board.width == old_width,
                board.height == old_height,
                board.wf(),
                a < rw,
                b <= rh,
                forall|i: int, j: int|
                    0 <= i < old_width && 0 <= j < old_height && (#[trigger] turn(dir, rw, rh, i, j).0
                        < a || (turn(dir, rw, rh, i, j).0 == a && turn(dir, rw, rh, i, j).1 < b))
                        ==> board@[i][j] == target[i][j],
            decreases rotated.height - b,
        {
            let (old_a, old_b) = unrotate(&rotated, a, b);
            assert(src[a as int] == rotated.tiles@[a as int]@);
            let v = rotated.tiles[a][b];
            proof {
                lemma_columns(&board);
            }
            set_square(&mut board.tiles, old_a, old_b, v);
            b = b + 1;
        }
        a = a + 1;
    }
    assert forall|i: int| 0 <= i < old_width implies #[trigger] board@[i] =~= target[i] by {
        assert forall|j: int| 0 <= j < old_height implies board@[i][j] == target[i][j] by {
            assert(turn(dir, rw, rh, i, j).0 < a);
        }
    }
    assert(board@ =~= target);
    board
}

/// The tiles of a column from the top down, without its empty squares.
pub open spec fn nonzero(c: Seq<u32>) -> Seq<u32>
    decreases c.len(),
{
    if c.len() == 0 {
        Seq::empty()
    } else if c[0] != 0 {
        seq![c[0]] + nonzero(c.drop_first())
    } else {
        nonzero(c.drop_first())
    }
}

/// Tiles packed towards the top, merged from the top down: two equal
/// neighbours become one tile of their sum, and a merged tile does not merge
/// again.
pub open spec fn merged(s: Seq<u32>) -> Seq<u32>
    decreases s.len(),
{
    if s.len() >= 2 && s[0] == s[1] {
        seq![(s[0] + s[1]) as u32] + merged(s.subrange(2, s.len() as int))
    } else if s.len() >= 1 {
        seq![s[0]] + merged(s.drop_first())
    } else {
        Seq::empty()
    }
}

/// The points that `merged` scores: the sum of the values of the tiles that
/// merges create.
pub open spec fn merge_score(s: Seq<u32>) -> int
    decreases s.len(),
{
    if s.len() >= 2 && s[0] == s[1] {
        s[0] + s[1] + merge_score(s.subrange(2, s.len() as int))
    } else if s.len() >= 1 {
        merge_score(s.drop_first())
    } else {
        0
    }
}

/// A column tilted towards its top: its merged tiles, then empty squares.
pub open spec fn slid(c: Seq<u32>) -> Seq<u32> {
    merged(nonzero(c)) + Seq::new((c.len() - merged(nonzero(c)).len()) as nat, |i: int| 0u32)
}

/// The sum of the tiles of a column.
pub open spec fn column_sum(c: Seq<u32>) -> int
    decreases c.len(),
{
    if c.len() == 0 {
        0
    } else {
        c[0] + column_sum(c.drop_first())
    }
}

/// A measure of how far down the tiles of a column sit: the sum of
/// `i + 1` over the occupied squares `i`.
spec fn depth(t: Seq<u32>) -> int
    decreases t.len(),
{
    if t.len() == 0 {
        0
    } else {
        depth(t.drop_last()) + if t.last() != 0 {
            t.len() as int
        } else {
            0
        }
    }
}

proof fn lemma_depth_update(t: Seq<u32>, i: int, v: u32)
    requires
        0 <= i < t.len(),
    ensures
        depth(t.update(i, v)) == depth(t) - (if t[i] != 0 {
            i + 1
        } else {
            0
        }) + (if v != 0 {
            i + 1
        } else {
            0
        }),
    decreases t.len(),
{
    let u = t.update(i, v);
    if i < t.len() - 1 {
        lemma_depth_update(t.drop_last(), i, v);
        assert(u.drop_last() =~= t.drop_last().update(i, v));
    } else {
        assert(u.drop_last() =~= t.drop_last());
    }
}

/// Skipping the square at `a` of the part of `t` from `a` on.
proof fn lemma_nonzero_step(t: Seq<u32>, a: int)
    requires
        0 <= a < t.len(),
    ensures
        nonzero(t.subrange(a, t.len() as int)) == if t[a] != 0 {
            seq![t[a]] + nonzero(t.subrange(a + 1, t.len() as int))
        } else {
            nonzero(t.subrange(a + 1, t.len() as int))
        },
{
    assert(t.subrange(a, t.len() as int).drop_first() =~= t.subrange(a + 1, t.len() as int));
}

/// Empty squares from `a` up to `b` do not count.
proof fn lemma_nonzero_gap(t: Seq<u32>, a: int, b: int)
    requires
        0 <= a <= b <= t.len(),
        forall|k: int| a <= k < b ==> t[k] == 0,
    ensures
        nonzero(t.subrange(a, t.len() as int)) == nonzero(t.subrange(b, t.len() as int)),
    decreases b - a,
{
    if a < b {
        lemma_nonzero_step(t, a);
        lemma_nonzero_gap(t, a + 1, b);
    }
}

/// Changing squares before `a` leaves the part from `a` on alone.
proof fn lemma_nonzero_frame(t: Seq<u32>, u: Seq<u32>, a: int)
    requires
        t.len() == u.len(),
        0 <= a <= t.len(),
        forall|k: int| a <= k < t.len() ==> t[k] == u[k],
    ensures
        nonzero(t.subrange(a, t.len() as int)) == nonzero(u.subrange(a, u.len() as int)),
{
    assert(t.subrange(a, t.len() as int) =~= u.subrange(a, u.len() as int));
}

/// Merges score no more than the tiles are worth.
proof fn lemma_merge_score_bounded(s: Seq<u32>)
    ensures
        0 <= merge_score(s) <= column_sum(s),
    decreases s.len(),
{
    if s.len() >= 2 && s[0] == s[1] {
        let rest = s.subrange(2, s.len() as int);
        lemma_merge_score_bounded(rest);
        assert(s.drop_first().drop_first() =~= rest);
        assert(column_sum(s.drop_first()) == s[1] + column_sum(s.drop_first().drop_first()));
        lemma_column_sum_nonneg(rest);
    } else if s.len() >= 1 {
        lemma_merge_score_bounded(s.drop_first());
    }
}

proof fn lemma_column_sum_nonneg(s: Seq<u32>)
    ensures
        column_sum(s) >= 0,
    decreases s.len(),
{
    if s.len() > 0 {
        lemma_column_sum_nonneg(s.drop_first());
    }
}

/// Merging at most one tile, or none, changes nothing.
proof fn lemma_merged_short(s: Seq<u32>)
    requires
        s.len() <= 1,
    ensures
        merged(s) == s,
        merge_score(s) == 0,
{
    if s.len() == 1 {
        let e = s.drop_first();
        assert(e.len() == 0);
        assert(merged(e) =~= Seq::<u32>::empty());
        assert(merge_score(e) == 0);
        assert(seq![s[0]] + merged(e) =~= s);
    } else {
        assert(s =~= Seq::<u32>::empty());
    }
}

/// The row of the first tile below `row` in column `col`, if any.
fn next_not_null_tile_row(rotated: &RotatedBoard, col: usize, row: usize) -> (r: Option<usize>)
    requires
        rotated.wf(),
        col < rotated.width,
        row < rotated.height,
    ensures
        r matches Some(pos) ==> {
            &&& row < pos < rotated.height
            &&& grid_of(rotated.tiles@)[col as int][pos as int] != 0
            &&& forall|k: int| row < k < pos ==> grid_of(rotated.tiles@)[col as int][k] == 0
        },
        r is None ==> forall|k: int|
            row < k < rotated.height ==> grid_of(rotated.tiles@)[col as int][k] == 0,
{
    let ghost t = grid_of(rotated.tiles@)[col as int];
    assert(t == rotated.tiles@[col as int]@);
    let mut pos: usize = row + 1;
    while pos < rotated.height
        invariant
            rotated.wf(),
            col < rotated.width,
            row < pos <= rotated.height,
            t == rotated.tiles@[col as int]@,
            t == grid_of(rotated.tiles@)[col as int],
            t.len() == rotated.height,
            forall|k: int| row < k < pos ==> t[k] == 0,
        decreases rotated.height - pos,
    {
        if rotated.tiles[col][pos] != 0 {
            return Some(pos);
        }
        pos = pos + 1;
    }
    None
}

/// The moves of `ms` from index `from` on start at tiles of the column `o`,
/// carry the values of those tiles, and no two start at the same square.
pub open spec fn column_moves(ms: Seq<MovingTile>, from: int, o: Seq<u32>) -> bool {
    &&& forall|i: int|
        from <= i < ms.len() ==> {
            &&& (#[trigger] ms[i]).start_y < o.len()
            &&& o[ms[i].start_y as int] != 0
            &&& ms[i].value == o[ms[i].start_y as int]
        }
    &&& forall|i: int, j: int|
        from <= i < ms.len() && from <= j < ms.len() && i != j ==> (#[trigger] ms[i]).start_y
            != (#[trigger] ms[j]).start_y
}

/// Some move of `ms` from index `from` on starts at row `y`.
pub open spec fn starts_at(ms: Seq<MovingTile>, from: int, y: int) -> bool {
    exists|i: int| from <= i < ms.len() && (#[trigger] ms[i]).start_y == y
}

/// The tile at row `k` of column `t` has no move yet, while the slide stands at
/// `row`: it lies further down, or it is the tile at `row` and nothing has
/// looked at it yet.
spec fn unmoved(t: Seq<u32>, row: int, k: int, fresh: bool) -> bool {
    (row < k < t.len() && t[k] != 0) || (k == row && t[row] != 0 && fresh)
}

proof fn lemma_push_move(ms: Seq<MovingTile>, from: int, o: Seq<u32>, m: MovingTile)
    requires
        0 <= from <= ms.len(),
        column_moves(ms, from, o),
        m.start_y < o.len(),
        o[m.start_y as int] != 0,
        m.value == o[m.start_y as int],
        !starts_at(ms, from, m.start_y as int),
    ensures
        column_moves(ms.push(m), from, o),
        starts_at(ms.push(m), from, m.start_y as int),
        forall|y: int| starts_at(ms, from, y) ==> #[trigger] starts_at(ms.push(m), from, y),
{
    let ms2 = ms.push(m);
    assert(ms2[ms.len() as int] == m);
    assert forall|i: int, j: int|
        from <= i < ms2.len() && from <= j < ms2.len() && i != j implies (#[trigger] ms2[i]).start_y
        != (#[trigger] ms2[j]).start_y by {
        if i == ms.len() {
            assert(ms2[j] == ms[j]);
        } else if j == ms.len() {
            assert(ms2[i] == ms[i]);
        } else {
            assert(ms2[i] == ms[i] && ms2[j] == ms[j]);
        }
    }
    assert forall|y: int| starts_at(ms, from, y) implies #[trigger] starts_at(ms2, from, y) by {
        let i = choose|i: int| from <= i < ms.len() && (#[trigger] ms[i]).start_y == y;
        assert(ms2[i] == ms[i]);
    }
}

/// A move recorded within column `col` of a turned board of height `h`.
pub open spec fn moves_within(m: MovingTile, col: int, w: int, h: int) -> bool {
    &&& m.start_x == col
    &&& m.end_x == col
    &&& col < w
    &&& m.start_y < h
    &&& m.end_y < h
}

/// Tilts column `col` of the turned board towards its top, as `slid` says,
/// and records each tile's move. Gives whether the column changed and the
/// points that its merges scored.
#[verifier::rlimit(100)]
fn slide_column(rotated: &mut RotatedBoard, col: usize, movings: &mut Vec<MovingTile>) -> (r: (bool, u32))
    requires
        old(rotated).wf(),
        col < old(rotated).width,
        merge_score(nonzero(grid_of(old(rotated).tiles@)[col as int])) <= u32::MAX,
    ensures
        final(rotated).wf(),
        final(rotated).width == old(rotated).width,
        final(rotated).height == old(rotated).height,
        final(rotated).dir == old(rotated).dir,
        grid_of(final(rotated).tiles@) == grid_of(old(rotated).tiles@).update(
            col as int,
            slid(grid_of(old(rotated).tiles@)[col as int]),
        ),
        r.0 == (slid(grid_of(old(rotated).tiles@)[col as int]) != grid_of(
            old(rotated).tiles@,
        )[col as int]),
        r.1 == merge_score(nonzero(grid_of(old(rotated).tiles@)[col as int])),
        final(movings)@.len() >= old(movings)@.len(),
        forall|i: int| 0 <= i < old(movings)@.len() ==> final(movings)@[i] == old(movings)@[i],
        forall|i: int|
            old(movings)@.len() <= i < final(movings)@.len() ==> moves_within(
                #[trigger] final(movings)@[i],
                col as int,
                old(rotated).width as int,
                old(rotated).height as int,
            ),
        column_moves(final(movings)@, old(movings)@.len() as int, grid_of(old(rotated).tiles@)[col as int]),
        forall|i: int|
            old(movings)@.len() <= i < final(movings)@.len() ==> slid(grid_of(old(rotated).tiles@)[col as int])[(
            #[trigger] final(movings)@[i]).end_y as int] != 0,
        forall|k: int|
            0 <= k < old(rotated).height && grid_of(old(rotated).tiles@)[col as int][k] != 0 ==> starts_at(
                final(movings)@,
                old(movings)@.len() as int,
                k,
            ),
{
    let ghost g0 = grid_of(rotated.tiles@);
    let ghost o = g0[col as int];
    let ghost m0 = movings@;
    let ghost w = rotated.width as int;
    let h = rotated.height;
    let mut score: u32 = 0;
    let mut row: usize = 0;
    let mut is_merged = false;
    let mut is_moving = false;
    let mut last_merged: usize = 0;
    let mut is_checked = false;
    let mut is_changed = false;
    proof {
        assert(o.subrange(0, h as int) =~= o);
        assert(o.take(0) =~= Seq::<u32>::empty());
        assert(Seq::<u32>::empty() + merged(nonzero(o)) =~= merged(nonzero(o)));
        if h == 0 {
            assert(o =~= Seq::<u32>::empty());
            assert(slid(o) =~= o);
            assert(g0.update(col as int, slid(o)) =~= g0);
        }
    }
    while row < h
        invariant_except_break
            column_moves(movings@, m0.len() as int, o),
            forall|i: int| m0.len() <= i < movings@.len() ==> {
                &&& (#[trigger] movings@[i]).end_y <= row
                &&& (movings@[i].end_y == row ==> grid_of(rotated.tiles@)[col as int][row as int] != 0)
                &&& !unmoved(grid_of(rotated.tiles@)[col as int], row as int, movings@[i].start_y as int, !is_checked && !is_changed)
            },
            forall|k: int| 0 <= k < h && o[k] != 0 ==> unmoved(grid_of(rotated.tiles@)[col as int], row as int, k, !is_checked && !is_changed)
                || starts_at(movings@, m0.len() as int, k),
        invariant
            rotated.wf(),
            rotated.width == w,
            rotated.height == h,
            rotated.dir == old(rotated).dir,
            col < w,
            g0 == grid_of(old(rotated).tiles@),
            o == g0[col as int],
            o.len() == h,
            grid_of(rotated.tiles@).len() == g0.len(),
            forall|x: int| 0 <= x < g0.len() && x != col ==> #[trigger] grid_of(rotated.tiles@)[x] == g0[x],
            grid_of(rotated.tiles@)[col as int].len() == h,
            h > 0 ==> row < h,
            h == 0 ==> !is_changed && slid(o) == o && grid_of(rotated.tiles@) == g0.update(
                col as int,
                slid(o),
            ),
            merged(nonzero(o)) == grid_of(rotated.tiles@)[col as int].take(row as int) + merged(
                nonzero(grid_of(rotated.tiles@)[col as int].subrange(row as int, h as int)),
            ),
            score + merge_score(
                nonzero(grid_of(rotated.tiles@)[col as int].subrange(row as int, h as int)),
            ) == merge_score(nonzero(o)),
            merge_score(nonzero(o)) <= u32::MAX,
            is_checked ==> grid_of(rotated.tiles@)[col as int][row as int] != 0,
            is_merged ==> last_merged < row,
            is_changed ==> depth(grid_of(rotated.tiles@)[col as int]) < depth(o),
            !is_changed ==> grid_of(rotated.tiles@)[col as int] == o,
            movings@.len() >= m0.len(),
            forall|i: int| 0 <= i < m0.len() ==> movings@[i] == m0[i],
            forall|i: int| m0.len() <= i < movings@.len() ==> moves_within(#[trigger] movings@[i], col as int, w, h as int),
            is_moving == is_changed,
            forall|k: int| row < k < h && grid_of(rotated.tiles@)[col as int][k] != 0 ==> grid_of(rotated.tiles@)[col as int][k] == o[k],
            forall|k: int| 0 <= k < row ==> grid_of(rotated.tiles@)[col as int][k] != 0,
            is_changed && !is_checked && h > 0 ==> grid_of(rotated.tiles@)[col as int][row as int] == 0,
            is_changed && is_checked && row + 1 < h ==> grid_of(rotated.tiles@)[col as int][row + 1] == 0,
        ensures
            column_moves(movings@, m0.len() as int, o),
            forall|i: int| m0.len() <= i < movings@.len() ==> slid(o)[(#[trigger] movings@[i]).end_y as int] != 0,
            forall|k: int| 0 <= k < h && o[k] != 0 ==> starts_at(movings@, m0.len() as int, k),
            rotated.wf(),
            rotated.width == w,
            rotated.height == h,
            rotated.dir == old(rotated).dir,
            grid_of(rotated.tiles@) == g0.update(col as int, slid(o)),
            is_changed == (slid(o) != o),
            score == merge_score(nonzero(o)),
            movings@.len() >= m0.len(),
            forall|i: int| 0 <= i < m0.len() ==> movings@[i] == m0[i],
            forall|i: int| m0.len() <= i < movings@.len() ==> moves_within(#[trigger] movings@[i], col as int, w, h as int),
        decreases 2 * (h - row) + if is_checked {
            0int
        } else {
            1int
        },
    {
        let ghost t = grid_of(rotated.tiles@)[col as int];
        assert(t == rotated.tiles@[col as int]@);
        let cur = rotated.tiles[col][row];
        let ghost fresh0 = !is_checked && !is_changed;
        let ghost ms0 = movings@;
        let ghost from = m0.len() as int;
        if cur != 0 && !is_moving && !is_checked {
            proof {
                assert(t == o);
                if starts_at(ms0, from, row as int) {
                    let i = choose|i: int| from <= i < ms0.len() && (#[trigger] ms0[i]).start_y == row;
                    assert(!unmoved(t, row as int, ms0[i].start_y as int, fresh0));
                }
            }
            movings.push(MovingTile::new(col, row, col, row, cur));
            proof {
                lemma_push_move(ms0, from, o, movings@[ms0.len() as int]);
                assert(movings@ == ms0.push(movings@[ms0.len() as int]));
            }
        }
        let ghost ms1 = movings@;
        proof {
            assert forall|k: int| 0 <= k < h && o[k] != 0 && !(k == row && fresh0) implies
                unmoved(t, row as int, k, false) || starts_at(ms1, from, k) by {
                if starts_at(ms0, from, k) && ms1 != ms0 {
                    assert(starts_at(ms1, from, k));
                }
            }
            assert(fresh0 && cur != 0 ==> starts_at(ms1, from, row as int)) by {
                if fresh0 && cur != 0 {
                    assert(ms1[ms0.len() as int].start_y == row);
                }
            }
            assert forall|i: int| from <= i < ms1.len() implies {
                &&& (#[trigger] ms1[i]).end_y <= row
                &&& (ms1[i].end_y == row ==> t[row as int] != 0)
                &&& !(row < ms1[i].start_y && t[ms1[i].start_y as int] != 0)
            } by {
                if i < ms0.len() {
                    assert(ms1[i] == ms0[i]);
                }
            }
        }
        match next_not_null_tile_row(rotated, col, row) {
            None => {
                proof {
                    let p = nonzero(t.subrange(row as int, h as int));
                    lemma_nonzero_step(t, row as int);
                    lemma_nonzero_gap(t, row as int + 1, h as int);
                    assert(t.subrange(h as int, h as int) =~= Seq::<u32>::empty());
                    lemma_merged_short(p);
                    let s = slid(o);
                    assert forall|i: int| 0 <= i < h implies #[trigger] s[i] == t[i] by {
                        if i < row {
                            assert(merged(nonzero(o))[i] == t.take(row as int)[i]);
                        }
                    }
                    assert(s =~= t);
                    assert(grid_of(rotated.tiles@) =~= g0.update(col as int, slid(o)));
                    if is_changed {
                        assert(t != o);
                    }
                    assert forall|i: int| from <= i < movings@.len() implies slid(o)[(
                    #[trigger] movings@[i]).end_y as int] != 0 by {
                        assert(ms1[i] == movings@[i]);
                    }
                    assert forall|k: int| 0 <= k < h && o[k] != 0 implies starts_at(movings@, from, k) by {
                        if k == row && fresh0 {
                            if cur == 0 {
                                assert(t[k] == o[k]);
                            }
                        }
                    }
                }
                break;
            },
            Some(pos) => {
                if last_merged != row {
                    is_merged = false;
                }
                let next = rotated.tiles[col][pos];
                let ghost p = nonzero(t.subrange(row as int, h as int));
                let ghost rest = nonzero(t.subrange(pos + 1, h as int));
                proof {
                    lemma_nonzero_step(t, row as int);
                    lemma_nonzero_gap(t, row as int + 1, pos as int);
                    lemma_nonzero_step(t, pos as int);
                }
                if cur == 0 || !is_merged && cur == next {
                    proof {
                        if cur != 0 {
                            assert(p == seq![cur, next] + rest);
                            assert(p.subrange(2, p.len() as int) =~= rest);
                            assert(merge_score(p) == cur + next + merge_score(rest));
                            lemma_merge_score_bounded(rest);
                        }
                    }
                    if cur != 0 && row != pos {
                        score = score + next * 2;
                        is_merged = true;
                        last_merged = row;
                    }
                    is_changed = true;
                    is_moving = true;
                    set_square(&mut rotated.tiles, col, pos, 0);
                    set_square(&mut rotated.tiles, col, row, cur + next);
                    proof {
                        if starts_at(ms1, from, pos as int) {
                            let i = choose|i: int| from <= i < ms1.len() && (#[trigger] ms1[i]).start_y == pos;
                            assert(!(row < ms1[i].start_y && t[ms1[i].start_y as int] != 0));
                        }
                        assert(o[pos as int] == next);
                    }
                    movings.push(MovingTile::new(col, pos, col, row, next));
                    proof {
                        lemma_push_move(ms1, from, o, movings@[ms1.len() as int]);
                        assert(movings@ == ms1.push(movings@[ms1.len() as int]));
                        let t1 = grid_of(rotated.tiles@)[col as int];
                        assert(t1 == t.update(pos as int, 0).update(row as int, (cur + next) as u32));
                        lemma_depth_update(t, pos as int, 0);
                        lemma_depth_update(t.update(pos as int, 0), row as int, (cur + next) as u32);
                        lemma_nonzero_gap(t1, row as int + 1, pos as int);
                        lemma_nonzero_step(t1, pos as int);
                        lemma_nonzero_frame(t1, t, pos as int + 1);
                        lemma_nonzero_step(t1, row as int);
                        if cur == 0 {
                            assert(t1.take(row as int) =~= t.take(row as int));
                        } else {
                            assert(t1.take(row as int + 1) =~= t.take(row as int) + seq![(cur + next) as u32]);
                            assert(t.take(row as int) + merged(p) =~= t.take(row as int) + seq![
                                (cur + next) as u32] + merged(rest));
                        }
                    }
                } else {
                    proof {
                        assert(p == seq![cur] + nonzero(t.subrange(row as int + 1, h as int)));
                        assert(p.drop_first() =~= nonzero(t.subrange(row as int + 1, h as int)));
                        assert(t.take(row as int + 1) =~= t.take(row as int) + seq![cur]);
                        assert(t.take(row as int) + merged(p) =~= t.take(row as int) + seq![cur] + merged(p.drop_first()));
                    }
                }
                if row == pos {
                    break;
                }
                if is_checked || is_merged {
                    is_checked = false;
                    row = row + 1;
                } else {
                    is_checked = true;
                }
            },
        }
    }
    (is_changed, score)
}

/// The board `g`, `w` by `h`, after a tilt towards `dir`: in each line along
/// `dir` the tiles slide towards `dir` and equal neighbours merge, as `slid`
/// says of a column tilted towards its top.
pub open spec fn tilted(g: Seq<Seq<u32>>, dir: Direction, w: int, h: int) -> Seq<Seq<u32>> {
    let tw = turned_dims(dir, w, h).0;
    let th = turned_dims(dir, w, h).1;
    let r = turned(g, dir, tw, th);
    unturned(Seq::new(tw as nat, |x: int| slid(r[x])), dir, tw, th)
}

/// The points scored by the first `x` columns of the turned grid `r`.
pub open spec fn score_upto(r: Seq<Seq<u32>>, x: int) -> int
    decreases x,
{
    if x <= 0 {
        0
    } else {
        score_upto(r, x - 1) + merge_score(nonzero(r[x - 1]))
    }
}

/// The points that a tilt of `g` towards `dir` scores: the sum of the values
/// of the tiles that merges create.
pub open spec fn tilt_score(g: Seq<Seq<u32>>, dir: Direction, w: int, h: int) -> int {
    let tw = turned_dims(dir, w, h).0;
    let th = turned_dims(dir, w, h).1;
    score_upto(turned(g, dir, tw, th), tw)
}

/// Turning a grid and turning it back gives the grid.
proof fn lemma_unturned_turned(g: Seq<Seq<u32>>, dir: Direction, w: int, h: int)
    requires
        has_dims(g, w, h),
    ensures
        unturned(
            turned(g, dir, turned_dims(dir, w, h).0, turned_dims(dir, w, h).1),
            dir,
            turned_dims(dir, w, h).0,
            turned_dims(dir, w, h).1,
        ) == g,
{
    let tw = turned_dims(dir, w, h).0;
    let th = turned_dims(dir, w, h).1;
    lemma_turn_inverse(dir, tw, th);
    let u = unturned(turned(g, dir, tw, th), dir, tw, th);
    assert forall|i: int| 0 <= i < w implies #[trigger] u[i] =~= g[i] by {
        assert forall|j: int| 0 <= j < h implies u[i][j] == g[i][j] by {
            let (x, y) = turn(dir, tw, th, i, j);
            assert(unturn(dir, tw, th, x, y) == (i, j));
        }
    }
    assert(u =~= g);
}

/// Turning back a turned grid and turning it again gives the turned grid.
proof fn lemma_turned_unturned(a: Seq<Seq<u32>>, dir: Direction, tw: int, th: int)
    requires
        has_dims(a, tw, th),
    ensures
        turned(unturned(a, dir, tw, th), dir, tw, th) == a,
{
    lemma_turn_inverse(dir, tw, th);
    let t = turned(unturned(a, dir, tw, th), dir, tw, th);
    assert forall|x: int| 0 <= x < tw implies #[trigger] t[x] =~= a[x] by {
        assert forall|y: int| 0 <= y < th implies t[x][y] == a[x][y] by {
            let (i, j) = unturn(dir, tw, th, x, y);
            assert(turn(dir, tw, th, i, j) == (x, y));
        }
    }
    assert(t =~= a);
}

/// Scores only grow with the number of columns counted.
proof fn lemma_score_upto_mono(r: Seq<Seq<u32>>, a: int, b: int)
    requires
        0 <= a <= b,
    ensures
        0 <= score_upto(r, a) <= score_upto(r, b),
    decreases b,
{
    if a < b {
        lemma_score_upto_mono(r, a, b - 1);
        lemma_merge_score_bounded(nonzero(r[b - 1]));
    } else if a > 0 {
        lemma_score_upto_mono(r, a - 1, a - 1);
        lemma_merge_score_bounded(nonzero(r[a - 1]));
    }
}

/// The moves recorded on the turned board, taken back to the board.
fn unrotate_move(rotated: &RotatedBoard, mt: &mut MovingTile)
    requires
        old(mt).start_x < rotated.width,
        old(mt).start_y < rotated.height,
        old(mt).end_x < rotated.width,
        old(mt).end_y < rotated.height,
    ensures
        (final(mt).start_x as int, final(mt).start_y as int) == unturn(
            rotated.dir,
            rotated.width as int,
            rotated.height as int,
            old(mt).start_x as int,
            old(mt).start_y as int,
        ),
        (final(mt).end_x as int, final(mt).end_y as int) == unturn(
            rotated.dir,
            rotated.width as int,
            rotated.height as int,
            old(mt).end_x as int,
            old(mt).end_y as int,
        ),
        final(mt).value == old(mt).value,
{
    let (start_x, start_y) = unrotate(rotated, mt.start_x, mt.start_y);
    let (end_x, end_y) = unrotate(rotated, mt.end_x, mt.end_y);
    mt.start_x = start_x;
    mt.start_y = start_y;
    mt.end_x = end_x;
    mt.end_y = end_y;
}

/// A move recorded on the turned board, taken back to the board: its two
/// squares turned back, its value kept.
pub open spec fn unturned_move(m: MovingTile, dir: Direction, tw: int, th: int) -> MovingTile {
    MovingTile {
        start_x: unturn(dir, tw, th, m.start_x as int, m.start_y as int).0 as usize,
        start_y: unturn(dir, tw, th, m.start_x as int, m.start_y as int).1 as usize,
        end_x: unturn(dir, tw, th, m.end_x as int, m.end_y as int).0 as usize,
        end_y: unturn(dir, tw, th, m.end_x as int, m.end_y as int).1 as usize,
        value: m.value,
    }
}

/// `moves` are the moves of a tilt that turns the `w` by `h` board `g` into
/// `g2`: one move starts at each tile of `g` and none elsewhere, each carries
/// the value of the tile it starts from, and each ends on a tile of `g2`.
pub open spec fn moves_of_tilt(moves: Seq<MovingTile>, g: Seq<Seq<u32>>, g2: Seq<Seq<u32>>, w: int, h: int) -> bool {
    &&& forall|i: int|
        0 <= i < moves.len() ==> {
            &&& moves_on(#[trigger] moves[i], w, h)
            &&& g[moves[i].start_x as int][moves[i].start_y as int] != 0
            &&& moves[i].value == g[moves[i].start_x as int][moves[i].start_y as int]
            &&& g2[moves[i].end_x as int][moves[i].end_y as int] != 0
        }
    &&& forall|i: int, j: int|
        0 <= i < moves.len() && 0 <= j < moves.len() && i != j ==> ((#[trigger] moves[i]).start_x
            != (#[trigger] moves[j]).start_x || moves[i].start_y != moves[j].start_y)
    &&& forall|x: int, y: int|
        0 <= x < w && 0 <= y < h && #[trigger] g[x][y] != 0 ==> exists|i: int|
            0 <= i < moves.len() && (#[trigger] moves[i]).start_x == x && moves[i].start_y == y
}

/// The moves recorded for the first `col` columns of the turned grid `rg`:
/// each lies within its column, starts at a tile and carries its value, and
/// ends on a tile of the tilted column; no two start at the same square; and
/// every tile of those columns has one.
pub open spec fn turned_moves(ms: Seq<MovingTile>, rg: Seq<Seq<u32>>, col: int, tw: int, th: int) -> bool {
    &&& forall|i: int|
        0 <= i < ms.len() ==> {
            &&& moves_within(#[trigger] ms[i], ms[i].start_x as int, tw, th)
            &&& ms[i].start_x < col
            &&& rg[ms[i].start_x as int][ms[i].start_y as int] != 0
            &&& ms[i].value == rg[ms[i].start_x as int][ms[i].start_y as int]
            &&& slid(rg[ms[i].start_x as int])[ms[i].end_y as int] != 0
        }
    &&& forall|i: int, j: int|
        0 <= i < ms.len() && 0 <= j < ms.len() && i != j ==> ((#[trigger] ms[i]).start_x
            != (#[trigger] ms[j]).start_x || ms[i].start_y != ms[j].start_y)
    &&& forall|x: int, y: int|
        0 <= x < col && 0 <= y < th && #[trigger] rg[x][y] != 0 ==> exists|i: int|
            0 <= i < ms.len() && (#[trigger] ms[i]).start_x == x && ms[i].start_y == y
}

/// Adding the moves of column `col` to those of the columns before it.
proof fn lemma_join_column_moves(mv0: Seq<MovingTile>, ms: Seq<MovingTile>, rg: Seq<Seq<u32>>, col: int, tw: int, th: int)
    requires
        0 <= col < tw,
        turned_moves(mv0, rg, col, tw, th),
        ms.len() >= mv0.len(),
        forall|i: int| 0 <= i < mv0.len() ==> ms[i] == mv0[i],
        forall|i: int| mv0.len() <= i < ms.len() ==> moves_within(#[trigger] ms[i], col, tw, th),
        column_moves(ms, mv0.len() as int, rg[col]),
        forall|i: int| mv0.len() <= i < ms.len() ==> slid(rg[col])[(#[trigger] ms[i]).end_y as int] != 0,
        forall|k: int| 0 <= k < th && rg[col][k] != 0 ==> starts_at(ms, mv0.len() as int, k),
    ensures
        turned_moves(ms, rg, col + 1, tw, th),
{
    let n0 = mv0.len() as int;
    assert forall|i: int| 0 <= i < ms.len() implies {
        &&& moves_within(#[trigger] ms[i], ms[i].start_x as int, tw, th)
        &&& ms[i].start_x < col + 1
        &&& rg[ms[i].start_x as int][ms[i].start_y as int] != 0
        &&& ms[i].value == rg[ms[i].start_x as int][ms[i].start_y as int]
        &&& slid(rg[ms[i].start_x as int])[ms[i].end_y as int] != 0
    } by {
        if i < n0 {
            assert(ms[i] == mv0[i]);
        } else {
            assert(moves_within(ms[i], col, tw, th));
        }
    }
    assert forall|i: int, j: int|
        0 <= i < ms.len() && 0 <= j < ms.len() && i != j implies ((#[trigger] ms[i]).start_x
            != (#[trigger] ms[j]).start_x || ms[i].start_y != ms[j].start_y) by {
        if i < n0 {
            assert(ms[i] == mv0[i]);
        } else {
            assert(moves_within(ms[i], col, tw, th));
        }
        if j < n0 {
            assert(ms[j] == mv0[j]);
        } else {
            assert(moves_within(ms[j], col, tw, th));
        }
    }
    assert forall|x: int, y: int|
        0 <= x < col + 1 && 0 <= y < th && #[trigger] rg[x][y] != 0 implies exists|i: int|
            0 <= i < ms.len() && (#[trigger] ms[i]).start_x == x && ms[i].start_y == y by {
        if x < col {
            let i = choose|i: int| 0 <= i < mv0.len() && (#[trigger] mv0[i]).start_x == x && mv0[i].start_y == y;
            assert(ms[i] == mv0[i]);
        } else {
            assert(starts_at(ms, n0, y));
            let i = choose|i: int| n0 <= i < ms.len() && (#[trigger] ms[i]).start_y == y;
            assert(moves_within(ms[i], col, tw, th));
        }
    }
}

/// The moves recorded on the turned board, taken back to the board, are the
/// moves of the tilt.
proof fn lemma_moves_unturned(
    rot: Seq<MovingTile>,
    mv: Seq<MovingTile>,
    g: Seq<Seq<u32>>,
    rg: Seq<Seq<u32>>,
    g2: Seq<Seq<u32>>,
    dir: Direction,
    w: int,
    h: int,
    tw: int,
    th: int,
)
    requires
        (tw, th) == turned_dims(dir, w, h),
        0 <= w <= usize::MAX,
        0 <= h <= usize::MAX,
        rg == turned(g, dir, tw, th),
        g2 == unturned(Seq::new(tw as nat, |x: int| slid(rg[x])), dir, tw, th),
        turned_moves(rot, rg, tw, tw, th),
        mv.len() == rot.len(),
        forall|k: int| 0 <= k < rot.len() ==> #[trigger] mv[k] == unturned_move(rot[k], dir, tw, th),
    ensures
        moves_of_tilt(mv, g, g2, w, h),
{
    lemma_turn_inverse(dir, tw, th);
    assert(turned_dims(dir, tw, th) == (w, h));
    let slid_all = Seq::new(tw as nat, |x: int| slid(rg[x]));
    assert forall|k: int| 0 <= k < mv.len() implies {
        &&& moves_on(#[trigger] mv[k], w, h)
        &&& g[mv[k].start_x as int][mv[k].start_y as int] != 0
        &&& mv[k].value == g[mv[k].start_x as int][mv[k].start_y as int]
        &&& g2[mv[k].end_x as int][mv[k].end_y as int] != 0
    } by {
        let r = rot[k];
        assert(mv[k] == unturned_move(r, dir, tw, th));
        assert(moves_within(r, r.start_x as int, tw, th));
        let (sx, sy) = unturn(dir, tw, th, r.start_x as int, r.start_y as int);
        let (ex, ey) = unturn(dir, tw, th, r.end_x as int, r.end_y as int);
        assert(0 <= sx < w && 0 <= sy < h && 0 <= ex < w && 0 <= ey < h);
        assert(mv[k].start_x == sx && mv[k].start_y == sy && mv[k].end_x == ex && mv[k].end_y == ey);
        assert(rg[r.start_x as int][r.start_y as int] == g[sx][sy]);
        assert(turn(dir, tw, th, ex, ey) == (r.end_x as int, r.end_y as int));
        assert(slid_all[r.end_x as int] == slid(rg[r.end_x as int]));
        assert(g2[ex][ey] == slid_all[r.end_x as int][r.end_y as int]);
    }
    assert forall|a: int, b: int|
        0 <= a < mv.len() && 0 <= b < mv.len() && a != b implies ((#[trigger] mv[a]).start_x
            != (#[trigger] mv[b]).start_x || mv[a].start_y != mv[b].start_y) by {
        let ra = rot[a];
        let rb = rot[b];
        assert(mv[a] == unturned_move(ra, dir, tw, th));
        assert(mv[b] == unturned_move(rb, dir, tw, th));
        assert(moves_within(ra, ra.start_x as int, tw, th));
        assert(moves_within(rb, rb.start_x as int, tw, th));
        let pa = unturn(dir, tw, th, ra.start_x as int, ra.start_y as int);
        let pb = unturn(dir, tw, th, rb.start_x as int, rb.start_y as int);
        assert(turn(dir, tw, th, pa.0, pa.1) == (ra.start_x as int, ra.start_y as int));
        assert(turn(dir, tw, th, pb.0, pb.1) == (rb.start_x as int, rb.start_y as int));
        assert(0 <= pa.0 < w && 0 <= pa.1 < h && 0 <= pb.0 < w && 0 <= pb.1 < h);
        assert(mv[a].start_x == pa.0 && mv[a].start_y == pa.1);
        assert(mv[b].start_x == pb.0 && mv[b].start_y == pb.1);
    }
    assert forall|x: int, y: int|
        0 <= x < w && 0 <= y < h && #[trigger] g[x][y] != 0 implies exists|k: int|
            0 <= k < mv.len() && (#[trigger] mv[k]).start_x == x && mv[k].start_y == y by {
        let (a, b) = turn(dir, tw, th, x, y);
        assert(unturn(dir, tw, th, a, b) == (x, y));
        assert(rg[a][b] == g[x][y]);
        assert(0 <= a < tw && 0 <= b < th);
        let k = choose|k: int| 0 <= k < rot.len() && (#[trigger] rot[k]).start_x == a && rot[k].start_y == b;
        assert(mv[k] == unturned_move(rot[k], dir, tw, th));
        assert(mv[k].start_x == x && mv[k].start_y == y);
    }
}

/// A move whose squares both lie on a `w` by `h` board.
pub open spec fn moves_on(m: MovingTile, w: int, h: int) -> bool {
    &&& m.start_x < w
    &&& m.start_y < h
    &&& m.end_x < w
    &&& m.end_y < h
}

/// Tilts the board towards `dir`. Gives `None` when that changes nothing;
/// otherwise the new board, the moves of the tiles (those that stay put
/// included), and the points scored. The points must fit in a `u32`, as the
/// tiles that merges create then do too.
pub fn tilt(board: &Board, dir: Direction) -> (r: Option<(Board, Vec<MovingTile>, u32)>)
    requires
        board.wf(),
        tilt_score(board@, dir, board.width as int, board.height as int) <= u32::MAX,
    ensures
        r is None <==> tilted(board@, dir, board.width as int, board.height as int) == board@,
        r matches Some((b, moves, score)) ==> {
            &&& b.wf()
            &&& b.width == board.width
            &&& b.height == board.height
            &&& b@ == tilted(board@, dir, board.width as int, board.height as int)
            &&& score == tilt_score(board@, dir, board.width as int, board.height as int)
            &&& moves_of_tilt(moves@, board@, b@, board.width as int, board.height as int)
        },
{
    let mut rotated = rotate_board(board, dir);
    let ghost w = board.width as int;
    let ghost h = board.height as int;
    let ghost tw = rotated.width as int;
    let ghost th = rotated.height as int;
    let ghost rg = grid_of(rotated.tiles@);
    let ghost slid_all = Seq::new(tw as nat, |x: int| slid(rg[x]));
    proof {
        lemma_turn_inverse(dir, tw, th);
    }
    let mut score: u32 = 0;
    let mut movings: Vec<MovingTile> = Vec::new();
    let mut is_changed = false;
    let mut col: usize = 0;
    while col < rotated.width
        invariant
            rotated.wf(),
            rotated.dir == dir,
            rotated.width == tw,
            rotated.height == th,
            (tw, th) == turned_dims(dir, w, h),
            rg == turned(board@, dir, tw, th),
            has_dims(rg, tw, th),
            slid_all == Seq::new(tw as nat, |x: int| slid(rg[x])),
            col <= tw,
            grid_of(rotated.tiles@).len() == tw,
            forall|x: int| 0 <= x < col ==> #[trigger] grid_of(rotated.tiles@)[x] == slid(rg[x]),
            forall|x: int| col <= x < tw ==> #[trigger] grid_of(rotated.tiles@)[x] == rg[x],
            score == score_upto(rg, col as int),
            score_upto(rg, tw) <= u32::MAX,
            is_changed == exists|x: int| 0 <= x < col && #[trigger] slid(rg[x]) != rg[x],
            turned_moves(movings@, rg, col as int, tw, th),
        decreases tw - col,
    {
        proof {
            lemma_score_upto_mono(rg, col as int + 1, tw);
            lemma_score_upto_mono(rg, 0, col as int);
            lemma_merge_score_bounded(nonzero(rg[col as int]));
        }
        let ghost before = grid_of(rotated.tiles@);
        let ghost mv0 = movings@;
        let (changed, points) = slide_column(&mut rotated, col, &mut movings);
        score = score + points;
        if changed {
            is_changed = true;
        }
        proof {
            assert forall|x: int| 0 <= x < col + 1 implies #[trigger] grid_of(rotated.tiles@)[x] == slid(rg[x]) by {
                if x < col {
                    assert(before[x] == slid(rg[x]));
                }
            }
            if changed {
                assert(slid(rg[col as int]) != rg[col as int]);
            }
            assert(before[col as int] == rg[col as int]);
            lemma_join_column_moves(mv0, movings@, rg, col as int, tw, th);
            if !changed && !is_changed {
                assert forall|x: int| 0 <= x < col + 1 implies #[trigger] slid(rg[x]) == rg[x] by {
                    if x < col {
                        assert(!(0 <= x < col && slid(rg[x]) != rg[x]));
                    }
                }
            }
        }
        col = col + 1;
    }
    proof {
        assert(grid_of(rotated.tiles@) =~= slid_all);
        lemma_unturned_turned(board@, dir, w, h);
        assert forall|x: int| 0 <= x < tw implies (#[trigger] slid_all[x]).len() == th by {
            lemma_slid_len(rg[x]);
        }
        lemma_turned_unturned(slid_all, dir, tw, th);
        lemma_turned_unturned(rg, dir, tw, th);
        if !is_changed {
            assert(slid_all =~= rg);
        } else {
            let x = choose|x: int| 0 <= x < col && #[trigger] slid(rg[x]) != rg[x];
            assert(slid_all[x] != rg[x]);
        }
    }
    match is_changed {
        false => None,
        true => {
            let ghost rot = movings@;
            assert(forall|k: int| 0 <= k < rot.len() ==> moves_within(#[trigger] rot[k], rot[k].start_x as int, tw, th));
            let mut i: usize = 0;
            while i < movings.len()
                invariant
                    rotated.width == tw,
                    rotated.height == th,
                    rotated.dir == dir,
                    (tw, th) == turned_dims(dir, w, h),
                    0 <= i <= movings@.len(),
                    movings@.len() == rot.len(),
                    forall|k: int| 0 <= k < rot.len() ==> moves_within(#[trigger] rot[k], rot[k].start_x as int, tw, th),
                    forall|k: int| 0 <= k < i ==> #[trigger] movings@[k] == unturned_move(rot[k], dir, tw, th),
                    forall|k: int| i <= k < movings@.len() ==> #[trigger] movings@[k] == rot[k],
                decreases movings@.len() - i,
            {
                let ghost before = movings@;
                assert(moves_within(rot[i as int], rot[i as int].start_x as int, tw, th));
                unrotate_move(&rotated, &mut movings[i]);
                proof {
                    assert(movings@[i as int] == unturned_move(rot[i as int], dir, tw, th));
                    assert forall|k: int| 0 <= k < i + 1 implies #[trigger] movings@[k] == unturned_move(rot[k], dir, tw, th) by {
                        if k < i {
                            assert(movings@[k] == before[k]);
                        }
                    }
                    assert forall|k: int| i + 1 <= k < movings@.len() implies #[trigger] movings@[k] == rot[k] by {
                        assert(movings@[k] == before[k]);
                    }
                }
                i = i + 1;
            }
            let result = unrotate_board(rotated);
            proof {
                lemma_moves_unturned(rot, movings@, board@, rg, result@, dir, w, h, tw, th);
            }
            Some((result, movings, score))
        },
    }
}

/// A tilted column keeps its length.
proof fn lemma_slid_len(c: Seq<u32>)
    ensures
        slid(c).len() == c.len(),
{
    lemma_merged_len(nonzero(c));
    lemma_nonzero_len(c);
}

proof fn lemma_merged_len(s: Seq<u32>)
    ensures
        merged(s).len() <= s.len(),
    decreases s.len(),
{
    if s.len() >= 2 && s[0] == s[1] {
        lemma_merged_len(s.subrange(2, s.len() as int));
    } else if s.len() >= 1 {
        lemma_merged_len(s.drop_first());
    }
}

proof fn lemma_nonzero_len(c: Seq<u32>)
    ensures
        nonzero(c).len() <= c.len(),
    decreases c.len(),
{
    if c.len() > 0 {
        lemma_nonzero_len(c.drop_first());
    }
}

} // verus!
