use vstd::prelude::*;
use vstd::string::*;

verus! {

pub const BOARD_WIDTH: usize = 7;

pub const BOARD_HEIGHT: usize = 6;

/// The content of a cell, and also the side to move.
#[derive(Debug, Copy, Clone, PartialEq, Eq, Hash, Structural)]
pub enum Color {
    Empty,
    White,
    Black,
}

/// Dropping a piece of `color` into column `x`.
#[derive(Debug, Copy, Clone, PartialEq, Eq, Hash, Structural)]
pub struct Move {
    pub color: Color,
    pub x: usize,
}

/// The classification of a position.
#[derive(Debug, Copy, Clone, PartialEq, Eq, Structural)]
pub enum End {
    Ongoing,
    Victory(Color),
    Tie,
}

/// A full game position: `board[x][y]` is the cell in column `x`, row `y`
/// (row 0 is the top row), and `player` is the side to move.
#[derive(Debug, Copy, Clone, PartialEq, Eq, Hash)]
pub struct GameState {
    board: [[Color; BOARD_HEIGHT]; BOARD_WIDTH],
    pub player: Color,
}

/// The mathematical model of a `GameState`: its columns as sequences and
/// the side to move.
pub struct Position {
    pub cols: Seq<Seq<Color>>,
    pub player: Color,
}

impl View for GameState {
    type V = Position;

    closed spec fn view(&self) -> Position {
        Position { cols: self.board@.map_values(|c: [Color; BOARD_HEIGHT]| c@), player: self.player }
    }
}

/// Every column of the model has the board's height.
pub open spec fn shaped(p: Position) -> bool {
    &&& p.cols.len() == BOARD_WIDTH
    &&& forall|x: int| 0 <= x < BOARD_WIDTH ==> (#[trigger] p.cols[x]).len() == BOARD_HEIGHT
}

/// Number of occupied cells in a column.
pub open spec fn filled_count(col: Seq<Color>) -> nat
    decreases col.len(),
{
    if col.len() == 0 {
        0
    } else {
        filled_count(col.drop_last()) + if col.last() == Color::Empty {
            0nat
        } else {
            1nat
        }
    }
}

/// The row a piece dropped into the column lands on: the lowest empty
/// cell (the one with the greatest index), or 0 if there is none.
pub open spec fn top_empty(col: Seq<Color>) -> int
    decreases col.len(),
{
    if col.len() == 0 {
        0
    } else if col.last() == Color::Empty {
        col.len() - 1
    } else {
        top_empty(col.drop_last())
    }
}

pub open spec fn in_bounds_spec(m: Move) -> bool {
    m.x < BOARD_WIDTH
}

/// A move is legal when its column exists and is not full.
pub open spec fn legal_spec(p: Position, m: Move) -> bool {
    in_bounds_spec(m) && filled_count(p.cols[m.x as int]) < BOARD_HEIGHT
}

/// The side that moves after a piece of `c` was played.
pub open spec fn next_player(c: Color) -> Color {
    match c {
        Color::White => Color::Black,
        Color::Black => Color::White,
        Color::Empty => Color::White,
    }
}

/// The legal moves of `color`, for the columns below `n`, in column order.
pub open spec fn legal_moves_upto(p: Position, color: Color, n: nat) -> Seq<Move>
    decreases n,
{
    if n == 0 {
        Seq::empty()
    } else {
        let prev = legal_moves_upto(p, color, (n - 1) as nat);
        let m = Move { color, x: (n - 1) as usize };
        if legal_spec(p, m) {
            prev.push(m)
        } else {
            prev
        }
    }
}

/// The legal moves of `color`, in column order.
pub open spec fn legal_moves_spec(p: Position, color: Color) -> Seq<Move> {
    legal_moves_upto(p, color, BOARD_WIDTH as nat)
}

/// The cell at row `x` and column `y` exists and holds `color`.
pub open spec fn cell_is(p: Position, x: int, y: int, color: Color) -> bool {
    0 <= x < BOARD_HEIGHT && 0 <= y < BOARD_WIDTH && p.cols[y][x] == color
}

/// Four cells of `color` in a row, from row `sx` and column `sy`, each one
/// `dx` rows and `dy` columns from the one before.
pub open spec fn line_spec(p: Position, sx: int, sy: int, dx: int, dy: int, color: Color) -> bool {
    &&& cell_is(p, sx, sy, color)
    &&& cell_is(p, sx + dx, sy + dy, color)
    &&& cell_is(p, sx + 2 * dx, sy + 2 * dy, color)
    &&& cell_is(p, sx + 3 * dx, sy + 3 * dy, color)
}

/// A line of four of `color` starts at row `sx` and column `sy`: down a
/// column, along a row, or along either diagonal.
pub open spec fn line_start_spec(p: Position, sx: int, sy: int, color: Color) -> bool {
    ||| line_spec(p, sx, sy, 1, 0, color)
    ||| line_spec(p, sx, sy, 0, 1, color)
    ||| line_spec(p, sx, sy, 1, 1, color)
    ||| line_spec(p, sx, sy, 1, -1, color)
}

/// `color` has four in a row somewhere on the board.
pub open spec fn color_win_spec(p: Position, color: Color) -> bool {
    exists|sx: int, sy: int| #[trigger] line_start_spec(p, sx, sy, color)
}

/// No cell of the board is empty.
pub open spec fn board_full(p: Position) -> bool {
    forall|x: int, y: int|
        0 <= x < BOARD_WIDTH && 0 <= y < BOARD_HEIGHT ==> #[trigger] p.cols[x][y] != Color::Empty
}

/// The classification of a position: White's line is looked for first,
/// then Black's, then a full board is a tie.
pub open spec fn outcome_spec(p: Position) -> End {
    if color_win_spec(p, Color::White) {
        End::Victory(Color::White)
    } else if color_win_spec(p, Color::Black) {
        End::Victory(Color::Black)
    } else if board_full(p) {
        End::Tie
    } else {
        End::Ongoing
    }
}

/// The character that shows a cell.
pub open spec fn tile_char(c: Color) -> char {
    match c {
        Color::Empty => ' ',
        Color::White => 'X',
        Color::Black => 'O',
    }
}

/// The first `n` cells of row `x`, each shown as `|c|`.
pub open spec fn cells_text(p: Position, x: int, n: nat) -> Seq<char>
    decreases n,
{
    if n == 0 {
        Seq::empty()
    } else {
        cells_text(p, x, (n - 1) as nat) + seq!['|', tile_char(p.cols[n - 1][x]), '|']
    }
}

/// The first `n` rows, top row first, each ending in a newline.
pub open spec fn rows_text(p: Position, n: nat) -> Seq<char>
    decreases n,
{
    if n == 0 {
        Seq::empty()
    } else {
        rows_text(p, (n - 1) as nat) + cells_text(p, n - 1, BOARD_WIDTH as nat) + seq!['\n']
    }
}

/// The line of column numbers under the board.
pub open spec fn footer_text() -> Seq<char> {
    "|1||2||3||4||5||6||7|"@
}

/// The text of a board: a newline, the rows, then the column numbers.
pub open spec fn render_spec(p: Position) -> Seq<char> {
    seq!['\n'] + rows_text(p, BOARD_HEIGHT as nat) + footer_text()
}

/// Occupied cells over the first `n` columns.
pub open spec fn total_filled(cols: Seq<Seq<Color>>, n: nat) -> nat
    decreases n,
{
    if n == 0 {
        0
    } else {
        total_filled(cols, (n - 1) as nat) + filled_count(cols[n - 1])
    }
}

/// The number of empty cells.
pub open spec fn empty_cells(p: Position) -> int {
    BOARD_WIDTH * BOARD_HEIGHT - total_filled(p.cols, BOARD_WIDTH as nat)
}

/// The most moves that can still be played: each legal move of a side fills
/// an empty cell, and a move of `Empty`, which fills nothing, hands the turn
/// to White.
pub open spec fn moves_left(p: Position) -> int {
    empty_cells(p) + if p.player == Color::Empty {
        1int
    } else {
        0int
    }
}

/// The longest game: every cell filled, after one move of `Empty`.
pub open spec fn max_game_length() -> int {
    BOARD_WIDTH * BOARD_HEIGHT + 1
}

proof fn lemma_filled_count_bound(col: Seq<Color>)
    ensures
        filled_count(col) <= col.len(),
    decreases col.len(),
{
    if col.len() > 0 {
        lemma_filled_count_bound(col.drop_last());
    }
}

proof fn lemma_total_filled_bound(cols: Seq<Seq<Color>>, n: nat)
    requires
        n <= cols.len(),
        forall|x: int| 0 <= x < cols.len() ==> (#[trigger] cols[x]).len() == BOARD_HEIGHT,
    ensures
        total_filled(cols, n) <= n * BOARD_HEIGHT,
    decreases n,
{
    if n > 0 {
        lemma_total_filled_bound(cols, (n - 1) as nat);
        lemma_filled_count_bound(cols[n - 1]);
    }
}

/// A column that is not full has an empty cell where the next piece lands.
proof fn lemma_top_empty(col: Seq<Color>)
    requires
        filled_count(col) < col.len(),
    ensures
        0 <= top_empty(col) < col.len(),
        col[top_empty(col)] == Color::Empty,
    decreases col.len(),
{
    if col.last() != Color::Empty {
        assert(col.drop_last().last() == col[col.len() - 2]);
        lemma_top_empty(col.drop_last());
    }
}

/// Writing `c` over an empty cell fills one more cell, unless `c` is empty.
proof fn lemma_filled_count_update(col: Seq<Color>, i: int, c: Color)
    requires
        0 <= i < col.len(),
        col[i] == Color::Empty,
    ensures
        filled_count(col.update(i, c)) == filled_count(col) + if c == Color::Empty {
            0int
        } else {
            1int
        },
    decreases col.len(),
{
    let u = col.update(i, c);
    if i == col.len() - 1 {
        assert(u.drop_last() =~= col.drop_last());
    } else {
        assert(u.drop_last() =~= col.drop_last().update(i, c));
        lemma_filled_count_update(col.drop_last(), i, c);
    }
}

proof fn lemma_total_filled_update(cols: Seq<Seq<Color>>, x: int, col: Seq<Color>, n: nat)
    requires
        0 <= x < cols.len(),
        n <= cols.len(),
    ensures
        total_filled(cols.update(x, col), n) == total_filled(cols, n) + if x < n {
            filled_count(col) - filled_count(cols[x])
        } else {
            0int
        },
    decreases n,
{
    if n > 0 {
        lemma_total_filled_update(cols, x, col, (n - 1) as nat);
    }
}

/// The number of moves left is never more than the longest game.
pub proof fn lemma_moves_left_bound(p: Position)
    requires
        shaped(p),
    ensures
        0 <= moves_left(p) <= max_game_length(),
{
    lemma_total_filled_bound(p.cols, BOARD_WIDTH as nat);
}

/// A legal move of the side to move leaves one move fewer to play.
pub proof fn lemma_place_progress(p: Position, m: Move)
    requires
        shaped(p),
        legal_spec(p, m),
        m.color == p.player,
    ensures
        shaped(place_spec(p, m)),
        moves_left(place_spec(p, m)) == moves_left(p) - 1,
        m.color != Color::Empty ==> filled_count(place_spec(p, m).cols[m.x as int]) == filled_count(
            p.cols[m.x as int],
        ) + 1,
        forall|x: int| 0 <= x < BOARD_WIDTH && x != m.x ==> #[trigger] place_spec(p, m).cols[x] == p.cols[x],
{
    let col = p.cols[m.x as int];
    lemma_top_empty(col);
    lemma_filled_count_update(col, top_empty(col), m.color);
    let ncol = col.update(top_empty(col), m.color);
    lemma_total_filled_update(p.cols, m.x as int, ncol, BOARD_WIDTH as nat);
    let q = place_spec(p, m);
    assert forall|x: int| 0 <= x < BOARD_WIDTH implies (#[trigger] q.cols[x]).len() == BOARD_HEIGHT by {
        if x != m.x {
            assert(q.cols[x] == p.cols[x]);
        }
    }
}

/// The move of `color` into column `x`.
pub open spec fn column_move(color: Color, x: int) -> Move {
    Move { color, x: x as usize }
}

/// The moves of `ms` go into strictly increasing columns.
pub open spec fn increasing_columns(ms: Seq<Move>) -> bool {
    forall|i: int, j: int| 0 <= i < j < ms.len() ==> #[trigger] ms[i].x < #[trigger] ms[j].x
}

/// Every move of `ms` is a legal move of `color` into a column below `n`.
pub open spec fn all_legal(p: Position, color: Color, ms: Seq<Move>, n: nat) -> bool {
    forall|i: int|
        0 <= i < ms.len() ==> (#[trigger] ms[i]).color == color && legal_spec(p, ms[i]) && ms[i].x
            < n
}

/// Every legal move of `color` into a column below `n` is in `ms`.
pub open spec fn has_all_legal(p: Position, color: Color, ms: Seq<Move>, n: nat) -> bool {
    forall|x: int|
        0 <= x < n && #[trigger] legal_spec(p, column_move(color, x)) ==> ms.contains(
            column_move(color, x),
        )
}

/// The list holds exactly the legal moves of `color`.
pub proof fn lemma_legal_moves(p: Position, color: Color, n: nat)
    requires
        n <= BOARD_WIDTH,
    ensures
        legal_moves_upto(p, color, n).len() <= n,
        all_legal(p, color, legal_moves_upto(p, color, n), n),
        has_all_legal(p, color, legal_moves_upto(p, color, n), n),
        increasing_columns(legal_moves_upto(p, color, n)),
    decreases n,
{
    if n > 0 {
        lemma_legal_moves(p, color, (n - 1) as nat);
        let prev = legal_moves_upto(p, color, (n - 1) as nat);
        let cur = legal_moves_upto(p, color, n);
        assert forall|x: int|
            0 <= x < n && #[trigger] legal_spec(p, column_move(color, x)) implies cur.contains(
            column_move(color, x),
        ) by {
            if x < n - 1 {
                let i = choose|i: int| 0 <= i < prev.len() && prev[i] == column_move(color, x);
                assert(cur[i] == prev[i]);
            } else {
                assert(cur[cur.len() - 1] == column_move(color, x));
            }
        }
    }
}

/// The position after playing `ms` in order from `p`.
pub open spec fn play_line(p: Position, ms: Seq<Move>) -> Position
    decreases ms.len(),
{
    if ms.len() == 0 {
        p
    } else {
        place_spec(play_line(p, ms.drop_last()), ms.last())
    }
}

/// Each move of `ms` is a legal move of the side to move where it is played.
pub open spec fn legal_line(p: Position, ms: Seq<Move>) -> bool {
    forall|i: int| 0 <= i < ms.len() ==> #[trigger] legal_step(play_line(p, ms.take(i)), ms[i])
}

/// `m` is a legal move of the side to move in `q`.
pub open spec fn legal_step(q: Position, m: Move) -> bool {
    m.color == q.player && legal_spec(q, m)
}

/// The base-3 digit of a cell or side.
pub open spec fn digit(c: Color) -> nat {
    match c {
        Color::Empty => 0,
        Color::White => 1,
        Color::Black => 2,
    }
}

/// The digits of a position: its cells column by column, top row first,
/// then the side to move.
pub open spec fn position_digits(p: Position) -> Seq<nat> {
    Seq::new(
        (BOARD_WIDTH * BOARD_HEIGHT) as nat,
        |i: int| digit(p.cols[i / BOARD_HEIGHT as int][i % BOARD_HEIGHT as int]),
    ).push(digit(p.player))
}

/// The number whose base-3 digits, most significant first, are `ds`.
pub open spec fn base3(ds: Seq<nat>) -> nat
    decreases ds.len(),
{
    if ds.len() == 0 {
        0
    } else {
        base3(ds.drop_last()) * 3 + ds.last()
    }
}

pub open spec fn pow3(n: nat) -> nat
    decreases n,
{
    if n == 0 {
        1
    } else {
        3 * pow3((n - 1) as nat)
    }
}

/// The key that identifies a position in a table of statistics.
pub open spec fn key_spec(p: Position) -> nat {
    base3(position_digits(p))
}

proof fn lemma_base3_bound(ds: Seq<nat>)
    requires
        forall|i: int| 0 <= i < ds.len() ==> #[trigger] ds[i] < 3,
    ensures
        base3(ds) < pow3(ds.len()),
    decreases ds.len(),
{
    if ds.len() > 0 {
        lemma_base3_bound(ds.drop_last());
    }
}

proof fn lemma_pow3_mono(a: nat, b: nat)
    requires
        a <= b,
    ensures
        pow3(a) <= pow3(b),
    decreases b,
{
    if a < b {
        lemma_pow3_mono(a, (b - 1) as nat);
    }
}

proof fn lemma_pow3_43()
    ensures
        pow3(43) == 328256967394537077627nat,
{
    reveal_with_fuel(pow3, 44);
}

proof fn lemma_base3_injective(a: Seq<nat>, b: Seq<nat>)
    requires
        a.len() == b.len(),
        forall|i: int| 0 <= i < a.len() ==> #[trigger] a[i] < 3,
        forall|i: int| 0 <= i < b.len() ==> #[trigger] b[i] < 3,
        base3(a) == base3(b),
    ensures
        a == b,
    decreases a.len(),
{
    if a.len() > 0 {
        let ca = base3(a.drop_last());
        let cb = base3(b.drop_last());
        assert(a.last() < 3 && b.last() < 3);
        assert(ca == cb && a.last() == b.last()) by (nonlinear_arith)
            requires
                ca * 3 + a.last() == cb * 3 + b.last(),
                a.last() < 3,
                b.last() < 3,
        ;
        lemma_base3_injective(a.drop_last(), b.drop_last());
        assert(a =~= a.drop_last().push(a.last()));
        assert(b =~= b.drop_last().push(b.last()));
    }
}

/// Two positions share a key exactly when they are the same position: a
/// table keyed this way gives positions reached by different move orders
/// one shared entry, and keeps distinct positions apart.
pub proof fn lemma_key_identifies(p: Position, q: Position)
    requires
        shaped(p),
        shaped(q),
    ensures
        key_spec(p) == key_spec(q) <==> p == q,
{
    if key_spec(p) == key_spec(q) {
        let dp = position_digits(p);
        let dq = position_digits(q);
        lemma_base3_injective(dp, dq);
        assert forall|x: int| 0 <= x < BOARD_WIDTH implies #[trigger] p.cols[x] == q.cols[x] by {
            assert forall|y: int| 0 <= y < BOARD_HEIGHT implies p.cols[x][y] == q.cols[x][y] by {
                let i = x * BOARD_HEIGHT + y;
                assert(i / BOARD_HEIGHT as int == x && i % BOARD_HEIGHT as int == y);
                assert(dp[i] == dq[i]);
            }
            assert(p.cols[x] =~= q.cols[x]);
        }
        assert(p.cols =~= q.cols);
        assert(dp[(BOARD_WIDTH * BOARD_HEIGHT) as int] == dq[(BOARD_WIDTH * BOARD_HEIGHT) as int]);
    }
}

/// Every key fits in 128 bits.
pub proof fn lemma_key_bounds(p: Position)
    ensures
        key_spec(p) < 0x1_0000_0000_0000_0000_0000_0000_0000_0000,
{
    let ds = position_digits(p);
    assert forall|i: int| 0 <= i < ds.len() implies #[trigger] ds[i] < 3 by {}
    lemma_base3_bound(ds);
    lemma_pow3_43();
}

impl Move {
    pub fn new(nx: usize, ncolor: Color) -> (r: Self)
        ensures
            r == (Move { color: ncolor, x: nx }),
    {
        Move { color: ncolor, x: nx }
    }

    pub fn white_new(nx: usize) -> (r: Self)
        ensures
            r == (Move { color: Color::White, x: nx }),
    {
        Move::new(nx, Color::White)
    }

    pub fn black_new(nx: usize) -> (r: Self)
        ensures
            r == (Move { color: Color::Black, x: nx }),
    {
        Move::new(nx, Color::Black)
    }

    fn in_bounds(&self) -> (r: bool)
        ensures
            r == in_bounds_spec(*self),
    {
        self.x < BOARD_WIDTH
    }
}

/// The row where a piece dropped into `column` lands.
fn push_back(column: &[Color; BOARD_HEIGHT]) -> (r: usize)
    ensures
        r == top_empty(column@),
        r < BOARD_HEIGHT,
{
    let mut i: usize = BOARD_HEIGHT;
    assert(column@.subrange(0, i as int) =~= column@);
    while i > 0
        invariant
            i <= BOARD_HEIGHT,
            top_empty(column@) == top_empty(column@.subrange(0, i as int)),
        decreases i,
    {
        let cell = column[i - 1];
        proof {
            let sub = column@.subrange(0, i as int);
            assert(sub.drop_last() =~= column@.subrange(0, i - 1));
        }
        if cell == Color::Empty {
            return i - 1;
        }
        i = i - 1;
    }
    0
}

impl GameState {
    /// Every position a board can hold has seven columns of six cells.
    pub proof fn lemma_shaped(&self)
        ensures
            shaped(self@),
    {
        assert(self.board@.len() == BOARD_WIDTH);
    }

    /// The side to move.
    pub fn side_to_move(&self) -> (r: Color)
        ensures
            r == self@.player,
    {
        self.player
    }

    /// The empty board, White to move.
    pub fn new() -> (r: Self)
        ensures
            r@.player == Color::White,
            forall|x: int, y: int|
                0 <= x < BOARD_WIDTH && 0 <= y < BOARD_HEIGHT ==> #[trigger] r@.cols[x][y]
                    == Color::Empty,
    {
        GameState { board: [[Color::Empty; BOARD_HEIGHT]; BOARD_WIDTH], player: Color::White }
    }

    pub fn legal(&self, game_move: &Move) -> (r: bool)
        ensures
            r == legal_spec(self@, *game_move),
    {
        if !game_move.in_bounds() {
            return false;
        }
        let column = self.board[game_move.x];
        assert(self@.cols[game_move.x as int] == column@);
        let mut count: usize = 0;
        for i in 0..BOARD_HEIGHT
            invariant
                count == filled_count(column@.subrange(0, i as int)),
                count <= i,
        {
            proof {
                assert(column@.subrange(0, i + 1).drop_last() =~= column@.subrange(0, i as int));
            }
            if column[i] != Color::Empty {
                count = count + 1;
            }
        }
        assert(column@.subrange(0, BOARD_HEIGHT as int) =~= column@);
        count < BOARD_HEIGHT
    }

    /// The position after `game_move`; an illegal move changes nothing.
    pub fn place(&self, game_move: &Move) -> (r: Self)
        ensures
            r@ == place_spec(self@, *game_move),
    {
        let mut copy = *self;
        if !self.legal(game_move) {
            return copy;
        }
        let x = game_move.x;
        let mut column = copy.board[x];
        let y = push_back(&column);
        column[y] = game_move.color;
        copy.board[x] = column;
        let next = match game_move.color {
            Color::White => Color::Black,
            Color::Black => Color::White,
            _ => Color::White,
        };
        copy.player = next;
        proof {
            let old_col = self@.cols[x as int];
            assert(old_col == self.board[x as int]@);
            assert(copy@.cols =~= self@.cols.update(x as int, old_col.update(y as int, game_move.color)));
        }
        copy
    }

    fn cell_matches(&self, x: i64, y: i64, color: Color) -> (r: bool)
        ensures
            r == cell_is(self@, x as int, y as int, color),
    {
        if x < 0 || x >= BOARD_HEIGHT as i64 || y < 0 || y >= BOARD_WIDTH as i64 {
            return false;
        }
        let column = self.board[y as usize];
        assert(self@.cols[y as int] == column@);
        column[x as usize] == color
    }

    /// Four cells of `color` from row `start_x`, column `start_y`, stepping
    /// by `step_x` rows and `step_y` columns.
    pub fn linear_match(&self, start_x: i32, start_y: i32, step_x: i32, step_y: i32, color: Color) -> (r: bool)
        ensures
            r == line_spec(self@, start_x as int, start_y as int, step_x as int, step_y as int, color),
    {
        let sx = start_x as i64;
        let sy = start_y as i64;
        let dx = step_x as i64;
        let dy = step_y as i64;
        self.cell_matches(sx, sy, color) && self.cell_matches(sx + dx, sy + dy, color)
            && self.cell_matches(sx + 2 * dx, sy + 2 * dy, color) && self.cell_matches(
            sx + 3 * dx,
            sy + 3 * dy,
            color,
        )
    }

    pub fn is_line_start(&self, x: i32, y: i32, color: Color) -> (r: bool)
        ensures
            r == line_start_spec(self@, x as int, y as int, color),
    {
        self.linear_match(x, y, 1, 0, color) || self.linear_match(x, y, 0, 1, color)
            || self.linear_match(x, y, 1, 1, color) || self.linear_match(x, y, 1, -1, color)
    }

    fn color_win(&self, color: Color) -> (r: bool)
        ensures
            r == color_win_spec(self@, color),
    {
        for sx in 0..BOARD_HEIGHT
            invariant
                forall|a: int, b: int|
                    0 <= a < sx && 0 <= b < BOARD_WIDTH ==> !#[trigger] line_start_spec(
                        self@,
                        a,
                        b,
                        color,
                    ),
        {
            for sy in 0..BOARD_WIDTH
                invariant
                    forall|a: int, b: int|
                        0 <= a < sx && 0 <= b < BOARD_WIDTH ==> !#[trigger] line_start_spec(
                            self@,
                            a,
                            b,
                            color,
                        ),
                    forall|b: int| 0 <= b < sy ==> !#[trigger] line_start_spec(self@, sx as int, b, color),
            {
                if self.is_line_start(sx as i32, sy as i32, color) {
                    return true;
                }
            }
        }
        assert forall|a: int, b: int| !#[trigger] line_start_spec(self@, a, b, color) by {
            if 0 <= a < BOARD_HEIGHT && 0 <= b < BOARD_WIDTH {
            } else {
                assert(!cell_is(self@, a, b, color));
            }
        }
        false
    }

    /// The classification of this position.
    pub fn win(&self) -> (r: End)
        ensures
            r == outcome_spec(self@),
    {
        if self.color_win(Color::White) {
            return End::Victory(Color::White);
        }
        if self.color_win(Color::Black) {
            return End::Victory(Color::Black);
        }
        let mut no_empty = true;
        for x in 0..BOARD_WIDTH
            invariant
                no_empty == forall|a: int, b: int|
                    0 <= a < x && 0 <= b < BOARD_HEIGHT ==> #[trigger] self@.cols[a][b] != Color::Empty,
        {
            let column = self.board[x];
            assert(self@.cols[x as int] == column@);
            for y in 0..BOARD_HEIGHT
                invariant
                    0 <= x < BOARD_WIDTH,
                    column@ == self@.cols[x as int],
                    no_empty == ((forall|a: int, b: int|
                        0 <= a < x && 0 <= b < BOARD_HEIGHT ==> #[trigger] self@.cols[a][b]
                            != Color::Empty) && (forall|b: int|
                        0 <= b < y ==> #[trigger] self@.cols[x as int][b] != Color::Empty)),
            {
                if column[y] == Color::Empty {
                    no_empty = false;
                }
            }
        }
        if no_empty {
            return End::Tie;
        }
        End::Ongoing
    }

    /// The board as text, one line per row.
    pub fn print(&self) -> (r: String)
        ensures
            r@ == render_spec(self@),
    {
        proof {
            reveal_strlit("\n");
        }
        let mut string = String::from_str("\n");
        for x in 0..BOARD_HEIGHT
            invariant
                string@ == seq!['\n'] + rows_text(self@, x as nat),
        {
            for y in 0..BOARD_WIDTH
                invariant
                    0 <= x < BOARD_HEIGHT,
                    string@ == seq!['\n'] + rows_text(self@, x as nat) + cells_text(
                        self@,
                        x as int,
                        y as nat,
                    ),
            {
                proof {
                    reveal_strlit("|");
                    reveal_strlit(" ");
                    reveal_strlit("X");
                    reveal_strlit("O");
                }
                let tile = self.board[y][x];
                assert(tile == self@.cols[y as int][x as int]);
                let tile_str = match tile {
                    Color::Empty => " ",
                    Color::White => "X",
                    Color::Black => "O",
                };
                assert(tile_str@ =~= seq![tile_char(tile)]);
                let ghost before = string@;
                string.append("|");
                string.append(tile_str);
                string.append("|");
                assert(string@ =~= before + seq!['|', tile_char(tile), '|']);
                assert(cells_text(self@, x as int, (y + 1) as nat) == cells_text(
                    self@,
                    x as int,
                    y as nat,
                ) + seq!['|', tile_char(tile), '|']);
                assert(string@ =~= seq!['\n'] + rows_text(self@, x as nat) + cells_text(
                    self@,
                    x as int,
                    (y + 1) as nat,
                ));
            }
            proof {
                reveal_strlit("\n");
            }
            let ghost before = string@;
            string.append("\n");
            assert(string@ =~= before + seq!['\n']);
            assert(rows_text(self@, (x + 1) as nat) == rows_text(self@, x as nat) + cells_text(
                self@,
                x as int,
                BOARD_WIDTH as nat,
            ) + seq!['\n']);
            assert(string@ =~= seq!['\n'] + rows_text(self@, (x + 1) as nat));
        }
        string.append("|1||2||3||4||5||6||7|");
        string
    }

    /// The key of this position in a table of statistics.
    pub fn key(&self) -> (r: u128)
        ensures
            r == key_spec(self@),
    {
        let ghost ds = position_digits(self@);
        proof {
            assert forall|i: int| 0 <= i < ds.len() implies #[trigger] ds[i] < 3 by {}
            lemma_base3_bound(ds);
            lemma_pow3_43();
            assert(ds.take(0) =~= Seq::<nat>::empty());
        }
        let mut code: u128 = 0;
        for x in 0..BOARD_WIDTH
            invariant
                ds == position_digits(self@),
                forall|i: int| 0 <= i < ds.len() ==> #[trigger] ds[i] < 3,
                code == base3(ds.take(x * BOARD_HEIGHT)),
        {
            let column = self.board[x];
            assert(self@.cols[x as int] == column@);
            for y in 0..BOARD_HEIGHT
                invariant
                    0 <= x < BOARD_WIDTH,
                    column@ == self@.cols[x as int],
                    ds == position_digits(self@),
                    forall|i: int| 0 <= i < ds.len() ==> #[trigger] ds[i] < 3,
                    code == base3(ds.take(x * BOARD_HEIGHT + y)),
            {
                let n: usize = x * BOARD_HEIGHT + y;
                let d: u128 = match column[y] {
                    Color::Empty => 0,
                    Color::White => 1,
                    Color::Black => 2,
                };
                proof {
                    assert((n as int) / (BOARD_HEIGHT as int) == x && (n as int) % (BOARD_HEIGHT as int) == y);
                    assert(ds[n as int] == d);
                    assert(ds.take(n + 1).drop_last() =~= ds.take(n as int));
                    lemma_base3_bound(ds.take(n as int));
                    lemma_pow3_mono((n + 1) as nat, 43);
                    lemma_pow3_43();
                    assert(pow3((n + 1) as nat) == 3 * pow3(n as nat));
                }
                code = code * 3 + d;
            }
        }
        let d: u128 = match self.player {
            Color::Empty => 0,
            Color::White => 1,
            Color::Black => 2,
        };
        proof {
            assert(ds.take(42) =~= ds.drop_last());
            assert(ds =~= ds.drop_last().push(d as nat));
            lemma_base3_bound(ds.drop_last());
            lemma_pow3_43();
            assert(pow3(43) == 3 * pow3(42));
        }
        code * 3 + d
    }

    /// The legal moves of `color`, in column order.
    pub fn legal_moves(&self, color: Color) -> (r: Vec<Move>)
        ensures
            r@ == legal_moves_spec(self@, color),
    {
        let mut moves: Vec<Move> = Vec::new();
        for x in 0..BOARD_WIDTH
            invariant
                moves@ == legal_moves_upto(self@, color, x as nat),
        {
            let potential_move = Move::new(x, color);
            if self.legal(&potential_move) {
                moves.push(potential_move);
            }
        }
        moves
    }
}

/// The position after `m`; an illegal move leaves the position as it is.
pub open spec fn place_spec(p: Position, m: Move) -> Position {
    if !legal_spec(p, m) {
        p
    } else {
        let col = p.cols[m.x as int];
        Position {
            cols: p.cols.update(m.x as int, col.update(top_empty(col), m.color)),
            player: next_player(m.color),
        }
    }
}

} // verus!
