use vstd::prelude::*;

use vstd::arithmetic::power2::{lemma2_to64, pow2};

use crate::chance::random_below;
use crate::board::{
    lemma_change_leaves_room,
    cell_index, empties_before, empty_board, empty_count, has_tile_above_limit,
    has_winning_tile, is_kth_empty, lemma_cell_in_line, lemma_empties_by_lines,
    lemma_line_of_cell, lemma_line_update, lemma_merge_head, lemma_merge_step,
    lemma_nonzeros_front, lemma_scan_cell, lemma_slid_board_line, lemma_slid_line_empties,
    lemma_slid_line_len, lemma_within_limit_fits, line_cell, line_empties, line_fits, line_of,
    line_of_cell, line_state, merge_tiles, move_outcome, nibble, nonzeros, pending, scan_cell,
    slid_board, slid_line, slide_fits, step_of_cell,
};

verus! {

/// A 2048 board packed into one integer: sixteen cells of four bits each. A cell holds the
/// exponent of its tile (`1` is a 2, `11` is a 2048) or `0` when it is empty.
#[derive(Clone, Copy)]
pub struct Minigame {
    pub state: u64,
}

/// What the board offers the player: the board after a move in each direction (`None` where
/// that move changes nothing), whether it holds a 2048, and whether no move is left.
pub struct Choices {
    pub left: Option<Minigame>,
    pub right: Option<Minigame>,
    pub up: Option<Minigame>,
    pub down: Option<Minigame>,
    pub won: bool,
    pub lost: bool,
}

/// `choice` is what a move in `dir` can make of `board`: `None` when the move changes
/// nothing.
pub open spec fn offers(board: Seq<int>, dir: Direction, choice: Option<Minigame>) -> bool {
    match choice {
        None => slid_board(board, dir) == board,
        Some(game) => slid_board(board, dir) != board && move_outcome(board, dir, game@),
    }
}

/// The exponent of a new tile from its draw out of ten: a 4 when the draw is 0, else a 2.
pub open spec fn draw_exponent(draw: int) -> int {
    if draw == 0 {
        2
    } else {
        1
    }
}

/// The cell of a new game's second tile: the draw `pos_b` out of fifteen, where meeting the
/// first tile's cell `pos_a` sends it to the last cell.
pub open spec fn second_cell(pos_a: int, pos_b: int) -> int {
    if pos_b == pos_a {
        15
    } else {
        pos_b
    }
}

/// The second tile of a new game lands on a cell other than the first.
pub proof fn lemma_second_cell_differs(pos_a: int, pos_b: int)
    requires
        0 <= pos_a < 16,
        0 <= pos_b < 15,
    ensures
        0 <= second_cell(pos_a, pos_b) < 16,
        second_cell(pos_a, pos_b) != pos_a,
{
}

/// Every ordered pair of distinct cells is reached by some pair of position draws.
pub proof fn lemma_second_cell_onto(p: int, q: int)
    requires
        0 <= p < 16,
        0 <= q < 16,
        p != q,
    ensures
        exists|pos_b: int| 0 <= pos_b < 15 && #[trigger] second_cell(p, pos_b) == q,
{
    let pos_b = if q == 15 { p } else { q };
    assert(second_cell(p, pos_b) == q);
}

/// Two different pairs of position draws put the starting tiles on different pairs of cells,
/// so uniform draws give a uniformly random pair of distinct cells.
pub proof fn lemma_second_cell_one_to_one(a: int, b: int, c: int, d: int)
    requires
        0 <= a < 16,
        0 <= b < 15,
        0 <= c < 16,
        0 <= d < 15,
        a == c,
        second_cell(a, b) == second_cell(c, d),
    ensures
        b == d,
{
}

/// The exponent of a new tile from its draw out of ten: a 4 when the draw is 0, else a 2.
pub fn new_tile_exponent(draw: u8) -> (exponent: u8)
    ensures
        exponent == draw_exponent(draw as int),
        exponent == 2 <==> draw == 0,
        draw != 0 ==> exponent == 1,
{
    if draw == 0 {
        2
    } else {
        1
    }
}

/// Of the ten value draws of a new tile, exactly one, the draw 0, gives a 4 (exponent 2);
/// the other nine give a 2 (exponent 1). So a new tile is a 4 one time in ten.
pub proof fn lemma_four_one_time_in_ten()
    ensures
        draw_exponent(0) == 2,
        pow2(draw_exponent(0) as nat) == 4,
        forall|d: int| 0 < d < 10 ==> #[trigger] draw_exponent(d) == 1 && pow2(draw_exponent(d) as nat) == 2,
        forall|d: int| 0 <= d < 10 && #[trigger] draw_exponent(d) == 2 ==> d == 0,
{
    lemma2_to64();
}

/// The decimal digit `d` as a character.
pub open spec fn digit_char(d: int) -> char {
    (48 + d) as char
}

/// The decimal digits of `n`, most significant first.
pub open spec fn decimal(n: nat) -> Seq<char>
    decreases n,
{
    if n < 10 {
        seq![digit_char(n as int)]
    } else {
        decimal(n / 10) + seq![digit_char((n % 10) as int)]
    }
}

/// The text on a tile is the number it stands for: the decimal digits of 2 to the power of its
/// exponent, the same number the score counts for it.
pub proof fn lemma_tile_label_is_its_number(value: int)
    requires
        1 <= value <= 11,
    ensures
        tile_label(value) == decimal(pow2(value as nat)),
{
    lemma2_to64();
    reveal_strlit("2");
    reveal_strlit("4");
    reveal_strlit("8");
    reveal_strlit("16");
    reveal_strlit("32");
    reveal_strlit("64");
    reveal_strlit("128");
    reveal_strlit("256");
    reveal_strlit("512");
    reveal_strlit("1024");
    reveal_strlit("2048");
    assert(decimal(2) =~= seq!['2']);
    assert(decimal(4) =~= seq!['4']);
    assert(decimal(8) =~= seq!['8']);
    assert(decimal(1) =~= seq!['1']);
    assert(decimal(3) =~= seq!['3']);
    assert(decimal(6) =~= seq!['6']);
    assert(decimal(5) =~= seq!['5']);
    assert(decimal(16) =~= seq!['1', '6']);
    assert(decimal(32) =~= seq!['3', '2']);
    assert(decimal(64) =~= seq!['6', '4']);
    assert(decimal(12) =~= seq!['1', '2']);
    assert(decimal(25) =~= seq!['2', '5']);
    assert(decimal(51) =~= seq!['5', '1']);
    assert(decimal(10) =~= seq!['1', '0']);
    assert(decimal(20) =~= seq!['2', '0']);
    assert(decimal(128) =~= seq!['1', '2', '8']);
    assert(decimal(256) =~= seq!['2', '5', '6']);
    assert(decimal(512) =~= seq!['5', '1', '2']);
    assert(decimal(102) =~= seq!['1', '0', '2']);
    assert(decimal(204) =~= seq!['2', '0', '4']);
    assert(decimal(1024) =~= seq!['1', '0', '2', '4']);
    assert(decimal(2048) =~= seq!['2', '0', '4', '8']);
}

/// The board holds a tile above 2048, which play cannot reach.
pub struct Cheated;

/// A direction in which the tiles slide.
#[derive(Clone, Copy)]
pub enum Direction {
    Left,
    Right,
    Up,
    Down,
}

impl View for Minigame {
    type V = Seq<int>;

    open spec fn view(&self) -> Seq<int> {
        Seq::new(16, |i: int| nibble(self.state, i))
    }
}

proof fn lemma_nibbles_determine(s: u64, t: u64)
    by (bit_vector)
    requires
        (s >> 0u64) & 15u64 == (t >> 0u64) & 15u64,
        (s >> 4u64) & 15u64 == (t >> 4u64) & 15u64,
        (s >> 8u64) & 15u64 == (t >> 8u64) & 15u64,
        (s >> 12u64) & 15u64 == (t >> 12u64) & 15u64,
        (s >> 16u64) & 15u64 == (t >> 16u64) & 15u64,
        (s >> 20u64) & 15u64 == (t >> 20u64) & 15u64,
        (s >> 24u64) & 15u64 == (t >> 24u64) & 15u64,
        (s >> 28u64) & 15u64 == (t >> 28u64) & 15u64,
        (s >> 32u64) & 15u64 == (t >> 32u64) & 15u64,
        (s >> 36u64) & 15u64 == (t >> 36u64) & 15u64,
        (s >> 40u64) & 15u64 == (t >> 40u64) & 15u64,
        (s >> 44u64) & 15u64 == (t >> 44u64) & 15u64,
        (s >> 48u64) & 15u64 == (t >> 48u64) & 15u64,
        (s >> 52u64) & 15u64 == (t >> 52u64) & 15u64,
        (s >> 56u64) & 15u64 == (t >> 56u64) & 15u64,
        (s >> 60u64) & 15u64 == (t >> 60u64) & 15u64,
    ensures
        s == t,
{
}

/// A board is its sixteen cells: two packed boards with the same cells are the same integer.
pub proof fn lemma_view_determines_state(g: Minigame, h: Minigame)
    requires
        g@ == h@,
    ensures
        g.state == h.state,
{
    assert forall|i: int| 0 <= i < 16 implies nibble(g.state, i) == nibble(h.state, i) by {
        assert(g@[i] == nibble(g.state, i));
        assert(h@[i] == nibble(h.state, i));
        assert(g@[i] == h@[i]);
    }
    assert(nibble(g.state, 0) == nibble(h.state, 0));
    assert(nibble(g.state, 1) == nibble(h.state, 1));
    assert(nibble(g.state, 2) == nibble(h.state, 2));
    assert(nibble(g.state, 3) == nibble(h.state, 3));
    assert(nibble(g.state, 4) == nibble(h.state, 4));
    assert(nibble(g.state, 5) == nibble(h.state, 5));
    assert(nibble(g.state, 6) == nibble(h.state, 6));
    assert(nibble(g.state, 7) == nibble(h.state, 7));
    assert(nibble(g.state, 8) == nibble(h.state, 8));
    assert(nibble(g.state, 9) == nibble(h.state, 9));
    assert(nibble(g.state, 10) == nibble(h.state, 10));
    assert(nibble(g.state, 11) == nibble(h.state, 11));
    assert(nibble(g.state, 12) == nibble(h.state, 12));
    assert(nibble(g.state, 13) == nibble(h.state, 13));
    assert(nibble(g.state, 14) == nibble(h.state, 14));
    assert(nibble(g.state, 15) == nibble(h.state, 15));
    lemma_nibbles_determine(g.state, h.state);
}

/// What a read gives back of a write: the cell written holds the value written, and every
/// other cell holds what it held.
pub proof fn lemma_read_after_write(before: Seq<int>, x: int, y: int, value: int, px: int, py: int)
    requires
        before.len() == 16,
        0 <= x < 4,
        0 <= y < 4,
        0 <= px < 4,
        0 <= py < 4,
    ensures
        before.update(cell_index(x, y), value)[cell_index(px, py)] == if px == x && py == y {
            value
        } else {
            before[cell_index(px, py)]
        },
{
}

proof fn lemma_zero_nibble(q: u64)
    by (bit_vector)
    requires
        q < 16,
    ensures
        (0u64 >> (4 * q)) & 15u64 == 0,
{
}

proof fn lemma_set_nibble(s: u64, p: u64, v: u64, q: u64)
    by (bit_vector)
    requires
        p < 16,
        q < 16,
        v < 16,
    ensures
        p == q ==> (((s & !(15u64 << (4 * p))) | (v << (4 * p))) >> (4 * q)) & 15u64 == v,
        p != q ==> (((s & !(15u64 << (4 * p))) | (v << (4 * p))) >> (4 * q)) & 15u64 == (s >> (4 * q)) & 15u64,
{
}

impl Minigame {
    /// The exponent in the cell at column `x`, row `y`.
    pub fn get(&self, pos: (u8, u8)) -> (value: u8)
        requires
            pos.0 < 4,
            pos.1 < 4,
        ensures
            value == self@[cell_index(pos.0 as int, pos.1 as int)],
            value < 16,
    {
        let (x, y) = pos;
        let pos = (y * 4 + x) * 4;
        let s = self.state;
        assert((s >> pos) & 15u64 < 16) by (bit_vector);
        ((s >> pos) & 15) as u8
    }

    /// Puts the exponent `value` into the cell at column `x`, row `y`; every other cell keeps
    /// its exponent. The exponent must fit in the cell's four bits.
    pub fn set(&mut self, pos: (u8, u8), value: u8)
        requires
            pos.0 < 4,
            pos.1 < 4,
            value < 16,
        ensures
            final(self)@ == old(self)@.update(cell_index(pos.0 as int, pos.1 as int), value as int),
    {
        let (x, y) = pos;
        let ghost p: u64 = (y * 4 + x) as u64;
        let ghost old_state = self.state;
        let pos = (y * 4 + x) * 4;
        self.state = (self.state & !(15 << pos)) | ((value as u64) << pos);
        proof {
            let new_state = self.state;
            assert(new_state == (old_state & !(15u64 << (4 * p))) | ((value as u64) << (4 * p)));
            assert forall|q: int| 0 <= q < 16 implies nibble(new_state, q) == old(self)@.update(
                cell_index(x as int, y as int),
                value as int,
            )[q] by {
                lemma_set_nibble(old_state, p, value as u64, q as u64);
            }
            assert(self@ =~= old(self)@.update(cell_index(x as int, y as int), value as int));
        }
    }

    /// A board with two tiles on it, each a 2 or, one time in ten, a 4, in two different
    /// cells picked at random.
    pub fn new() -> (game: Self)
        ensures
            exists|p: int, q: int, u: int, v: int|
                0 <= p < 16 && 0 <= q < 16 && p != q && (u == 1 || u == 2) && (v == 1 || v == 2)
                    && game@ == #[trigger] empty_board().update(p, u).update(q, v),
    {
        let draw_a = random_below(10);
        let draw_b = random_below(10);
        let pos_a = random_below(16);
        let pos_b = random_below(15);
        let game = Self::with_draws(draw_a, draw_b, pos_a, pos_b);
        proof {
            assert(game@ == empty_board().update(pos_a as int, draw_exponent(draw_a as int)).update(
                second_cell(pos_a as int, pos_b as int),
                draw_exponent(draw_b as int),
            ));
        }
        game
    }

    /// The starting board from the four draws of a new game: a 4 where a value draw is 0 and
    /// a 2 otherwise, in cell `pos_a` and in the cell `pos_b` picks among the other fifteen
    /// (cells counted row by row; see `second_cell`).
    pub fn with_draws(draw_a: u8, draw_b: u8, pos_a: u8, pos_b: u8) -> (game: Self)
        requires
            pos_a < 16,
            pos_b < 15,
        ensures
            game@ == empty_board().update(pos_a as int, draw_exponent(draw_a as int)).update(
                second_cell(pos_a as int, pos_b as int),
                draw_exponent(draw_b as int),
            ),
    {
        Self::with_tiles(pos_a, new_tile_exponent(draw_a), pos_b, new_tile_exponent(draw_b))
    }

    /// The board with the exponent `value_a` in cell `pos_a` and `value_b` in cell `pos_b`,
    /// where `pos_b` counts the cells without the last one, which takes the place of `pos_a`
    /// when the two meet. Cells are counted row by row.
    pub fn with_tiles(pos_a: u8, value_a: u8, pos_b: u8, value_b: u8) -> (game: Self)
        requires
            pos_a < 16,
            pos_b < 15,
            value_a < 16,
            value_b < 16,
        ensures
            game@ == empty_board().update(pos_a as int, value_a as int).update(
                second_cell(pos_a as int, pos_b as int),
                value_b as int,
            ),
    {
        let mut game = Minigame { state: 0 };
        proof {
            assert forall|q: int| 0 <= q < 16 implies nibble(0, q) == 0 by {
                lemma_zero_nibble(q as u64);
            }
            assert(game@ =~= empty_board());
        }
        let pos_b = if pos_b == pos_a { 15 } else { pos_b };
        game.set((pos_a % 4, pos_a / 4), value_a);
        game.set((pos_b % 4, pos_b / 4), value_b);
        game
    }

    /// Whether the board holds a 2048, or `Cheated` when it holds a tile above 2048.
    pub fn won(&self) -> (result: Result<bool, Cheated>)
        ensures
            result is Err <==> has_tile_above_limit(self@),
            result matches Ok(won) ==> (won <==> has_winning_tile(self@)),
    {
        let mut won = false;
        let mut x: u8 = 0;
        while x < 4
            invariant
                0 <= x <= 4,
                forall|j: int| 0 <= j < 4 * x ==> self@[#[trigger] scan_cell(j)] <= 11,
                won == exists|j: int| 0 <= j < 4 * x && self@[#[trigger] scan_cell(j)] == 11,
            decreases 4 - x,
        {
            let mut y: u8 = 0;
            while y < 4
                invariant
                    0 <= x < 4,
                    0 <= y <= 4,
                    forall|j: int| 0 <= j < 4 * x + y ==> self@[#[trigger] scan_cell(j)] <= 11,
                    won == exists|j: int| 0 <= j < 4 * x + y && self@[#[trigger] scan_cell(j)] == 11,
                decreases 4 - y,
            {
                let ghost j = 4 * x + y;
                proof {
                    assert(scan_cell(j) == cell_index(x as int, y as int));
                }
                let value = self.get((x, y));
                if value == 11 {
                    won = true;
                } else if value > 11 {
                    proof {
                        assert(0 <= scan_cell(j) < 16);
                    }
                    return Err(Cheated);
                }
                y += 1;
            }
            x += 1;
        }
        proof {
            assert forall|i: int| 0 <= i < 16 implies self@[i] <= 11 by {
                lemma_scan_cell(i);
            }
            if has_winning_tile(self@) {
                let i = choose|i: int| 0 <= i < 16 && self@[i] == 11;
                lemma_scan_cell(i);
                assert(self@[scan_cell((i % 4) * 4 + i / 4)] == 11);
            }
        }
        Ok(won)
    }

    /// What the board offers: `Cheated` when it holds a tile above 2048; else the board after
    /// a move in each direction, whether it holds a 2048, and whether no move changes it.
    pub fn choices(&self) -> (result: Result<Choices, Cheated>)
        ensures
            result is Err <==> has_tile_above_limit(self@),
            result matches Ok(c) ==> {
                &&& c.won == has_winning_tile(self@)
                &&& offers(self@, Direction::Left, c.left)
                &&& offers(self@, Direction::Right, c.right)
                &&& offers(self@, Direction::Up, c.up)
                &&& offers(self@, Direction::Down, c.down)
                &&& c.lost == (c.left is None && c.right is None && c.up is None && c.down is None)
            },
    {
        match self.won() {
            Err(cheated) => Err(cheated),
            Ok(won) => {
                proof {
                    lemma_within_limit_fits(self@);
                }
                let left = self.after_move(Direction::Left);
                let right = self.after_move(Direction::Right);
                let up = self.after_move(Direction::Up);
                let down = self.after_move(Direction::Down);
                let lost = left.is_none() && right.is_none() && up.is_none() && down.is_none();
                Ok(Choices { left, right, up, down, won, lost })
            },
        }
    }

    /// The board after a move in `direction`, or `None` when that move changes nothing.
    pub fn after_move(&self, direction: Direction) -> (choice: Option<Minigame>)
        requires
            slide_fits(self@, direction),
        ensures
            offers(self@, direction, choice),
    {
        let mut game = *self;
        let moved = game.move_(direction);
        if moved {
            Some(game)
        } else {
            None
        }
    }

    /// Slides every tile as far as it goes towards the edge of `direction`, merging two equal
    /// neighbours into one tile of the next exponent (a merged tile does not merge again in
    /// the same move). Where the board changed, a new tile appears in one empty cell picked at
    /// random: a 4 one time in ten, else a 2. Returns whether the tiles moved.
    pub fn move_(&mut self, direction: Direction) -> (moved: bool)
        requires
            slide_fits(old(self)@, direction),
        ensures
            moved == (slid_board(old(self)@, direction) != old(self)@),
            move_outcome(old(self)@, direction, final(self)@),
    {
        let (moved, empty_cells) = self.slide(direction);
        if moved && empty_cells != 0 {
            let tile_to_set = random_below(empty_cells);
            let value_draw = random_below(10);
            self.spawn(tile_to_set, value_draw);
        }
        moved
    }

    /// Spawns the new tile of a move from its two draws: into the empty cell that has
    /// `tile_draw` empty cells before it, column by column, goes a 4 when `value_draw` is 0
    /// and a 2 otherwise.
    pub fn spawn(&mut self, tile_draw: u8, value_draw: u8)
        requires
            tile_draw < empty_count(old(self)@),
        ensures
            exists|j: int|
                is_kth_empty(old(self)@, j, tile_draw as int) && final(self)@ == #[trigger] old(self)@.update(
                    scan_cell(j),
                    draw_exponent(value_draw as int),
                ),
    {
        self.place_tile(tile_draw, new_tile_exponent(value_draw));
    }

    /// Slides every tile as far as it goes towards the edge of `direction`, merging two equal
    /// neighbours once, with no new tile. Returns whether the board changed and how many
    /// cells are empty afterwards; a board that changed has an empty cell.
    pub fn slide(&mut self, direction: Direction) -> (res: (bool, u8))
        requires
            slide_fits(old(self)@, direction),
        ensures
            final(self)@ == slid_board(old(self)@, direction),
            res.0 == (slid_board(old(self)@, direction) != old(self)@),
            res.1 == empty_count(slid_board(old(self)@, direction)),
            res.0 ==> res.1 > 0,
    {
        let ghost start = self@;
        let ghost target = slid_board(start, direction);
        let mut empty_cells: u8 = 0;
        let mut moved = false;
        let mut a: u8 = 0;
        while a < 4
            invariant
                0 <= a <= 4,
                start == old(self)@,
                target == slid_board(start, direction),
                slide_fits(start, direction),
                forall|c: int| 0 <= c < a ==> #[trigger] line_of(self@, direction, c) == slid_line(line_of(start, direction, c)),
                forall|c: int, j: int|
                    a <= c < 4 && 0 <= j < 4 ==> self@[#[trigger] line_cell(direction, c, j)]
                        == start[line_cell(direction, c, j)],
                moved == exists|c: int| 0 <= c < a && #[trigger] slid_line(line_of(start, direction, c)) != line_of(start, direction, c),
                empty_cells == (if a > 0 { line_empties(target, direction, 0) } else { 0 })
                    + (if a > 1 { line_empties(target, direction, 1) } else { 0 })
                    + (if a > 2 { line_empties(target, direction, 2) } else { 0 })
                    + (if a > 3 { line_empties(target, direction, 3) } else { 0 }),
            decreases 4 - a,
        {
            let ghost before = self@;
            proof {
                assert(line_of(before, direction, a as int) =~= line_of(start, direction, a as int));
                lemma_slid_board_line(start, direction, a as int);
                assert forall|k: int| 0 <= k < 4 implies #[trigger] slid_line(line_of(start, direction, a as int))[k] < 16 by {
                    lemma_cell_in_line(direction, a as int, k);
                    assert(line_of(target, direction, a as int)[k] == target[line_cell(direction, a as int, k)]);
                }
                lemma_slid_line_len(line_of(start, direction, a as int));
                lemma_slid_line_empties(line_of(start, direction, a as int));
                assert(line_empties(target, direction, a as int) == 4 - merge_tiles(nonzeros(line_of(start, direction, a as int))).len());
            }
            let (line_moved, line_empty) = self.slide_line(direction, a);
            proof {
                assert forall|c: int| 0 <= c < a implies #[trigger] line_of(self@, direction, c) == slid_line(line_of(start, direction, c)) by {
                    assert(line_of(self@, direction, c) =~= line_of(before, direction, c));
                }
            }
            if line_moved {
                moved = true;
            }
            empty_cells += line_empty;
            a += 1;
        }
        proof {
            assert forall|i: int| 0 <= i < 16 implies self@[i] == target[i] by {
                lemma_line_of_cell(direction, i);
                let c = line_of_cell(direction, i);
                let k = step_of_cell(direction, i);
                assert(line_of(self@, direction, c)[k] == self@[i]);
            }
            assert(self@ =~= target);
            if moved {
                let c = choose|c: int| 0 <= c < 4 && #[trigger] slid_line(line_of(start, direction, c)) != line_of(start, direction, c);
                lemma_slid_board_line(start, direction, c);
                if target == start {
                    assert(line_of(target, direction, c) =~= line_of(start, direction, c));
                }
            } else {
                assert forall|i: int| 0 <= i < 16 implies target[i] == start[i] by {
                    lemma_line_of_cell(direction, i);
                    let c = line_of_cell(direction, i);
                    lemma_slid_board_line(start, direction, c);
                    assert(slid_line(line_of(start, direction, c)) == line_of(start, direction, c));
                }
                assert(target =~= start);
            }
            lemma_empties_by_lines(target, direction);
            lemma_change_leaves_room(start, direction);
        }
        (moved, empty_cells)
    }

    /// Puts a tile of exponent `value` into the empty cell that has `tile_to_set` empty cells
    /// before it when the board is read column by column, top to bottom.
    pub fn place_tile(&mut self, tile_to_set: u8, value: u8)
        requires
            tile_to_set < empty_count(old(self)@),
            value < 16,
        ensures
            exists|j: int|
                is_kth_empty(old(self)@, j, tile_to_set as int) && final(self)@ == #[trigger] old(self)@.update(
                    scan_cell(j),
                    value as int,
                ),
    {
        let ghost start = self@;
        let mut current: u8 = 0;
        let mut x: u8 = 0;
        while x < 4
            invariant
                0 <= x <= 4,
                self@ == start,
                start == old(self)@,
                tile_to_set < empty_count(start),
                value < 16,
                current == empties_before(start, 4 * x),
                current <= tile_to_set,
            decreases 4 - x,
        {
            let mut y: u8 = 0;
            while y < 4
                invariant
                    0 <= x < 4,
                    0 <= y <= 4,
                    self@ == start,
                    start == old(self)@,
                    tile_to_set < empty_count(start),
                    value < 16,
                    current == empties_before(start, 4 * x + y),
                    current <= tile_to_set,
                decreases 4 - y,
            {
                let ghost j = 4 * x + y;
                proof {
                    assert(scan_cell(j) == cell_index(x as int, y as int));
                }
                if self.get((x, y)) == 0 {
                    if current == tile_to_set {
                        self.set((x, y), value);
                        proof {
                            assert(is_kth_empty(start, j, tile_to_set as int));
                        }
                        return;
                    }
                    current += 1;
                }
                y += 1;
            }
            x += 1;
        }
        proof {
            assert(false);
        }
    }

    /// Slides line `a` towards the edge of `direction`, merging equal neighbours once.
    /// Returns whether the line changed and how many of its cells are empty afterwards.
    #[verifier::spinoff_prover]
    fn slide_line(&mut self, direction: Direction, a: u8) -> (res: (bool, u8))
        requires
            a < 4,
            line_fits(line_of(old(self)@, direction, a as int)),
        ensures
            line_of(final(self)@, direction, a as int) == slid_line(line_of(old(self)@, direction, a as int)),
            forall|c: int, j: int|
                0 <= c < 4 && c != a && 0 <= j < 4 ==> final(self)@[#[trigger] line_cell(direction, c, j)]
                    == old(self)@[line_cell(direction, c, j)],
            res.0 == (slid_line(line_of(old(self)@, direction, a as int)) != line_of(old(self)@, direction, a as int)),
            res.1 == 4 - merge_tiles(nonzeros(line_of(old(self)@, direction, a as int))).len(),
    {
        let ghost start = self@;
        let ghost l = line_of(start, direction, a as int);
        let ghost m = merge_tiles(nonzeros(l));
        proof {
            lemma_slid_line_len(l);
            assert forall|k: int| 0 <= k < m.len() implies m[k] < 16 by {
                assert(slid_line(l)[k] == m[k]);
            }
            lemma_nonzeros_front(l, 0);
            assert(l.subrange(0, 4) =~= l);
        }
        let mut current: u8 = 0;
        let mut current_value: u8 = self.get(to_pos(direction, a, 0));
        let mut moved = false;
        let ghost mut out: Seq<int> = Seq::empty();
        proof {
            assert(line_of(self@, direction, a as int) =~= line_state(out, current_value as int, 0, 1, l));
            if current_value != 0 {
                lemma_merge_head(current_value as int, nonzeros(l.subrange(1, 4)));
                assert(pending(current_value as int) == seq![current_value as int]);
            }
        }
        let mut b: u8 = 1;
        while b < 4
            invariant
                a < 4,
                1 <= b <= 4,
                current < b,
                out.len() == current,
                l == line_of(start, direction, a as int),
                m == merge_tiles(nonzeros(l)),
                forall|k: int| 0 <= k < m.len() ==> m[k] < 16,
                line_of(self@, direction, a as int) == line_state(out, current_value as int, current as int, b as int, l),
                m == out + merge_tiles(pending(current_value as int) + nonzeros(l.subrange(b as int, 4))),
                moved == exists|k: int| 0 <= k < b && #[trigger] line_of(self@, direction, a as int)[k] != l[k],
                forall|c: int, j: int|
                    0 <= c < 4 && c != a && 0 <= j < 4 ==> self@[#[trigger] line_cell(direction, c, j)]
                        == start[line_cell(direction, c, j)],
                current_value < 16,
            decreases 4 - b,
        {
            let pos = to_pos(direction, a, b);
            let value = self.get(pos);
            let ghost before = self@;
            let ghost was_moved = moved;
            let ghost rest = nonzeros(l.subrange(b + 1, 4));
            proof {
                assert(line_of(before, direction, a as int)[b as int] == value);
                lemma_nonzeros_front(l, b as int);
            }
            if value != 0 {
                self.set(pos, 0);
                proof {
                    lemma_line_update(before, direction, a as int, b as int, 0);
                    assert(pending(value as int) =~= seq![value as int]);
                    assert(pending(current_value as int) + nonzeros(l.subrange(b as int, 4))
                        =~= pending(current_value as int) + seq![value as int] + rest);
                    lemma_merge_step(m, out, current_value as int, value as int, rest);
                }
                let ghost mid = self@;
                if value == current_value {
                    moved = true;
                    self.set(to_pos(direction, a, current), value + 1);
                    proof {
                        lemma_line_update(mid, direction, a as int, current as int, value + 1);
                        out = out + seq![value + 1];
                    }
                    current += 1;
                    current_value = 0;
                } else if current_value == 0 {
                    moved = true;
                    self.set(to_pos(direction, a, current), value);
                    current_value = value;
                    proof {
                        lemma_line_update(mid, direction, a as int, current as int, value as int);
                    }
                } else {
                    proof {
                        out = out + seq![current_value as int];
                    }
                    current += 1;
                    if current < b {
                        moved = true;
                    }
                    self.set(to_pos(direction, a, current), value);
                    current_value = value;
                    proof {
                        lemma_line_update(mid, direction, a as int, current as int, value as int);
                    }
                }
                proof {
                    let now = line_of(self@, direction, a as int);
                    assert(now =~= line_state(out, current_value as int, current as int, b + 1, l));
                    if current < b || current_value == 0 {
                        assert(now[b as int] != l[b as int]);
                        assert(moved);
                    } else {
                        assert forall|k: int| 0 <= k < b implies now[k] == line_of(before, direction, a as int)[k] by {}
                        assert(now[b as int] == l[b as int]);
                        assert(moved == was_moved);
                        if was_moved {
                            let k0 = choose|k: int| 0 <= k < b && line_of(before, direction, a as int)[k] != l[k];
                            assert(now[k0] != l[k0]);
                        } else {
                            assert forall|k: int| 0 <= k < b + 1 implies now[k] == l[k] by {
                                if k < b {
                                    assert(line_of(before, direction, a as int)[k] == l[k]);
                                }
                            }
                        }
                    }
                }
            } else {
                proof {
                    let now = line_of(self@, direction, a as int);
                    assert(now =~= line_state(out, current_value as int, current as int, b + 1, l));
                    assert(now[b as int] == l[b as int]);
                    if was_moved {
                        let k0 = choose|k: int| 0 <= k < b && line_of(before, direction, a as int)[k] != l[k];
                        assert(now[k0] != l[k0]);
                    } else {
                        assert forall|k: int| 0 <= k < b + 1 implies now[k] == l[k] by {
                            if k < b {
                                assert(line_of(before, direction, a as int)[k] == l[k]);
                            }
                        }
                    }
                }
            }
            b += 1;
        }
        proof {
            assert(l.subrange(4, 4) =~= Seq::<int>::empty());
            assert(pending(current_value as int) + nonzeros(l.subrange(4, 4)) =~= pending(current_value as int));
            assert(m =~= out + pending(current_value as int));
        }
        if current_value != 0 {
            current += 1;
        }
        proof {
            assert(line_of(self@, direction, a as int) =~= slid_line(l));
            if !moved {
                assert(line_of(self@, direction, a as int) =~= l);
            }
        }
        (moved, 4 - current)
    }
}

/// The column and row of the cell `b` steps from the edge that `direction` pushes towards,
/// on line `a`.
fn to_pos(direction: Direction, a: u8, b: u8) -> (pos: (u8, u8))
    requires
        a < 4,
        b < 4,
    ensures
        pos.0 < 4,
        pos.1 < 4,
        cell_index(pos.0 as int, pos.1 as int) == line_cell(direction, a as int, b as int),
{
    let b_pos = match direction {
        Direction::Left | Direction::Up => b,
        Direction::Right | Direction::Down => 3 - b,
    };
    match direction {
        Direction::Left | Direction::Right => (b_pos, a),
        Direction::Up | Direction::Down => (a, b_pos),
    }
}


/// The text on a tile of exponent `value`: its value in decimal.
pub open spec fn tile_label(value: int) -> Seq<char> {
    if value == 1 {
        "2"@
    } else if value == 2 {
        "4"@
    } else if value == 3 {
        "8"@
    } else if value == 4 {
        "16"@
    } else if value == 5 {
        "32"@
    } else if value == 6 {
        "64"@
    } else if value == 7 {
        "128"@
    } else if value == 8 {
        "256"@
    } else if value == 9 {
        "512"@
    } else if value == 10 {
        "1024"@
    } else if value == 11 {
        "2048"@
    } else {
        Seq::empty()
    }
}

/// The background color of a tile of exponent `value`, as RGBA.
pub open spec fn tile_background(value: int) -> u32 {
    if value == 1 {
        0xee_ee_dd_ff
    } else if value == 2 {
        0xdd_dd_cc_ff
    } else if value == 3 {
        0xff_66_00_ff
    } else if value == 4 {
        0xdd_44_00_ff
    } else if value == 5 {
        0xdd_22_00_ff
    } else if value == 6 {
        0xee_00_00_ff
    } else if value == 7 {
        0xff_dd_00_ff
    } else if value == 8 {
        0xff_cc_00_ff
    } else if value == 9 {
        0xff_cc_00_ff
    } else if value == 10 {
        0xff_bb_00_ff
    } else if value == 11 {
        0xff_aa_00_ff
    } else {
        0x2d_6d_ab_ff
    }
}

/// The text color of a tile of exponent `value`: black on a 2 and a 4, white above.
pub open spec fn tile_text_color(value: int) -> u32 {
    if value <= 2 {
        0x00_00_00_ff
    } else {
        0xff_ff_ff_ff
    }
}

/// The text, background and text color of the tile of exponent `value`; `None` for an
/// empty cell.
pub fn tile_properties(value: u8) -> (properties: Option<(&'static str, u32, u32)>)
    requires
        value < 12,
    ensures
        properties is None <==> value == 0,
        properties matches Some((text, background, color)) ==> text@ == tile_label(value as int)
            && background == tile_background(value as int) && color == tile_text_color(value as int),
        properties matches Some((text, _, _)) ==> text@ == decimal(pow2(value as nat)),
        properties matches Some((_, _, color)) ==> color == if value <= 2 {
            0x00_00_00_ffu32
        } else {
            0xff_ff_ff_ffu32
        },
{
    proof {
        if value != 0 {
            lemma_tile_label_is_its_number(value as int);
        }
    }
    if value == 0 {
        None
    } else if value == 1 {
        Some(("2", 0xee_ee_dd_ff, 0x00_00_00_ff))
    } else if value == 2 {
        Some(("4", 0xdd_dd_cc_ff, 0x00_00_00_ff))
    } else if value == 3 {
        Some(("8", 0xff_66_00_ff, 0xff_ff_ff_ff))
    } else if value == 4 {
        Some(("16", 0xdd_44_00_ff, 0xff_ff_ff_ff))
    } else if value == 5 {
        Some(("32", 0xdd_22_00_ff, 0xff_ff_ff_ff))
    } else if value == 6 {
        Some(("64", 0xee_00_00_ff, 0xff_ff_ff_ff))
    } else if value == 7 {
        Some(("128", 0xff_dd_00_ff, 0xff_ff_ff_ff))
    } else if value == 8 {
        Some(("256", 0xff_cc_00_ff, 0xff_ff_ff_ff))
    } else if value == 9 {
        Some(("512", 0xff_cc_00_ff, 0xff_ff_ff_ff))
    } else if value == 10 {
        Some(("1024", 0xff_bb_00_ff, 0xff_ff_ff_ff))
    } else {
        Some(("2048", 0xff_aa_00_ff, 0xff_ff_ff_ff))
    }
}

} // verus!
