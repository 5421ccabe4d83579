use vstd::prelude::*;

use crate::minigame::Direction;

verus! {

/// The exponent held in the four bits of cell `i` of a packed board.
pub open spec fn nibble(state: u64, i: int) -> int {
    ((state >> ((4 * i) as u64)) & 15u64) as int
}

/// The index of the cell in column `x` and row `y`.
pub open spec fn cell_index(x: int, y: int) -> int {
    y * 4 + x
}

/// The cell that is `b` steps from the edge a slide in `dir` pushes towards, on line `a`
/// (a row for `Left` and `Right`, a column for `Up` and `Down`).
pub open spec fn line_cell(dir: Direction, a: int, b: int) -> int {
    match dir {
        Direction::Left => cell_index(b, a),
        Direction::Right => cell_index(3 - b, a),
        Direction::Up => cell_index(a, b),
        Direction::Down => cell_index(a, 3 - b),
    }
}

/// The line that cell `i` lies on for a slide in `dir`.
pub open spec fn line_of_cell(dir: Direction, i: int) -> int {
    match dir {
        Direction::Left | Direction::Right => i / 4,
        Direction::Up | Direction::Down => i % 4,
    }
}

/// How many steps cell `i` lies from the edge that a slide in `dir` pushes towards.
pub open spec fn step_of_cell(dir: Direction, i: int) -> int {
    match dir {
        Direction::Left => i % 4,
        Direction::Right => 3 - i % 4,
        Direction::Up => i / 4,
        Direction::Down => 3 - i / 4,
    }
}

/// Line `a` of `board`, read from the edge that a slide in `dir` pushes towards.
pub open spec fn line_of(board: Seq<int>, dir: Direction, a: int) -> Seq<int> {
    Seq::new(4, |b: int| board[line_cell(dir, a, b)])
}

/// The tiles of a line in order, the empty cells left out.
pub open spec fn nonzeros(s: Seq<int>) -> Seq<int>
    decreases s.len(),
{
    if s.len() == 0 {
        s
    } else if s[0] == 0 {
        nonzeros(s.drop_first())
    } else {
        seq![s[0]] + nonzeros(s.drop_first())
    }
}

/// Merges equal neighbours pairwise from the front; a merged tile does not merge again.
pub open spec fn merge_tiles(s: Seq<int>) -> Seq<int>
    decreases s.len(),
{
    if s.len() < 2 {
        s
    } else if s[0] == s[1] {
        seq![s[0] + 1] + merge_tiles(s.subrange(2, s.len() as int))
    } else {
        seq![s[0]] + merge_tiles(s.drop_first())
    }
}

/// `n` empty cells.
pub open spec fn empties(n: int) -> Seq<int> {
    Seq::new(n as nat, |i: int| 0)
}

/// A line of four cells after a slide towards its front.
pub open spec fn slid_line(line: Seq<int>) -> Seq<int> {
    let m = merge_tiles(nonzeros(line));
    m + empties(4 - m.len())
}

/// The whole board after a slide in `dir`, before any new tile appears.
pub open spec fn slid_board(board: Seq<int>, dir: Direction) -> Seq<int> {
    Seq::new(
        16,
        |i: int| slid_line(line_of(board, dir, line_of_cell(dir, i)))[step_of_cell(dir, i)],
    )
}

/// Every exponent after a slide in `dir` still fits in a cell's four bits.
pub open spec fn slide_fits(board: Seq<int>, dir: Direction) -> bool {
    forall|i: int| 0 <= i < 16 ==> #[trigger] slid_board(board, dir)[i] < 16
}

/// The cell visited `j`-th when the board is read column by column, top to bottom.
pub open spec fn scan_cell(j: int) -> int {
    cell_index(j / 4, j % 4)
}

/// How many of the first `j` cells in column-by-column order are empty.
pub open spec fn empties_before(board: Seq<int>, j: int) -> int
    decreases j,
{
    if j <= 0 {
        0
    } else {
        empties_before(board, j - 1) + empty_mark(board[scan_cell(j - 1)])
    }
}

/// How many cells of the board are empty.
pub open spec fn empty_count(board: Seq<int>) -> int {
    empties_before(board, 16)
}

/// The cell visited `j`-th column by column is empty.
pub open spec fn is_empty_slot(board: Seq<int>, j: int) -> bool {
    0 <= j < 16 && board[scan_cell(j)] == 0
}

/// The cell visited `j`-th column by column is the empty cell with `k` empty cells before it.
pub open spec fn is_kth_empty(board: Seq<int>, j: int, k: int) -> bool {
    is_empty_slot(board, j) && empties_before(board, j) == k
}

/// 1 when the cell is empty, 0 when it holds a tile.
pub open spec fn empty_mark(v: int) -> int {
    if v == 0 {
        1
    } else {
        0
    }
}

/// How many cells of line `c` are empty.
pub open spec fn line_empties(board: Seq<int>, dir: Direction, c: int) -> int {
    empty_mark(board[line_cell(dir, c, 0)]) + empty_mark(board[line_cell(dir, c, 1)]) + empty_mark(
        board[line_cell(dir, c, 2)],
    ) + empty_mark(board[line_cell(dir, c, 3)])
}

pub proof fn lemma_empties_by_lines(board: Seq<int>, dir: Direction)
    ensures
        empty_count(board) == line_empties(board, dir, 0) + line_empties(board, dir, 1) + line_empties(
            board,
            dir,
            2,
        ) + line_empties(board, dir, 3),
{
    assert(empties_before(board, 0) == 0);
    assert(empties_before(board, 1) == empties_before(board, 0) + empty_mark(board[0]));
    assert(empties_before(board, 2) == empties_before(board, 1) + empty_mark(board[4]));
    assert(empties_before(board, 3) == empties_before(board, 2) + empty_mark(board[8]));
    assert(empties_before(board, 4) == empties_before(board, 3) + empty_mark(board[12]));
    assert(empties_before(board, 5) == empties_before(board, 4) + empty_mark(board[1]));
    assert(empties_before(board, 6) == empties_before(board, 5) + empty_mark(board[5]));
    assert(empties_before(board, 7) == empties_before(board, 6) + empty_mark(board[9]));
    assert(empties_before(board, 8) == empties_before(board, 7) + empty_mark(board[13]));
    assert(empties_before(board, 9) == empties_before(board, 8) + empty_mark(board[2]));
    assert(empties_before(board, 10) == empties_before(board, 9) + empty_mark(board[6]));
    assert(empties_before(board, 11) == empties_before(board, 10) + empty_mark(board[10]));
    assert(empties_before(board, 12) == empties_before(board, 11) + empty_mark(board[14]));
    assert(empties_before(board, 13) == empties_before(board, 12) + empty_mark(board[3]));
    assert(empties_before(board, 14) == empties_before(board, 13) + empty_mark(board[7]));
    assert(empties_before(board, 15) == empties_before(board, 14) + empty_mark(board[11]));
    assert(empties_before(board, 16) == empties_before(board, 15) + empty_mark(board[15]));
    match dir {
        Direction::Left => {},
        Direction::Right => {},
        Direction::Up => {},
        Direction::Down => {},
    }
}

/// What a move in `dir` may leave of `before`: the board unchanged where the slide changes
/// nothing; else the slid board with a new tile of exponent 1 or 2 in one of its empty cells
/// (a slide that changes the board always leaves one).
pub open spec fn move_outcome(before: Seq<int>, dir: Direction, after: Seq<int>) -> bool {
    let slid = slid_board(before, dir);
    &&& slid == before ==> after == before
    &&& slid != before ==> exists|j: int, v: int|
        is_empty_slot(slid, j) && (v == 1 || v == 2) && after == #[trigger] slid.update(scan_cell(j), v)
}

/// No slide in any direction makes an exponent that overflows a cell.
pub open spec fn all_slides_fit(board: Seq<int>) -> bool {
    &&& slide_fits(board, Direction::Left)
    &&& slide_fits(board, Direction::Right)
    &&& slide_fits(board, Direction::Up)
    &&& slide_fits(board, Direction::Down)
}

/// A board with no tile on it.
pub open spec fn empty_board() -> Seq<int> {
    Seq::new(16, |i: int| 0)
}

/// Some tile is above 2048: the board was not reached by play.
pub open spec fn has_tile_above_limit(board: Seq<int>) -> bool {
    exists|i: int| 0 <= i < 16 && board[i] > 11
}

/// Some tile is 2048.
pub open spec fn has_winning_tile(board: Seq<int>) -> bool {
    exists|i: int| 0 <= i < 16 && board[i] == 11
}

pub proof fn lemma_scan_cell(i: int)
    requires
        0 <= i < 16,
    ensures
        0 <= (i % 4) * 4 + i / 4 < 16,
        scan_cell((i % 4) * 4 + i / 4) == i,
{
}

pub proof fn lemma_cell_in_line(dir: Direction, a: int, b: int)
    requires
        0 <= a < 4,
        0 <= b < 4,
    ensures
        0 <= line_cell(dir, a, b) < 16,
        line_of_cell(dir, line_cell(dir, a, b)) == a,
        step_of_cell(dir, line_cell(dir, a, b)) == b,
{
}

pub proof fn lemma_line_of_cell(dir: Direction, i: int)
    requires
        0 <= i < 16,
    ensures
        0 <= line_of_cell(dir, i) < 4,
        0 <= step_of_cell(dir, i) < 4,
        line_cell(dir, line_of_cell(dir, i), step_of_cell(dir, i)) == i,
{
}

/// The tile waiting for a partner while a line is merged: none when `v` is `0`.
pub open spec fn pending(v: int) -> Seq<int> {
    if v == 0 {
        Seq::empty()
    } else {
        seq![v]
    }
}

/// A line partway through a slide: `out` is settled, `cv` waits at `current` for a
/// partner, the cells up to `b` are emptied, and the rest is as it was in `l`.
pub open spec fn line_state(out: Seq<int>, cv: int, current: int, b: int, l: Seq<int>) -> Seq<int> {
    Seq::new(
        4,
        |k: int|
            if k < current {
                out[k]
            } else if k == current {
                cv
            } else if k < b {
                0
            } else {
                l[k]
            },
    )
}

/// Every exponent of a line after a slide still fits in a cell's four bits.
pub open spec fn line_fits(line: Seq<int>) -> bool {
    forall|k: int| 0 <= k < 4 ==> #[trigger] slid_line(line)[k] < 16
}

pub proof fn lemma_line_update(board: Seq<int>, dir: Direction, a: int, k: int, v: int)
    requires
        board.len() == 16,
        0 <= a < 4,
        0 <= k < 4,
    ensures
        line_of(board.update(line_cell(dir, a, k), v), dir, a) == line_of(board, dir, a).update(k, v),
        forall|c: int, j: int|
            0 <= c < 4 && c != a && 0 <= j < 4 ==> board.update(line_cell(dir, a, k), v)[#[trigger] line_cell(dir, c, j)]
                == board[line_cell(dir, c, j)],
{
    lemma_cell_in_line(dir, a, k);
    assert(line_of(board.update(line_cell(dir, a, k), v), dir, a) =~= line_of(board, dir, a).update(k, v));
}

pub proof fn lemma_nonzeros_front(s: Seq<int>, b: int)
    requires
        0 <= b < s.len(),
    ensures
        nonzeros(s.subrange(b, s.len() as int)) == pending(s[b]) + nonzeros(s.subrange(b + 1, s.len() as int)),
{
    let t = s.subrange(b, s.len() as int);
    assert(t.drop_first() =~= s.subrange(b + 1, s.len() as int));
    if s[b] == 0 {
    } else {
        assert(pending(s[b]) == seq![s[b]]);
    }
}

pub proof fn lemma_merge_pair(x: int, y: int, rest: Seq<int>)
    ensures
        x == y ==> merge_tiles(seq![x, y] + rest) == seq![x + 1] + merge_tiles(rest),
        x != y ==> merge_tiles(seq![x, y] + rest) == seq![x] + merge_tiles(seq![y] + rest),
{
    let s = seq![x, y] + rest;
    assert(s[0] == x);
    assert(s[1] == y);
    assert(s.subrange(2, s.len() as int) =~= rest);
    assert(s.drop_first() =~= seq![y] + rest);
}

pub proof fn lemma_merge_head(x: int, rest: Seq<int>)
    ensures
        merge_tiles(seq![x] + rest).len() > 0,
        merge_tiles(seq![x] + rest)[0] == x || merge_tiles(seq![x] + rest)[0] == x + 1,
{
    let s = seq![x] + rest;
    if rest.len() == 0 {
        assert(s =~= seq![x]);
    } else {
        assert(s =~= seq![x, rest[0]] + rest.drop_first());
        lemma_merge_pair(x, rest[0], rest.drop_first());
    }
}

/// One tile `v` joins the merge: it meets the pending tile `cv`, takes its place, or
/// pushes it out.
pub proof fn lemma_merge_step(m: Seq<int>, out: Seq<int>, cv: int, v: int, rest: Seq<int>)
    requires
        m == out + merge_tiles(pending(cv) + seq![v] + rest),
        v != 0,
    ensures
        cv == v ==> m == (out + seq![v + 1]) + merge_tiles(pending(0) + rest) && m[out.len() as int] == v + 1,
        cv == 0 ==> m == out + merge_tiles(pending(v) + rest) && m.len() > out.len() && m[out.len() as int] >= v,
        cv != 0 && cv != v ==> m == (out + seq![cv]) + merge_tiles(pending(v) + rest) && m.len() > out.len() + 1
            && m[out.len() + 1int] >= v,
{
    assert(pending(0) + rest =~= rest);
    assert(pending(v) == seq![v]);
    if cv == 0 {
        assert(pending(cv) + seq![v] + rest =~= seq![v] + rest);
        lemma_merge_head(v, rest);
    } else {
        assert(pending(cv) + seq![v] + rest =~= seq![cv, v] + rest);
        lemma_merge_pair(cv, v, rest);
        if cv == v {
            assert(m =~= (out + seq![v + 1]) + merge_tiles(rest));
        } else {
            lemma_merge_head(v, rest);
            assert(m =~= (out + seq![cv]) + merge_tiles(seq![v] + rest));
        }
    }
}

pub proof fn lemma_nonzeros(s: Seq<int>)
    ensures
        nonzeros(s).len() <= s.len(),
        forall|k: int| 0 <= k < nonzeros(s).len() ==> nonzeros(s)[k] != 0,
        (forall|k: int| 0 <= k < s.len() ==> s[k] >= 0) ==> forall|k: int|
            0 <= k < nonzeros(s).len() ==> nonzeros(s)[k] > 0,
    decreases s.len(),
{
    if s.len() > 0 {
        lemma_nonzeros(s.drop_first());
    }
}

pub proof fn lemma_merge_len(s: Seq<int>)
    ensures
        merge_tiles(s).len() <= s.len(),
        s.len() > 0 ==> merge_tiles(s).len() > 0,
        (forall|k: int| 0 <= k < s.len() ==> s[k] > 0) ==> forall|k: int|
            0 <= k < merge_tiles(s).len() ==> merge_tiles(s)[k] > 0,
    decreases s.len(),
{
    if s.len() >= 2 {
        if s[0] == s[1] {
            lemma_merge_len(s.subrange(2, s.len() as int));
        } else {
            lemma_merge_len(s.drop_first());
        }
    }
}

pub proof fn lemma_slid_line_len(line: Seq<int>)
    requires
        line.len() == 4,
    ensures
        slid_line(line).len() == 4,
        merge_tiles(nonzeros(line)).len() <= 4,
{
    lemma_nonzeros(line);
    lemma_merge_len(nonzeros(line));
}

/// A slid line holds its merged tiles first and empty cells after them.
pub proof fn lemma_slid_line_empties(line: Seq<int>)
    requires
        line.len() == 4,
        forall|k: int| 0 <= k < 4 ==> line[k] >= 0,
    ensures
        empty_mark(slid_line(line)[0]) + empty_mark(slid_line(line)[1]) + empty_mark(slid_line(line)[2])
            + empty_mark(slid_line(line)[3]) == 4 - merge_tiles(nonzeros(line)).len(),
{
    lemma_nonzeros(line);
    lemma_merge_len(nonzeros(line));
    let m = merge_tiles(nonzeros(line));
    assert forall|k: int| 0 <= k < 4 implies (slid_line(line)[k] == 0) == (k >= m.len()) by {
        if k < m.len() {
            assert(slid_line(line)[k] == m[k]);
        }
    }
}

proof fn lemma_nonzeros_bound(s: Seq<int>, bound: int)
    requires
        forall|k: int| 0 <= k < s.len() ==> s[k] <= bound,
    ensures
        forall|k: int| 0 <= k < nonzeros(s).len() ==> nonzeros(s)[k] <= bound,
    decreases s.len(),
{
    if s.len() > 0 {
        let rest = nonzeros(s.drop_first());
        lemma_nonzeros_bound(s.drop_first(), bound);
        if s[0] != 0 {
            assert forall|k: int| 0 <= k < nonzeros(s).len() implies nonzeros(s)[k] <= bound by {
                if k > 0 {
                    assert(nonzeros(s)[k] == rest[k - 1]);
                }
            }
        }
    }
}

proof fn lemma_merge_bound(s: Seq<int>, bound: int)
    requires
        forall|k: int| 0 <= k < s.len() ==> s[k] <= bound,
    ensures
        forall|k: int| 0 <= k < merge_tiles(s).len() ==> merge_tiles(s)[k] <= bound + 1,
    decreases s.len(),
{
    if s.len() >= 2 {
        if s[0] == s[1] {
            let rest = merge_tiles(s.subrange(2, s.len() as int));
            lemma_merge_bound(s.subrange(2, s.len() as int), bound);
            assert forall|k: int| 0 <= k < merge_tiles(s).len() implies merge_tiles(s)[k] <= bound + 1 by {
                if k > 0 {
                    assert(merge_tiles(s)[k] == rest[k - 1]);
                }
            }
        } else {
            let rest = merge_tiles(s.drop_first());
            lemma_merge_bound(s.drop_first(), bound);
            assert forall|k: int| 0 <= k < merge_tiles(s).len() implies merge_tiles(s)[k] <= bound + 1 by {
                if k > 0 {
                    assert(merge_tiles(s)[k] == rest[k - 1]);
                }
            }
        }
    }
}

/// On a board with no tile above 2048 every slide fits: a merge makes at most a 4096.
pub proof fn lemma_within_limit_fits(board: Seq<int>)
    requires
        board.len() == 16,
        !has_tile_above_limit(board),
    ensures
        all_slides_fit(board),
{
    assert forall|dir: Direction, i: int| 0 <= i < 16 implies #[trigger] slid_board(board, dir)[i] < 16 by {
        lemma_line_of_cell(dir, i);
        let l = line_of(board, dir, line_of_cell(dir, i));
        assert forall|k: int| 0 <= k < 4 implies l[k] <= 11 by {
            lemma_cell_in_line(dir, line_of_cell(dir, i), k);
        }
        lemma_nonzeros_bound(l, 11);
        lemma_merge_bound(nonzeros(l), 11);
        lemma_slid_line_len(l);
        let k = step_of_cell(dir, i);
        let m = merge_tiles(nonzeros(l));
        if k < m.len() {
            assert(slid_line(l)[k] == m[k]);
        }
    }
}

/// Reading a slid board along the slide's lines gives the slid lines.
pub proof fn lemma_slid_board_line(board: Seq<int>, dir: Direction, a: int)
    requires
        0 <= a < 4,
    ensures
        line_of(slid_board(board, dir), dir, a) == slid_line(line_of(board, dir, a)),
{
    lemma_slid_line_len(line_of(board, dir, a));
    assert forall|b: int| 0 <= b < 4 implies line_of(slid_board(board, dir), dir, a)[b] == slid_line(
        line_of(board, dir, a),
    )[b] by {
        lemma_cell_in_line(dir, a, b);
    }
    assert(line_of(slid_board(board, dir), dir, a) =~= slid_line(line_of(board, dir, a)));
}

/// How many cells of `s` are empty.
pub open spec fn zero_marks(s: Seq<int>) -> int
    decreases s.len(),
{
    if s.len() == 0 {
        0
    } else {
        empty_mark(s[0]) + zero_marks(s.drop_first())
    }
}

proof fn lemma_nonzeros_count(s: Seq<int>)
    ensures
        nonzeros(s).len() + zero_marks(s) == s.len(),
    decreases s.len(),
{
    if s.len() > 0 {
        lemma_nonzeros_count(s.drop_first());
    }
}

proof fn lemma_line_empties_count(board: Seq<int>, dir: Direction, a: int)
    requires
        0 <= a < 4,
    ensures
        line_empties(board, dir, a) == 4 - nonzeros(line_of(board, dir, a)).len(),
{
    let l = line_of(board, dir, a);
    lemma_nonzeros_count(l);
    let l1 = l.drop_first();
    let l2 = l1.drop_first();
    let l3 = l2.drop_first();
    let l4 = l3.drop_first();
    assert(l1[0] == l[1] && l1[1] == l[2] && l1[2] == l[3]);
    assert(l2[0] == l[2] && l2[1] == l[3]);
    assert(l3[0] == l[3]);
    assert(l4.len() == 0);
    assert(zero_marks(l4) == 0);
    assert(zero_marks(l3) == empty_mark(l[3]) + zero_marks(l4));
    assert(zero_marks(l2) == empty_mark(l[2]) + zero_marks(l3));
    assert(zero_marks(l1) == empty_mark(l[1]) + zero_marks(l2));
    assert(zero_marks(l) == empty_mark(l[0]) + zero_marks(l1));
}

/// A slide never takes away an empty cell: tiles only move or merge.
pub proof fn lemma_slide_keeps_room(board: Seq<int>, dir: Direction)
    requires
        board.len() == 16,
        forall|i: int| 0 <= i < 16 ==> board[i] >= 0,
    ensures
        empty_count(slid_board(board, dir)) >= empty_count(board),
{
    let slid = slid_board(board, dir);
    lemma_empties_by_lines(board, dir);
    lemma_empties_by_lines(slid, dir);
    assert forall|a: int| 0 <= a < 4 implies #[trigger] line_empties(slid, dir, a) >= line_empties(board, dir, a) by {
        let l = line_of(board, dir, a);
        assert forall|k: int| 0 <= k < 4 implies l[k] >= 0 by {
            lemma_cell_in_line(dir, a, k);
        }
        lemma_slid_board_line(board, dir, a);
        lemma_slid_line_empties(l);
        lemma_line_empties_count(board, dir, a);
        lemma_merge_len(nonzeros(l));
        assert(line_of(slid, dir, a)[0] == slid[line_cell(dir, a, 0)]);
        assert(line_of(slid, dir, a)[1] == slid[line_cell(dir, a, 1)]);
        assert(line_of(slid, dir, a)[2] == slid[line_cell(dir, a, 2)]);
        assert(line_of(slid, dir, a)[3] == slid[line_cell(dir, a, 3)]);
    }
    assert(line_empties(slid, dir, 0) >= line_empties(board, dir, 0));
    assert(line_empties(slid, dir, 1) >= line_empties(board, dir, 1));
    assert(line_empties(slid, dir, 2) >= line_empties(board, dir, 2));
    assert(line_empties(slid, dir, 3) >= line_empties(board, dir, 3));
}

proof fn lemma_nonzeros_full(s: Seq<int>)
    requires
        nonzeros(s).len() == s.len(),
    ensures
        nonzeros(s) == s,
    decreases s.len(),
{
    if s.len() > 0 {
        lemma_nonzeros(s.drop_first());
        if s[0] == 0 {
            assert(false);
        } else {
            lemma_nonzeros_full(s.drop_first());
            assert(s =~= seq![s[0]] + s.drop_first());
        }
    }
}

proof fn lemma_merge_full(s: Seq<int>)
    requires
        merge_tiles(s).len() == s.len(),
    ensures
        merge_tiles(s) == s,
    decreases s.len(),
{
    if s.len() >= 2 {
        if s[0] == s[1] {
            lemma_merge_len(s.subrange(2, s.len() as int));
            assert(false);
        } else {
            lemma_merge_full(s.drop_first());
            assert(s =~= seq![s[0]] + s.drop_first());
        }
    }
}

/// A line that a slide changes has an empty cell afterwards.
proof fn lemma_changed_line_has_room(line: Seq<int>)
    requires
        line.len() == 4,
        slid_line(line) != line,
    ensures
        merge_tiles(nonzeros(line)).len() < 4,
{
    lemma_nonzeros(line);
    lemma_merge_len(nonzeros(line));
    if merge_tiles(nonzeros(line)).len() == 4 {
        lemma_nonzeros_full(line);
        lemma_merge_full(nonzeros(line));
        assert(slid_line(line) =~= line);
    }
}

/// A slide that changes the board leaves an empty cell on it, so a move that changes the
/// board always has room for its new tile.
pub proof fn lemma_change_leaves_room(board: Seq<int>, dir: Direction)
    requires
        board.len() == 16,
        forall|i: int| 0 <= i < 16 ==> board[i] >= 0,
    ensures
        slid_board(board, dir) != board ==> empty_count(slid_board(board, dir)) > 0,
{
    let slid = slid_board(board, dir);
    if slid != board {
        let i = choose|i: int| 0 <= i < 16 && slid[i] != board[i];
        if !(0 <= i < 16 && slid[i] != board[i]) {
            assert(slid =~= board);
        }
        lemma_line_of_cell(dir, i);
        let c = line_of_cell(dir, i);
        let l = line_of(board, dir, c);
        lemma_slid_board_line(board, dir, c);
        assert(slid_line(l)[step_of_cell(dir, i)] != l[step_of_cell(dir, i)]);
        lemma_changed_line_has_room(l);
        assert forall|k: int| 0 <= k < 4 implies l[k] >= 0 by {
            lemma_cell_in_line(dir, c, k);
        }
        lemma_slid_line_empties(l);
        lemma_empties_by_lines(slid, dir);
        assert(line_of(slid, dir, c)[0] == slid[line_cell(dir, c, 0)]);
        assert(line_of(slid, dir, c)[1] == slid[line_cell(dir, c, 1)]);
        assert(line_of(slid, dir, c)[2] == slid[line_cell(dir, c, 2)]);
        assert(line_of(slid, dir, c)[3] == slid[line_cell(dir, c, 3)]);
        assert(line_empties(slid, dir, c) > 0);
        assert(line_empties(slid, dir, 0) >= 0);
        assert(line_empties(slid, dir, 1) >= 0);
        assert(line_empties(slid, dir, 2) >= 0);
        assert(line_empties(slid, dir, 3) >= 0);
    }
}

/// The board seen in a mirror: column `x` shows column `3 - x`.
pub open spec fn mirrored(board: Seq<int>) -> Seq<int> {
    Seq::new(16, |i: int| board[cell_index(3 - i % 4, i / 4)])
}

/// The board turned over its diagonal: column `x`, row `y` shows column `y`, row `x`.
pub open spec fn transposed(board: Seq<int>) -> Seq<int> {
    Seq::new(16, |i: int| board[cell_index(i / 4, i % 4)])
}

proof fn lemma_mirrored_twice(board: Seq<int>)
    requires
        board.len() == 16,
    ensures
        mirrored(mirrored(board)) == board,
{
    assert(mirrored(mirrored(board)) =~= board);
}

proof fn lemma_transposed_twice(board: Seq<int>)
    requires
        board.len() == 16,
    ensures
        transposed(transposed(board)) == board,
{
    assert(transposed(transposed(board)) =~= board);
}

/// A slide to the right is a slide to the left seen in a mirror, and it changes the board
/// exactly when that one changes the mirrored board.
pub proof fn lemma_slide_right_mirrors_left(board: Seq<int>)
    requires
        board.len() == 16,
    ensures
        slid_board(board, Direction::Right) == mirrored(slid_board(mirrored(board), Direction::Left)),
        (slid_board(board, Direction::Right) != board) == (slid_board(mirrored(board), Direction::Left)
            != mirrored(board)),
{
    let m = mirrored(board);
    assert forall|a: int| 0 <= a < 4 implies #[trigger] line_of(m, Direction::Left, a) == line_of(
        board,
        Direction::Right,
        a,
    ) by {
        assert(line_of(m, Direction::Left, a) =~= line_of(board, Direction::Right, a));
    }
    let r = slid_board(board, Direction::Right);
    let l = slid_board(m, Direction::Left);
    assert forall|i: int| 0 <= i < 16 implies r[i] == mirrored(l)[i] by {
        let j = cell_index(3 - i % 4, i / 4);
        assert(line_of_cell(Direction::Left, j) == i / 4);
        assert(step_of_cell(Direction::Left, j) == 3 - i % 4);
    }
    assert(r =~= mirrored(l));
    lemma_mirrored_twice(board);
    lemma_mirrored_twice(l);
}

/// A slide up is a slide to the left on the board turned over its diagonal, and it changes
/// the board exactly when that one changes the turned board.
pub proof fn lemma_slide_up_transposes_left(board: Seq<int>)
    requires
        board.len() == 16,
    ensures
        slid_board(board, Direction::Up) == transposed(slid_board(transposed(board), Direction::Left)),
        (slid_board(board, Direction::Up) != board) == (slid_board(transposed(board), Direction::Left)
            != transposed(board)),
{
    let t = transposed(board);
    assert forall|a: int| 0 <= a < 4 implies #[trigger] line_of(t, Direction::Left, a) == line_of(
        board,
        Direction::Up,
        a,
    ) by {
        assert(line_of(t, Direction::Left, a) =~= line_of(board, Direction::Up, a));
    }
    let u = slid_board(board, Direction::Up);
    let l = slid_board(t, Direction::Left);
    assert forall|i: int| 0 <= i < 16 implies u[i] == transposed(l)[i] by {
        let j = cell_index(i / 4, i % 4);
        assert(line_of_cell(Direction::Left, j) == i % 4);
        assert(step_of_cell(Direction::Left, j) == i / 4);
    }
    assert(u =~= transposed(l));
    lemma_transposed_twice(board);
    lemma_transposed_twice(l);
}

/// A slide down is a slide to the left on the board turned over its diagonal and then
/// mirrored, and it changes the board exactly when that one changes the turned board.
pub proof fn lemma_slide_down_turns_left(board: Seq<int>)
    requires
        board.len() == 16,
    ensures
        slid_board(board, Direction::Down) == transposed(
            mirrored(slid_board(mirrored(transposed(board)), Direction::Left)),
        ),
        (slid_board(board, Direction::Down) != board) == (slid_board(
            mirrored(transposed(board)),
            Direction::Left,
        ) != mirrored(transposed(board))),
{
    let mt = mirrored(transposed(board));
    assert forall|a: int| 0 <= a < 4 implies #[trigger] line_of(mt, Direction::Left, a) == line_of(
        board,
        Direction::Down,
        a,
    ) by {
        assert(line_of(mt, Direction::Left, a) =~= line_of(board, Direction::Down, a));
    }
    let d = slid_board(board, Direction::Down);
    let l = slid_board(mt, Direction::Left);
    assert forall|i: int| 0 <= i < 16 implies d[i] == transposed(mirrored(l))[i] by {
        let j = cell_index(3 - i / 4, i % 4);
        assert(line_of_cell(Direction::Left, j) == i % 4);
        assert(step_of_cell(Direction::Left, j) == 3 - i / 4);
    }
    assert(d =~= transposed(mirrored(l)));
    lemma_transposed_twice(board);
    lemma_mirrored_twice(transposed(board));
    lemma_mirrored_twice(l);
    lemma_transposed_twice(mirrored(l));
}

/// Two 2048s meet in a line: they follow each other with only empty cells between them.
pub open spec fn two_2048s_meet(line: Seq<int>) -> bool {
    exists|k: int|
        0 <= k && k + 1 < nonzeros(line).len() && #[trigger] nonzeros(line)[k] == 11 && nonzeros(line)[k
            + 1] == 11
}

proof fn lemma_merge_within_2048(s: Seq<int>)
    requires
        forall|k: int| 0 <= k < s.len() ==> 0 < #[trigger] s[k] <= 11,
        !(exists|k: int| 0 <= k && k + 1 < s.len() && #[trigger] s[k] == 11 && s[k + 1] == 11),
    ensures
        forall|k: int| 0 <= k < merge_tiles(s).len() ==> 0 < #[trigger] merge_tiles(s)[k] <= 11,
    decreases s.len(),
{
    if s.len() >= 2 {
        let rest = if s[0] == s[1] {
            s.subrange(2, s.len() as int)
        } else {
            s.drop_first()
        };
        let shift: int = if s[0] == s[1] {
            2
        } else {
            1
        };
        assert forall|k: int| 0 <= k < rest.len() implies 0 < #[trigger] rest[k] <= 11 by {
            assert(rest[k] == s[k + shift]);
        }
        if exists|k: int| 0 <= k && k + 1 < rest.len() && #[trigger] rest[k] == 11 && rest[k + 1] == 11 {
            let k = choose|k: int| 0 <= k && k + 1 < rest.len() && #[trigger] rest[k] == 11 && rest[k + 1] == 11;
            assert(s[k + shift] == 11 && s[k + shift + 1] == 11);
        }
        lemma_merge_within_2048(rest);
        if s[0] == s[1] {
            assert(s[0] != 11 || s[1] != 11);
        }
        assert forall|k: int| 0 <= k < merge_tiles(s).len() implies 0 < #[trigger] merge_tiles(s)[k] <= 11 by {
            if k > 0 {
                assert(merge_tiles(s)[k] == merge_tiles(rest)[k - 1]);
            }
        }
    }
}

/// A move on a board with no tile above 2048, where no two 2048s meet in a line along the
/// move, keeps every tile at or below 2048: the board is not taken for cheated afterwards.
pub proof fn lemma_move_stays_within_2048(before: Seq<int>, dir: Direction, after: Seq<int>)
    requires
        before.len() == 16,
        forall|i: int| 0 <= i < 16 ==> 0 <= #[trigger] before[i] <= 11,
        forall|a: int| 0 <= a < 4 ==> !two_2048s_meet(#[trigger] line_of(before, dir, a)),
        move_outcome(before, dir, after),
    ensures
        slide_fits(before, dir),
        after.len() == 16,
        forall|i: int| 0 <= i < 16 ==> 0 <= #[trigger] after[i] <= 11,
        !has_tile_above_limit(after),
{
    let slid = slid_board(before, dir);
    assert forall|i: int| 0 <= i < 16 implies 0 <= #[trigger] slid[i] <= 11 by {
        lemma_line_of_cell(dir, i);
        let c = line_of_cell(dir, i);
        let l = line_of(before, dir, c);
        assert forall|k: int| 0 <= k < 4 implies 0 <= #[trigger] l[k] <= 11 by {
            lemma_cell_in_line(dir, c, k);
        }
        lemma_nonzeros(l);
        lemma_nonzeros_bound(l, 11);
        assert(!two_2048s_meet(l));
        let nz = nonzeros(l);
        assert forall|k: int| 0 <= k < nz.len() implies 0 < #[trigger] nz[k] <= 11 by {}
        lemma_merge_within_2048(nz);
        lemma_slid_line_len(l);
        let k = step_of_cell(dir, i);
        let m = merge_tiles(nz);
        if k < m.len() {
            assert(slid_line(l)[k] == m[k]);
        }
    }
    if slid != before {
        let (j, v) = choose|j: int, v: int|
            is_empty_slot(slid, j) && (v == 1 || v == 2) && after == #[trigger] slid.update(scan_cell(j), v);
        assert(0 <= scan_cell(j) < 16);
    }
    assert forall|i: int| 0 <= i < 16 implies 0 <= #[trigger] after[i] <= 11 by {}
}

} // verus!
