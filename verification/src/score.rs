use vstd::prelude::*;

use vstd::arithmetic::power2::{lemma2_to64, lemma_pow2_unfold, pow2};

use crate::board::{
    empties, is_empty_slot, lemma_cell_in_line, lemma_nonzeros,
    lemma_slid_board_line, lemma_slid_line_len, line_cell, line_of, merge_tiles, move_outcome,
    nonzeros, scan_cell, slid_board, slid_line,
};
use crate::minigame::Direction;

verus! {

/// The number on a tile of exponent `v`; an empty cell counts 0.
pub open spec fn tile_value(v: int) -> int {
    if v <= 0 {
        0
    } else {
        pow2(v as nat) as int
    }
}

/// The sum of the numbers on the first `n` cells of `s`.
pub open spec fn total_upto(s: Seq<int>, n: int) -> int
    decreases n,
{
    if n <= 0 {
        0
    } else {
        total_upto(s, n - 1) + tile_value(s[n - 1])
    }
}

/// The sum of the numbers on all tiles of `s`.
pub open spec fn total(s: Seq<int>) -> int {
    total_upto(s, s.len() as int)
}

proof fn lemma_total_upto_same(s: Seq<int>, t: Seq<int>, n: int)
    requires
        0 <= n <= s.len(),
        n <= t.len(),
        forall|k: int| 0 <= k < n ==> s[k] == t[k],
    ensures
        total_upto(s, n) == total_upto(t, n),
    decreases n,
{
    if n > 0 {
        lemma_total_upto_same(s, t, n - 1);
    }
}

proof fn lemma_total_concat(a: Seq<int>, b: Seq<int>)
    ensures
        total(a + b) == total(a) + total(b),
    decreases b.len(),
{
    if b.len() == 0 {
        assert(a + b =~= a);
    } else {
        let c = b.drop_last();
        lemma_total_concat(a, c);
        lemma_total_upto_same(a + b, a + c, (a + c).len() as int);
        lemma_total_upto_same(b, c, c.len() as int);
    }
}

proof fn lemma_total_cons(x: int, s: Seq<int>)
    ensures
        total(seq![x] + s) == tile_value(x) + total(s),
{
    assert(total_upto(seq![x], 0) == 0);
    lemma_total_concat(seq![x], s);
}

proof fn lemma_total_empties(n: int)
    requires
        n >= 0,
    ensures
        total(empties(n)) == 0,
    decreases n,
{
    if n > 0 {
        lemma_total_empties(n - 1);
        lemma_total_upto_same(empties(n), empties(n - 1), n - 1);
    }
}

proof fn lemma_total_nonzeros(s: Seq<int>)
    ensures
        total(nonzeros(s)) == total(s),
    decreases s.len(),
{
    if s.len() > 0 {
        lemma_total_nonzeros(s.drop_first());
        assert(s =~= seq![s[0]] + s.drop_first());
        lemma_total_cons(s[0], s.drop_first());
        if s[0] != 0 {
            lemma_total_cons(s[0], nonzeros(s.drop_first()));
        }
    }
}

proof fn lemma_total_merge(s: Seq<int>)
    requires
        forall|k: int| 0 <= k < s.len() ==> s[k] > 0,
    ensures
        total(merge_tiles(s)) == total(s),
    decreases s.len(),
{
    if s.len() >= 2 {
        assert(s =~= seq![s[0]] + s.drop_first());
        lemma_total_cons(s[0], s.drop_first());
        if s[0] == s[1] {
            let rest = s.subrange(2, s.len() as int);
            lemma_total_merge(rest);
            assert(s.drop_first() =~= seq![s[1]] + rest);
            lemma_total_cons(s[1], rest);
            lemma_total_cons(s[0] + 1, merge_tiles(rest));
            lemma_pow2_unfold((s[0] + 1) as nat);
        } else {
            lemma_total_merge(s.drop_first());
            lemma_total_cons(s[0], merge_tiles(s.drop_first()));
        }
    }
}

/// A slide keeps the sum of a line: merging two equal tiles makes one tile of their sum.
proof fn lemma_total_slid_line(line: Seq<int>)
    requires
        line.len() == 4,
        forall|k: int| 0 <= k < 4 ==> line[k] >= 0,
    ensures
        total(slid_line(line)) == total(line),
{
    lemma_nonzeros(line);
    lemma_slid_line_len(line);
    let m = merge_tiles(nonzeros(line));
    lemma_total_nonzeros(line);
    lemma_total_merge(nonzeros(line));
    lemma_total_concat(m, empties(4 - m.len()));
    lemma_total_empties(4 - m.len());
}

/// The sum of a board is the sum of the sums of its lines, in any direction.
proof fn lemma_total_by_lines(board: Seq<int>, dir: Direction)
    requires
        board.len() == 16,
    ensures
        total(board) == total(line_of(board, dir, 0)) + total(line_of(board, dir, 1)) + total(
            line_of(board, dir, 2),
        ) + total(line_of(board, dir, 3)),
{
    assert(total_upto(board, 0) == 0);
    assert(total_upto(board, 1) == tile_value(board[0]));
    assert(total_upto(board, 2) == total_upto(board, 1) + tile_value(board[1]));
    assert(total_upto(board, 3) == total_upto(board, 2) + tile_value(board[2]));
    assert(total_upto(board, 4) == total_upto(board, 3) + tile_value(board[3]));
    assert(total_upto(board, 5) == total_upto(board, 4) + tile_value(board[4]));
    assert(total_upto(board, 6) == total_upto(board, 5) + tile_value(board[5]));
    assert(total_upto(board, 7) == total_upto(board, 6) + tile_value(board[6]));
    assert(total_upto(board, 8) == total_upto(board, 7) + tile_value(board[7]));
    assert(total_upto(board, 9) == total_upto(board, 8) + tile_value(board[8]));
    assert(total_upto(board, 10) == total_upto(board, 9) + tile_value(board[9]));
    assert(total_upto(board, 11) == total_upto(board, 10) + tile_value(board[10]));
    assert(total_upto(board, 12) == total_upto(board, 11) + tile_value(board[11]));
    assert(total_upto(board, 13) == total_upto(board, 12) + tile_value(board[12]));
    assert(total_upto(board, 14) == total_upto(board, 13) + tile_value(board[13]));
    assert(total_upto(board, 15) == total_upto(board, 14) + tile_value(board[14]));
    assert(total_upto(board, 16) == total_upto(board, 15) + tile_value(board[15]));
    assert forall|a: int| 0 <= a < 4 implies #[trigger] total(line_of(board, dir, a)) == tile_value(
        board[line_cell(dir, a, 0)],
    ) + tile_value(board[line_cell(dir, a, 1)]) + tile_value(board[line_cell(dir, a, 2)]) + tile_value(
        board[line_cell(dir, a, 3)],
    ) by {
        let l = line_of(board, dir, a);
        assert(total_upto(l, 0) == 0);
        assert(total_upto(l, 1) == tile_value(l[0]));
        assert(total_upto(l, 2) == total_upto(l, 1) + tile_value(l[1]));
        assert(total_upto(l, 3) == total_upto(l, 2) + tile_value(l[2]));
        assert(total_upto(l, 4) == total_upto(l, 3) + tile_value(l[3]));
    }
    assert(total(line_of(board, dir, 0)) == tile_value(board[line_cell(dir, 0, 0)]) + tile_value(
        board[line_cell(dir, 0, 1)],
    ) + tile_value(board[line_cell(dir, 0, 2)]) + tile_value(board[line_cell(dir, 0, 3)]));
    assert(total(line_of(board, dir, 1)) == tile_value(board[line_cell(dir, 1, 0)]) + tile_value(
        board[line_cell(dir, 1, 1)],
    ) + tile_value(board[line_cell(dir, 1, 2)]) + tile_value(board[line_cell(dir, 1, 3)]));
    assert(total(line_of(board, dir, 2)) == tile_value(board[line_cell(dir, 2, 0)]) + tile_value(
        board[line_cell(dir, 2, 1)],
    ) + tile_value(board[line_cell(dir, 2, 2)]) + tile_value(board[line_cell(dir, 2, 3)]));
    assert(total(line_of(board, dir, 3)) == tile_value(board[line_cell(dir, 3, 0)]) + tile_value(
        board[line_cell(dir, 3, 1)],
    ) + tile_value(board[line_cell(dir, 3, 2)]) + tile_value(board[line_cell(dir, 3, 3)]));
    match dir {
        Direction::Left => {},
        Direction::Right => {},
        Direction::Up => {},
        Direction::Down => {},
    }
}

/// A slide keeps the sum of the numbers on the board: tiles only move, and two equal tiles
/// merge into one tile of their sum.
pub proof fn lemma_slide_keeps_total(board: Seq<int>, dir: Direction)
    requires
        board.len() == 16,
        forall|i: int| 0 <= i < 16 ==> board[i] >= 0,
    ensures
        total(slid_board(board, dir)) == total(board),
{
    let slid = slid_board(board, dir);
    lemma_total_by_lines(board, dir);
    lemma_total_by_lines(slid, dir);
    assert forall|a: int| 0 <= a < 4 implies #[trigger] total(line_of(slid, dir, a)) == total(
        line_of(board, dir, a),
    ) by {
        lemma_slid_board_line(board, dir, a);
        assert forall|k: int| 0 <= k < 4 implies line_of(board, dir, a)[k] >= 0 by {
            lemma_cell_in_line(dir, a, k);
        }
        lemma_total_slid_line(line_of(board, dir, a));
    }
}

proof fn lemma_total_update(s: Seq<int>, i: int, v: int, n: int)
    requires
        0 <= i < s.len(),
        0 <= n <= s.len(),
    ensures
        total_upto(s.update(i, v), n) == total_upto(s, n) + if i < n {
            tile_value(v) - tile_value(s[i])
        } else {
            0
        },
    decreases n,
{
    if n > 0 {
        lemma_total_update(s, i, v, n - 1);
    }
}

/// A move adds 2 or 4 to the sum of the numbers on the board where it changes the board,
/// and nothing otherwise.
pub proof fn lemma_move_total(before: Seq<int>, dir: Direction, after: Seq<int>)
    requires
        before.len() == 16,
        forall|i: int| 0 <= i < 16 ==> before[i] >= 0,
        move_outcome(before, dir, after),
    ensures
        slid_board(before, dir) == before ==> total(after) == total(before),
        slid_board(before, dir) != before ==> total(after) == total(before) + 2 || total(after)
            == total(before) + 4,
{
    let slid = slid_board(before, dir);
    lemma_slide_keeps_total(before, dir);
    if slid != before {
        let (j, v) = choose|j: int, v: int|
            is_empty_slot(slid, j) && (v == 1 || v == 2) && after == #[trigger] slid.update(scan_cell(j), v);
        lemma_total_update(slid, scan_cell(j), v, 16);
        lemma2_to64();
    }
}

} // verus!
