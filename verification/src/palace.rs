//! The game state and its controller: the grid of tiles, the four directional
//! moves, tile spawning, terminal detection, and single-step undo backed by
//! the persistence store.

use vstd::prelude::*;

use crate::grid::{
    grid_full, grid_sum, grid_tiles, grid_view, is_square, lemma_grid_tiles_nonneg,
    lemma_merge_rows_sum, lemma_merge_rows_tiles, lemma_reverse_rows_sum, lemma_reverse_rows_tiles,
    lemma_rows_score_bounds, lemma_transpose_sum, lemma_transpose_tiles, merge_rows,
    merge_rows_view, reverse_rows, reverse_rows_view, rows_score, transpose, transpose_view,
};
use crate::merge::{
    all_at_least, compact, is_pow2, lemma_compact_pos, lemma_compact_sum, lemma_merge_score_bounds,
    merge_full, merge_row, merge_score, row_view, sum,
};
use crate::snapshot::snapshot_enc;
use crate::store::{history_key, stored_top_score, valid_snapshot_at, Store, StoreError};
use crate::util::{rand_below, two_or_four};

verus! {

/// The direction a move compacts toward.
pub enum MoveDirection {
    Up,
    Down,
    Left,
    Right,
}

/// The grid-size menu: a fixed list of side lengths and the selected entry.
pub struct Model {
    pub selected: usize,
    pub items: Vec<usize>,
}

impl Model {
    pub open spec fn wf(self) -> bool {
        self.items@.len() >= 1 && self.selected < self.items@.len() && (forall|k: int|
            0 <= k < self.items@.len() ==> self.items@[k] >= 2)
    }

    /// The size list 3..6 with the 4 x 4 entry selected.
    pub fn new() -> (r: Model)
        ensures
            r.wf(),
            r.items@ =~= seq![3usize, 4usize, 5usize, 6usize],
            r.selected == 1,
    {
        let mut items: Vec<usize> = Vec::new();
        items.push(3);
        items.push(4);
        items.push(5);
        items.push(6);
        Model { selected: 1, items }
    }

    /// Select the next size, wrapping around at the end of the list.
    pub fn next(&mut self)
        requires
            old(self).wf(),
        ensures
            final(self).wf(),
            final(self).items == old(self).items,
            final(self).selected == if old(self).selected + 1 < old(self).items@.len() {
                old(self).selected + 1
            } else {
                0
            },
    {
        if self.selected >= self.items.len() - 1 {
            self.selected = 0;
        } else {
            self.selected = self.selected + 1;
        }
    }

    /// Select the previous size, wrapping around at the start of the list.
    pub fn previous(&mut self)
        requires
            old(self).wf(),
        ensures
            final(self).wf(),
            final(self).items == old(self).items,
            final(self).selected == if old(self).selected == 0 {
                old(self).items@.len() - 1
            } else {
                old(self).selected - 1
            },
    {
        if self.selected == 0 {
            self.selected = self.items.len() - 1;
        } else {
            self.selected = self.selected - 1;
        }
    }

    /// The side length currently selected.
    pub fn size(&self) -> (r: usize)
        requires
            self.wf(),
        ensures
            r == self.items@[self.selected as int],
            r >= 2,
    {
        self.items[self.selected]
    }
}

/// An equal pair lying side by side in a row, at `(x, y)` and `(x, y - 1)`.
pub open spec fn row_adjacent_at(gv: Seq<Seq<int>>, x: int, y: int) -> bool {
    gv[x][y] != 0 && gv[x][y] == gv[x][y - 1]
}

/// An equal pair lying one over the other, at `(x, y)` and `(x - 1, y)`.
pub open spec fn col_adjacent_at(gv: Seq<Seq<int>>, x: int, y: int) -> bool {
    gv[x][y] != 0 && gv[x][y] == gv[x - 1][y]
}

/// Some two adjacent cells hold equal non-zero values, so a move could merge.
pub open spec fn has_adjacent_equal(gv: Seq<Seq<int>>, n: int) -> bool {
    (exists|x: int, y: int| 0 <= x < n && 1 <= y < n && #[trigger] row_adjacent_at(gv, x, y)) || (
    exists|x: int, y: int| 1 <= x < n && 0 <= y < n && #[trigger] col_adjacent_at(gv, x, y))
}

/// No progress is possible: the grid is full and nothing adjacent can merge.
pub open spec fn is_terminal(gv: Seq<Seq<int>>, n: int) -> bool {
    grid_full(gv, n) && !has_adjacent_equal(gv, n)
}

/// Terminal detection, spelled out: a full grid with no adjacent equal pair
/// is terminal; a grid with an adjacent equal pair is not; a grid with an
/// empty cell is never terminal.
pub proof fn lemma_terminal_characterization(gv: Seq<Seq<int>>, n: int)
    ensures
        grid_full(gv, n) && !has_adjacent_equal(gv, n) ==> is_terminal(gv, n),
        has_adjacent_equal(gv, n) ==> !is_terminal(gv, n),
        !grid_full(gv, n) ==> !is_terminal(gv, n),
{
}

/// The grid after placing value `v` on cell `(x, y)`.
pub open spec fn grid_update(gv: Seq<Seq<int>>, x: int, y: int, v: int) -> Seq<Seq<int>> {
    gv.update(x, gv[x].update(y, v))
}

/// One tile of value 2 or 4 appeared on a previously empty cell; nothing else
/// changed.
pub open spec fn spawned(old_gv: Seq<Seq<int>>, new_gv: Seq<Seq<int>>, n: int) -> bool {
    exists|x: int, y: int|
        0 <= x < n && 0 <= y < n && #[trigger] old_gv[x][y] == 0 && (new_gv == grid_update(
            old_gv,
            x,
            y,
            2,
        ) || new_gv == grid_update(old_gv, x, y, 4))
}

/// Exactly two cells hold a 2 or a 4 and every other cell is empty.
pub open spec fn freshly_seeded(gv: Seq<Seq<int>>, n: int) -> bool {
    exists|x1: int, y1: int, x2: int, y2: int|
        0 <= x1 < n && 0 <= y1 < n && 0 <= x2 < n && 0 <= y2 < n && !(x1 == x2 && y1 == y2) && (
        #[trigger] gv[x1][y1] == 2 || gv[x1][y1] == 4) && (#[trigger] gv[x2][y2] == 2 || gv[x2][y2]
            == 4) && (forall|x: int, y: int|
            0 <= x < n && 0 <= y < n && !(x == x1 && y == y1) && !(x == x2 && y == y2)
                ==> #[trigger] gv[x][y] == 0)
}

/// The grid after one move in direction `md`, before the new tile spawns.
/// Up and Left read vectors in natural order; Down and Right read the same
/// axis reversed and write back reversed, so the core always compacts toward
/// the start of the vector.
pub open spec fn move_grid_view(gv: Seq<Seq<int>>, n: int, md: MoveDirection) -> Seq<Seq<int>> {
    match md {
        MoveDirection::Left => merge_rows_view(gv, n as nat),
        MoveDirection::Right => reverse_rows_view(
            merge_rows_view(reverse_rows_view(gv), n as nat),
        ),
        MoveDirection::Up => transpose_view(
            merge_rows_view(transpose_view(gv, n), n as nat),
            n,
        ),
        MoveDirection::Down => transpose_view(
            reverse_rows_view(merge_rows_view(reverse_rows_view(transpose_view(gv, n)), n as nat)),
            n,
        ),
    }
}

/// The score one move earns: the sum of the values created by its merges.
pub open spec fn move_score_view(gv: Seq<Seq<int>>, n: int, md: MoveDirection) -> int {
    match md {
        MoveDirection::Left => rows_score(gv),
        MoveDirection::Right => rows_score(reverse_rows_view(gv)),
        MoveDirection::Up => rows_score(transpose_view(gv, n)),
        MoveDirection::Down => rows_score(reverse_rows_view(transpose_view(gv, n))),
    }
}

/// Conservation: the merge step of a move conserves the total of all tile
/// values, whatever the direction; two merged cells of value `k` become one
/// cell of value `2 * k`.
pub proof fn lemma_move_conserves_sum(gv: Seq<Seq<int>>, n: int, md: MoveDirection)
    requires
        is_square(gv, n),
    ensures
        grid_sum(move_grid_view(gv, n, md)) == grid_sum(gv),
{
    match md {
        MoveDirection::Left => {
            crate::grid::lemma_merge_rows_sum(gv, n as nat);
        },
        MoveDirection::Right => {
            crate::grid::lemma_reverse_rows_sum(gv);
            crate::grid::lemma_merge_rows_sum(reverse_rows_view(gv), n as nat);
            crate::grid::lemma_reverse_rows_sum(merge_rows_view(reverse_rows_view(gv), n as nat));
        },
        MoveDirection::Up => {
            let t = transpose_view(gv, n);
            crate::grid::lemma_transpose_sum(gv, n);
            crate::grid::lemma_merge_rows_sum(t, n as nat);
            let m = merge_rows_view(t, n as nat);
            assert forall|i: int| 0 <= i < m.len() implies (#[trigger] m[i]).len() == n by {
                crate::merge::lemma_merge_full_len(t[i], n as nat);
            }
            crate::grid::lemma_transpose_sum(m, n);
        },
        MoveDirection::Down => {
            let t = transpose_view(gv, n);
            crate::grid::lemma_transpose_sum(gv, n);
            let rt = reverse_rows_view(t);
            crate::grid::lemma_reverse_rows_sum(t);
            let m = merge_rows_view(rt, n as nat);
            crate::grid::lemma_merge_rows_sum(rt, n as nat);
            let rm = reverse_rows_view(m);
            crate::grid::lemma_reverse_rows_sum(m);
            assert forall|i: int| 0 <= i < rm.len() implies (#[trigger] rm[i]).len() == n by {
                assert(rt[i].len() == n);
                crate::merge::lemma_merge_full_len(rt[i], n as nat);
                assert(rm[i] == m[i].reverse());
            }
            crate::grid::lemma_transpose_sum(rm, n);
        },
    }
}

/// The tile a spawn places adds exactly its value, 2 or 4, to the total of
/// all tile values; nothing else changes.
pub proof fn lemma_spawn_adds_tile(g1: Seq<Seq<int>>, g2: Seq<Seq<int>>, n: int)
    requires
        is_square(g1, n),
        spawned(g1, g2, n),
    ensures
        grid_sum(g2) == grid_sum(g1) + 2 || grid_sum(g2) == grid_sum(g1) + 4,
{
    let (x, y) = choose|x: int, y: int|
        0 <= x < n && 0 <= y < n && #[trigger] g1[x][y] == 0 && (g2 == grid_update(g1, x, y, 2)
            || g2 == grid_update(g1, x, y, 4));
    crate::grid::lemma_sum_update(g1[x], y, 2);
    crate::grid::lemma_sum_update(g1[x], y, 4);
    crate::grid::lemma_grid_sum_update(g1, x, g1[x].update(y, 2));
    crate::grid::lemma_grid_sum_update(g1, x, g1[x].update(y, 4));
}

/// The undo round trip, at the level of the stored bytes: when the store
/// holds the snapshot written for state `s`, whatever state an undo restores
/// from that snapshot carries exactly `s`'s grid, score, move count and
/// terminal flag — the snapshot pins them all.
pub proof fn lemma_undo_restores_saved_state(m: Map<Seq<u8>, Seq<u8>>, s: Game, g: Game, r: Game)
    requires
        s.wf(),
        m.contains_key(history_key()),
        m[history_key()] == snapshot_enc(s),
        valid_snapshot_at(m, g),
        restored_from(r, g),
    ensures
        restored_from(r, s),
{
    crate::snapshot::lemma_snapshot_enc_injective(s, g);
}

/// An undone game carries the snapshot's grid, score, move count and
/// terminal flag; only the best score is reloaded from the store instead.
pub open spec fn restored_from(s: Game, g: Game) -> bool {
    s.gv() == g.gv() && s.size == g.size && s.total_score == g.total_score && s.move_steps
        == g.move_steps && s.game_over == g.game_over
}

/// An `size` by `size` grid of empty cells.
fn zero_grid(size: usize) -> (r: Vec<Vec<u128>>)
    ensures
        is_square(grid_view(r), size as int),
        grid_tiles(grid_view(r)),
        forall|x: int, y: int|
            0 <= x < size && 0 <= y < size ==> #[trigger] grid_view(r)[x][y] == 0,
{
    let mut g: Vec<Vec<u128>> = Vec::new();
    let mut x: usize = 0;
    while x < size
        invariant
            x <= size,
            g@.len() == x,
            forall|i: int|
                0 <= i < x ==> (#[trigger] grid_view(g)[i]).len() == size && (forall|j: int|
                    0 <= j < size ==> #[trigger] grid_view(g)[i][j] == 0),
        decreases size - x,
    {
        let mut row: Vec<u128> = Vec::new();
        let mut y: usize = 0;
        while y < size
            invariant
                y <= size,
                row@.len() == y,
                forall|j: int| 0 <= j < y ==> row@[j] == 0,
            decreases size - y,
        {
            row.push(0);
            y = y + 1;
        }
        let ghost g0 = grid_view(g);
        g.push(row);
        proof {
            assert forall|i: int|
                0 <= i < x + 1 implies (#[trigger] grid_view(g)[i]).len() == size && (forall|
                j: int,
            |
                0 <= j < size ==> #[trigger] grid_view(g)[i][j] == 0) by {
                if i < x {
                    assert(grid_view(g)[i] == g0[i]);
                } else {
                    assert(grid_view(g)[i] == row_view(row));
                }
            }
        }
        x = x + 1;
    }
    proof {
        assert forall|i: int| 0 <= i < grid_view(g).len() implies crate::merge::all_tiles(
            #[trigger] grid_view(g)[i],
        ) by {
            assert(grid_view(g)[i].len() == size);
            assert(forall|j: int| 0 <= j < size ==> grid_view(g)[i][j] == 0);
        }
    }
    g
}

/// The live game: the grid, the scores, and the terminal flag.
#[derive(Debug)]
pub struct Game {
    /// The tile values, row by row.
    pub palaces: Vec<Vec<u128>>,
    /// The score of the current game.
    pub total_score: u128,
    /// The best score ever recorded for this grid size.
    pub top_score: u128,
    /// The number of moves recorded for this game.
    pub move_steps: u128,
    /// Whether this game has been marked finished.
    pub game_over: bool,
    /// The side length of the grid.
    pub size: usize,
}

impl Game {
    /// The grid as a sequence of rows of mathematical integers.
    pub open spec fn gv(self) -> Seq<Seq<int>> {
        grid_view(self.palaces)
    }

    /// Well-formed: the grid is `size` by `size` with `size >= 2`, and every
    /// cell is empty or a power of two of at least 2.
    pub open spec fn wf(self) -> bool {
        self.size >= 2 && is_square(self.gv(), self.size as int) && grid_tiles(self.gv())
    }

    /// A fresh game: a grid with two tiles at two distinct cells, each a 2
    /// or a 4, zero score and move count, and the stored best score for this
    /// grid size (0 when the store cannot be read).
    pub fn new(size: usize, store: &Store) -> (r: Game)
        requires
            2 <= size,
        ensures
            r.wf(),
            r.size == size,
            r.total_score == 0,
            r.move_steps == 0,
            r.game_over == false,
            r.top_score as int == stored_top_score(store.contents(), size as int) || r.top_score
                == 0,
            freshly_seeded(r.gv(), size as int),
    {
        let palaces = zero_grid(size);
        let top = Self::top_score(store, size);
        let mut g = Game {
            palaces,
            total_score: 0,
            top_score: top,
            move_steps: 0,
            game_over: false,
            size,
        };
        let ghost gv0 = g.gv();
        proof {
            assert(gv0[0][0] == 0);
            assert(!grid_full(gv0, size as int));
        }
        g.empty_position_gen();
        let ghost gv1 = g.gv();
        proof {
            let (x1, y1) = choose|x1: int, y1: int|
                0 <= x1 < size && 0 <= y1 < size && #[trigger] gv0[x1][y1] == 0 && (gv1
                    == grid_update(gv0, x1, y1, 2) || gv1 == grid_update(gv0, x1, y1, 4));
            if x1 == 0 && y1 == 0 {
                assert(gv1[0][1] == 0);
            } else {
                assert(gv1[0][0] == 0);
            }
            assert(!grid_full(gv1, size as int));
        }
        g.empty_position_gen();
        let ghost gv2 = g.gv();
        proof {
            let (x1, y1) = choose|x1: int, y1: int|
                0 <= x1 < size && 0 <= y1 < size && #[trigger] gv0[x1][y1] == 0 && (gv1
                    == grid_update(gv0, x1, y1, 2) || gv1 == grid_update(gv0, x1, y1, 4));
            let (x2, y2) = choose|x2: int, y2: int|
                0 <= x2 < size && 0 <= y2 < size && #[trigger] gv1[x2][y2] == 0 && (gv2
                    == grid_update(gv1, x2, y2, 2) || gv2 == grid_update(gv1, x2, y2, 4));
            assert(gv1[x1][y1] == 2 || gv1[x1][y1] == 4);
            assert(!(x2 == x1 && y2 == y1));
            assert(gv2[x1][y1] == gv1[x1][y1]);
            assert(gv2[x2][y2] == 2 || gv2[x2][y2] == 4);
            assert forall|x: int, y: int|
                0 <= x < size && 0 <= y < size && !(x == x1 && y == y1) && !(x == x2 && y
                    == y2) implies #[trigger] gv2[x][y] == 0 by {
                assert(gv2[x][y] == gv1[x][y]);
                assert(gv1[x][y] == gv0[x][y]);
            }
            assert(freshly_seeded(gv2, size as int));
        }
        g
    }

    /// Start over: a fresh grid of side `size` with two seeded tiles, zero
    /// score and move count, and the stored best score for that size.
    pub fn change_model(&mut self, size: usize, store: &Store)
        requires
            2 <= size,
        ensures
            final(self).wf(),
            final(self).size == size,
            final(self).total_score == 0,
            final(self).move_steps == 0,
            final(self).game_over == false,
            final(self).top_score as int == stored_top_score(store.contents(), size as int)
                || final(self).top_score == 0,
            freshly_seeded(final(self).gv(), size as int),
    {
        *self = Game::new(size, store);
    }

    /// The best score recorded for grid size `size`, read from the store;
    /// 0 when the store cannot be read.
    pub fn top_score(store: &Store, size: usize) -> (r: u128)
        ensures
            r as int == stored_top_score(store.contents(), size as int) || r == 0,
    {
        match store.top_score(size) {
            Ok(v) => v,
            Err(_) => 0,
        }
    }

    /// Record the current score as the best when it beats the stored best:
    /// the in-memory best rises to the score and the store is written. A
    /// store failure leaves the best unrecorded but never disturbs the game.
    pub fn insert_top_score(&mut self, store: &mut Store) -> (r: Result<(), StoreError>)
        ensures
            r is Ok,
            final(self).top_score == if old(self).total_score > old(self).top_score {
                old(self).total_score
            } else {
                old(self).top_score
            },
            final(self).top_score >= old(self).top_score,
            final(self).palaces == old(self).palaces,
            final(self).total_score == old(self).total_score,
            final(self).move_steps == old(self).move_steps,
            final(self).game_over == old(self).game_over,
            final(self).size == old(self).size,
            old(self).total_score <= old(self).top_score ==> *final(self) == *old(self)
                && final(store).contents() == old(store).contents(),
    {
        if self.total_score > self.top_score {
            self.top_score = self.total_score;
            let _ = store.insert_top_score(self.size, self.total_score);
        }
        Ok(())
    }

    /// Record the state as the single undo snapshot, superseding any
    /// previous one.
    pub fn insert_history(&self, store: &mut Store) -> (r: Result<(), StoreError>)
        ensures
            r is Ok ==> final(store).contents() == old(store).contents().insert(
                history_key(),
                snapshot_enc(*self),
            ),
    {
        store.insert_history(self)
    }

    /// Undo: restore the state held in the store's single snapshot, reload
    /// the best score for the restored grid size, and consume the snapshot.
    /// Without a valid snapshot this is a no-op.
    pub fn back(&mut self, store: &mut Store) -> (r: Result<(), StoreError>)
        requires
            old(self).wf(),
        ensures
            final(self).wf(),
            (match r {
                Ok(()) => (exists|g: Game|
                    #[trigger] valid_snapshot_at(old(store).contents(), g) && restored_from(
                        *final(self),
                        g,
                    ) && final(store).contents() == old(store).contents().remove(history_key())
                        && (final(self).top_score as int == stored_top_score(
                        old(store).contents(),
                        g.size as int,
                    ) || final(self).top_score == 0)) || ((forall|g: Game|
                    !valid_snapshot_at(old(store).contents(), g)) && *final(self) == *old(self)
                    && final(store).contents() == old(store).contents()),
                Err(_) => *final(self) == *old(self) || (exists|g: Game|
                    #[trigger] valid_snapshot_at(old(store).contents(), g) && restored_from(
                        *final(self),
                        g,
                    )),
            }),
    {
        let hist = store.history();
        match hist {
            Err(e) => Err(e),
            Ok(None) => Ok(()),
            Ok(Some(h)) => {
                let ghost hg = h;
                let new_top = Game::top_score(store, h.size);
                self.palaces = h.palaces;
                self.total_score = h.total_score;
                self.top_score = new_top;
                self.move_steps = h.move_steps;
                self.game_over = h.game_over;
                self.size = h.size;
                proof {
                    assert(restored_from(*self, hg));
                    assert(self.wf());
                }
                match store.remove_history() {
                    Ok(()) => Ok(()),
                    Err(e) => Err(e),
                }
            },
        }
    }

    /// All coordinates whose cell is empty. The result lists each such
    /// coordinate exactly once.
    pub fn empty_position(&self) -> (r: Vec<(usize, usize)>)
        requires
            self.wf(),
        ensures
            forall|k: int|
                0 <= k < r@.len() ==> (#[trigger] r@[k]).0 < self.size && r@[k].1 < self.size
                    && self.gv()[r@[k].0 as int][r@[k].1 as int] == 0,
            forall|x: usize, y: usize|
                x < self.size && y < self.size && self.gv()[x as int][y as int] == 0
                    ==> r@.contains((x, y)),
            forall|k1: int, k2: int| 0 <= k1 < k2 < r@.len() ==> r@[k1] != r@[k2],
            (r@.len() == 0) == grid_full(self.gv(), self.size as int),
    {
        let ghost gv = self.gv();
        let n = self.size;
        let mut r: Vec<(usize, usize)> = Vec::new();
        let mut x: usize = 0;
        while x < n
            invariant
                gv == self.gv(),
                self.wf(),
                n == self.size,
                x <= n,
                forall|k: int|
                    0 <= k < r@.len() ==> (#[trigger] r@[k]).0 < n && r@[k].1 < n
                        && gv[r@[k].0 as int][r@[k].1 as int] == 0,
                forall|k: int| 0 <= k < r@.len() ==> (#[trigger] r@[k]).0 < x,
                forall|xx: usize, yy: usize|
                    xx < x && yy < n && gv[xx as int][yy as int] == 0 ==> r@.contains((xx, yy)),
                forall|k1: int, k2: int| 0 <= k1 < k2 < r@.len() ==> r@[k1] != r@[k2],
            decreases n - x,
        {
            let mut y: usize = 0;
            while y < n
                invariant
                    gv == self.gv(),
                    self.wf(),
                    n == self.size,
                    x < n,
                    y <= n,
                    forall|k: int|
                        0 <= k < r@.len() ==> (#[trigger] r@[k]).0 < n && r@[k].1 < n
                            && gv[r@[k].0 as int][r@[k].1 as int] == 0,
                    forall|k: int|
                        0 <= k < r@.len() ==> (#[trigger] r@[k]).0 < x || (r@[k].0 == x && r@[k].1
                            < y),
                    forall|xx: usize, yy: usize|
                        (xx < x || (xx == x && yy < y)) && xx < n && yy < n && gv[xx as int][yy as int]
                            == 0 ==> r@.contains((xx, yy)),
                    forall|k1: int, k2: int| 0 <= k1 < k2 < r@.len() ==> r@[k1] != r@[k2],
                decreases n - y,
            {
                proof {
                    assert(gv[x as int] == row_view(self.palaces@[x as int]));
                    assert(gv[x as int].len() == n);
                }
                if self.palaces[x][y] == 0 {
                    let ghost r0 = r@;
                    r.push((x, y));
                    proof {
                        assert(gv[x as int][y as int] == 0);
                        assert forall|xx: usize, yy: usize|
                            (xx < x || (xx == x && yy < y + 1)) && xx < n && yy < n && gv[xx as int][yy as int]
                                == 0 implies r@.contains((xx, yy)) by {
                            if xx == x && yy == y {
                                assert(r@[r@.len() - 1] == (xx, yy));
                            } else {
                                assert(r0.contains((xx, yy)));
                                let k = choose|k: int| 0 <= k < r0.len() && r0[k] == (xx, yy);
                                assert(r@[k] == (xx, yy));
                            }
                        }
                    }
                } else {
                    proof {
                        assert(gv[x as int][y as int] != 0);
                        assert forall|xx: usize, yy: usize|
                            (xx < x || (xx == x && yy < y + 1)) && xx < n && yy < n && gv[xx as int][yy as int]
                                == 0 implies r@.contains((xx, yy)) by {
                            assert(xx < x || (xx == x && yy < y));
                        }
                    }
                }
                y = y + 1;
            }
            x = x + 1;
        }
        proof {
            if r@.len() == 0 {
                assert forall|x: int, y: int|
                    0 <= x < n && 0 <= y < n implies #[trigger] gv[x][y] != 0 by {
                    if gv[x][y] == 0 {
                        assert(r@.contains((x as usize, y as usize)));
                    }
                }
            } else {
                let p = r@[0];
                assert(gv[p.0 as int][p.1 as int] == 0);
                assert(!grid_full(gv, n as int));
            }
        }
        r
    }

    /// Whether some two adjacent cells hold equal non-zero values. Two empty
    /// neighbours do not count: only a matching non-zero pair can merge.
    pub fn adjacent_position_can_merge(&self) -> (r: bool)
        requires
            self.wf(),
        ensures
            r == has_adjacent_equal(self.gv(), self.size as int),
    {
        let ghost gv = self.gv();
        let n = self.size;
        let mut x: usize = 0;
        while x < n
            invariant
                gv == self.gv(),
                self.wf(),
                n == self.size,
                x <= n,
                forall|xx: int, yy: int|
                    0 <= xx < x && 1 <= yy < n ==> !#[trigger] row_adjacent_at(gv, xx, yy),
            decreases n - x,
        {
            let mut y: usize = 1;
            while y < n
                invariant
                    gv == self.gv(),
                    self.wf(),
                    n == self.size,
                    x < n,
                    1 <= y <= n,
                    forall|xx: int, yy: int|
                        0 <= xx < x && 1 <= yy < n ==> !#[trigger] row_adjacent_at(gv, xx, yy),
                    forall|yy: int| 1 <= yy < y ==> !#[trigger] row_adjacent_at(gv, x as int, yy),
                decreases n - y,
            {
                proof {
                    assert(gv[x as int] == row_view(self.palaces@[x as int]));
                }
                if self.palaces[x][y] != 0 && self.palaces[x][y] == self.palaces[x][y - 1] {
                    proof {
                        assert(row_adjacent_at(gv, x as int, y as int));
                    }
                    return true;
                }
                y = y + 1;
            }
            x = x + 1;
        }
        let mut x: usize = 1;
        while x < n
            invariant
                gv == self.gv(),
                self.wf(),
                n == self.size,
                1 <= x <= n,
                forall|xx: int, yy: int|
                    0 <= xx < n && 1 <= yy < n ==> !#[trigger] row_adjacent_at(gv, xx, yy),
                forall|xx: int, yy: int|
                    1 <= xx < x && 0 <= yy < n ==> !#[trigger] col_adjacent_at(gv, xx, yy),
            decreases n - x,
        {
            let mut y: usize = 0;
            while y < n
                invariant
                    gv == self.gv(),
                    self.wf(),
                    n == self.size,
                    1 <= x < n,
                    y <= n,
                    forall|xx: int, yy: int|
                        0 <= xx < n && 1 <= yy < n ==> !#[trigger] row_adjacent_at(gv, xx, yy),
                    forall|xx: int, yy: int|
                        1 <= xx < x && 0 <= yy < n ==> !#[trigger] col_adjacent_at(gv, xx, yy),
                    forall|yy: int| 0 <= yy < y ==> !#[trigger] col_adjacent_at(gv, x as int, yy),
                decreases n - y,
            {
                proof {
                    assert(gv[x as int] == row_view(self.palaces@[x as int]));
                    assert(gv[x as int - 1] == row_view(self.palaces@[x as int - 1]));
                }
                if self.palaces[x][y] != 0 && self.palaces[x][y] == self.palaces[x - 1][y] {
                    proof {
                        assert(col_adjacent_at(gv, x as int, y as int));
                    }
                    return true;
                }
                y = y + 1;
            }
            x = x + 1;
        }
        false
    }

    /// Whether the game can make no further progress: the grid is full and no
    /// adjacent pair can merge.
    pub fn game_over(&self) -> (r: bool)
        requires
            self.wf(),
        ensures
            r == is_terminal(self.gv(), self.size as int),
    {
        let e = self.empty_position();
        if e.len() != 0 {
            return false;
        }
        !self.adjacent_position_can_merge()
    }

    /// Place one new tile (2 with probability 9/10, else 4) on a uniformly
    /// chosen empty cell; silently do nothing when the grid is full.
    pub fn empty_position_gen(&mut self)
        requires
            old(self).wf(),
        ensures
            final(self).wf(),
            final(self).size == old(self).size,
            final(self).total_score == old(self).total_score,
            final(self).top_score == old(self).top_score,
            final(self).move_steps == old(self).move_steps,
            final(self).game_over == old(self).game_over,
            grid_full(old(self).gv(), old(self).size as int) ==> final(self).palaces == old(
                self,
            ).palaces,
            !grid_full(old(self).gv(), old(self).size as int) ==> spawned(
                old(self).gv(),
                final(self).gv(),
                old(self).size as int,
            ),
    {
        let ghost gv0 = self.gv();
        let ghost n = self.size as int;
        let palace_empty = self.empty_position();
        if palace_empty.len() == 0 {
            return ;
        }
        let at = rand_below(palace_empty.len());
        let (px, py) = palace_empty[at];
        let tile = two_or_four();
        proof {
            assert(gv0[px as int] == row_view(self.palaces@[px as int]));
            assert(self.palaces@[px as int]@.len() == n);
        }
        self.palaces[px][py] = tile;
        proof {
            let gv1 = grid_update(gv0, px as int, py as int, tile as int);
            assert forall|i: int| 0 <= i < n implies self.gv()[i] == gv1[i] by {
                if i == px as int {
                    assert(row_view(self.palaces@[i]) =~= gv0[i].update(py as int, tile as int));
                } else {
                    assert(self.palaces@[i] == old(self).palaces@[i]);
                    assert(gv1[i] == gv0[i]);
                }
            }
            assert(self.gv() =~= gv1);
            assert(gv0[px as int][py as int] == 0);
            assert(spawned(gv0, self.gv(), n));
            assert(is_pow2(2));
            assert(is_pow2(4));
            assert forall|i: int| 0 <= i < n implies crate::merge::all_tiles(
                #[trigger] self.gv()[i],
            ) by {
                assert(crate::merge::all_tiles(gv0[i]));
                if i == px as int {
                    assert forall|j: int|
                        0 <= j < self.gv()[i].len() implies crate::merge::is_tile(
                        #[trigger] self.gv()[i][j],
                    ) by {
                        if j != py as int {
                            assert(self.gv()[i][j] == gv0[i][j]);
                        }
                    }
                }
            }
        }
    }

    /// Compact and merge one row toward index 0, crediting the score gained
    /// to the running total. The bound in the precondition is a machine
    /// limit: the score gained never exceeds the sum of the row.
    pub fn merge(&mut self, vs: &Vec<u128>) -> (r: Vec<u128>)
        requires
            old(self).total_score + sum(row_view(*vs)) <= u128::MAX,
        ensures
            row_view(r) == merge_full(row_view(*vs), vs@.len() as nat),
            r@.len() == vs@.len(),
            final(self).total_score == old(self).total_score + merge_score(
                compact(row_view(*vs)),
            ),
            final(self).palaces == old(self).palaces,
            final(self).top_score == old(self).top_score,
            final(self).move_steps == old(self).move_steps,
            final(self).game_over == old(self).game_over,
            final(self).size == old(self).size,
    {
        proof {
            assert(all_at_least(row_view(*vs), 0));
            lemma_compact_pos(row_view(*vs));
            lemma_compact_sum(row_view(*vs));
            lemma_merge_score_bounds(compact(row_view(*vs)));
        }
        let (r, d) = merge_row(vs);
        self.total_score = self.total_score + d;
        r
    }

    /// Execute one move: merge every row or column toward `md`, credit the
    /// score, spawn one new tile, and recompute the terminal flag. A move
    /// that cannot compact anything still spawns a tile.
    ///
    /// The bound in the precondition is a machine limit: one move's score
    /// gain never exceeds the sum of all cells.
    pub fn move_palaces(&mut self, md: MoveDirection)
        requires
            old(self).wf(),
            old(self).total_score + grid_sum(old(self).gv()) <= u128::MAX,
        ensures
            final(self).wf(),
            final(self).size == old(self).size,
            final(self).top_score == old(self).top_score,
            final(self).move_steps == old(self).move_steps,
            final(self).total_score == old(self).total_score + move_score_view(
                old(self).gv(),
                old(self).size as int,
                md,
            ),
            (grid_full(
                move_grid_view(old(self).gv(), old(self).size as int, md),
                old(self).size as int,
            ) ==> final(self).gv() == move_grid_view(old(self).gv(), old(self).size as int, md)),
            (!grid_full(
                move_grid_view(old(self).gv(), old(self).size as int, md),
                old(self).size as int,
            ) ==> spawned(
                move_grid_view(old(self).gv(), old(self).size as int, md),
                final(self).gv(),
                old(self).size as int,
            )),
            final(self).game_over == is_terminal(final(self).gv(), old(self).size as int),
    {
        let n = self.size;
        let ghost gv0 = self.gv();
        proof {
            lemma_grid_tiles_nonneg(gv0);
            crate::grid::lemma_grid_sum_nonneg(gv0);
        }
        match md {
            MoveDirection::Left => {
                let (g, d) = merge_rows(&self.palaces, n);
                proof {
                    lemma_rows_score_bounds(gv0);
                    lemma_merge_rows_tiles(gv0, n as int);
                }
                self.palaces = g;
                self.total_score = self.total_score + d;
            },
            MoveDirection::Right => {
                let rev = reverse_rows(&self.palaces);
                proof {
                    lemma_reverse_rows_tiles(gv0, n as int);
                    lemma_reverse_rows_sum(gv0);
                    lemma_grid_tiles_nonneg(reverse_rows_view(gv0));
                    lemma_rows_score_bounds(reverse_rows_view(gv0));
                }
                let (m, d) = merge_rows(&rev, n);
                proof {
                    lemma_merge_rows_tiles(reverse_rows_view(gv0), n as int);
                }
                let g = reverse_rows(&m);
                proof {
                    lemma_reverse_rows_tiles(
                        merge_rows_view(reverse_rows_view(gv0), n as nat),
                        n as int,
                    );
                }
                self.palaces = g;
                self.total_score = self.total_score + d;
            },
            MoveDirection::Up => {
                let t = transpose(&self.palaces);
                proof {
                    lemma_transpose_tiles(gv0, n as int);
                    lemma_transpose_sum(gv0, n as int);
                    lemma_grid_tiles_nonneg(transpose_view(gv0, n as int));
                    lemma_rows_score_bounds(transpose_view(gv0, n as int));
                }
                let (m, d) = merge_rows(&t, n);
                proof {
                    lemma_merge_rows_tiles(transpose_view(gv0, n as int), n as int);
                }
                let g = transpose(&m);
                proof {
                    lemma_transpose_tiles(
                        merge_rows_view(transpose_view(gv0, n as int), n as nat),
                        n as int,
                    );
                }
                self.palaces = g;
                self.total_score = self.total_score + d;
            },
            MoveDirection::Down => {
                let t = transpose(&self.palaces);
                proof {
                    lemma_transpose_tiles(gv0, n as int);
                    lemma_transpose_sum(gv0, n as int);
                }
                let rev = reverse_rows(&t);
                proof {
                    lemma_reverse_rows_tiles(transpose_view(gv0, n as int), n as int);
                    lemma_reverse_rows_sum(transpose_view(gv0, n as int));
                    lemma_grid_tiles_nonneg(reverse_rows_view(transpose_view(gv0, n as int)));
                    lemma_rows_score_bounds(reverse_rows_view(transpose_view(gv0, n as int)));
                }
                let (m, d) = merge_rows(&rev, n);
                proof {
                    lemma_merge_rows_tiles(
                        reverse_rows_view(transpose_view(gv0, n as int)),
                        n as int,
                    );
                }
                let rm = reverse_rows(&m);
                proof {
                    lemma_reverse_rows_tiles(
                        merge_rows_view(reverse_rows_view(transpose_view(gv0, n as int)), n as nat),
                        n as int,
                    );
                }
                let g = transpose(&rm);
                self.palaces = g;
                self.total_score = self.total_score + d;
            },
        }
        proof {
            assert(self.gv() == move_grid_view(gv0, n as int, md));
            assert(self.wf());
        }
        self.empty_position_gen();
        let over = self.game_over();
        self.game_over = over;
    }
}

} // verus!
