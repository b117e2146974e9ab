//! The single-slot undo snapshot: a full game state rendered as fixed-width
//! lowercase hex tokens, each followed by one space, and parsed back. The
//! rendering is canonical, so decoding accepts exactly the encodings of
//! well-formed game states and rejects everything else.

use vstd::prelude::*;

use crate::codec::{hex32, lemma_hex32_round_trip, parse_hex32, push_hex32};
use crate::grid::grid_view;
use crate::merge::{is_tile, row_view};
use crate::palace::Game;

verus! {

/// One rendered number: 32 hex characters and one space.
pub open spec fn block(v: int) -> Seq<u8> {
    hex32(v) + seq![32u8]
}

/// The rendered terminal flag: one of `0` or `1`, and one space.
pub open spec fn flag_block(b: bool) -> Seq<u8> {
    seq![
        if b {
            49u8
        } else {
            48u8
        },
        32u8,
    ]
}

/// The cells of the grid, row-major.
pub open spec fn flatten_cells(gv: Seq<Seq<int>>) -> Seq<int>
    decreases gv.len(),
{
    if gv.len() == 0 {
        Seq::empty()
    } else {
        gv[0] + flatten_cells(gv.skip(1))
    }
}

/// The rendered cells, one block each.
pub open spec fn cells_blocks(cs: Seq<int>) -> Seq<u8>
    decreases cs.len(),
{
    if cs.len() == 0 {
        Seq::empty()
    } else {
        block(cs[0]) + cells_blocks(cs.skip(1))
    }
}

/// The full snapshot: grid size, total score, best score, move count, the
/// terminal flag, then every cell row by row.
pub open spec fn snapshot_enc(g: Game) -> Seq<u8> {
    block(g.size as int) + block(g.total_score as int) + block(g.top_score as int) + block(
        g.move_steps as int,
    ) + flag_block(g.game_over) + cells_blocks(flatten_cells(g.gv()))
}

pub proof fn lemma_flatten_concat(a: Seq<Seq<int>>, b: Seq<Seq<int>>)
    ensures
        flatten_cells(a + b) == flatten_cells(a) + flatten_cells(b),
    decreases a.len(),
{
    if a.len() == 0 {
        assert(a + b =~= b);
        assert(flatten_cells(a) + flatten_cells(b) =~= flatten_cells(b));
    } else {
        assert((a + b).skip(1) =~= a.skip(1) + b);
        lemma_flatten_concat(a.skip(1), b);
        assert((a + b)[0] == a[0]);
        assert(flatten_cells(a + b) == a[0] + (flatten_cells(a.skip(1)) + flatten_cells(b)));
        assert(a[0] + (flatten_cells(a.skip(1)) + flatten_cells(b)) =~= (a[0] + flatten_cells(
            a.skip(1),
        )) + flatten_cells(b));
    }
}

pub proof fn lemma_flatten_take_step(gv: Seq<Seq<int>>, x: int)
    requires
        0 <= x < gv.len(),
    ensures
        flatten_cells(gv.take(x + 1)) == flatten_cells(gv.take(x)) + gv[x],
{
    assert(gv.take(x + 1) =~= gv.take(x) + seq![gv[x]]);
    lemma_flatten_concat(gv.take(x), seq![gv[x]]);
    assert(seq![gv[x]].skip(1) =~= Seq::<Seq<int>>::empty());
    assert(flatten_cells(seq![gv[x]]) =~= gv[x]) by {
        assert(flatten_cells(Seq::<Seq<int>>::empty()) == Seq::<int>::empty());
        assert(gv[x] + Seq::<int>::empty() =~= gv[x]);
    }
}

pub proof fn lemma_cells_blocks_concat(a: Seq<int>, b: Seq<int>)
    ensures
        cells_blocks(a + b) == cells_blocks(a) + cells_blocks(b),
    decreases a.len(),
{
    if a.len() == 0 {
        assert(a + b =~= b);
        assert(cells_blocks(a) + cells_blocks(b) =~= cells_blocks(b));
    } else {
        assert((a + b).skip(1) =~= a.skip(1) + b);
        lemma_cells_blocks_concat(a.skip(1), b);
        assert(cells_blocks(a + b) == block((a + b)[0]) + cells_blocks(a.skip(1) + b));
        assert(block(a[0]) + (cells_blocks(a.skip(1)) + cells_blocks(b)) =~= (block(a[0])
            + cells_blocks(a.skip(1))) + cells_blocks(b));
    }
}

pub proof fn lemma_cells_blocks_len(cs: Seq<int>)
    ensures
        cells_blocks(cs).len() == 33 * cs.len(),
    decreases cs.len(),
{
    if cs.len() > 0 {
        lemma_cells_blocks_len(cs.skip(1));
        lemma_hex32_len(cs[0]);
    }
}

/// The length of every row, when all rows have length `n`: `n` per row.
pub proof fn lemma_flatten_len(gv: Seq<Seq<int>>, n: int)
    requires
        n >= 0,
        forall|i: int| 0 <= i < gv.len() ==> (#[trigger] gv[i]).len() == n,
    ensures
        flatten_cells(gv).len() == gv.len() * n,
    decreases gv.len(),
{
    if gv.len() == 0 {
        assert(0 * n == 0) by {
            vstd::arithmetic::mul::lemma_mul_basics(n);
        }
    } else {
        assert(forall|i: int| 0 <= i < gv.skip(1).len() ==> (#[trigger] gv.skip(1)[i]).len() == n);
        lemma_flatten_len(gv.skip(1), n);
        assert(gv.len() * n == n + (gv.len() - 1) * n) by {
            vstd::arithmetic::mul::lemma_mul_is_distributive_sub_other_way(
                n,
                gv.len() as int,
                1,
            );
            vstd::arithmetic::mul::lemma_mul_basics(n);
        }
    }
}

/// Every cell of a grid view is a `u128` value.
pub proof fn lemma_flatten_range(gv: Seq<Seq<int>>)
    requires
        forall|i: int, j: int|
            0 <= i < gv.len() && 0 <= j < gv[i].len() ==> 0 <= #[trigger] gv[i][j] <= u128::MAX,
    ensures
        forall|k: int|
            0 <= k < flatten_cells(gv).len() ==> 0 <= #[trigger] flatten_cells(gv)[k]
                <= u128::MAX,
    decreases gv.len(),
{
    if gv.len() > 0 {
        assert(forall|i: int, j: int|
            0 <= i < gv.skip(1).len() && 0 <= j < gv.skip(1)[i].len() ==> 0 <= #[trigger] gv.skip(
                1,
            )[i][j] <= u128::MAX);
        lemma_flatten_range(gv.skip(1));
        assert forall|k: int|
            0 <= k < flatten_cells(gv).len() implies 0 <= #[trigger] flatten_cells(gv)[k]
            <= u128::MAX by {
            if k < gv[0].len() {
                assert(flatten_cells(gv)[k] == gv[0][k]);
            } else {
                assert(flatten_cells(gv)[k] == flatten_cells(gv.skip(1))[k - gv[0].len()]);
            }
        }
    }
}

/// Where each piece of the rendering lies: the four number tokens, the flag,
/// and each cell's token, with one space after each.
pub proof fn lemma_enc_structure(g: Game)
    ensures
        ({
            let e = snapshot_enc(g);
            let cs = flatten_cells(g.gv());
            e.len() == 134 + 33 * cs.len() && e.subrange(0, 32) == hex32(g.size as int) && e[32]
                == 32u8 && e.subrange(33, 65) == hex32(g.total_score as int) && e[65] == 32u8
                && e.subrange(66, 98) == hex32(g.top_score as int) && e[98] == 32u8 && e.subrange(
                99,
                131,
            ) == hex32(g.move_steps as int) && e[131] == 32u8 && e[132] == (if g.game_over {
                49u8
            } else {
                48u8
            }) && e[133] == 32u8 && (forall|k: int|
                0 <= k < cs.len() ==> e.subrange(134 + 33 * k, 134 + 33 * k + 32) == hex32(
                    #[trigger] cs[k],
                ) && e[134 + 33 * k + 32] == 32u8)
        }),
{
    let e = snapshot_enc(g);
    let cs = flatten_cells(g.gv());
    lemma_hex32_len(g.size as int);
    lemma_hex32_len(g.total_score as int);
    lemma_hex32_len(g.top_score as int);
    lemma_hex32_len(g.move_steps as int);
    lemma_cells_blocks_len(cs);
    assert(e.len() == 134 + 33 * cs.len());
    assert(e.subrange(0, 32) =~= hex32(g.size as int));
    assert(e.subrange(33, 65) =~= hex32(g.total_score as int));
    assert(e.subrange(66, 98) =~= hex32(g.top_score as int));
    assert(e.subrange(99, 131) =~= hex32(g.move_steps as int));
    assert forall|k: int| 0 <= k < cs.len() implies e.subrange(134 + 33 * k, 134 + 33 * k + 32)
        == hex32(#[trigger] cs[k]) && e[134 + 33 * k + 32] == 32u8 by {
        lemma_cells_blocks_index(cs, k);
        assert(e.subrange(134 + 33 * k, 134 + 33 * k + 32) =~= cells_blocks(cs).subrange(
            33 * k,
            33 * k + 32,
        ));
        assert(e[134 + 33 * k + 32] == cells_blocks(cs)[33 * k + 32]);
    }
}

pub proof fn lemma_hex32_len(v: int)
    ensures
        hex32(v).len() == 32,
{
    lemma_le_digits_len(v, 16, 32);
}

proof fn lemma_le_digits_len(x: int, b: int, n: nat)
    ensures
        crate::codec::le_digits(x, b, n).len() == n,
    decreases n,
{
    if n > 0 {
        lemma_le_digits_len(x / b, b, (n - 1) as nat);
    }
}

pub proof fn lemma_cells_blocks_index(cs: Seq<int>, k: int)
    requires
        0 <= k < cs.len(),
    ensures
        cells_blocks(cs).subrange(33 * k, 33 * k + 32) == hex32(cs[k]),
        cells_blocks(cs)[33 * k + 32] == 32u8,
    decreases k,
{
    lemma_cells_blocks_len(cs);
    lemma_hex32_len(cs[0]);
    if k == 0 {
        lemma_cells_blocks_len(cs.skip(1));
        assert(cells_blocks(cs).subrange(0, 32) =~= hex32(cs[0]));
    } else {
        lemma_cells_blocks_index(cs.skip(1), k - 1);
        lemma_cells_blocks_len(cs.skip(1));
        assert(cs.skip(1)[k - 1] == cs[k]);
        assert(cells_blocks(cs).subrange(33 * k, 33 * k + 32) =~= cells_blocks(cs.skip(1)).subrange(
            33 * (k - 1),
            33 * (k - 1) + 32,
        ));
        assert(cells_blocks(cs)[33 * k + 32] == cells_blocks(cs.skip(1))[33 * (k - 1) + 32]);
    }
}

/// Every cell of a grid of legal tiles is a legal tile, row-major.
pub proof fn lemma_flatten_tiles(gv: Seq<Seq<int>>)
    requires
        forall|i: int| 0 <= i < gv.len() ==> crate::merge::all_tiles(#[trigger] gv[i]),
    ensures
        forall|k: int|
            0 <= k < flatten_cells(gv).len() ==> is_tile(#[trigger] flatten_cells(gv)[k]),
    decreases gv.len(),
{
    if gv.len() > 0 {
        assert(forall|i: int|
            0 <= i < gv.skip(1).len() ==> crate::merge::all_tiles(#[trigger] gv.skip(1)[i]));
        lemma_flatten_tiles(gv.skip(1));
        assert forall|k: int|
            0 <= k < flatten_cells(gv).len() implies is_tile(#[trigger] flatten_cells(gv)[k]) by {
            if k < gv[0].len() {
                assert(flatten_cells(gv)[k] == gv[0][k]);
                assert(crate::merge::all_tiles(gv[0]));
            } else {
                assert(flatten_cells(gv)[k] == flatten_cells(gv.skip(1))[k - gv[0].len()]);
            }
        }
    }
}

/// Every cell of a grid view is a `u128` value.
pub proof fn lemma_grid_view_range(p: Vec<Vec<u128>>)
    ensures
        forall|i: int, j: int|
            0 <= i < crate::grid::grid_view(p).len() && 0 <= j < crate::grid::grid_view(p)[i].len()
                ==> 0 <= #[trigger] crate::grid::grid_view(p)[i][j] <= u128::MAX,
{
    let gv = crate::grid::grid_view(p);
    assert forall|i: int, j: int|
        0 <= i < gv.len() && 0 <= j < gv[i].len() implies 0 <= #[trigger] gv[i][j]
        <= u128::MAX by {
        assert(gv[i] == row_view(p@[i]));
    }
}

/// Compare two byte strings.
fn bytes_equal(a: &Vec<u8>, b: &Vec<u8>) -> (r: bool)
    ensures
        r == (a@ == b@),
{
    if a.len() != b.len() {
        return false;
    }
    let n = a.len();
    let mut i: usize = 0;
    while i < n
        invariant
            n == a@.len(),
            n == b@.len(),
            i <= n,
            forall|k: int| 0 <= k < i ==> a@[k] == b@[k],
        decreases n - i,
    {
        if a[i] != b[i] {
            return false;
        }
        i = i + 1;
    }
    proof {
        assert(a@ =~= b@);
    }
    true
}

/// The row-major position of cell `(x, y)` in the flattened grid.
proof fn lemma_flatten_index(gv: Seq<Seq<int>>, n: int, x: int, y: int)
    requires
        n >= 0,
        forall|i: int| 0 <= i < gv.len() ==> (#[trigger] gv[i]).len() == n,
        0 <= x < gv.len(),
        0 <= y < n,
    ensures
        0 <= x * n + y < flatten_cells(gv).len(),
        flatten_cells(gv)[x * n + y] == gv[x][y],
    decreases x,
{
    lemma_flatten_len(gv, n);
    vstd::arithmetic::mul::lemma_mul_nonnegative(x, n);
    if x == 0 {
        assert(0 * n == 0) by {
            vstd::arithmetic::mul::lemma_mul_basics(n);
        }
        assert(flatten_cells(gv)[y] == gv[0][y]);
        vstd::arithmetic::mul::lemma_mul_inequality(1, gv.len() as int, n);
        vstd::arithmetic::mul::lemma_mul_basics(n);
    } else {
        assert(forall|i: int| 0 <= i < gv.skip(1).len() ==> (#[trigger] gv.skip(1)[i]).len() == n);
        lemma_flatten_index(gv.skip(1), n, x - 1, y);
        assert(x * n - n == (x - 1) * n) by {
            vstd::arithmetic::mul::lemma_mul_is_distributive_sub_other_way(n, x, 1);
            vstd::arithmetic::mul::lemma_mul_basics(n);
        }
        assert(x * n >= n) by {
            vstd::arithmetic::mul::lemma_mul_inequality(1, x, n);
            vstd::arithmetic::mul::lemma_mul_basics(n);
        }
        assert(flatten_cells(gv)[x * n + y] == flatten_cells(gv.skip(1))[x * n + y - n]);
        assert(gv.skip(1)[x - 1] == gv[x]);
    }
}

/// A snapshot pins the whole state: two well-formed states with the same
/// rendering agree on every field. Together with the decoder's contract this
/// is the undo round trip: restoring the snapshot stored before a move
/// brings back exactly the grid, score, move count and terminal flag that
/// were saved.
pub proof fn lemma_snapshot_enc_injective(g1: Game, g2: Game)
    requires
        g1.wf(),
        g2.wf(),
        snapshot_enc(g1) == snapshot_enc(g2),
    ensures
        g1.size == g2.size,
        g1.total_score == g2.total_score,
        g1.top_score == g2.top_score,
        g1.move_steps == g2.move_steps,
        g1.game_over == g2.game_over,
        g1.gv() == g2.gv(),
{
    lemma_enc_structure(g1);
    lemma_enc_structure(g2);
    crate::codec::lemma_hex32_inj(g1.size as int, g2.size as int);
    crate::codec::lemma_hex32_inj(g1.total_score as int, g2.total_score as int);
    crate::codec::lemma_hex32_inj(g1.top_score as int, g2.top_score as int);
    crate::codec::lemma_hex32_inj(g1.move_steps as int, g2.move_steps as int);
    let n = g1.size as int;
    let cs1 = flatten_cells(g1.gv());
    let cs2 = flatten_cells(g2.gv());
    lemma_flatten_len(g1.gv(), n);
    lemma_flatten_len(g2.gv(), n);
    lemma_grid_view_range(g1.palaces);
    lemma_grid_view_range(g2.palaces);
    lemma_flatten_range(g1.gv());
    lemma_flatten_range(g2.gv());
    assert forall|k: int| 0 <= k < cs1.len() implies cs1[k] == #[trigger] cs2[k] by {
        crate::codec::lemma_hex32_inj(cs1[k], cs2[k]);
    }
    assert forall|x: int| 0 <= x < n implies g1.gv()[x] == g2.gv()[x] by {
        assert forall|y: int| 0 <= y < n implies g1.gv()[x][y] == g2.gv()[x][y] by {
            lemma_flatten_index(g1.gv(), n, x, y);
            lemma_flatten_index(g2.gv(), n, x, y);
        }
        assert(g1.gv()[x] =~= g2.gv()[x]);
    }
    assert(g1.gv() =~= g2.gv());
}

/// Render a game state as its snapshot bytes.
pub fn snapshot_encode(g: &Game) -> (r: Vec<u8>)
    ensures
        r@ == snapshot_enc(*g),
{
    let ghost gv = g.gv();
    let mut out: Vec<u8> = Vec::new();
    push_hex32(&mut out, g.size as u128);
    out.push(32);
    push_hex32(&mut out, g.total_score);
    out.push(32);
    push_hex32(&mut out, g.top_score);
    out.push(32);
    push_hex32(&mut out, g.move_steps);
    out.push(32);
    if g.game_over {
        out.push(49);
    } else {
        out.push(48);
    }
    out.push(32);
    let ghost header = out@;
    proof {
        assert(header =~= block(g.size as int) + block(g.total_score as int) + block(
            g.top_score as int,
        ) + block(g.move_steps as int) + flag_block(g.game_over));
        assert(gv.take(0) =~= Seq::<Seq<int>>::empty());
        assert(cells_blocks(flatten_cells(gv.take(0))) == Seq::<u8>::empty());
        assert(out@ =~= header + cells_blocks(flatten_cells(gv.take(0))));
    }
    let rows = g.palaces.len();
    let mut x: usize = 0;
    while x < rows
        invariant
            gv == g.gv(),
            rows == g.palaces@.len(),
            x <= rows,
            out@ == header + cells_blocks(flatten_cells(gv.take(x as int))),
        decreases rows - x,
    {
        let cols = g.palaces[x].len();
        proof {
            assert(gv[x as int] == row_view(g.palaces@[x as int]));
        }
        let mut y: usize = 0;
        while y < cols
            invariant
                gv == g.gv(),
                rows == g.palaces@.len(),
                x < rows,
                cols == g.palaces@[x as int]@.len(),
                y <= cols,
                out@ == header + cells_blocks(
                    flatten_cells(gv.take(x as int)) + gv[x as int].take(y as int),
                ),
            decreases cols - y,
        {
            let ghost pre = out@;
            let c = g.palaces[x][y];
            push_hex32(&mut out, c);
            out.push(32);
            proof {
                let a = flatten_cells(gv.take(x as int));
                let row = gv[x as int];
                assert(c as int == row[y as int]);
                assert((a + row.take(y as int + 1)) =~= (a + row.take(y as int)) + seq![row[y as int]]);
                lemma_cells_blocks_concat(a + row.take(y as int), seq![row[y as int]]);
                assert(seq![row[y as int]].skip(1) =~= Seq::<int>::empty());
                assert(cells_blocks(seq![row[y as int]]) =~= block(row[y as int])) by {
                    assert(cells_blocks(Seq::<int>::empty()) == Seq::<u8>::empty());
                    assert(block(row[y as int]) + Seq::<u8>::empty() =~= block(row[y as int]));
                }
                assert(out@ =~= pre + block(row[y as int]));
                assert(out@ =~= header + cells_blocks(a + row.take(y as int + 1)));
            }
            y = y + 1;
        }
        proof {
            assert(gv[x as int].take(cols as int) =~= gv[x as int]);
            lemma_flatten_take_step(gv, x as int);
            assert(flatten_cells(gv.take(x as int)) + gv[x as int] =~= flatten_cells(
                gv.take(x as int + 1),
            ));
        }
        x = x + 1;
    }
    proof {
        assert(gv.take(rows as int) =~= gv);
        assert(out@ =~= snapshot_enc(*g));
    }
    out
}

proof fn lemma_cell_index_bound(x: int, y: int, n: int)
    requires
        0 <= x < n,
        0 <= y < n,
    ensures
        0 <= x * n + y,
        x * n + y < n * n,
{
    vstd::arithmetic::mul::lemma_mul_inequality(x, n - 1, n);
    vstd::arithmetic::mul::lemma_mul_is_distributive_sub_other_way(n, n, 1);
    vstd::arithmetic::mul::lemma_mul_nonnegative(x, n);
    vstd::arithmetic::mul::lemma_mul_basics(n);
}

/// On the bytes of a well-formed game's snapshot, the parsed size token pins
/// the game's grid size.
proof fn lemma_size_pinned(bytes: Seq<u8>, g: Game, szu: u128)
    requires
        bytes == snapshot_enc(g),
        bytes.subrange(0, 32) == hex32(szu as int),
    ensures
        g.size as int == szu as int,
{
    lemma_enc_structure(g);
    crate::codec::lemma_hex32_inj(szu as int, g.size as int);
}

/// Parse snapshot bytes back into a game state: exactly the encodings of
/// well-formed states are accepted, and the accepted state is the one whose
/// rendering is the given bytes. Corrupt or non-canonical bytes yield
/// nothing.
pub fn snapshot_decode(bytes: &Vec<u8>) -> (r: Option<Game>)
    ensures
        (match r {
            Some(g) => g.wf() && bytes@ == snapshot_enc(g),
            None => forall|g: Game| g.wf() ==> bytes@ != #[trigger] snapshot_enc(g),
        }),
{
    let blen = bytes.len();
    if blen < 134 {
        proof {
            assert forall|g: Game| g.wf() implies bytes@ != #[trigger] snapshot_enc(g) by {
                if bytes@ == snapshot_enc(g) {
                    lemma_enc_structure(g);
                }
            }
        }
        return None;
    }
    let oszu = parse_hex32(bytes, 0);
    if oszu.is_none() {
        proof {
            assert forall|g: Game| g.wf() implies bytes@ != #[trigger] snapshot_enc(g) by {
                if bytes@ == snapshot_enc(g) {
                    lemma_enc_structure(g);
                    lemma_hex32_round_trip(g.size as u128);
                }
            }
        }
        return None;
    }
    let szu = oszu.unwrap();
    let ototal = parse_hex32(bytes, 33);
    if ototal.is_none() {
        proof {
            assert forall|g: Game| g.wf() implies bytes@ != #[trigger] snapshot_enc(g) by {
                if bytes@ == snapshot_enc(g) {
                    lemma_enc_structure(g);
                    lemma_hex32_round_trip(g.total_score);
                }
            }
        }
        return None;
    }
    let total = ototal.unwrap();
    let otop = parse_hex32(bytes, 66);
    if otop.is_none() {
        proof {
            assert forall|g: Game| g.wf() implies bytes@ != #[trigger] snapshot_enc(g) by {
                if bytes@ == snapshot_enc(g) {
                    lemma_enc_structure(g);
                    lemma_hex32_round_trip(g.top_score);
                }
            }
        }
        return None;
    }
    let top = otop.unwrap();
    let osteps = parse_hex32(bytes, 99);
    if osteps.is_none() {
        proof {
            assert forall|g: Game| g.wf() implies bytes@ != #[trigger] snapshot_enc(g) by {
                if bytes@ == snapshot_enc(g) {
                    lemma_enc_structure(g);
                    lemma_hex32_round_trip(g.move_steps);
                }
            }
        }
        return None;
    }
    let steps = osteps.unwrap();
    let over = bytes[132] == 49;
    if szu < 2 {
        proof {
            assert forall|g: Game| g.wf() implies bytes@ != #[trigger] snapshot_enc(g) by {
                if bytes@ == snapshot_enc(g) {
                    lemma_size_pinned(bytes@, g, szu);
                }
            }
        }
        return None;
    }
    if szu > 0xFFFF_FFFF {
        proof {
            assert forall|g: Game| g.wf() implies bytes@ != #[trigger] snapshot_enc(g) by {
                if bytes@ == snapshot_enc(g) {
                    lemma_enc_structure(g);
                    lemma_size_pinned(bytes@, g, szu);
                    let s = g.size as int;
                    lemma_flatten_len(g.gv(), s);
                    assert(0x100000000 * 0x100000000 <= s * 0x100000000) by {
                        vstd::arithmetic::mul::lemma_mul_inequality(0x100000000, s, 0x100000000);
                    }
                    assert(s * 0x100000000 <= s * s) by {
                        vstd::arithmetic::mul::lemma_mul_inequality(0x100000000, s, s);
                        vstd::arithmetic::mul::lemma_mul_is_commutative(s, 0x100000000);
                    }
                    assert(flatten_cells(g.gv()).len() >= 0x10000000000000000);
                    assert(bytes@.len() >= 33 * flatten_cells(g.gv()).len());
                    assert(blen <= usize::MAX);
                }
            }
        }
        return None;
    }
    if szu > (usize::MAX as u128) {
        proof {
            assert forall|g: Game| g.wf() implies bytes@ != #[trigger] snapshot_enc(g) by {
                if bytes@ == snapshot_enc(g) {
                    lemma_size_pinned(bytes@, g, szu);
                }
            }
        }
        return None;
    }
    let n = szu as usize;
    let mut palaces: Vec<Vec<u128>> = Vec::new();
    let mut off: usize = 134;
    let ghost mut cells_acc: Seq<int> = Seq::empty();
    proof {
        assert(flatten_cells(grid_view(palaces)) =~= Seq::<int>::empty());
        assert(cells_acc =~= flatten_cells(grid_view(palaces)) + Seq::<int>::empty());
    }
    let mut x: usize = 0;
    while x < n
        invariant
            blen == bytes@.len(),
            134 <= blen,
            n as int == szu as int,
            2 <= n,
            bytes@.subrange(0, 32) == hex32(szu as int),
            bytes@.subrange(33, 65) == hex32(total as int),
            bytes@.subrange(66, 98) == hex32(top as int),
            bytes@.subrange(99, 131) == hex32(steps as int),
            over == (bytes@[132] == 49u8),
            x <= n,
            palaces@.len() == x,
            forall|i: int|
                0 <= i < x ==> (#[trigger] grid_view(palaces)[i]).len() == n && crate::merge::all_tiles(
                    grid_view(palaces)[i],
                ),
            cells_acc == flatten_cells(grid_view(palaces)),
            off as int == 134 + 33 * cells_acc.len(),
            off <= blen,
            forall|kk: int|
                0 <= kk < cells_acc.len() ==> 0 <= #[trigger] cells_acc[kk] <= u128::MAX
                    && bytes@.subrange(134 + 33 * kk, 134 + 33 * kk + 32) == hex32(cells_acc[kk]),
        decreases n - x,
    {
        let mut row: Vec<u128> = Vec::new();
        let ghost row_base = cells_acc;
        let mut y: usize = 0;
        while y < n
            invariant
                blen == bytes@.len(),
                134 <= blen,
                n as int == szu as int,
                2 <= n,
                bytes@.subrange(0, 32) == hex32(szu as int),
                bytes@.subrange(33, 65) == hex32(total as int),
                bytes@.subrange(66, 98) == hex32(top as int),
                bytes@.subrange(99, 131) == hex32(steps as int),
                over == (bytes@[132] == 49u8),
                x < n,
                y <= n,
                palaces@.len() == x,
                forall|i: int|
                    0 <= i < x ==> (#[trigger] grid_view(palaces)[i]).len() == n
                        && crate::merge::all_tiles(grid_view(palaces)[i]),
                row_base == flatten_cells(grid_view(palaces)),
                row@.len() == y,
                crate::merge::all_tiles(row_view(row)),
                cells_acc == row_base + row_view(row),
                off as int == 134 + 33 * cells_acc.len(),
                off <= blen,
                forall|kk: int|
                    0 <= kk < cells_acc.len() ==> 0 <= #[trigger] cells_acc[kk] <= u128::MAX
                        && bytes@.subrange(134 + 33 * kk, 134 + 33 * kk + 32) == hex32(
                            cells_acc[kk],
                        ),
            decreases n - y,
        {
            proof {
                assert(cells_acc.len() == row_base.len() + y);
            }
            if blen - off < 33 {
                proof {
                    assert forall|g: Game| g.wf() implies bytes@ != #[trigger] snapshot_enc(
                        g,
                    ) by {
                        if bytes@ == snapshot_enc(g) {
                            lemma_enc_structure(g);
                            lemma_size_pinned(bytes@, g, szu);
                            lemma_flatten_len(g.gv(), g.size as int);
                            lemma_flatten_len(grid_view(palaces), n as int);
                            lemma_cell_index_bound(x as int, y as int, n as int);
                            assert(cells_acc.len() == x as int * (n as int) + y);
                            assert(cells_acc.len() < flatten_cells(g.gv()).len());
                        }
                    }
                }
                return None;
            }
            let oc = parse_hex32(bytes, off);
            if oc.is_none() {
                proof {
                    assert forall|g: Game| g.wf() implies bytes@ != #[trigger] snapshot_enc(
                        g,
                    ) by {
                        if bytes@ == snapshot_enc(g) {
                            lemma_enc_structure(g);
                            lemma_size_pinned(bytes@, g, szu);
                            lemma_flatten_len(g.gv(), g.size as int);
                            lemma_flatten_len(grid_view(palaces), n as int);
                            lemma_cell_index_bound(x as int, y as int, n as int);
                            let k = cells_acc.len() as int;
                            assert(k < flatten_cells(g.gv()).len());
                            lemma_grid_view_range(g.palaces);
                            lemma_flatten_range(g.gv());
                            let c = flatten_cells(g.gv())[k];
                            lemma_hex32_round_trip(c as u128);
                            assert(bytes@.subrange(off as int, off as int + 32) == hex32(c));
                        }
                    }
                }
                return None;
            }
            let c = oc.unwrap();
            if !crate::merge::tile_is_legal(c) {
                proof {
                    assert forall|g: Game| g.wf() implies bytes@ != #[trigger] snapshot_enc(
                        g,
                    ) by {
                        if bytes@ == snapshot_enc(g) {
                            lemma_enc_structure(g);
                            lemma_size_pinned(bytes@, g, szu);
                            lemma_flatten_len(g.gv(), g.size as int);
                            lemma_flatten_len(grid_view(palaces), n as int);
                            lemma_cell_index_bound(x as int, y as int, n as int);
                            let k = cells_acc.len() as int;
                            assert(k < flatten_cells(g.gv()).len());
                            lemma_grid_view_range(g.palaces);
                            lemma_flatten_range(g.gv());
                            let cg = flatten_cells(g.gv())[k];
                            assert(bytes@.subrange(off as int, off as int + 32) == hex32(cg));
                            crate::codec::lemma_hex32_inj(c as int, cg);
                            lemma_flatten_tiles(g.gv());
                            assert(is_tile(cg));
                        }
                    }
                }
                return None;
            }
            let ghost pre = cells_acc;
            let ghost rv0 = row_view(row);
            row.push(c);
            off = off + 33;
            proof {
                cells_acc = pre + seq![c as int];
                assert(crate::merge::all_tiles(row_view(row))) by {
                    assert forall|j: int|
                        0 <= j < row_view(row).len() implies is_tile(
                        #[trigger] row_view(row)[j],
                    ) by {
                        if j < rv0.len() {
                            assert(row_view(row)[j] == rv0[j]);
                        } else {
                            assert(row_view(row)[j] == c as int);
                        }
                    }
                }
                assert(row_view(row) =~= row_view(row).subrange(0, row@.len() as int));
                assert(cells_acc =~= row_base + row_view(row)) by {
                    assert forall|kk: int|
                        0 <= kk < cells_acc.len() implies cells_acc[kk] == (row_base + row_view(
                        row,
                    ))[kk] by {
                        if kk < pre.len() {
                            assert(cells_acc[kk] == pre[kk]);
                        } else {
                            assert(cells_acc[kk] == c as int);
                            assert((row_base + row_view(row))[kk] == row_view(row)[kk
                                - row_base.len()]);
                        }
                    }
                }
                assert forall|kk: int|
                    0 <= kk < cells_acc.len() implies 0 <= #[trigger] cells_acc[kk] <= u128::MAX
                    && bytes@.subrange(134 + 33 * kk, 134 + 33 * kk + 32) == hex32(
                    cells_acc[kk],
                ) by {
                    if kk < pre.len() {
                        assert(cells_acc[kk] == pre[kk]);
                    } else {
                        assert(kk == pre.len());
                        assert(cells_acc[kk] == c as int);
                    }
                }
            }
            y = y + 1;
        }
        let ghost rv = row_view(row);
        let ghost gv_old = grid_view(palaces);
        palaces.push(row);
        proof {
            let gvp = grid_view(palaces);
            assert(gvp =~= gv_old + seq![rv]) by {
                assert forall|i: int| 0 <= i < gvp.len() implies gvp[i] == (gv_old + seq![rv])[i] by {
                    if i < x as int {
                        assert(gvp[i] == row_view(palaces@[i]));
                        assert(gv_old[i] == row_view(palaces@[i]));
                    }
                }
            }
            lemma_flatten_concat(gv_old, seq![rv]);
            assert(flatten_cells(seq![rv]) =~= rv) by {
                assert(seq![rv].skip(1) =~= Seq::<Seq<int>>::empty());
                assert(flatten_cells(Seq::<Seq<int>>::empty()) == Seq::<int>::empty());
                assert(rv + Seq::<int>::empty() =~= rv);
            }
            assert(cells_acc == flatten_cells(gvp));
        }
        x = x + 1;
    }
    let ghost pv = palaces;
    let game = Game {
        palaces,
        total_score: total,
        top_score: top,
        move_steps: steps,
        game_over: over,
        size: n,
    };
    proof {
        assert(game.palaces == pv);
        assert(game.wf()) by {
            assert(crate::grid::is_square(game.gv(), n as int));
            assert(crate::grid::grid_tiles(game.gv()));
        }
    }
    let enc2 = snapshot_encode(&game);
    if bytes_equal(&enc2, bytes) {
        Some(game)
    } else {
        proof {
            assert forall|g: Game| g.wf() implies bytes@ != #[trigger] snapshot_enc(g) by {
                if bytes@ == snapshot_enc(g) {
                    lemma_enc_structure(g);
                    lemma_size_pinned(bytes@, g, szu);
                    crate::codec::lemma_hex32_inj(total as int, g.total_score as int);
                    crate::codec::lemma_hex32_inj(top as int, g.top_score as int);
                    crate::codec::lemma_hex32_inj(steps as int, g.move_steps as int);
                    assert(over == g.game_over);
                    let cs = flatten_cells(g.gv());
                    lemma_flatten_len(g.gv(), g.size as int);
                    lemma_flatten_len(grid_view(pv), n as int);
                    assert(cells_acc.len() == cs.len());
                    lemma_grid_view_range(g.palaces);
                    lemma_flatten_range(g.gv());
                    assert forall|kk: int| 0 <= kk < cs.len() implies cells_acc[kk] == #[trigger] cs[kk] by {
                        crate::codec::lemma_hex32_inj(cells_acc[kk], cs[kk]);
                    }
                    assert(cells_acc =~= cs);
                    assert(flatten_cells(game.gv()) == cs);
                    assert(snapshot_enc(game) == snapshot_enc(g));
                    assert(enc2@ == bytes@);
                }
            }
        }
        None
    }
}

} // verus!
