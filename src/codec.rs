//! The state key: a board, the side to move and a terminal flag packed into
//! one `u128`. For a board of `n` cells (`n` = columns × height), bit
//! `c * height + r` holds the owner of cell (`c`, `r`), bit `n + c * height + r`
//! whether that cell is occupied, bit `2n` the side to move and bit `2n + 1`
//! the terminal flag; every higher bit is clear.
use vstd::prelude::*;
use crate::connect4::{Connect4, cells_of};

verus! {

/// Columns of the standard board.
pub const COLUMNS: u8 = 7;
/// Height of the standard board.
pub const HEIGHT: u8 = 6;

/// Why a key does not describe a board.
#[derive(PartialEq, Eq, Structural, Debug, Clone, Copy)]
pub enum DecodeError {
    /// A bit above the terminal flag is set.
    OutOfRange,
    /// A cell owner is set where the cell is empty, or a cell is occupied
    /// above an empty one.
    Malformed,
}

/// Bit `k` of `x`.
pub open spec fn bit(x: u128, k: int) -> bool {
    (x >> (k as u128)) & 1u128 == 1u128
}

/// Position of cell (`c`, `r`) in a plane of a board `h` tall.
pub open spec fn slot(h: int, c: int, r: int) -> int {
    c * h + r
}

/// Boards whose key fits in a `u128`: two bits per cell and two flags.
pub open spec fn fits_key(num_columns: int, height: int) -> bool {
    num_columns * height <= 63
}

/// `key` encodes the cells `cells` of a board `h` tall, the side to move
/// `player` and the terminal flag `terminal`.
pub open spec fn is_key_of(cells: Seq<Seq<bool>>, h: int, player: bool, terminal: bool, key: u128) -> bool {
    let n = cells.len() * h;
    &&& forall|c: int, r: int|
        0 <= c < cells.len() && 0 <= r < h ==> {
            &&& bit(key, #[trigger] slot(h, c, r)) == (r < cells[c].len() && cells[c][r])
            &&& bit(key, n + slot(h, c, r)) == (r < cells[c].len())
        }
    &&& bit(key, 2 * n) == player
    &&& bit(key, 2 * n + 1) == terminal
    &&& forall|k: int| 2 * n + 2 <= k < 128 ==> !#[trigger] bit(key, k)
}

/// No bit of `key` above the terminal flag of an `n`-cell board is set.
pub open spec fn in_range(key: u128, n: int) -> bool {
    forall|k: int| 2 * n + 2 <= k < 128 ==> !#[trigger] bit(key, k)
}

/// Every owner bit of `key` sits on an occupied cell, and every occupied
/// cell sits on the bottom or on an occupied cell.
pub open spec fn consistent(key: u128, nc: int, h: int) -> bool {
    forall|c: int, r: int| 0 <= c < nc && 0 <= r < h ==> #[trigger] cell_ok(key, nc * h, h, c, r)
}

/// Cell (`c`, `r`) of a board `h` tall with `n` cells is owned only where
/// occupied, and occupied only where the cell below is (or on the bottom).
pub open spec fn cell_ok(key: u128, n: int, h: int, c: int, r: int) -> bool {
    &&& bit(key, slot(h, c, r)) ==> bit(key, n + slot(h, c, r))
    &&& (r + 1 < h && bit(key, n + slot(h, c, r + 1))) ==> bit(key, n + slot(h, c, r))
}

/// `game` is the board that `key` describes, with `nc` columns `h` tall.
pub open spec fn decodes_to(key: u128, nc: int, h: int, game: Connect4) -> bool {
    let n = nc * h;
    &&& game.columns@.len() == nc
    &&& game.height == h
    &&& game.wf()
    &&& game.player == bit(key, 2 * n)
    &&& forall|c: int, r: int|
        0 <= c < nc && 0 <= r < h ==> {
            &&& (r < game.cells()[c].len()) == bit(key, n + #[trigger] slot(h, c, r))
            &&& r < game.cells()[c].len() ==> game.cells()[c][r] == bit(key, slot(h, c, r))
        }
}

/// Whether a key carries the terminal flag of an `n`-cell board.
pub open spec fn terminal_bit(key: u128, n: int) -> bool {
    bit(key, 2 * n + 1)
}

proof fn lemma_set_bit(x: u128, k: u128, j: u128)
    requires
        k < 128,
        j < 128,
    ensures
        (((x | (1u128 << k)) >> j) & 1u128 == 1u128) == (((x >> j) & 1u128 == 1u128) || j == k),
{
    assert((((x | (1u128 << k)) >> j) & 1u128 == 1u128) == (((x >> j) & 1u128 == 1u128) || j == k))
        by (bit_vector)
        requires k < 128u128, j < 128u128;
}

proof fn lemma_bit_set(x: u128, k: int, j: int)
    requires
        0 <= k < 128,
        0 <= j < 128,
    ensures
        bit(x | (1u128 << (k as u128)), j) == (bit(x, j) || j == k),
{
    lemma_set_bit(x, k as u128, j as u128);
}

proof fn lemma_zero_bits(j: u128)
    ensures
        (0u128 >> j) & 1u128 != 1u128,
{
    assert((0u128 >> j) & 1u128 != 1u128) by (bit_vector);
}

proof fn lemma_slot_order(h: int, c: int, r: int, i: int, j: int)
    requires
        0 <= r < h,
        0 <= j < h,
        0 <= c,
        0 <= i,
    ensures
        (slot(h, c, r) < slot(h, i, j)) == (c < i || (c == i && r < j)),
        (slot(h, c, r) == slot(h, i, j)) == (c == i && r == j),
{
    if c < i {
        assert(c * h + h <= i * h) by (nonlinear_arith)
            requires c < i, 0 <= h;
    } else if c > i {
        assert(i * h + h <= c * h) by (nonlinear_arith)
            requires i < c, 0 <= h;
    }
}

proof fn lemma_slot_bound(h: int, c: int, r: int, nc: int)
    requires
        0 <= r < h,
        0 <= c < nc,
    ensures
        0 <= slot(h, c, r) < nc * h,
{
    assert(c * h + h <= nc * h) by (nonlinear_arith)
        requires c < nc, 0 <= h;
    assert(0 <= c * h) by (nonlinear_arith)
        requires 0 <= c, 0 <= h;
}

proof fn lemma_next_column(h: int, i: int)
    ensures
        slot(h, i, h) == slot(h, i + 1, 0),
{
    assert(i * h + h == (i + 1) * h) by (nonlinear_arith);
}

/// The invariant of the packing loop: the cells before slot `counter` are
/// written, nothing else is.
spec fn packed_upto(cells: Seq<Seq<bool>>, h: int, n: int, counter: int, key: u128) -> bool {
    &&& forall|c: int, r: int|
        0 <= c < cells.len() && 0 <= r < h ==> {
            &&& bit(key, #[trigger] slot(h, c, r)) == (slot(h, c, r) < counter && r < cells[c].len()
                && cells[c][r])
            &&& bit(key, n + slot(h, c, r)) == (slot(h, c, r) < counter && r < cells[c].len())
        }
    &&& forall|k: int| 2 * n <= k < 128 ==> !#[trigger] bit(key, k)
}

/// Sets bit `k` of `key` where `on` holds.
fn set_bit_if(key: u128, k: usize, on: bool) -> (r: u128)
    requires
        k < 128,
    ensures
        forall|j: int| 0 <= j < 128 ==> #[trigger] bit(r, j) == (bit(key, j) || (on && j == k)),
{
    if on {
        proof {
            assert forall|j: int| 0 <= j < 128 implies #[trigger] bit(key | (1u128 << (k as u128)), j) == (
            bit(key, j) || j == k) by {
                lemma_bit_set(key, k as int, j);
            }
        }
        key | (1u128 << (k as u128))
    } else {
        key
    }
}

/// Packs `game` and the flag `terminal` into a key.
pub fn game_to_node(game: &Connect4, terminal: bool) -> (key: u128)
    requires
        game.wf(),
        fits_key(game.columns@.len() as int, game.height as int),
    ensures
        is_key_of(game.cells(), game.height as int, game.player, terminal, key),
{
    let nc = game.columns.len();
    let h = game.height as usize;
    let ghost cells = game.cells();
    let ghost hh = h as int;
    assert(nc * h <= 63);
    let n: usize = nc * h;
    let mut key: u128 = 0;
    proof {
        assert forall|k: int| !#[trigger] bit(key, k) by {
            lemma_zero_bits(k as u128);
        }
        assert forall|c: int, r: int| 0 <= c < cells.len() && 0 <= r < hh implies
            #[trigger] slot(hh, c, r) >= 0 by {
            lemma_slot_bound(hh, c, r, nc as int);
        }
        assert(packed_upto(cells, hh, n as int, 0, key));
    }
    let mut counter: usize = 0;
    let mut i: usize = 0;
    while i < nc
        invariant
            nc == game.columns@.len(),
            cells == game.cells(),
            hh == h,
            h == game.height,
            game.wf(),
            n == nc * h,
            n <= 63,
            i <= nc,
            counter == slot(hh, i as int, 0),
            packed_upto(cells, hh, n as int, counter as int, key),
        decreases nc - i,
    {
        let mut j: usize = 0;
        while j < h
            invariant
                nc == game.columns@.len(),
                cells == game.cells(),
                hh == h,
                h == game.height,
                game.wf(),
                n == nc * h,
                n <= 63,
                in_range(key, n as int),
                i < nc,
                j <= h,
                counter == slot(hh, i as int, j as int),
                packed_upto(cells, hh, n as int, counter as int, key),
            decreases h - j,
        {
            proof {
                lemma_slot_bound(hh, i as int, j as int, nc as int);
            }
            let occupied = j < game.columns[i].len();
            let owner = occupied && game.columns[i][j];
            let ghost old_key = key;
            key = set_bit_if(key, counter, owner);
            let ghost mid_key = key;
            key = set_bit_if(key, n + counter, occupied);
            proof {
                assert forall|c: int, r: int| 0 <= c < cells.len() && 0 <= r < hh implies {
                    &&& bit(key, #[trigger] slot(hh, c, r)) == (slot(hh, c, r) < counter + 1 && r
                        < cells[c].len() && cells[c][r])
                    &&& bit(key, n + slot(hh, c, r)) == (slot(hh, c, r) < counter + 1 && r
                        < cells[c].len())
                } by {
                    lemma_slot_order(hh, c, r, i as int, j as int);
                    lemma_slot_bound(hh, c, r, nc as int);
                    assert(cells[c] == game.columns@[c]@);
                }
            }
            counter = counter + 1;
            j = j + 1;
        }
        proof {
            lemma_next_column(hh, i as int);
        }
        i = i + 1;
    }
    key = set_bit_if(key, 2 * n, game.player);
    key = set_bit_if(key, 2 * n + 1, terminal);
    proof {
        assert(counter == n) by {
            lemma_next_column(hh, 0);
            assert(slot(hh, nc as int, 0) == nc * hh) by (nonlinear_arith);
        }
        assert forall|c: int, r: int| 0 <= c < cells.len() && 0 <= r < hh implies
            #[trigger] slot(hh, c, r) < n by {
            lemma_slot_bound(hh, c, r, nc as int);
        }
    }
    key
}

/// Round trip: the key of a board and a terminal flag is in range and
/// consistent, so it decodes; the board it decodes to has the same columns,
/// height and side to move as the board that was packed, and the key's
/// terminal bit is the flag that was packed.
pub proof fn lemma_round_trip(b: Connect4, t: bool, key: u128, g: Connect4)
    requires
        b.wf(),
        fits_key(b.columns@.len() as int, b.height as int),
        is_key_of(b.cells(), b.height as int, b.player, t, key),
    ensures
        in_range(key, b.columns@.len() * b.height),
        consistent(key, b.columns@.len() as int, b.height as int),
        decodes_to(key, b.columns@.len() as int, b.height as int, b),
        terminal_bit(key, b.columns@.len() * b.height) == t,
        decodes_to(key, b.columns@.len() as int, b.height as int, g) ==> {
            &&& g.cells() == b.cells()
            &&& g.height == b.height
            &&& g.player == b.player
        },
{
    let nc = b.columns@.len() as int;
    let h = b.height as int;
    let n = nc * h;
    assert(b.cells().len() == nc);
    assert forall|c: int, r: int| 0 <= c < nc && 0 <= r < h implies #[trigger] cell_ok(key, n, h, c, r) by {
        assert(b.columns@[c]@.len() <= h);
        if r + 1 < h {
            assert(bit(key, n + slot(h, c, r + 1)) == (r + 1 < b.cells()[c].len()));
        }
    }
    assert forall|c: int| 0 <= c < nc implies #[trigger] b.columns@[c]@.len() <= b.height by {}
    if decodes_to(key, nc, h, g) {
        assert forall|c: int| 0 <= c < nc implies #[trigger] g.cells()[c] == b.cells()[c] by {
            let lg = g.cells()[c].len();
            let lb = b.cells()[c].len();
            assert(g.columns@[c]@.len() <= h);
            assert(b.columns@[c]@.len() <= h);
            if lg < lb {
                assert(bit(key, n + slot(h, c, lg as int)));
            } else if lb < lg {
                assert(bit(key, n + slot(h, c, lb as int)));
            }
            assert forall|r: int| 0 <= r < lg implies g.cells()[c][r] == b.cells()[c][r] by {
                assert(bit(key, slot(h, c, r)) == (r < b.cells()[c].len() && b.cells()[c][r]));
            }
            assert(g.cells()[c] =~= b.cells()[c]);
        }
        assert(g.cells() =~= b.cells());
    }
}

/// A board decoded from a key in range that is consistent is the board that
/// key packs, with the key's own terminal bit.
pub proof fn lemma_decoded_is_key(key: u128, nc: int, h: int, g: Connect4)
    requires
        fits_key(nc, h),
        0 <= nc,
        0 <= h,
        in_range(key, nc * h),
        consistent(key, nc, h),
        decodes_to(key, nc, h, g),
    ensures
        is_key_of(g.cells(), h, g.player, terminal_bit(key, nc * h), key),
{
    let n = nc * h;
    assert(g.cells().len() == nc);
    assert forall|c: int, r: int| 0 <= c < g.cells().len() && 0 <= r < h implies {
        &&& bit(key, #[trigger] slot(h, c, r)) == (r < g.cells()[c].len() && g.cells()[c][r])
        &&& bit(key, n + slot(h, c, r)) == (r < g.cells()[c].len())
    } by {
        assert(cell_ok(key, n, h, c, r));
    }
}

/// Tests bit `k` of `key`.
fn test_bit(key: u128, k: usize) -> (b: bool)
    requires
        k < 128,
    ensures
        b == bit(key, k as int),
{
    (key >> (k as u128)) & 1u128 == 1u128
}

/// Unpacks the board of `num_columns` columns, `height` tall, that `key`
/// describes; the terminal flag is left aside.
pub fn decode_board(key: u128, num_columns: u8, height: u8) -> (result: Result<Connect4, DecodeError>)
    requires
        fits_key(num_columns as int, height as int),
    ensures
        match result {
            Ok(g) => in_range(key, num_columns * height) && consistent(key, num_columns as int, height as int)
                && decodes_to(key, num_columns as int, height as int, g),
            Err(DecodeError::OutOfRange) => !in_range(key, num_columns * height),
            Err(DecodeError::Malformed) => in_range(key, num_columns * height) && !consistent(
                key,
                num_columns as int,
                height as int,
            ),
        },
{
    let nc = num_columns as usize;
    let h = height as usize;
    let ghost hh = h as int;
    assert(nc * h <= 63);
    let n: usize = nc * h;
    let mut k: usize = 2 * n + 2;
    while k < 128
        invariant
            nc == num_columns,
            h == height,
            n == nc * h,
            n <= 63,
            2 * n + 2 <= k <= 128,
            forall|j: int| 2 * n + 2 <= j < k ==> !#[trigger] bit(key, j),
        decreases 128 - k,
    {
        if test_bit(key, k) {
            assert(!in_range(key, num_columns * height));
            return Err(DecodeError::OutOfRange);
        }
        k = k + 1;
    }
    assert(in_range(key, n as int));
    let player = test_bit(key, 2 * n);
    let mut columns: Vec<Vec<bool>> = Vec::new();
    let mut counter: usize = 0;
    let mut i: usize = 0;
    while i < nc
        invariant
            nc == num_columns,
            h == height,
            hh == h,
            n == nc * h,
            n <= 63,
            in_range(key, n as int),
            i <= nc,
            counter == slot(hh, i as int, 0),
            columns@.len() == i,
            forall|c: int| 0 <= c < i ==> #[trigger] columns@[c]@.len() <= h,
            forall|c: int, r: int| 0 <= c < i && 0 <= r < hh ==> #[trigger] cell_ok(key, n as int, hh, c, r),
            forall|c: int, r: int|
                0 <= c < i && 0 <= r < hh ==> {
                    &&& (r < columns@[c]@.len()) == bit(key, n + #[trigger] slot(hh, c, r))
                    &&& r < columns@[c]@.len() ==> columns@[c]@[r] == bit(key, slot(hh, c, r))
                },
        decreases nc - i,
    {
        let mut column: Vec<bool> = Vec::new();
        let mut prev = false;
        let mut j: usize = 0;
        while j < h
            invariant
                nc == num_columns,
                h == height,
                hh == h,
                n == nc * h,
                n <= 63,
                in_range(key, n as int),
                i < nc,
                j <= h,
                counter == slot(hh, i as int, j as int),
                column@.len() <= j,
                prev == (j > 0 && bit(key, n + slot(hh, i as int, j - 1))),
                forall|r: int| 0 <= r && r + 1 < j ==> #[trigger] cell_ok(key, n as int, hh, i as int, r),
                forall|r: int| 0 <= r < j ==> bit(key, #[trigger] slot(hh, i as int, r)) ==> bit(key, n + slot(hh, i as int, r)),
                forall|r: int|
                    0 <= r < j ==> {
                        &&& (r < column@.len()) == bit(key, n + #[trigger] slot(hh, i as int, r))
                        &&& r < column@.len() ==> column@[r] == bit(key, slot(hh, i as int, r))
                    },
            decreases h - j,
        {
            proof {
                lemma_slot_bound(hh, i as int, j as int, nc as int);
            }
            let occupied = test_bit(key, n + counter);
            let owner = test_bit(key, counter);
            if owner && !occupied {
                assert(!cell_ok(key, n as int, hh, i as int, j as int));
                assert(!consistent(key, num_columns as int, height as int));
                assert(in_range(key, num_columns * height));
                return Err(DecodeError::Malformed);
            }
            if occupied && j > 0 && !prev {
                assert(slot(hh, i as int, (j - 1) + 1) == slot(hh, i as int, j as int));
                assert(!cell_ok(key, n as int, hh, i as int, j - 1));
                assert(!consistent(key, num_columns as int, height as int));
                assert(in_range(key, num_columns * height));
                return Err(DecodeError::Malformed);
            }
            if occupied {
                column.push(owner);
            }
            proof {
                if j > 0 {
                    assert(slot(hh, i as int, (j - 1) + 1) == slot(hh, i as int, j as int));
                    assert(cell_ok(key, n as int, hh, i as int, j - 1));
                }
            }
            prev = occupied;
            counter = counter + 1;
            j = j + 1;
        }
        assert forall|r: int| 0 <= r < hh implies #[trigger] cell_ok(key, n as int, hh, i as int, r) by {
            if r + 1 < hh {
                assert(r + 1 < j);
            } else {
                assert(bit(key, slot(hh, i as int, r)) ==> bit(key, n + slot(hh, i as int, r)));
            }
        }
        columns.push(column);
        proof {
            lemma_next_column(hh, i as int);
        }
        i = i + 1;
    }
    let game = Connect4 { columns, height, player };
    assert(game.cells() == cells_of(game.columns@));
    Ok(game)
}

/// Unpacks a key of the standard 7 × 6 board.
pub fn node_to_game(node: u128) -> (result: Result<Connect4, DecodeError>)
    ensures
        match result {
            Ok(g) => in_range(node, COLUMNS * HEIGHT) && consistent(node, COLUMNS as int, HEIGHT as int)
                && decodes_to(node, COLUMNS as int, HEIGHT as int, g),
            Err(DecodeError::OutOfRange) => !in_range(node, COLUMNS * HEIGHT),
            Err(DecodeError::Malformed) => in_range(node, COLUMNS * HEIGHT) && !consistent(
                node,
                COLUMNS as int,
                HEIGHT as int,
            ),
        },
{
    decode_board(node, COLUMNS, HEIGHT)
}

} // verus!
