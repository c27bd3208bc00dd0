use vstd::prelude::*;

verus! {

/// Number of cells on the board.
pub const N_CELLS: usize = 81;

/// Row (0..9) of a cell index.
pub open spec fn row_of(i: int) -> int {
    i / 9
}

/// Column (0..9) of a cell index.
pub open spec fn col_of(i: int) -> int {
    i % 9
}

/// 3x3 box (0..9) of a cell index, numbered row-major.
pub open spec fn box_of(i: int) -> int {
    (i / 27) * 3 + (i % 9) / 3
}

/// Cell at position `k` (0..9) of chunk `c` (0..27): rows 0..9, then columns, then boxes.
pub open spec fn chunk_cell(c: int, k: int) -> int {
    if c < 9 {
        c * 9 + k
    } else if c < 18 {
        (c - 9) + k * 9
    } else {
        ((c - 18) / 3) * 27 + ((c - 18) % 3) * 3 + (k / 3) * 9 + k % 3
    }
}

/// Whether cell `i` belongs to chunk `c`.
pub open spec fn in_chunk(c: int, i: int) -> bool {
    if c < 9 {
        row_of(i) == c
    } else if c < 18 {
        col_of(i) == c - 9
    } else {
        box_of(i) == c - 18
    }
}

/// Chunk number `t` (0: row, 1: column, 2: box) among those that hold cell `i`.
pub open spec fn chunk_of(i: int, t: int) -> int {
    if t == 0 {
        row_of(i)
    } else if t == 1 {
        9 + col_of(i)
    } else {
        18 + box_of(i)
    }
}

/// Position of cell `i` within chunk `c`, when the cell belongs to it.
pub open spec fn pos_in_chunk(c: int, i: int) -> int {
    if c < 9 {
        col_of(i)
    } else if c < 18 {
        row_of(i)
    } else {
        (row_of(i) % 3) * 3 + col_of(i) % 3
    }
}

/// Two cells (possibly the same) that lie in a common row, column or box.
pub open spec fn shares(i: int, j: int) -> bool {
    row_of(i) == row_of(j) || col_of(i) == col_of(j) || box_of(i) == box_of(j)
}

/// Two distinct cells that share a row, a column or a box.
pub open spec fn peers(i: int, j: int) -> bool {
    i != j && shares(i, j)
}

pub proof fn lemma_chunk_cell(c: int, k: int)
    requires
        0 <= c < 27,
        0 <= k < 9,
    ensures
        0 <= chunk_cell(c, k) < 81,
        in_chunk(c, chunk_cell(c, k)),
{
}

pub proof fn lemma_pos_in_chunk(c: int, i: int)
    requires
        0 <= c < 27,
        0 <= i < 81,
        in_chunk(c, i),
    ensures
        0 <= pos_in_chunk(c, i) < 9,
        chunk_cell(c, pos_in_chunk(c, i)) == i,
{
}

pub proof fn lemma_chunk_cell_injective(c: int, k1: int, k2: int)
    requires
        0 <= c < 27,
        0 <= k1 < 9,
        0 <= k2 < 9,
        chunk_cell(c, k1) == chunk_cell(c, k2),
    ensures
        k1 == k2,
{
    if c >= 18 {
        assert((k1 / 3) * 9 + k1 % 3 == (k2 / 3) * 9 + k2 % 3);
        assert(k1 / 3 == k2 / 3);
    }
}

pub proof fn lemma_chunk_of(i: int, t: int)
    requires
        0 <= i < 81,
        0 <= t < 3,
    ensures
        0 <= chunk_of(i, t) < 27,
        in_chunk(chunk_of(i, t), i),
        forall|j: int| #[trigger] in_chunk(chunk_of(i, t), j) ==> shares(i, j),
{
}

/// Every chunk that holds cell `i` is one of its row, column or box.
pub proof fn lemma_chunk_is_chunk_of(c: int, i: int)
    requires
        0 <= c < 27,
        in_chunk(c, i),
    ensures
        c == chunk_of(i, if c < 9 { 0int } else if c < 18 { 1int } else { 2int }),
{
}

/// A cell that shares a chunk with `i` sits at some position of one of the chunks of `i`.
pub proof fn lemma_shares_in_chunk(i: int, j: int)
    requires
        0 <= i < 81,
        0 <= j < 81,
        shares(i, j),
    ensures
        exists|t: int, k: int|
            0 <= t < 3 && 0 <= k < 9 && #[trigger] chunk_cell(chunk_of(i, t), k) == j,
{
    let t: int = if row_of(i) == row_of(j) { 0 } else if col_of(i) == col_of(j) { 1 } else { 2 };
    lemma_chunk_of(i, t);
    assert(in_chunk(chunk_of(i, t), j));
    lemma_pos_in_chunk(chunk_of(i, t), j);
    let k = pos_in_chunk(chunk_of(i, t), j);
    assert(chunk_cell(chunk_of(i, t), k) == j);
}

} // verus!
