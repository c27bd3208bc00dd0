use vstd::prelude::*;

use crate::digits::{
    ALL_DIGITS, BLANK, card, char_digit, contains_digit, digit_char, digit_list, digits_of,
    has_digit, is_cell_char, is_digit_char, lemma_char_digit, lemma_digit_char, lemma_digit_list,
    lemma_has_all, lemma_has_and, lemma_has_ext, lemma_card_subset, without_digit, without_digits,
};
use crate::grid::{
    N_CELLS, chunk_cell, chunk_of, lemma_chunk_cell, lemma_chunk_cell_injective,
    lemma_chunk_of, lemma_chunk_is_chunk_of, lemma_pos_in_chunk, lemma_shares_in_chunk,
    pos_in_chunk, shares,
};

verus! {

/// Why a puzzle string was refused.
#[derive(Debug, Clone, Copy, PartialEq, Eq, Structural)]
pub enum SudokuError {
    /// The string does not hold exactly 81 characters.
    LengthError,
    /// A character is neither a digit 1..=9 nor '.', or a row, column or box holds a digit twice.
    InvalidBoardError,
}

/// A 9x9 board: one character per cell, row-major, and a candidate set per cell.
#[derive(Clone, Copy)]
pub struct Sudoku {
    /// '1'..='9' for a placed digit, '.' for a blank cell.
    pub board: [char; 81],
    /// Bit `k` set when digit `k + 1` is still possible in the cell.
    pub possible: [u32; 81],
}

/// Every cell holds a digit character or the blank marker.
pub open spec fn cells_ok(cells: Seq<char>) -> bool {
    cells.len() == 81 && forall|i: int| 0 <= i < 81 ==> is_cell_char(#[trigger] cells[i])
}

/// Every candidate set stays within the nine digit bits.
pub open spec fn masks_ok(masks: Seq<u32>) -> bool {
    masks.len() == 81 && forall|i: int| 0 <= i < 81 ==> #[trigger] masks[i] <= ALL_DIGITS
}

/// Digit `d` is placed in no cell of the row, column or box of cell `i`.
pub open spec fn allowed(cells: Seq<char>, i: int, d: int) -> bool {
    1 <= d <= 9 && forall|j: int|
        0 <= j < 81 && #[trigger] shares(i, j) ==> cells[j] != digit_char(d)
}

/// Each candidate set holds exactly the digits that its row, column and box leave open.
pub open spec fn exact(cells: Seq<char>, masks: Seq<u32>) -> bool {
    forall|i: int, d: int| 0 <= i < 81 ==> (#[trigger] has_digit(masks[i], d) <==> allowed(cells, i, d))
}

/// The candidate set of each blank cell holds only digits that its peers leave open.
pub open spec fn sound(cells: Seq<char>, masks: Seq<u32>) -> bool {
    forall|i: int, d: int|
        0 <= i < 81 && cells[i] == BLANK && #[trigger] has_digit(masks[i], d) ==> allowed(cells, i, d)
}

/// No row, column or box holds the same placed digit twice.
pub open spec fn valid(cells: Seq<char>) -> bool {
    forall|c: int, k1: int, k2: int|
        0 <= c < 27 && 0 <= k1 < 9 && 0 <= k2 < 9 && k1 != k2 && cells[chunk_cell(c, k1)] != BLANK
            ==> #[trigger] cells[chunk_cell(c, k1)] != #[trigger] cells[chunk_cell(c, k2)]
}

/// Chunk `c` holds digit `d` in one of its cells.
pub open spec fn chunk_holds(cells: Seq<char>, c: int, d: int) -> bool {
    exists|k: int| 0 <= k < 9 && #[trigger] cells[chunk_cell(c, k)] == digit_char(d)
}

/// A full board whose every row, column and box is a permutation of 1..=9.
pub open spec fn solved(cells: Seq<char>) -> bool {
    &&& cells.len() == 81
    &&& forall|i: int| 0 <= i < 81 ==> is_digit_char(#[trigger] cells[i])
    &&& valid(cells)
    &&& forall|c: int, d: int| 0 <= c < 27 && 1 <= d <= 9 ==> #[trigger] chunk_holds(cells, c, d)
}

/// `s` keeps every digit placed in `cells`.
pub open spec fn extends(cells: Seq<char>, s: Seq<char>) -> bool {
    forall|i: int| 0 <= i < 81 && #[trigger] cells[i] != BLANK ==> s[i] == cells[i]
}

/// A solution of the puzzle `cells`: a solved board that keeps its placed digits.
pub open spec fn solution_of(cells: Seq<char>, s: Seq<char>) -> bool {
    solved(s) && extends(cells, s)
}

/// Each blank cell's candidate set holds the digit that any solution puts there.
pub open spec fn complete(cells: Seq<char>, masks: Seq<u32>) -> bool {
    forall|s: Seq<char>, i: int|
        #[trigger] solution_of(cells, s) && 0 <= i < 81 && cells[i] == BLANK ==> #[trigger] has_digit(
            masks[i],
            char_digit(s[i]),
        )
}

/// Whether chunk `c` leaves digit `d` open, read off its nine characters.
pub open spec fn open_in(chunk: Seq<char>, d: int) -> bool {
    1 <= d <= 9 && forall|k: int| 0 <= k < 9 ==> #[trigger] chunk[k] != digit_char(d)
}

/// Digit `d` is placed in no cell of chunk `c`.
pub open spec fn chunk_open(cells: Seq<char>, c: int, d: int) -> bool {
    1 <= d <= 9 && forall|k: int| 0 <= k < 9 ==> #[trigger] cells[chunk_cell(c, k)] != digit_char(d)
}

/// Digit `d` is left open by all three chunks of cell `i`.
pub open spec fn open_in_chunks(cells: Seq<char>, i: int, d: int) -> bool {
    1 <= d <= 9 && forall|t: int, k: int|
        0 <= t < 3 && 0 <= k < 9 ==> cells[#[trigger] chunk_cell(chunk_of(i, t), k)] != digit_char(d)
}

pub proof fn lemma_allowed_by_chunks(cells: Seq<char>, i: int, d: int)
    requires
        0 <= i < 81,
    ensures
        allowed(cells, i, d) <==> open_in_chunks(cells, i, d),
{
    if allowed(cells, i, d) {
        assert forall|t: int, k: int| 0 <= t < 3 && 0 <= k < 9 implies cells[#[trigger] chunk_cell(
            chunk_of(i, t),
            k,
        )] != digit_char(d) by {
            lemma_chunk_of(i, t);
            lemma_chunk_cell(chunk_of(i, t), k);
            assert(shares(i, chunk_cell(chunk_of(i, t), k)));
        }
    }
    if open_in_chunks(cells, i, d) {
        assert forall|j: int| 0 <= j < 81 && #[trigger] shares(i, j) implies cells[j] != digit_char(d) by {
            lemma_shares_in_chunk(i, j);
        }
    }
}

/// Exact candidate sets are sound, and complete for every solution.
pub proof fn lemma_exact_sound_complete(cells: Seq<char>, masks: Seq<u32>)
    requires
        cells_ok(cells),
        exact(cells, masks),
    ensures
        sound(cells, masks),
        complete(cells, masks),
{
    assert forall|s: Seq<char>, i: int|
        #[trigger] solution_of(cells, s) && 0 <= i < 81 && cells[i] == BLANK implies #[trigger] has_digit(
        masks[i],
        char_digit(s[i]),
    ) by {
        lemma_solution_allowed(cells, s, i);
    }
}

/// In a solution, the digit of a blank cell is left open by the cell's peers.
pub proof fn lemma_solution_allowed(cells: Seq<char>, s: Seq<char>, i: int)
    requires
        solution_of(cells, s),
        0 <= i < 81,
        cells[i] == BLANK,
    ensures
        allowed(cells, i, char_digit(s[i])),
{
    let d = char_digit(s[i]);
    lemma_char_digit(s[i]);
    assert forall|j: int| 0 <= j < 81 && #[trigger] shares(i, j) implies cells[j] != digit_char(d) by {
        if j != i && cells[j] == digit_char(d) {
            lemma_solution_peers(s, i, j);
        }
    }
}

/// Two cells that share a chunk hold different digits in a solved board.
pub proof fn lemma_solution_peers(s: Seq<char>, i: int, j: int)
    requires
        solved(s),
        0 <= i < 81,
        0 <= j < 81,
        i != j,
        shares(i, j),
    ensures
        s[i] != s[j],
{
    lemma_shares_in_chunk(i, j);
    let (t, k) = choose|t: int, k: int|
        0 <= t < 3 && 0 <= k < 9 && #[trigger] chunk_cell(chunk_of(i, t), k) == j;
    lemma_chunk_of(i, t);
    let c = chunk_of(i, t);
    lemma_pos_in_chunk(c, i);
    let ki = pos_in_chunk(c, i);
    assert(s[chunk_cell(c, ki)] != s[chunk_cell(c, k)]);
}

/// Number of blank cells among the first `n`.
pub open spec fn count_blanks(cells: Seq<char>, n: int) -> nat
    decreases n,
{
    if n <= 0 {
        0
    } else {
        count_blanks(cells, n - 1) + if cells[n - 1] == BLANK { 1nat } else { 0nat }
    }
}

/// Number of blank cells on the board.
pub open spec fn blanks(cells: Seq<char>) -> nat {
    count_blanks(cells, 81)
}

/// A board that only fills blanks of `cells` holds no more blanks.
pub proof fn lemma_blanks_mono(cells: Seq<char>, next: Seq<char>, n: int)
    requires
        0 <= n <= 81,
        extends(cells, next),
        forall|i: int| 0 <= i < 81 && next[i] == BLANK ==> cells[i] == BLANK,
    ensures
        count_blanks(next, n) <= count_blanks(cells, n),
    decreases n,
{
    if n > 0 {
        lemma_blanks_mono(cells, next, n - 1);
    }
}

/// Filling one blank takes one off the count.
pub proof fn lemma_blanks_fill(cells: Seq<char>, i: int, v: char, n: int)
    requires
        0 <= i < n <= 81,
        cells.len() == 81,
        cells[i] == BLANK,
        v != BLANK,
    ensures
        count_blanks(cells.update(i, v), n) + 1 == count_blanks(cells, n),
    decreases n,
{
    if n - 1 > i {
        lemma_blanks_fill(cells, i, v, n - 1);
    } else {
        lemma_blanks_prefix(cells, i, v, i);
        assert(cells.update(i, v)[i] == v);
    }
}

proof fn lemma_blanks_prefix(cells: Seq<char>, i: int, v: char, m: int)
    requires
        0 <= m <= i < cells.len(),
    ensures
        count_blanks(cells.update(i, v), m) == count_blanks(cells, m),
    decreases m,
{
    if m > 0 {
        lemma_blanks_prefix(cells, i, v, m - 1);
    }
}

/// The masks `after` are `before` with digit `d` taken out of every cell that shares a chunk
/// with cell `i`.
pub open spec fn eliminated(before: Seq<u32>, after: Seq<u32>, i: int, d: int) -> bool {
    &&& after.len() == 81
    &&& forall|j: int|
        0 <= j < 81 && shares(i, j) ==> #[trigger] after[j] <= ALL_DIGITS && forall|e: int|
            #[trigger] has_digit(after[j], e) <==> has_digit(before[j], e) && e != d
    &&& forall|j: int| 0 <= j < 81 && !shares(i, j) ==> #[trigger] after[j] == before[j]
}

/// Placing a candidate digit in a blank cell keeps the candidate sets sound and complete, and
/// the new puzzle's solutions are the old one's with that digit in that cell.
pub proof fn lemma_place(cells: Seq<char>, masks: Seq<u32>, masks2: Seq<u32>, i: int, d: int)
    requires
        cells_ok(cells),
        masks_ok(masks),
        sound(cells, masks),
        complete(cells, masks),
        0 <= i < 81,
        cells[i] == BLANK,
        has_digit(masks[i], d),
        eliminated(masks, masks2, i, d),
    ensures
        cells_ok(cells.update(i, digit_char(d))),
        masks_ok(masks2),
        sound(cells.update(i, digit_char(d)), masks2),
        complete(cells.update(i, digit_char(d)), masks2),
        extends(cells, cells.update(i, digit_char(d))),
        forall|s: Seq<char>| #[trigger] solution_of(cells.update(i, digit_char(d)), s) <==> (solution_of(cells, s)
            && s[i] == digit_char(d)),
{
    let cells2 = cells.update(i, digit_char(d));
    lemma_digit_char(d);
    assert forall|j: int| 0 <= j < 81 implies #[trigger] masks2[j] <= ALL_DIGITS by {
        if !shares(i, j) {
            assert(masks2[j] == masks[j]);
        }
    }
    assert forall|s: Seq<char>| #[trigger] solution_of(cells2, s) <==> (solution_of(cells, s) && s[i] == digit_char(d)) by {
        if solution_of(cells, s) && s[i] == digit_char(d) {
            assert forall|j: int| 0 <= j < 81 && #[trigger] cells2[j] != BLANK implies s[j] == cells2[j] by {
                if j != i {
                    assert(cells[j] != BLANK);
                }
            }
        }
        if solution_of(cells2, s) {
            assert(cells2[i] != BLANK);
            assert forall|j: int| 0 <= j < 81 && #[trigger] cells[j] != BLANK implies s[j] == cells[j] by {
                assert(cells2[j] != BLANK);
            }
        }
    }
    assert forall|j: int, e: int|
        0 <= j < 81 && cells2[j] == BLANK && #[trigger] has_digit(masks2[j], e) implies allowed(cells2, j, e) by {
        assert(j != i);
        assert(has_digit(masks[j], e));
        assert(allowed(cells, j, e));
        assert forall|x: int| 0 <= x < 81 && #[trigger] shares(j, x) implies cells2[x] != digit_char(e) by {
            if x == i {
                assert(shares(i, j));
                assert(e != d);
                lemma_digit_char(e);
            }
        }
    }
    assert forall|s: Seq<char>, j: int|
        #[trigger] solution_of(cells2, s) && 0 <= j < 81 && cells2[j] == BLANK implies #[trigger] has_digit(
        masks2[j],
        char_digit(s[j]),
    ) by {
        assert(j != i);
        assert(solution_of(cells, s));
        assert(has_digit(masks[j], char_digit(s[j])));
        if shares(i, j) {
            lemma_solution_peers(s, i, j);
            lemma_char_digit(s[j]);
        }
    }
    assert forall|j: int| 0 <= j < 81 && #[trigger] cells[j] != BLANK implies cells2[j] == cells[j] by {
    }
}

/// `list` holds in-range blank cells of `cells`, and every blank cell.
pub open spec fn blank_list(cells: Seq<char>, list: Seq<usize>) -> bool {
    &&& forall|k: int| 0 <= k < list.len() ==> #[trigger] list[k] < 81 && cells[list[k] as int] == BLANK
    &&& forall|i: int| 0 <= i < 81 && cells[i] == BLANK ==> list.contains(i as usize)
    &&& forall|k1: int, k2: int| 0 <= k1 < k2 < list.len() ==> #[trigger] list[k1] != #[trigger] list[k2]
}

/// No listed cell has exactly one candidate.
pub open spec fn no_naked_single(masks: Seq<u32>, list: Seq<usize>) -> bool {
    forall|k: int| 0 <= k < list.len() ==> card(#[trigger] masks[list[k] as int]) != 1
}

/// `after` only fills blanks of `before`, keeps its candidate sets sound and complete, and has
/// the same solutions.
pub open spec fn refines(before: Sudoku, after: Sudoku) -> bool {
    &&& after.wf()
    &&& extends(before.cells(), after.cells())
    &&& forall|i: int| 0 <= i < 81 && after.cells()[i] == BLANK ==> before.cells()[i] == BLANK
    &&& forall|s: Seq<char>| #[trigger] solution_of(before.cells(), s) ==> solution_of(after.cells(), s)
    &&& forall|i: int, d: int| 0 <= i < 81 && #[trigger] has_digit(after.masks()[i], d) ==> has_digit(before.masks()[i], d)
    &&& forall|i: int|
        0 <= i < 81 && before.cells()[i] == BLANK && #[trigger] after.cells()[i] != BLANK ==> has_digit(
            before.masks()[i],
            char_digit(after.cells()[i]),
        )
}

pub proof fn lemma_refines_trans(a: Sudoku, b: Sudoku, c: Sudoku)
    requires
        refines(a, b),
        refines(b, c),
    ensures
        refines(a, c),
{
    assert forall|s: Seq<char>| #[trigger] solution_of(a.cells(), s) implies solution_of(c.cells(), s) by {
        assert(solution_of(b.cells(), s));
    }
    assert forall|i: int| 0 <= i < 81 && #[trigger] a.cells()[i] != BLANK implies c.cells()[i] == a.cells()[i] by {
        assert(b.cells()[i] != BLANK);
    }
    assert forall|i: int, d: int| 0 <= i < 81 && #[trigger] has_digit(c.masks()[i], d) implies has_digit(a.masks()[i], d) by {
        assert(has_digit(b.masks()[i], d));
    }
    assert forall|i: int|
        0 <= i < 81 && a.cells()[i] == BLANK && #[trigger] c.cells()[i] != BLANK implies has_digit(
        a.masks()[i],
        char_digit(c.cells()[i]),
    ) by {
        if b.cells()[i] == BLANK {
            assert(has_digit(b.masks()[i], char_digit(c.cells()[i])));
        }
    }
}

pub proof fn lemma_refines_refl(a: Sudoku)
    requires
        a.wf(),
    ensures
        refines(a, a),
{
}

/// A refinement holds no more blanks.
pub proof fn lemma_refines_blanks(a: Sudoku, b: Sudoku)
    requires
        a.wf(),
        refines(a, b),
    ensures
        blanks(b.cells()) <= blanks(a.cells()),
{
    lemma_blanks_mono(a.cells(), b.cells(), 81);
}

/// A candidate set with a single member holds no other digit.
pub proof fn lemma_single(p: u32, d: int)
    requires
        card(p) == 1,
        has_digit(p, d),
    ensures
        d == digits_of(p)[0],
{
    lemma_digit_list(p, 9);
    assert(digits_of(p).contains(d as u32));
}

/// Placing a digit that every solution puts in the cell is a refinement.
pub proof fn lemma_place_forced(b: Sudoku, a: Sudoku, i: int, d: int)
    requires
        b.wf(),
        0 <= i < 81,
        b.cells()[i] == BLANK,
        has_digit(b.masks()[i], d),
        a.cells() == b.cells().update(i, digit_char(d)),
        eliminated(b.masks(), a.masks(), i, d),
        forall|s: Seq<char>| #[trigger] solution_of(b.cells(), s) ==> s[i] == digit_char(d),
    ensures
        refines(b, a),
        blanks(a.cells()) < blanks(b.cells()),
{
    lemma_place(b.cells(), b.masks(), a.masks(), i, d);
    lemma_digit_char(d);
    lemma_blanks_fill(b.cells(), i, digit_char(d), 81);
    assert forall|j: int, e: int| 0 <= j < 81 && #[trigger] has_digit(a.masks()[j], e) implies has_digit(b.masks()[j], e) by {
        if !shares(i, j) {
            assert(a.masks()[j] == b.masks()[j]);
        }
    }
}

/// If no other blank cell of chunk `c` of cell `x` may hold digit `d`, every solution puts
/// `d` in `x`.
pub proof fn lemma_hidden_single(b: Sudoku, x: int, d: int, t: int)
    requires
        b.wf(),
        0 <= x < 81,
        0 <= t < 3,
        b.cells()[x] == BLANK,
        has_digit(b.masks()[x], d),
        forall|k: int|
            0 <= k < 9 && #[trigger] chunk_cell(chunk_of(x, t), k) != x && b.cells()[chunk_cell(chunk_of(x, t), k)] == BLANK
                ==> !has_digit(b.masks()[chunk_cell(chunk_of(x, t), k)], d),
    ensures
        forall|s: Seq<char>| #[trigger] solution_of(b.cells(), s) ==> s[x] == digit_char(d),
{
    let c = chunk_of(x, t);
    lemma_chunk_of(x, t);
    assert forall|s: Seq<char>| #[trigger] solution_of(b.cells(), s) implies s[x] == digit_char(d) by {
        assert(chunk_holds(s, c, d));
        let k = choose|k: int| 0 <= k < 9 && #[trigger] s[chunk_cell(c, k)] == digit_char(d);
        let j = chunk_cell(c, k);
        lemma_chunk_cell(c, k);
        lemma_digit_char(d);
        if j != x {
            if b.cells()[j] == BLANK {
                assert(has_digit(b.masks()[j], char_digit(s[j])));
            } else {
                assert(allowed(b.cells(), x, d));
                assert(shares(x, j));
            }
        }
    }
}

/// Three distinct members make a set of at least three.
pub proof fn lemma_three_members(p: u32, a: int, b: int, e: int)
    requires
        has_digit(p, a),
        has_digit(p, b),
        has_digit(p, e),
        a != b,
        a != e,
        b != e,
    ensures
        card(p) >= 3,
{
    lemma_digit_list(p, 9);
    let l = digits_of(p);
    assert(l.contains(a as u32));
    assert(l.contains(b as u32));
    assert(l.contains(e as u32));
    let ia = choose|i: int| 0 <= i < l.len() && l[i] == a as u32;
    let ib = choose|i: int| 0 <= i < l.len() && l[i] == b as u32;
    let ie = choose|i: int| 0 <= i < l.len() && l[i] == e as u32;
}

/// Two blank cells of one chunk with the same two candidates take both digits: no other cell of
/// the chunk may keep either.
pub proof fn lemma_naked_pair(b: Sudoku, a: Sudoku, c: int, ki: int, kj: int, kk: int, pair: u32)
    requires
        b.wf(),
        0 <= c < 27,
        0 <= ki < 9,
        0 <= kj < 9,
        0 <= kk < 9,
        ki != kj,
        kk != ki,
        kk != kj,
        b.cells()[chunk_cell(c, ki)] == BLANK,
        b.cells()[chunk_cell(c, kj)] == BLANK,
        b.masks()[chunk_cell(c, ki)] == pair,
        b.masks()[chunk_cell(c, kj)] == pair,
        card(pair) == 2,
        a.cells() == b.cells(),
        a.masks().len() == 81,
        a.masks()[chunk_cell(c, kk)] <= ALL_DIGITS,
        forall|e: int| #[trigger] has_digit(a.masks()[chunk_cell(c, kk)], e) <==> has_digit(b.masks()[chunk_cell(c, kk)], e)
            && !has_digit(pair, e),
        forall|j: int| 0 <= j < 81 && j != chunk_cell(c, kk) ==> #[trigger] a.masks()[j] == b.masks()[j],
    ensures
        refines(b, a),
{
    let x = chunk_cell(c, ki);
    let y = chunk_cell(c, kj);
    let z = chunk_cell(c, kk);
    lemma_chunk_cell(c, ki);
    lemma_chunk_cell(c, kj);
    lemma_chunk_cell(c, kk);
    if x == y {
        lemma_chunk_cell_injective(c, ki, kj);
    }
    if z == x {
        lemma_chunk_cell_injective(c, ki, kk);
    }
    if z == y {
        lemma_chunk_cell_injective(c, kj, kk);
    }
    assert forall|s: Seq<char>, i: int|
        #[trigger] solution_of(a.cells(), s) && 0 <= i < 81 && a.cells()[i] == BLANK implies #[trigger] has_digit(
        a.masks()[i],
        char_digit(s[i]),
    ) by {
        if i == z {
            let cz = char_digit(s[z]);
            assert(has_digit(b.masks()[z], cz));
            if has_digit(pair, cz) {
                let cx = char_digit(s[x]);
                let cy = char_digit(s[y]);
                assert(has_digit(pair, cx));
                assert(has_digit(pair, cy));
                lemma_chunk_is_chunk_of(c, x);
                lemma_chunk_is_chunk_of(c, y);
                lemma_chunk_is_chunk_of(c, z);
                assert(shares(x, y));
                assert(shares(x, z));
                assert(shares(y, z));
                lemma_solution_peers(s, x, y);
                lemma_solution_peers(s, x, z);
                lemma_solution_peers(s, y, z);
                lemma_char_digit(s[x]);
                lemma_char_digit(s[y]);
                lemma_char_digit(s[z]);
                lemma_three_members(pair, cx, cy, cz);
            }
        }
    }
    assert forall|i: int| 0 <= i < 81 implies #[trigger] a.masks()[i] <= ALL_DIGITS by {
        if i != z {
            assert(a.masks()[i] == b.masks()[i]);
        }
    }
    assert forall|i: int, d: int|
        0 <= i < 81 && a.cells()[i] == BLANK && #[trigger] has_digit(a.masks()[i], d) implies allowed(a.cells(), i, d) by {
        assert(has_digit(b.masks()[i], d));
    }
}

/// A board that keeps the placed digits of a refinement keeps those of the original.
pub proof fn lemma_extends_trans(a: Seq<char>, b: Seq<char>)
    requires
        extends(a, b),
    ensures
        forall|s: Seq<char>| #[trigger] extends(b, s) ==> extends(a, s),
{
    assert forall|s: Seq<char>| #[trigger] extends(b, s) implies extends(a, s) by {
        assert forall|i: int| 0 <= i < 81 && #[trigger] a[i] != BLANK implies s[i] == a[i] by {
            assert(b[i] != BLANK);
        }
    }
}

/// What reading `text` yields: its cells, or the error it is refused with.
pub open spec fn parse_result(text: Seq<char>) -> Result<Seq<char>, SudokuError> {
    if text.len() != 81 {
        Err(SudokuError::LengthError)
    } else if !(cells_ok(text) && valid(text)) {
        Err(SudokuError::InvalidBoardError)
    } else {
        Ok(text)
    }
}

/// Reading a well-formed puzzle with no repeated digit in a row, column or box gives back its
/// cells unchanged, so writing the board out again yields the same string.
pub proof fn lemma_round_trip(text: Seq<char>)
    requires
        text.len() == 81,
        forall|i: int| 0 <= i < 81 ==> is_cell_char(#[trigger] text[i]),
        valid(text),
    ensures
        parse_result(text) == Ok::<Seq<char>, SudokuError>(text),
{
}

/// Any string whose length is not 81 is refused with a length error.
pub proof fn lemma_length_rejected(text: Seq<char>)
    requires
        text.len() != 81,
    ensures
        parse_result(text) == Err::<Seq<char>, SudokuError>(SudokuError::LengthError),
{
}

/// What a run of naked singles to its fixpoint leaves: a refinement whose listed cells are the
/// blank ones and none of them has a single candidate; on a board already at that fixpoint it
/// changes nothing.
pub open spec fn naked_singles_run(
    before: Sudoku,
    list_before: Seq<usize>,
    after: Sudoku,
    list_after: Seq<usize>,
) -> bool {
    &&& refines(before, after)
    &&& blank_list(after.cells(), list_after)
    &&& no_naked_single(after.masks(), list_after)
    &&& drawn_from(list_after, list_before)
    &&& increasing(list_before) ==> increasing(list_after)
    &&& no_naked_single(before.masks(), list_before) ==> after == before && list_after == list_before
}

/// Running naked singles to the fixpoint a second time yields the board and list of the first
/// run.
pub proof fn lemma_naked_singles_idempotent(
    b0: Sudoku,
    l0: Seq<usize>,
    b1: Sudoku,
    l1: Seq<usize>,
    b2: Sudoku,
    l2: Seq<usize>,
)
    requires
        naked_singles_run(b0, l0, b1, l1),
        naked_singles_run(b1, l1, b2, l2),
    ensures
        b2 == b1,
        l2 == l1,
{
}

/// Some blank cell other than `x` in chunk `t` of `x` (0: row, 1: column, 2: box) still has
/// digit `d` as a candidate.
pub open spec fn other_candidate(b: Sudoku, x: int, d: int, t: int) -> bool {
    exists|k: int|
        0 <= k < 9 && #[trigger] chunk_cell(chunk_of(x, t), k) != x && b.cells()[chunk_cell(chunk_of(x, t), k)] == BLANK
            && has_digit(b.masks()[chunk_cell(chunk_of(x, t), k)], d)
}

/// Cell `x` has no hidden single: each of its candidates is shared, in its row, in its column
/// and in its box, with another blank cell.
pub open spec fn no_hidden_single(b: Sudoku, x: int) -> bool {
    forall|d: int, t: int| 0 <= t < 3 && has_digit(b.masks()[x], d) ==> #[trigger] other_candidate(b, x, d, t)
}

/// Total number of candidates over the first `n` cells.
pub open spec fn total_candidates(masks: Seq<u32>, n: int) -> nat
    decreases n,
{
    if n <= 0 {
        0
    } else {
        total_candidates(masks, n - 1) + card(masks[n - 1])
    }
}

proof fn lemma_total_update(masks: Seq<u32>, k: int, v: u32, n: int)
    requires
        0 <= k < masks.len(),
        0 <= n <= masks.len(),
    ensures
        total_candidates(masks.update(k, v), n) + (if k < n { card(masks[k]) } else { 0 }) == total_candidates(masks, n)
            + (if k < n { card(v) } else { 0 }),
    decreases n,
{
    if n > 0 {
        lemma_total_update(masks, k, v, n - 1);
    }
}

/// In chunk `c`, if the blank cells at positions `i` and `j` have the same two candidates, no
/// other cell of the chunk keeps either of them.
pub open spec fn pair_done(b: Sudoku, c: int, i: int, j: int) -> bool {
    (b.cells()[chunk_cell(c, i)] == BLANK && b.cells()[chunk_cell(c, j)] == BLANK && b.masks()[chunk_cell(c, i)]
        == b.masks()[chunk_cell(c, j)] && card(b.masks()[chunk_cell(c, i)]) == 2) ==> forall|k: int, e: int|
        0 <= k < 9 && k != i && k != j && has_digit(b.masks()[chunk_cell(c, i)], e) ==> !#[trigger] has_digit(
            b.masks()[chunk_cell(c, k)],
            e,
        )
}

/// No chunk holds a naked pair whose digits are still candidates elsewhere in the chunk.
pub open spec fn no_open_pair(b: Sudoku) -> bool {
    forall|c: int, i: int, j: int| 0 <= c < 27 && 0 <= i < j < 9 ==> #[trigger] pair_done(b, c, i, j)
}

/// While a pass walks `list`, `kept` holds the still-blank cells already visited, in visiting
/// order, and every blank cell is kept or not yet visited.
spec fn kept_ok(cells: Seq<char>, list: Seq<usize>, k: int, kept: Seq<usize>) -> bool {
    &&& forall|m: int| 0 <= m < kept.len() ==> #[trigger] kept[m] < 81 && cells[kept[m] as int] == BLANK
    &&& forall|i: int| 0 <= i < 81 && cells[i] == BLANK ==> kept.contains(i as usize)
        || exists|m: int| k <= m < list.len() && #[trigger] list[m] == i as usize
    &&& forall|m: int| 0 <= m < kept.len() ==> exists|m2: int| 0 <= m2 < k && #[trigger] list[m2] == #[trigger] kept[m]
    &&& forall|m1: int, m2: int| 0 <= m1 < m2 < kept.len() ==> #[trigger] kept[m1] != #[trigger] kept[m2]
    &&& increasing(list) ==> increasing(kept)
}

/// The list is strictly increasing.
pub open spec fn increasing(list: Seq<usize>) -> bool {
    forall|m1: int, m2: int| 0 <= m1 < m2 < list.len() ==> #[trigger] list[m1] < #[trigger] list[m2]
}

/// Every entry of `list` is an entry of `from`.
pub open spec fn drawn_from(list: Seq<usize>, from: Seq<usize>) -> bool {
    forall|m: int| 0 <= m < list.len() ==> from.contains(#[trigger] list[m])
}

/// One step of a pass: cell `list[k]` is kept exactly when it is still blank, and no other
/// cell changed.
proof fn lemma_kept_step(
    before: Seq<char>,
    after: Seq<char>,
    list: Seq<usize>,
    k: int,
    kept_before: Seq<usize>,
    kept: Seq<usize>,
)
    requires
        0 <= k < list.len(),
        forall|m: int| 0 <= m < list.len() ==> #[trigger] list[m] < 81,
        forall|m1: int, m2: int| 0 <= m1 < m2 < list.len() ==> #[trigger] list[m1] != #[trigger] list[m2],
        kept_ok(before, list, k, kept_before),
        after.len() == 81,
        forall|j: int| 0 <= j < 81 && j != list[k] ==> #[trigger] after[j] == before[j],
        kept == kept_before || kept == kept_before.push(list[k]),
        after[list[k] as int] == BLANK <==> kept == kept_before.push(list[k]),
    ensures
        kept_ok(after, list, k + 1, kept),
{
    let x = list[k];
    assert forall|i: int| 0 <= i < 81 && after[i] == BLANK implies kept.contains(i as usize)
        || exists|m: int| k + 1 <= m < list.len() && #[trigger] list[m] == i as usize by {
        if kept_before.contains(i as usize) {
            let m = choose|m: int| 0 <= m < kept_before.len() && kept_before[m] == i as usize;
            assert(kept[m] == i as usize);
        } else if i as usize != x {
            assert(before[i] == BLANK);
            let m = choose|m: int| k <= m < list.len() && #[trigger] list[m] == i as usize;
            assert(m != k);
        } else {
            assert(kept[kept.len() - 1] == i as usize);
        }
    }
    assert forall|m: int| 0 <= m < kept.len() implies exists|m2: int| 0 <= m2 < k + 1 && #[trigger] list[m2] == #[trigger] kept[m] by {
        if m < kept_before.len() {
            assert(kept[m] == kept_before[m]);
        } else {
            assert(list[k] == kept[m]);
        }
    }
    assert forall|m1: int, m2: int| 0 <= m1 < m2 < kept.len() implies #[trigger] kept[m1] != #[trigger] kept[m2] by {
        if m2 == kept_before.len() {
            assert(kept[m1] == kept_before[m1]);
            let m3 = choose|m3: int| 0 <= m3 < k && #[trigger] list[m3] == kept_before[m1];
            assert(list[m3] != list[k]);
        } else {
            assert(kept[m1] == kept_before[m1]);
            assert(kept[m2] == kept_before[m2]);
        }
    }
    if increasing(list) {
        assert forall|m1: int, m2: int| 0 <= m1 < m2 < kept.len() implies #[trigger] kept[m1] < #[trigger] kept[m2] by {
            if m2 == kept_before.len() {
                assert(kept[m1] == kept_before[m1]);
                let m3 = choose|m3: int| 0 <= m3 < k && #[trigger] list[m3] == kept_before[m1];
                assert(list[m3] < list[k]);
            } else {
                assert(kept[m1] == kept_before[m1]);
                assert(kept[m2] == kept_before[m2]);
            }
        }
    }
    assert forall|m: int| 0 <= m < kept.len() implies #[trigger] kept[m] < 81 && after[kept[m] as int] == BLANK by {
        if m < kept_before.len() {
            assert(kept[m] == kept_before[m]);
            let m3 = choose|m3: int| 0 <= m3 < k && #[trigger] list[m3] == kept_before[m];
            assert(list[m3] != list[k]);
        }
    }
}

/// Relies on `String`'s `FromIterator<char>`: the string holds the characters in order.
#[verifier::external_body]
fn collect_chars(cells: &[char]) -> (r: String)
    ensures
        r@ == cells@,
{
    cells.iter().collect()
}

/// The board as nine lines of nine characters, each line ended by a newline.
pub open spec fn grid_text(cells: Seq<char>) -> Seq<char> {
    Seq::new(90, |k: int| if k % 10 == 9 { '\n' } else { cells[(k / 10) * 9 + k % 10] })
}

/// The nine cell indices of chunk `c`.
fn chunk_cells(c: usize) -> (r: [usize; 9])
    requires
        c < 27,
    ensures
        forall|k: int| 0 <= k < 9 ==> #[trigger] r@[k] == chunk_cell(c as int, k),
{
    let mut r: [usize; 9] = [0; 9];
    let mut k: usize = 0;
    while k < 9
        invariant
            k <= 9,
            c < 27,
            forall|m: int| 0 <= m < k ==> #[trigger] r@[m] == chunk_cell(c as int, m),
        decreases 9 - k,
    {
        let v: usize = if c < 9 {
            c * 9 + k
        } else if c < 18 {
            (c - 9) + k * 9
        } else {
            ((c - 18) / 3) * 27 + ((c - 18) % 3) * 3 + (k / 3) * 9 + k % 3
        };
        r[k] = v;
        k = k + 1;
    }
    r
}

impl Sudoku {
    /// The board's cells, row-major.
    pub open spec fn cells(&self) -> Seq<char> {
        self.board@
    }

    /// The board's candidate sets, row-major.
    pub open spec fn masks(&self) -> Seq<u32> {
        self.possible@
    }

    /// The cells are well formed and the candidate sets are sound and complete.
    pub open spec fn wf(&self) -> bool {
        &&& cells_ok(self.cells())
        &&& masks_ok(self.masks())
        &&& sound(self.cells(), self.masks())
        &&& complete(self.cells(), self.masks())
    }

    /// An all-blank board, every digit a candidate everywhere.
    pub fn new() -> (r: Sudoku)
        ensures
            r.wf(),
            r.cells() == Seq::new(81, |i: int| BLANK),
            exact(r.cells(), r.masks()),
    {
        let r = Sudoku { board: [BLANK; 81], possible: [ALL_DIGITS; 81] };
        proof {
            assert(r.cells() =~= Seq::new(81, |i: int| BLANK));
            lemma_has_all();
            assert forall|i: int, d: int| 0 <= i < 81 implies (#[trigger] has_digit(r.masks()[i], d)
                <==> allowed(r.cells(), i, d)) by {
                if 1 <= d <= 9 {
                    lemma_digit_char(d);
                }
            }
            lemma_exact_sound_complete(r.cells(), r.masks());
        }
        r
    }

    /// The 27 chunks: rows 0..9, columns 0..9, then boxes 0..9.
    fn get_chunks(&self) -> (r: Vec<[usize; 9]>)
        ensures
            r@.len() == 27,
            forall|c: int, k: int| 0 <= c < 27 && 0 <= k < 9 ==> #[trigger] r@[c]@[k] == chunk_cell(c, k),
    {
        let mut r: Vec<[usize; 9]> = Vec::new();
        let mut c: usize = 0;
        while c < 27
            invariant
                c <= 27,
                r@.len() == c,
                forall|c2: int, k: int| 0 <= c2 < c && 0 <= k < 9 ==> #[trigger] r@[c2]@[k] == chunk_cell(c2, k),
            decreases 27 - c,
        {
            r.push(chunk_cells(c));
            c = c + 1;
        }
        r
    }

    /// The row, column and box of cell `cell_index`, in that order.
    fn get_chunks_containing_cell(&self, cell_index: usize) -> (r: Vec<[usize; 9]>)
        requires
            cell_index < 81,
        ensures
            r@.len() == 3,
            forall|t: int, k: int| 0 <= t < 3 && 0 <= k < 9 ==> #[trigger] r@[t]@[k] == chunk_cell(
                chunk_of(cell_index as int, t),
                k,
            ),
    {
        let mut r: Vec<[usize; 9]> = Vec::new();
        r.push(chunk_cells(cell_index / 9));
        r.push(chunk_cells(9 + cell_index % 9));
        r.push(chunk_cells(18 + (cell_index / 27) * 3 + (cell_index % 9) / 3));
        r
    }

    /// The digits that no cell of `chunk` holds.
    fn get_possible_from_chunk(&self, chunk: [char; 9]) -> (r: u32)
        requires
            forall|k: int| 0 <= k < 9 ==> is_cell_char(#[trigger] chunk@[k]),
        ensures
            r <= ALL_DIGITS,
            forall|d: int| #[trigger] has_digit(r, d) <==> open_in(chunk@, d),
    {
        let mut cell_possible: u32 = ALL_DIGITS;
        let mut k: usize = 0;
        proof {
            lemma_has_all();
        }
        while k < 9
            invariant
                k <= 9,
                forall|m: int| 0 <= m < 9 ==> is_cell_char(#[trigger] chunk@[m]),
                cell_possible <= ALL_DIGITS,
                forall|d: int| #[trigger] has_digit(cell_possible, d) <==> (1 <= d <= 9 && forall|m: int|
                    0 <= m < k ==> #[trigger] chunk@[m] != digit_char(d)),
            decreases 9 - k,
        {
            let cell = chunk[k];
            if cell != BLANK {
                proof {
                    lemma_char_digit(cell);
                    assert forall|d: int| 1 <= d <= 9 implies (digit_char(d) == cell <==> d == char_digit(cell)) by {
                        lemma_digit_char(d);
                    }
                }
                cell_possible = without_digit(cell_possible, (cell as u32) - 48);
            } else {
                proof {
                    assert forall|d: int| 1 <= d <= 9 implies digit_char(d) != cell by {
                        lemma_digit_char(d);
                    }
                }
            }
            k = k + 1;
        }
        cell_possible
    }

    /// Rebuilds every candidate set from the placed digits of its row, column and box.
    fn update_possible(&mut self)
        requires
            cells_ok(old(self).cells()),
        ensures
            final(self).cells() == old(self).cells(),
            masks_ok(final(self).masks()),
            exact(final(self).cells(), final(self).masks()),
    {
        let chunks = self.get_chunks();
        let mut open: Vec<u32> = Vec::new();
        let mut c: usize = 0;
        while c < 27
            invariant
                c <= 27,
                open@.len() == c,
                cells_ok(self.cells()),
                self.cells() == old(self).cells(),
                chunks@.len() == 27,
                forall|c2: int, k: int| 0 <= c2 < 27 && 0 <= k < 9 ==> #[trigger] chunks@[c2]@[k] == chunk_cell(c2, k),
                forall|c2: int, d: int| 0 <= c2 < c ==> (#[trigger] has_digit(open@[c2], d) <==> (1 <= d <= 9
                    && forall|k: int| 0 <= k < 9 ==> #[trigger] self.cells()[chunk_cell(c2, k)] != digit_char(d))),
            decreases 27 - c,
        {
            let cells = chunks[c];
            let mut chunk: [char; 9] = [BLANK; 9];
            let mut k: usize = 0;
            while k < 9
                invariant
                    k <= 9,
                    c < 27,
                    cells_ok(self.cells()),
                    forall|k2: int| 0 <= k2 < 9 ==> #[trigger] cells@[k2] == chunk_cell(c as int, k2),
                    forall|m: int| 0 <= m < 9 ==> is_cell_char(#[trigger] chunk@[m]),
                    forall|m: int| 0 <= m < k ==> #[trigger] chunk@[m] == self.cells()[chunk_cell(c as int, m)],
                decreases 9 - k,
            {
                proof {
                    lemma_chunk_cell(c as int, k as int);
                }
                chunk[k] = self.board[cells[k]];
                k = k + 1;
            }
            let m = self.get_possible_from_chunk(chunk);
            open.push(m);
            proof {
                assert forall|d: int| #[trigger] has_digit(open@[c as int], d) <==> (1 <= d <= 9
                    && forall|k: int| 0 <= k < 9 ==> #[trigger] self.cells()[chunk_cell(c as int, k)] != digit_char(d)) by {
                    if has_digit(m, d) {
                        assert forall|k: int| 0 <= k < 9 implies #[trigger] self.cells()[chunk_cell(c as int, k)] != digit_char(d) by {
                            assert(chunk@[k] != digit_char(d));
                        }
                    }
                    if 1 <= d <= 9 && forall|k: int| 0 <= k < 9 ==> #[trigger] self.cells()[chunk_cell(c as int, k)] != digit_char(d) {
                        assert forall|k: int| 0 <= k < 9 implies #[trigger] chunk@[k] != digit_char(d) by {
                            assert(self.cells()[chunk_cell(c as int, k)] != digit_char(d));
                        }
                    }
                }
            }
            c = c + 1;
        }
        let mut i: usize = 0;
        while i < N_CELLS
            invariant
                i <= 81,
                open@.len() == 27,
                cells_ok(self.cells()),
                self.cells() == old(self).cells(),
                forall|c2: int, d: int| 0 <= c2 < 27 ==> (#[trigger] has_digit(open@[c2], d) <==> chunk_open(old(self).cells(), c2, d)),
                forall|j: int| 0 <= j < i ==> #[trigger] self.masks()[j] <= ALL_DIGITS,
                forall|j: int, d: int| 0 <= j < i ==> (#[trigger] has_digit(self.masks()[j], d) <==> allowed(self.cells(), j, d)),
            decreases 81 - i,
        {
            let row = open[i / 9];
            let col = open[9 + i % 9];
            let bx = open[18 + (i / 27) * 3 + (i % 9) / 3];
            let p = without_digits(row & col & bx, 0);
            proof {
                lemma_has_and(row, col);
                lemma_has_and(row & col, bx);
                lemma_has_all();
                assert forall|d: int| #[trigger] has_digit(p, d) <==> allowed(self.cells(), i as int, d) by {
                    lemma_allowed_by_chunks(self.cells(), i as int, d);
                    if has_digit(p, d) {
                        assert forall|t: int, k: int| 0 <= t < 3 && 0 <= k < 9 implies self.cells()[#[trigger] chunk_cell(
                            chunk_of(i as int, t), k)] != digit_char(d) by {
                            assert(has_digit(open@[chunk_of(i as int, t)], d));
                            assert(chunk_open(self.cells(), chunk_of(i as int, t), d));
                        }
                    }
                    if open_in_chunks(self.cells(), i as int, d) {
                        assert forall|t: int| 0 <= t < 3 implies #[trigger] has_digit(open@[chunk_of(i as int, t)], d) by {
                            assert(chunk_open(self.cells(), chunk_of(i as int, t), d)) by {
                            assert forall|k: int| 0 <= k < 9 implies #[trigger] self.cells()[chunk_cell(chunk_of(i as int, t), k)] != digit_char(d) by {
                                assert(self.cells()[chunk_cell(chunk_of(i as int, t), k)] != digit_char(d));
                            }
                            }
                        }
                        assert(has_digit(open@[chunk_of(i as int, 0)], d));
                        assert(has_digit(open@[chunk_of(i as int, 1)], d));
                        assert(has_digit(open@[chunk_of(i as int, 2)], d));
                    }
                }
            }
            let ghost before = self.masks();
            self.possible[i] = p;
            proof {
                assert(self.masks() =~= before.update(i as int, p));
            }
            i = i + 1;
        }
    }

    /// Reads an 81-character puzzle: digits '1'..='9' for placed cells, '.' for blanks.
    pub fn from_str(board_str: String) -> (r: Result<Sudoku, SudokuError>)
        ensures
            match r {
                Ok(b) => parse_result(board_str@) == Ok::<Seq<char>, SudokuError>(b.cells()) && b.wf()
                    && exact(b.cells(), b.masks()),
                Err(e) => parse_result(board_str@) == Err::<Seq<char>, SudokuError>(e),
            },
    {
        let text = board_str.as_str();
        if text.unicode_len() != N_CELLS {
            return Err(SudokuError::LengthError);
        }
        let mut board_array: [char; 81] = [BLANK; 81];
        let mut i: usize = 0;
        while i < N_CELLS
            invariant
                i <= 81,
                text@ == board_str@,
                text@.len() == 81,
                forall|j: int| 0 <= j < i ==> #[trigger] board_array@[j] == text@[j],
                forall|j: int| 0 <= j < i ==> is_cell_char(#[trigger] text@[j]),
            decreases 81 - i,
        {
            let c = text.get_char(i);
            if c != BLANK && !('1' <= c && c <= '9') {
                return Err(SudokuError::InvalidBoardError);
            }
            board_array[i] = c;
            i = i + 1;
        }
        proof {
            assert(board_array@ =~= board_str@);
        }
        let mut sudoku = Sudoku { board: board_array, possible: [0; 81] };
        sudoku.update_possible();
        proof {
            lemma_exact_sound_complete(sudoku.cells(), sudoku.masks());
        }
        if sudoku.is_valid() {
            Ok(sudoku)
        } else {
            Err(SudokuError::InvalidBoardError)
        }
    }

    /// The 81 cells as a string, row-major.
    pub fn to_str(&self) -> (r: String)
        ensures
            r@ == self.cells(),
    {
        collect_chars(self.board.as_slice())
    }

    /// The board as nine lines of nine characters, each ended by a newline.
    pub fn to_grid_str(&self) -> (r: String)
        ensures
            r@ == grid_text(self.cells()),
    {
        let mut text: Vec<char> = Vec::new();
        let mut k: usize = 0;
        while k < 90
            invariant
                k <= 90,
                text@.len() == k,
                forall|m: int| 0 <= m < k ==> #[trigger] text@[m] == grid_text(self.cells())[m],
            decreases 90 - k,
        {
            if k % 10 == 9 {
                text.push('\n');
            } else {
                text.push(self.board[(k / 10) * 9 + k % 10]);
            }
            k = k + 1;
        }
        proof {
            assert(text@ =~= grid_text(self.cells()));
        }
        collect_chars(text.as_slice())
    }

    /// Writes `value` into cell `index` and rebuilds every candidate set.
    pub fn update_cell(&mut self, index: usize, value: char)
        requires
            index < 81,
            is_cell_char(value),
            cells_ok(old(self).cells()),
        ensures
            final(self).cells() == old(self).cells().update(index as int, value),
            final(self).wf(),
            exact(final(self).cells(), final(self).masks()),
    {
        let ghost before = self.cells();
        self.board[index] = value;
        proof {
            assert(self.cells() =~= before.update(index as int, value));
        }
        self.update_possible();
        proof {
            lemma_exact_sound_complete(self.cells(), self.masks());
        }
    }

    /// Whether no row, column or box holds the same placed digit twice.
    pub fn is_valid(&self) -> (r: bool)
        ensures
            r == valid(self.cells()),
    {
        let chunks = self.get_chunks();
        let mut c: usize = 0;
        while c < 27
            invariant
                c <= 27,
                chunks@.len() == 27,
                forall|c2: int, k: int| 0 <= c2 < 27 && 0 <= k < 9 ==> #[trigger] chunks@[c2]@[k] == chunk_cell(c2, k),
                forall|c2: int, k1: int, k2: int|
                    0 <= c2 < c && 0 <= k1 < 9 && 0 <= k2 < 9 && k1 != k2 && self.cells()[chunk_cell(c2, k1)] != BLANK
                        ==> #[trigger] self.cells()[chunk_cell(c2, k1)] != #[trigger] self.cells()[chunk_cell(c2, k2)],
            decreases 27 - c,
        {
            let chunk = chunks[c];
            let mut k1: usize = 0;
            while k1 < 9
                invariant
                    k1 <= 9,
                    c < 27,
                    forall|k: int| 0 <= k < 9 ==> #[trigger] chunk@[k] == chunk_cell(c as int, k),
                    forall|a: int, b: int|
                        0 <= a < k1 && 0 <= b < 9 && a != b && self.cells()[chunk_cell(c as int, a)] != BLANK
                            ==> #[trigger] self.cells()[chunk_cell(c as int, a)] != #[trigger] self.cells()[chunk_cell(c as int, b)],
                decreases 9 - k1,
            {
                proof {
                    lemma_chunk_cell(c as int, k1 as int);
                }
                let v = self.board[chunk[k1]];
                if v != BLANK {
                    let mut k2: usize = 0;
                    while k2 < 9
                        invariant
                            k1 < 9,
                            k2 <= 9,
                            c < 27,
                            v == self.cells()[chunk_cell(c as int, k1 as int)],
                            v != BLANK,
                            forall|k: int| 0 <= k < 9 ==> #[trigger] chunk@[k] == chunk_cell(c as int, k),
                            forall|b: int| 0 <= b < k2 && b != k1 ==> v != #[trigger] self.cells()[chunk_cell(c as int, b)],
                        decreases 9 - k2,
                    {
                        proof {
                            lemma_chunk_cell(c as int, k2 as int);
                        }
                        if k2 != k1 && self.board[chunk[k2]] == v {
                            proof {
                                let cs = self.cells();
                                assert(chunk@[k2 as int] == chunk_cell(c as int, k2 as int));
                                assert(cs[chunk_cell(c as int, k1 as int)] != BLANK);
                                assert(cs[chunk_cell(c as int, k1 as int)] == cs[chunk_cell(c as int, k2 as int)]);
                            }
                            return false;
                        }
                        k2 = k2 + 1;
                    }
                }
                k1 = k1 + 1;
            }
            c = c + 1;
        }
        true
    }

    /// Whether every cell holds a digit and every row, column and box is a permutation of 1..=9.
    pub fn is_solved(&self) -> (r: bool)
        ensures
            r == solved(self.cells()),
    {
        let mut i: usize = 0;
        while i < N_CELLS
            invariant
                i <= 81,
                forall|j: int| 0 <= j < i ==> is_digit_char(#[trigger] self.cells()[j]),
            decreases 81 - i,
        {
            let v = self.board[i];
            if !('1' <= v && v <= '9') {
                return false;
            }
            i = i + 1;
        }
        if !self.is_valid() {
            return false;
        }
        let chunks = self.get_chunks();
        let mut c: usize = 0;
        while c < 27
            invariant
                c <= 27,
                chunks@.len() == 27,
                forall|j: int| 0 <= j < 81 ==> is_digit_char(#[trigger] self.cells()[j]),
                forall|c2: int, k: int| 0 <= c2 < 27 && 0 <= k < 9 ==> #[trigger] chunks@[c2]@[k] == chunk_cell(c2, k),
                forall|c2: int, d: int| 0 <= c2 < c && 1 <= d <= 9 ==> #[trigger] chunk_holds(self.cells(), c2, d),
            decreases 27 - c,
        {
            let chunk = chunks[c];
            let mut d: u32 = 1;
            while d <= 9
                invariant
                    1 <= d <= 10,
                    c < 27,
                    forall|j: int| 0 <= j < 81 ==> is_digit_char(#[trigger] self.cells()[j]),
                    forall|k: int| 0 <= k < 9 ==> #[trigger] chunk@[k] == chunk_cell(c as int, k),
                    forall|e: int| 1 <= e < d ==> #[trigger] chunk_holds(self.cells(), c as int, e),
                decreases 10 - d,
            {
                let mut found = false;
                let mut k: usize = 0;
                while k < 9 && !found
                    invariant
                        k <= 9,
                        1 <= d <= 9,
                        c < 27,
                        forall|j: int| 0 <= j < 81 ==> is_digit_char(#[trigger] self.cells()[j]),
                        forall|m: int| 0 <= m < 9 ==> #[trigger] chunk@[m] == chunk_cell(c as int, m),
                        found ==> chunk_holds(self.cells(), c as int, d as int),
                        !found ==> forall|m: int| 0 <= m < k ==> #[trigger] self.cells()[chunk_cell(c as int, m)] != digit_char(d as int),
                    decreases 9 - k,
                {
                    proof {
                        lemma_chunk_cell(c as int, k as int);
                        lemma_char_digit(self.cells()[chunk_cell(c as int, k as int)]);
                        lemma_digit_char(d as int);
                    }
                    if self.board[chunk[k]] as u32 == d + 48 {
                        found = true;
                    }
                    k = k + 1;
                }
                if !found {
                    proof {
                        assert(!chunk_holds(self.cells(), c as int, d as int));
                    }
                    return false;
                }
                d = d + 1;
            }
            c = c + 1;
        }
        true
    }

    /// Places digit `cell_val` in cell `cell_index` and takes it out of the candidate sets of
    /// every cell in the same row, column or box.
    fn fill_blank_cell(&mut self, cell_index: usize, cell_val: u32)
        requires
            cell_index < 81,
            1 <= cell_val <= 9,
        ensures
            final(self).cells() == old(self).cells().update(cell_index as int, digit_char(cell_val as int)),
            eliminated(old(self).masks(), final(self).masks(), cell_index as int, cell_val as int),
    {
        let ghost before = self.cells();
        self.board[cell_index] = ((cell_val + 48) as u8) as char;
        proof {
            assert(self.cells() =~= before.update(cell_index as int, digit_char(cell_val as int)));
        }
        let row = cell_index / 9;
        let col = cell_index % 9;
        let bx = (cell_index / 27) * 3 + (cell_index % 9) / 3;
        let mut j: usize = 0;
        while j < N_CELLS
            invariant
                j <= 81,
                cell_index < 81,
                1 <= cell_val <= 9,
                row == cell_index / 9,
                col == cell_index % 9,
                bx == (cell_index / 27) * 3 + (cell_index % 9) / 3,
                self.cells() == old(self).cells().update(cell_index as int, digit_char(cell_val as int)),
                self.masks().len() == 81,
                forall|x: int|
                    0 <= x < j && shares(cell_index as int, x) ==> #[trigger] self.masks()[x] <= ALL_DIGITS && forall|e: int|
                        #[trigger] has_digit(self.masks()[x], e) <==> has_digit(old(self).masks()[x], e) && e != cell_val,
                forall|x: int| 0 <= x < 81 && !(x < j && shares(cell_index as int, x)) ==> #[trigger] self.masks()[x] == old(self).masks()[x],
            decreases 81 - j,
        {
            if j / 9 == row || j % 9 == col || (j / 27) * 3 + (j % 9) / 3 == bx {
                let ghost masks = self.masks();
                let p = without_digit(self.possible[j], cell_val);
                self.possible[j] = p;
                proof {
                    assert(self.masks() =~= masks.update(j as int, p));
                }
            }
            j = j + 1;
        }
    }

    /// The members of candidate set `possible`, ascending.
    fn possible_to_vec(&self, possible: u32) -> (r: Vec<u32>)
        ensures
            r@ == digits_of(possible),
    {
        let mut poss_vec: Vec<u32> = Vec::new();
        let mut d: u32 = 1;
        while d <= 9
            invariant
                1 <= d <= 10,
                poss_vec@ == digit_list(possible, d - 1),
            decreases 10 - d,
        {
            if contains_digit(possible, d) {
                poss_vec.push(d);
            }
            d = d + 1;
        }
        poss_vec
    }

    /// Fills every listed cell that has a single candidate, pass after pass, until no listed
    /// cell has one; the list keeps the cells that stay blank.
    fn solve_naked_singles(&mut self, blank_indicies: &mut Vec<usize>)
        requires
            old(self).wf(),
            blank_list(old(self).cells(), old(blank_indicies)@),
        ensures
            naked_singles_run(*old(self), old(blank_indicies)@, *final(self), final(blank_indicies)@),
    {
        proof {
            lemma_refines_refl(*self);
        }
        loop
            invariant
                refines(*old(self), *self),
                blank_list(self.cells(), blank_indicies@),
                drawn_from(blank_indicies@, old(blank_indicies)@),
                increasing(old(blank_indicies)@) ==> increasing(blank_indicies@),
                no_naked_single(old(self).masks(), old(blank_indicies)@) ==> *self == *old(self)
                    && blank_indicies@ == old(blank_indicies)@,
            ensures
                no_naked_single(self.masks(), blank_indicies@),
            decreases blanks(self.cells()),
        {
            let ghost start = *self;
            let ghost list = blank_indicies@;
            let mut changed = false;
            let mut kept: Vec<usize> = Vec::new();
            let mut k: usize = 0;
            while k < blank_indicies.len()
                invariant
                    k <= blank_indicies@.len(),
                    blank_indicies@ == list,
                    blank_list(start.cells(), list),
                    drawn_from(list, old(blank_indicies)@),
                    increasing(old(blank_indicies)@) ==> increasing(list),
                    refines(*old(self), start),
                    refines(start, *self),
                    kept_ok(self.cells(), list, k as int, kept@),
                    changed ==> blanks(self.cells()) < blanks(start.cells()),
                    (no_naked_single(old(self).masks(), old(blank_indicies)@) && start == *old(self) && list == old(blank_indicies)@) ==> !changed,
                    !changed ==> *self == start && kept@ == list.take(k as int) && forall|m: int| 0 <= m < k ==> card(#[trigger] self.masks()[list[m] as int]) != 1,
                decreases list.len() - k,
            {
                let x = blank_indicies[k];
                let ghost before = *self;
                let ghost kept_before = kept@;
                let v = self.possible_to_vec(self.possible[x]);
                if self.board[x] == BLANK && v.len() == 1 {
                    let d = v[0];
                    proof {
                        lemma_digit_list(self.possible[x as int], 9);
                        assert(digits_of(self.possible[x as int]).contains(d));
                        assert forall|s: Seq<char>| #[trigger] solution_of(self.cells(), s) implies s[x as int] == digit_char(d as int) by {
                            lemma_char_digit(s[x as int]);
                            lemma_single(self.possible[x as int], char_digit(s[x as int]));
                        }
                    }
                    self.fill_blank_cell(x, d);
                    proof {
                        lemma_digit_char(d as int);
                        lemma_place_forced(before, *self, x as int, d as int);
                        lemma_refines_trans(start, before, *self);
                        lemma_refines_blanks(start, before);
                    }
                    changed = true;
                } else if self.board[x] == BLANK {
                    kept.push(x);
                }
                proof {
                    lemma_kept_step(before.cells(), self.cells(), list, k as int, kept_before, kept@);
                    if !changed {
                        assert(kept@ =~= list.take(k + 1));
                    }
                }
                k = k + 1;
            }
            proof {
                assert forall|i: int| 0 <= i < 81 && self.cells()[i] == BLANK implies kept@.contains(i as usize) by {
                }
                lemma_refines_trans(*old(self), start, *self);
                assert forall|m: int| 0 <= m < kept@.len() implies old(blank_indicies)@.contains(#[trigger] kept@[m]) by {
                    let m2 = choose|m2: int| 0 <= m2 < k && #[trigger] list[m2] == kept@[m];
                    assert(list.contains(list[m2]));
                }
                if !changed {
                    assert(kept@ =~= list);
                    assert(no_naked_single(self.masks(), kept@));
                }
            }
            *blank_indicies = kept;
            if !changed {
                break;
            }
        }
    }

    /// Looks, digit by digit, for a candidate of blank cell `x` that no other blank cell of its
    /// row, column or box may hold, and places the first one found.
    fn place_hidden_single(&mut self, x: usize) -> (r: bool)
        requires
            old(self).wf(),
            x < 81,
            old(self).cells()[x as int] == BLANK,
        ensures
            refines(*old(self), *final(self)),
            r ==> blanks(final(self).cells()) < blanks(old(self).cells()),
            r ==> final(self).cells()[x as int] != BLANK,
            r ==> forall|j: int| 0 <= j < 81 && j != x ==> #[trigger] final(self).cells()[j] == old(self).cells()[j],
            !r ==> *final(self) == *old(self) && no_hidden_single(*old(self), x as int),
    {
        let poss_vec = self.possible_to_vec(self.possible[x]);
        let chunks_nearby = self.get_chunks_containing_cell(x);
        proof {
            lemma_digit_list(self.possible[x as int], 9);
        }
        let mut a: usize = 0;
        while a < poss_vec.len()
            invariant
                self.wf(),
                x < 81,
                self.cells()[x as int] == BLANK,
                poss_vec@ == digits_of(self.possible[x as int]),
                forall|d: u32| #[trigger] poss_vec@.contains(d) <==> (1 <= d <= 9 && has_digit(self.possible[x as int], d as int)),
                chunks_nearby@.len() == 3,
                forall|t: int, k: int| 0 <= t < 3 && 0 <= k < 9 ==> #[trigger] chunks_nearby@[t]@[k] == chunk_cell(
                    chunk_of(x as int, t),
                    k,
                ),
                *self == *old(self),
                a <= poss_vec@.len(),
                forall|a2: int, t: int| 0 <= a2 < a && 0 <= t < 3 ==> #[trigger] other_candidate(*self, x as int, poss_vec@[a2] as int, t),
            decreases poss_vec@.len() - a,
        {
            let poss = poss_vec[a];
            proof {
                assert(poss_vec@.contains(poss));
            }
            let mut t: usize = 0;
            while t < 3
                invariant
                    self.wf(),
                    x < 81,
                    t <= 3,
                    1 <= poss <= 9,
                    self.cells()[x as int] == BLANK,
                    has_digit(self.possible[x as int], poss as int),
                    chunks_nearby@.len() == 3,
                    forall|t2: int, k: int| 0 <= t2 < 3 && 0 <= k < 9 ==> #[trigger] chunks_nearby@[t2]@[k] == chunk_cell(
                        chunk_of(x as int, t2),
                        k,
                    ),
                    *self == *old(self),
                    forall|t2: int| 0 <= t2 < t ==> #[trigger] other_candidate(*self, x as int, poss as int, t2),
                decreases 3 - t,
            {
                let chunk = chunks_nearby[t];
                let mut found_other = false;
                let mut k: usize = 0;
                while k < 9 && !found_other
                    invariant
                        k <= 9,
                        t < 3,
                        x < 81,
                        1 <= poss <= 9,
                        self.wf(),
                        forall|m: int| 0 <= m < 9 ==> #[trigger] chunk@[m] == chunk_cell(chunk_of(x as int, t as int), m),
                        found_other ==> other_candidate(*self, x as int, poss as int, t as int),
                        !found_other ==> forall|m: int|
                            0 <= m < k && #[trigger] chunk_cell(chunk_of(x as int, t as int), m) != x
                                && self.cells()[chunk_cell(chunk_of(x as int, t as int), m)] == BLANK
                                ==> !has_digit(self.masks()[chunk_cell(chunk_of(x as int, t as int), m)], poss as int),
                    decreases 9 - k,
                {
                    proof {
                        lemma_chunk_of(x as int, t as int);
                        lemma_chunk_cell(chunk_of(x as int, t as int), k as int);
                    }
                    let index = chunk[k];
                    if index != x && self.board[index] == BLANK && contains_digit(self.possible[index], poss) {
                        found_other = true;
                        proof {
                            assert(chunk_cell(chunk_of(x as int, t as int), k as int) == index);
                        }
                    }
                    k = k + 1;
                }
                if !found_other {
                    let ghost before = *self;
                    proof {
                        lemma_hidden_single(before, x as int, poss as int, t as int);
                    }
                    self.fill_blank_cell(x, poss);
                    proof {
                        lemma_place_forced(before, *self, x as int, poss as int);
                        lemma_digit_char(poss as int);
                    }
                    return true;
                }
                t = t + 1;
            }
            a = a + 1;
        }
        proof {
            lemma_refines_refl(*self);
            assert forall|d: int, t: int| 0 <= t < 3 && has_digit(self.masks()[x as int], d) implies #[trigger] other_candidate(
                *self,
                x as int,
                d,
                t,
            ) by {
                assert(poss_vec@.contains(d as u32));
                let a2 = choose|a2: int| 0 <= a2 < poss_vec@.len() && poss_vec@[a2] == d as u32;
                assert(other_candidate(*self, x as int, poss_vec@[a2] as int, t));
            }
        }
        false
    }

    /// Places hidden singles among the listed cells, pass after pass, until a pass places none;
    /// the list keeps the cells that stay blank.
    fn solve_hidden_singles(&mut self, blank_indicies: &mut Vec<usize>)
        requires
            old(self).wf(),
            blank_list(old(self).cells(), old(blank_indicies)@),
        ensures
            refines(*old(self), *final(self)),
            blank_list(final(self).cells(), final(blank_indicies)@),
            drawn_from(final(blank_indicies)@, old(blank_indicies)@),
            increasing(old(blank_indicies)@) ==> increasing(final(blank_indicies)@),
            forall|m: int| 0 <= m < final(blank_indicies)@.len() ==> no_hidden_single(*final(self), #[trigger] final(blank_indicies)@[m] as int),
    {
        proof {
            lemma_refines_refl(*self);
        }
        loop
            invariant
                refines(*old(self), *self),
                blank_list(self.cells(), blank_indicies@),
                drawn_from(blank_indicies@, old(blank_indicies)@),
                increasing(old(blank_indicies)@) ==> increasing(blank_indicies@),
            ensures
                forall|m: int| 0 <= m < blank_indicies@.len() ==> no_hidden_single(*self, #[trigger] blank_indicies@[m] as int),
            decreases blanks(self.cells()),
        {
            let ghost start = *self;
            let ghost list = blank_indicies@;
            let mut changed = false;
            let mut kept: Vec<usize> = Vec::new();
            let mut k: usize = 0;
            while k < blank_indicies.len()
                invariant
                    k <= blank_indicies@.len(),
                    blank_indicies@ == list,
                    blank_list(start.cells(), list),
                    drawn_from(list, old(blank_indicies)@),
                    increasing(old(blank_indicies)@) ==> increasing(list),
                    refines(*old(self), start),
                    refines(start, *self),
                    kept_ok(self.cells(), list, k as int, kept@),
                    changed ==> blanks(self.cells()) < blanks(start.cells()),
                    !changed ==> *self == start && forall|m: int| 0 <= m < kept@.len() ==> no_hidden_single(*self, #[trigger] kept@[m] as int),
                decreases list.len() - k,
            {
                let x = blank_indicies[k];
                let ghost before = *self;
                let ghost kept_before = kept@;
                if self.board[x] == BLANK {
                    if self.place_hidden_single(x) {
                        proof {
                            lemma_refines_trans(start, before, *self);
                            lemma_refines_blanks(start, before);
                        }
                        changed = true;
                    } else {
                        kept.push(x);
                    }
                }
                proof {
                    lemma_kept_step(before.cells(), self.cells(), list, k as int, kept_before, kept@);
                    if !changed {
                        assert forall|m: int| 0 <= m < kept@.len() implies no_hidden_single(*self, #[trigger] kept@[m] as int) by {
                            if m < kept_before.len() {
                                assert(kept@[m] == kept_before[m]);
                            }
                        }
                    }
                }
                k = k + 1;
            }
            proof {
                assert forall|i: int| 0 <= i < 81 && self.cells()[i] == BLANK implies kept@.contains(i as usize) by {
                }
                lemma_refines_trans(*old(self), start, *self);
                assert forall|m: int| 0 <= m < kept@.len() implies old(blank_indicies)@.contains(#[trigger] kept@[m]) by {
                    let m2 = choose|m2: int| 0 <= m2 < k && #[trigger] list[m2] == kept@[m];
                    assert(list.contains(list[m2]));
                }
            }
            *blank_indicies = kept;
            if !changed {
                break;
            }
        }
    }

    /// Applies naked pairs until a pass changes nothing.
    fn solve_naked_pairs(&mut self)
        requires
            old(self).wf(),
        ensures
            refines(*old(self), *final(self)),
            final(self).cells() == old(self).cells(),
            no_open_pair(*final(self)),
    {
        proof {
            lemma_refines_refl(*self);
        }
        loop
            invariant
                refines(*old(self), *self),
                self.cells() == old(self).cells(),
            ensures
                no_open_pair(*self),
            decreases total_candidates(self.masks(), 81),
        {
            let ghost before = *self;
            let changed = self.naked_pairs_pass();
            proof {
                lemma_refines_trans(*old(self), before, *self);
            }
            if !changed {
                break;
            }
        }
    }

    /// For every chunk and every two blank cells in it whose candidate sets are equal and hold
    /// two digits, takes those digits out of the other cells of the chunk; says whether any
    /// candidate set changed.
    fn naked_pairs_pass(&mut self) -> (changed: bool)
        requires
            old(self).wf(),
        ensures
            refines(*old(self), *final(self)),
            final(self).cells() == old(self).cells(),
            changed ==> total_candidates(final(self).masks(), 81) < total_candidates(old(self).masks(), 81),
            !changed ==> *final(self) == *old(self) && no_open_pair(*final(self)),
    {
        let mut changed = false;
        let chunks = self.get_chunks();
        proof {
            lemma_refines_refl(*self);
        }
        let mut c: usize = 0;
        while c < 27
            invariant
                c <= 27,
                chunks@.len() == 27,
                forall|c2: int, k: int| 0 <= c2 < 27 && 0 <= k < 9 ==> #[trigger] chunks@[c2]@[k] == chunk_cell(c2, k),
                refines(*old(self), *self),
                self.cells() == old(self).cells(),
                total_candidates(self.masks(), 81) <= total_candidates(old(self).masks(), 81),
                changed ==> total_candidates(self.masks(), 81) < total_candidates(old(self).masks(), 81),
                !changed ==> *self == *old(self) && forall|c2: int, i: int, j: int| 0 <= c2 < c && 0 <= i < j < 9 ==> #[trigger] pair_done(*self, c2, i, j),
            decreases 27 - c,
        {
            let chunk = chunks[c];
            let mut i: usize = 0;
            while i < 9
                invariant
                    i <= 9,
                    c < 27,
                    forall|k: int| 0 <= k < 9 ==> #[trigger] chunk@[k] == chunk_cell(c as int, k),
                    refines(*old(self), *self),
                    self.cells() == old(self).cells(),
                    total_candidates(self.masks(), 81) <= total_candidates(old(self).masks(), 81),
                    changed ==> total_candidates(self.masks(), 81) < total_candidates(old(self).masks(), 81),
                    !changed ==> *self == *old(self) && (forall|c2: int, i2: int, j: int| 0 <= c2 < c && 0 <= i2 < j < 9 ==> #[trigger] pair_done(*self, c2, i2, j))
                        && forall|i2: int, j: int| 0 <= i2 < i && i2 < j < 9 ==> #[trigger] pair_done(*self, c as int, i2, j),
                decreases 9 - i,
            {
                proof {
                    lemma_chunk_cell(c as int, i as int);
                }
                let ci = chunk[i];
                if self.board[ci] == BLANK && self.possible_to_vec(self.possible[ci]).len() == 2 {
                    let mut j: usize = i + 1;
                    while j < 9
                        invariant
                            i < j <= 9,
                            c < 27,
                            ci == chunk_cell(c as int, i as int),
                            forall|k: int| 0 <= k < 9 ==> #[trigger] chunk@[k] == chunk_cell(c as int, k),
                            refines(*old(self), *self),
                            self.cells() == old(self).cells(),
                            total_candidates(self.masks(), 81) <= total_candidates(old(self).masks(), 81),
                            changed ==> total_candidates(self.masks(), 81) < total_candidates(old(self).masks(), 81),
                            !changed ==> *self == *old(self) && (forall|c2: int, i2: int, j2: int| 0 <= c2 < c && 0 <= i2 < j2 < 9 ==> #[trigger] pair_done(*self, c2, i2, j2))
                                && (forall|i2: int, j2: int| 0 <= i2 < i && i2 < j2 < 9 ==> #[trigger] pair_done(*self, c as int, i2, j2))
                                && forall|j2: int| i < j2 < j ==> #[trigger] pair_done(*self, c as int, i as int, j2),
                        decreases 9 - j,
                    {
                        proof {
                            lemma_chunk_cell(c as int, i as int);
                            lemma_chunk_cell(c as int, j as int);
                        }
                        let cj = chunk[j];
                        let pair = self.possible[ci];
                        if self.board[ci] == BLANK && self.board[cj] == BLANK && self.possible[cj] == pair
                            && self.possible_to_vec(pair).len() == 2 {
                            let mut k: usize = 0;
                            while k < 9
                                invariant
                                    i < j < 9,
                                    k <= 9,
                                    c < 27,
                                    ci == chunk_cell(c as int, i as int),
                                    cj == chunk_cell(c as int, j as int),
                                    forall|m: int| 0 <= m < 9 ==> #[trigger] chunk@[m] == chunk_cell(c as int, m),
                                    refines(*old(self), *self),
                                    self.cells() == old(self).cells(),
                                    self.cells()[ci as int] == BLANK,
                                    self.cells()[cj as int] == BLANK,
                                    self.masks()[ci as int] == pair,
                                    self.masks()[cj as int] == pair,
                                    card(pair) == 2,
                                    total_candidates(self.masks(), 81) <= total_candidates(old(self).masks(), 81),
                                    changed ==> total_candidates(self.masks(), 81) < total_candidates(old(self).masks(), 81),
                                    !changed ==> *self == *old(self) && (forall|c2: int, i2: int, j2: int| 0 <= c2 < c && 0 <= i2 < j2 < 9 ==> #[trigger] pair_done(*self, c2, i2, j2))
                                        && (forall|i2: int, j2: int| 0 <= i2 < i && i2 < j2 < 9 ==> #[trigger] pair_done(*self, c as int, i2, j2))
                                        && (forall|j2: int| i < j2 < j ==> #[trigger] pair_done(*self, c as int, i as int, j2))
                                        && forall|k2: int, e: int| 0 <= k2 < k && k2 != i && k2 != j && has_digit(pair, e) ==> !#[trigger] has_digit(self.masks()[chunk_cell(c as int, k2)], e),
                                decreases 9 - k,
                            {
                                if k != i && k != j {
                                    proof {
                                        lemma_chunk_cell(c as int, k as int);
                                        lemma_chunk_cell(c as int, i as int);
                                        lemma_chunk_cell(c as int, j as int);
                                    }
                                    let ck = chunk[k];
                                    let ghost before = *self;
                                    let old_mask = self.possible[ck];
                                    let v = without_digits(old_mask, pair);
                                    if v != old_mask {
                                        self.possible[ck] = v;
                                        proof {
                                            assert(self.masks() =~= before.masks().update(ck as int, v));
                                            lemma_naked_pair(before, *self, c as int, i as int, j as int, k as int, pair);
                                            lemma_refines_trans(*old(self), before, *self);
                                            if ck == ci {
                                                lemma_chunk_cell_injective(c as int, i as int, k as int);
                                            }
                                            if ck == cj {
                                                lemma_chunk_cell_injective(c as int, j as int, k as int);
                                            }
                                            if forall|e: int| 1 <= e <= 9 ==> has_digit(old_mask, e) == has_digit(v, e) {
                                                lemma_has_ext(old_mask, v);
                                            }
                                            lemma_card_subset(old_mask, v, 9);
                                            lemma_total_update(before.masks(), ck as int, v, 81);
                                        }
                                        changed = true;
                                    }
                                }
                                k = k + 1;
                            }
                        }
                        j = j + 1;
                    }
                }
                i = i + 1;
            }
            c = c + 1;
        }
        changed
    }

    /// Solves the puzzle on a copy of the board: returns a solved board that keeps every placed
    /// digit, or `None` when no such board exists.
    pub fn solve(&self) -> (r: Option<Sudoku>)
        requires
            self.wf(),
        ensures
            r is Some ==> solution_of(self.cells(), r->Some_0.cells()) && r->Some_0.wf(),
            r is None ==> forall|s: Seq<char>| !#[trigger] solution_of(self.cells(), s),
        decreases blanks(self.cells()),
    {
        let mut sudoku_guess = *self;
        sudoku_guess.solve_naked_pairs();
        let mut guess_indices: Vec<usize> = Vec::new();
        let mut i: usize = 0;
        while i < N_CELLS
            invariant
                i <= 81,
                sudoku_guess.wf(),
                forall|k: int| 0 <= k < guess_indices@.len() ==> #[trigger] guess_indices@[k] < i
                    && sudoku_guess.cells()[guess_indices@[k] as int] == BLANK,
                forall|j: int| 0 <= j < i && sudoku_guess.cells()[j] == BLANK ==> guess_indices@.contains(j as usize),
                forall|k1: int, k2: int| 0 <= k1 < k2 < guess_indices@.len() ==> #[trigger] guess_indices@[k1]
                    < #[trigger] guess_indices@[k2],
            decreases 81 - i,
        {
            if sudoku_guess.board[i] == BLANK {
                let ghost prev = guess_indices@;
                guess_indices.push(i);
                proof {
                    assert forall|j: int| 0 <= j < i + 1 && sudoku_guess.cells()[j] == BLANK implies guess_indices@.contains(j as usize) by {
                        if j == i {
                            assert(guess_indices@[prev.len() as int] == j as usize);
                        } else {
                            let k = choose|k: int| 0 <= k < prev.len() && prev[k] == j as usize;
                            assert(guess_indices@[k] == j as usize);
                        }
                    }
                }
            }
            i = i + 1;
        }
        let ghost paired = sudoku_guess;
        sudoku_guess.solve_naked_singles(&mut guess_indices);
        proof {
            lemma_refines_trans(*self, paired, sudoku_guess);
        }
        let ghost singled = sudoku_guess;
        sudoku_guess.solve_hidden_singles(&mut guess_indices);
        proof {
            lemma_refines_trans(*self, singled, sudoku_guess);
            lemma_refines_blanks(*self, sudoku_guess);
        }
        let mut guess_choices: usize = 10;
        let mut guess_index: usize = N_CELLS + 1;
        let mut m: usize = 0;
        while m < guess_indices.len()
            invariant
                m <= guess_indices@.len(),
                blank_list(sudoku_guess.cells(), guess_indices@),
                guess_index == 82 || (guess_index < 81 && sudoku_guess.cells()[guess_index as int] == BLANK),
                m > 0 ==> guess_index != 82,
                guess_choices <= 10,
                guess_index == 82 ==> guess_choices == 10,
            decreases guess_indices@.len() - m,
        {
            let x = guess_indices[m];
            let temp_choices = sudoku_guess.possible_to_vec(sudoku_guess.possible[x]).len();
            proof {
                lemma_digit_list(sudoku_guess.possible[x as int], 9);
            }
            if temp_choices < guess_choices {
                guess_index = x;
                guess_choices = temp_choices;
            }
            m = m + 1;
        }
        if guess_index == N_CELLS + 1 {
            proof {
                assert forall|j: int| 0 <= j < 81 implies #[trigger] sudoku_guess.cells()[j] != BLANK by {
                    if sudoku_guess.cells()[j] == BLANK {
                        assert(guess_indices@.contains(j as usize));
                    }
                }
            }
            if sudoku_guess.is_solved() {
                proof {
                    lemma_extends_trans(self.cells(), sudoku_guess.cells());
                }
                Some(sudoku_guess)
            } else {
                proof {
                    assert forall|s: Seq<char>| !#[trigger] solution_of(self.cells(), s) by {
                        if solution_of(self.cells(), s) {
                            assert(solution_of(sudoku_guess.cells(), s));
                            assert(s =~= sudoku_guess.cells());
                        }
                    }
                }
                None
            }
        } else {
            let index = guess_index;
            let ghost g = sudoku_guess;
            let all_guesses = sudoku_guess.possible_to_vec(sudoku_guess.possible[index]);
            let mut guesses = all_guesses.clone();
            proof {
                lemma_digit_list(g.masks()[index as int], 9);
                assert(guesses@ =~= all_guesses@.take(guesses@.len() as int));
            }
            while guesses.len() > 0
                invariant
                    g == sudoku_guess,
                    g.wf(),
                    refines(*self, g),
                    index < 81,
                    g.cells()[index as int] == BLANK,
                    blanks(g.cells()) <= blanks(self.cells()),
                    all_guesses@ == digits_of(g.masks()[index as int]),
                    guesses@.len() <= all_guesses@.len(),
                    guesses@ == all_guesses@.take(guesses@.len() as int),
                    forall|s: Seq<char>| #[trigger] solution_of(g.cells(), s) ==> guesses@.contains(char_digit(s[index as int]) as u32),
                decreases guesses@.len(),
            {
                let ghost rest = guesses@;
                let guess = guesses.pop().unwrap();
                proof {
                    lemma_digit_list(g.masks()[index as int], 9);
                    assert(all_guesses@[rest.len() - 1] == guess);
                    assert(all_guesses@.contains(guess));
                    assert(guesses@ =~= all_guesses@.take(guesses@.len() as int));
                }
                let mut sud_temp = sudoku_guess;
                sud_temp.fill_blank_cell(index, guess);
                proof {
                    lemma_place(g.cells(), g.masks(), sud_temp.masks(), index as int, guess as int);
                    lemma_digit_char(guess as int);
                    lemma_blanks_fill(g.cells(), index as int, digit_char(guess as int), 81);
                }
                let sudoku_sol = sud_temp.solve();
                match sudoku_sol {
                    Some(sol) => {
                        proof {
                            assert(solution_of(g.cells(), sol.cells()));
                            lemma_extends_trans(self.cells(), g.cells());
                        }
                        return Some(sol);
                    },
                    None => {
                        proof {
                            assert forall|s: Seq<char>| #[trigger] solution_of(g.cells(), s) implies guesses@.contains(char_digit(s[index as int]) as u32) by {
                                assert(rest.contains(char_digit(s[index as int]) as u32));
                                let k = choose|k: int| 0 <= k < rest.len() && rest[k] == char_digit(s[index as int]) as u32;
                                lemma_char_digit(s[index as int]);
                                if k == rest.len() - 1 {
                                    assert(!solution_of(sud_temp.cells(), s));
                                    assert(s[index as int] == digit_char(guess as int));
                                }
                                assert(guesses@[k] == rest[k]);
                            }
                        }
                    },
                }
            }
            proof {
                assert forall|s: Seq<char>| !#[trigger] solution_of(self.cells(), s) by {
                    if solution_of(self.cells(), s) {
                        assert(solution_of(g.cells(), s));
                        assert(guesses@.contains(char_digit(s[index as int]) as u32));
                    }
                }
            }
            None
        }
    }
}

} // verus!
